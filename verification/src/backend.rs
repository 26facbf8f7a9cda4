pub mod string_ir;
