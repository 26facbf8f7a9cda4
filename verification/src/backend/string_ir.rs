pub mod types;
pub mod value;
pub mod builder;
pub mod codegen;
