use vstd::prelude::*;
use crate::symbol::Symbol;
use crate::text::{push_str, push_u64, dec};

verus! {

/// The LLVM types that the generated IR uses.
#[derive(Debug, PartialEq, Eq)]
pub enum LlvmType {
    I1,
    I32,
    I64,
    Ptr,
    Void,
    Array(Box<LlvmType>, usize),
    Struct(Symbol),
    Enum(Symbol),
}

/// How a type is written in LLVM IR.
pub open spec fn llvm_text(t: LlvmType) -> Seq<char>
    decreases t,
{
    match t {
        LlvmType::I1 => "i1"@,
        LlvmType::I32 => "i32"@,
        LlvmType::I64 => "i64"@,
        LlvmType::Ptr => "ptr"@,
        LlvmType::Void => "void"@,
        LlvmType::Array(e, n) => "["@ + dec(n as nat) + " x "@ + llvm_text(*e) + "]"@,
        LlvmType::Struct(s) => "%struct."@ + dec(s.0 as nat),
        LlvmType::Enum(e) => "%enum."@ + dec(e.0 as nat),
    }
}

impl LlvmType {
    pub fn to_ir_str(&self) -> (r: String)
        ensures
            r@ == llvm_text(*self),
    {
        let mut s = String::new();
        self.write_ir(&mut s);
        assert(s@ =~= llvm_text(*self));
        s
    }

    /// Appends the IR text of the type to `out`.
    pub fn write_ir(&self, out: &mut String)
        ensures
            final(out)@ == old(out)@ + llvm_text(*self),
        decreases self,
    {
        match self {
            LlvmType::I1 => push_str(out, "i1"),
            LlvmType::I32 => push_str(out, "i32"),
            LlvmType::I64 => push_str(out, "i64"),
            LlvmType::Ptr => push_str(out, "ptr"),
            LlvmType::Void => push_str(out, "void"),
            LlvmType::Array(e, n) => {
                push_str(out, "[");
                push_u64(out, *n as u64);
                push_str(out, " x ");
                (**e).write_ir(out);
                push_str(out, "]");
                assert(final(out)@ =~= old(out)@ + llvm_text(*self));
            },
            LlvmType::Struct(s) => {
                push_str(out, "%struct.");
                push_u64(out, s.0 as u64);
                assert(final(out)@ =~= old(out)@ + llvm_text(*self));
            },
            LlvmType::Enum(e) => {
                push_str(out, "%enum.");
                push_u64(out, e.0 as u64);
                assert(final(out)@ =~= old(out)@ + llvm_text(*self));
            },
        }
    }

    /// A copy of the type.
    pub fn dup(&self) -> (r: LlvmType)
        ensures
            r == *self,
        decreases self,
    {
        match self {
            LlvmType::I1 => LlvmType::I1,
            LlvmType::I32 => LlvmType::I32,
            LlvmType::I64 => LlvmType::I64,
            LlvmType::Ptr => LlvmType::Ptr,
            LlvmType::Void => LlvmType::Void,
            LlvmType::Array(e, n) => LlvmType::Array(Box::new((**e).dup()), *n),
            LlvmType::Struct(s) => LlvmType::Struct(*s),
            LlvmType::Enum(e) => LlvmType::Enum(*e),
        }
    }
}

} // verus!
