use vstd::prelude::*;
use crate::symbol::Symbol;
use crate::text::{push_str, push_u64, push_i64, push_char, dec, dec_int, to_string};

verus! {

/// An operand of an IR instruction. A floating-point constant is held by
/// the bits of its IEEE-754 double.
#[derive(Debug)]
pub enum Value {
    Const(i64),
    FConst(u64),
    Temp(u32),
    Global(Symbol),
    Named(String),
    Void,
}

/// The upper-case hexadecimal digit of `d` (0 to 15).
pub open spec fn hex_char(d: int) -> char {
    if d < 10 {
        (48 + d) as char
    } else {
        (55 + d) as char
    }
}

/// The last `k` hexadecimal digits of `n`, most significant first.
pub open spec fn hex_digits(n: nat, k: nat) -> Seq<char>
    decreases k,
{
    if k == 0 {
        Seq::empty()
    } else {
        hex_digits(n / 16, (k - 1) as nat).push(hex_char((n % 16) as int))
    }
}

/// How an operand is written in LLVM IR.
pub open spec fn value_text(v: Value) -> Seq<char> {
    match v {
        Value::Const(n) => dec_int(n as int),
        Value::FConst(bits) => "0x"@ + hex_digits(bits as nat, 16),
        Value::Temp(id) => "%t"@ + dec(id as nat),
        Value::Global(s) => "@g"@ + dec(s.0 as nat),
        Value::Named(s) => s@,
        Value::Void => "void"@,
    }
}

/// Appends the last `k` hexadecimal digits of `n`.
pub(crate) fn push_hex(out: &mut String, n: u64, k: u32)
    ensures
        final(out)@ == old(out)@ + hex_digits(n as nat, k as nat),
    decreases k,
{
    if k == 0 {
        assert(old(out)@ =~= old(out)@ + hex_digits(n as nat, 0));
        return;
    }
    push_hex(out, n / 16, k - 1);
    let d: u8 = (n % 16) as u8;
    let c: char = if d < 10 {
        (48u8 + d) as char
    } else {
        (55u8 + d) as char
    };
    push_char(out, c);
    assert(final(out)@ =~= old(out)@ + hex_digits(n as nat, k as nat));
}

impl Value {
    pub fn to_ir_str(&self) -> (r: String)
        ensures
            r@ == value_text(*self),
    {
        let mut s = String::new();
        self.write_ir(&mut s);
        assert(s@ =~= value_text(*self));
        s
    }

    /// Appends the IR text of the operand to `out`.
    pub fn write_ir(&self, out: &mut String)
        ensures
            final(out)@ == old(out)@ + value_text(*self),
    {
        match self {
            Value::Const(n) => push_i64(out, *n),
            Value::FConst(bits) => {
                push_str(out, "0x");
                push_hex(out, *bits, 16);
                assert(final(out)@ =~= old(out)@ + value_text(*self));
            },
            Value::Temp(id) => {
                push_str(out, "%t");
                push_u64(out, *id as u64);
                assert(final(out)@ =~= old(out)@ + value_text(*self));
            },
            Value::Global(s) => {
                push_str(out, "@g");
                push_u64(out, s.0 as u64);
                assert(final(out)@ =~= old(out)@ + value_text(*self));
            },
            Value::Named(s) => push_str(out, s.as_str()),
            Value::Void => push_str(out, "void"),
        }
    }

    /// A copy of the operand.
    pub fn dup(&self) -> (r: Value)
        ensures
            value_text(r) == value_text(*self),
            r is Temp <==> self is Temp,
            r is Const ==> r == *self,
            r is Temp ==> r == *self,
    {
        match self {
            Value::Const(n) => Value::Const(*n),
            Value::FConst(b) => Value::FConst(*b),
            Value::Temp(id) => Value::Temp(*id),
            Value::Global(s) => Value::Global(*s),
            Value::Named(s) => Value::Named(to_string(s.as_str())),
            Value::Void => Value::Void,
        }
    }
}

} // verus!
