use vstd::prelude::*;
use vstd::string::StringSliceAdditionalSpecFns;
use super::types::{LlvmType, llvm_text};
use super::value::{Value, value_text, hex_digits, hex_char};
use crate::symbol::{Interner, Symbol};
use crate::text::{push_str, push_u64, push_i64, push_char, dec, dec_int, to_string};

verus! {

/// Accumulates the text of an LLVM IR module: global declarations, and the
/// body of the functions emitted so far.
pub struct IrBuilder<'i> {
    pub output: String,
    pub globals: String,
    next_temp: u32,
    next_block: u32,
    next_global: u32,
    interner: &'i Interner,
    terminated: bool,
    entry_allocas: String,
    fn_entry_pos: usize,
    /// A prefix of the output that is settled: later steps only add after it.
    settled: Ghost<Seq<char>>,
}

/// The text of the temporary numbered `n`.
pub open spec fn tmp(n: u32) -> Seq<char> {
    "%t"@ + dec(n as nat)
}

/// The text of a label, then a colon.
pub open spec fn label_line(label: Seq<char>) -> Seq<char> {
    label + ":\n"@
}

/// A conditional branch, unless the block already ended.
pub open spec fn cond_br_text(term: bool, c: Seq<char>, t: Seq<char>, e: Seq<char>) -> Seq<char> {
    if term {
        Seq::empty()
    } else {
        "  br i1 "@ + c + ", label %"@ + t + ", label %"@ + e + "\n"@
    }
}

/// `ty %name` pairs of a parameter list, separated by `, `.
pub open spec fn params_text(ps: Seq<(Symbol, LlvmType)>, names: Seq<Seq<char>>) -> Seq<char>
    decreases ps.len(),
{
    if ps.len() == 0 {
        Seq::empty()
    } else if ps.len() == 1 {
        llvm_text(ps[0].1) + " %"@ + names[ps[0].0.0 as int]
    } else {
        params_text(ps.drop_last(), names) + ", "@ + llvm_text(ps.last().1) + " %"@ + names[ps.last().0.0 as int]
    }
}

/// Types separated by `, `.
pub open spec fn types_text(ts: Seq<LlvmType>) -> Seq<char>
    decreases ts.len(),
{
    if ts.len() == 0 {
        Seq::empty()
    } else if ts.len() == 1 {
        llvm_text(ts[0])
    } else {
        types_text(ts.drop_last()) + ", "@ + llvm_text(ts.last())
    }
}

/// `ty value` pairs of an argument list, separated by `, `.
pub open spec fn args_text(args: Seq<(LlvmType, Value)>) -> Seq<char>
    decreases args.len(),
{
    if args.len() == 0 {
        Seq::empty()
    } else if args.len() == 1 {
        llvm_text(args[0].0) + " "@ + value_text(args[0].1)
    } else {
        args_text(args.drop_last()) + ", "@ + llvm_text(args.last().0) + " "@ + value_text(args.last().1)
    }
}

/// A string constant's bytes as written inside `c"..."`: quotes, backslashes
/// and bytes outside printable ASCII as `\XX`.
pub open spec fn escaped(bytes: Seq<u8>) -> Seq<char>
    decreases bytes.len(),
{
    if bytes.len() == 0 {
        Seq::empty()
    } else {
        let b = bytes.last();
        escaped(bytes.drop_last()) + if b == 92 || b == 34 || b < 32 || b >= 127 {
            seq!['\\'] + hex_digits(b as nat, 2)
        } else {
            seq![b as char]
        }
    }
}

/// `b` begins with `a`.
pub open spec fn extends(a: Seq<char>, b: Seq<char>) -> bool {
    a.len() <= b.len() && forall|i: int| 0 <= i < a.len() ==> b[i] == a[i]
}

impl<'i> IrBuilder<'i> {
    pub closed spec fn out(&self) -> Seq<char> {
        self.output@
    }

    pub closed spec fn glob(&self) -> Seq<char> {
        self.globals@
    }

    pub closed spec fn temps(&self) -> u32 {
        self.next_temp
    }

    pub closed spec fn blocks(&self) -> u32 {
        self.next_block
    }

    pub closed spec fn nglobals(&self) -> u32 {
        self.next_global
    }

    pub closed spec fn term(&self) -> bool {
        self.terminated
    }

    pub closed spec fn allocas(&self) -> Seq<char> {
        self.entry_allocas@
    }

    pub closed spec fn entry_pos(&self) -> int {
        self.fn_entry_pos as int
    }

    pub closed spec fn names(&self) -> Seq<Seq<char>> {
        self.interner@
    }

    /// The settled prefix of the output.
    pub closed spec fn settled(&self) -> Seq<char> {
        self.settled@
    }

    /// The output still begins with its settled prefix.
    pub closed spec fn sound(&self) -> bool {
        extends(self.settled@, self.output@)
    }

    /// Everything but the output text and the given counters is unchanged.
    pub open spec fn keeps(&self, old: &IrBuilder<'i>) -> bool {
        &&& self.glob() == old.glob()
        &&& self.nglobals() == old.nglobals()
        &&& self.allocas() == old.allocas()
        &&& self.entry_pos() == old.entry_pos()
        &&& self.names() == old.names()
    }

    /// An instruction line was appended that defines the next temporary.
    pub open spec fn defines(&self, old: &IrBuilder<'i>, r: Value, text: Seq<char>) -> bool {
        &&& r == Value::Temp(old.temps())
        &&& self.temps() == old.temps() + 1
        &&& self.out() == old.out() + "  "@ + tmp(old.temps()) + text
        &&& self.blocks() == old.blocks()
        &&& self.term() == old.term()
        &&& self.keeps(old)
    }

    /// A line was appended to the output, and nothing else changed.
    pub open spec fn appends(&self, old: &IrBuilder<'i>, text: Seq<char>) -> bool {
        &&& self.out() == old.out() + text
        &&& self.temps() == old.temps()
        &&& self.blocks() == old.blocks()
        &&& self.term() == old.term()
        &&& self.keeps(old)
    }

    pub fn new(interner: &'i Interner) -> (r: Self)
        ensures
            r.out() == Seq::<char>::empty(),
            r.glob() == Seq::<char>::empty(),
            r.temps() == 0,
            r.blocks() == 0,
            r.nglobals() == 0,
            !r.term(),
            r.allocas() == Seq::<char>::empty(),
            r.entry_pos() == 0,
            r.names() == interner@,
            r.settled() == Seq::<char>::empty(),
            r.sound(),
    {
        IrBuilder {
            output: String::new(),
            globals: String::new(),
            next_temp: 0,
            next_block: 0,
            next_global: 0,
            interner,
            terminated: false,
            entry_allocas: String::new(),
            fn_entry_pos: 0,
            settled: Ghost(Seq::empty()),
        }
    }

    fn fresh_temp(&mut self) -> (r: Value)
        requires
            old(self).temps() < u32::MAX,
        ensures
            final(self).settled() == old(self).settled(),
            old(self).sound() ==> final(self).sound(),
            r == Value::Temp(old(self).temps()),
            final(self).temps() == old(self).temps() + 1,
            final(self).out() == old(self).out(),
            final(self).blocks() == old(self).blocks(),
            final(self).term() == old(self).term(),
            final(self).keeps(old(self)),
    {
        let id = self.next_temp;
        self.next_temp = self.next_temp + 1;
        Value::Temp(id)
    }

    /// A sound builder's output begins with its settled prefix.
    pub proof fn lemma_sound(&self)
        requires
            self.sound(),
        ensures
            extends(self.settled(), self.out()),
    {
    }

    /// Marks everything written so far as settled.
    pub fn settle(&mut self)
        ensures
            final(self).settled() == old(self).out(),
            final(self).out() == old(self).out(),
            final(self).temps() == old(self).temps(),
            final(self).blocks() == old(self).blocks(),
            final(self).term() == old(self).term(),
            final(self).keeps(old(self)),
            final(self).sound(),
            old(self).sound() ==> extends(old(self).settled(), final(self).settled()),
    {
        self.settled = Ghost(self.output@);
    }

    /// A label name not used before: `prefix` and a number.
    pub fn fresh_block(&mut self, prefix: &str) -> (r: String)
        requires
            old(self).blocks() < u32::MAX,
        ensures
            final(self).settled() == old(self).settled(),
            old(self).sound() ==> final(self).sound(),
            r@ == prefix@ + dec(old(self).blocks() as nat),
            final(self).blocks() == old(self).blocks() + 1,
            final(self).out() == old(self).out(),
            final(self).temps() == old(self).temps(),
            final(self).term() == old(self).term(),
            final(self).keeps(old(self)),
    {
        let id = self.next_block;
        self.next_block = self.next_block + 1;
        let mut s = to_string(prefix);
        push_u64(&mut s, id as u64);
        s
    }

    /// The text of a symbol.
    pub fn resolve(&self, sym: Symbol) -> (r: &str)
        requires
            (sym.0 as int) < self.names().len(),
        ensures
            r@ == self.names()[sym.0 as int],
    {
        self.interner.resolve(sym)
    }

    /// Starts a basic block.
    pub fn emit_label(&mut self, label: &str)
        ensures
            final(self).settled() == old(self).settled(),
            old(self).sound() ==> final(self).sound(),
            final(self).out() == old(self).out() + label_line(label@),
            !final(self).term(),
            final(self).temps() == old(self).temps(),
            final(self).blocks() == old(self).blocks(),
            final(self).keeps(old(self)),
    {
        push_str(&mut self.output, label);
        push_str(&mut self.output, ":\n");
        self.terminated = false;
        assert(self.out() =~= old(self).out() + label_line(label@));
    }

    /// Opens the definition of function `name`.
    pub fn emit_function_begin(&mut self, name: Symbol, params: &[(Symbol, LlvmType)], ret_ty: &LlvmType)
        requires
            (name.0 as int) < old(self).names().len(),
            forall|i: int| 0 <= i < params@.len() ==> ((#[trigger] params@[i]).0.0 as int) < old(self).names().len(),
        ensures
            final(self).settled() == old(self).settled(),
            old(self).sound() ==> final(self).sound(),
            final(self).appends(
                old(self),
                "define "@ + llvm_text(*ret_ty) + " @"@ + old(self).names()[name.0 as int] + "("@ + params_text(
                    params@,
                    old(self).names(),
                ) + ") {\n"@,
            ),
    {
        let name_str = self.interner.resolve(name);
        let mut line = String::new();
        push_str(&mut line, "define ");
        ret_ty.write_ir(&mut line);
        push_str(&mut line, " @");
        push_str(&mut line, name_str);
        push_str(&mut line, "(");
        let ghost base = line@;
        let mut i: usize = 0;
        while i < params.len()
            invariant
                i <= params@.len(),
                forall|j: int| 0 <= j < params@.len() ==> ((#[trigger] params@[j]).0.0 as int) < self.names().len(),
                line@ == base + params_text(params@.take(i as int), self.names()),
            decreases params@.len() - i,
        {
            if i > 0 {
                push_str(&mut line, ", ");
            }
            params[i].1.write_ir(&mut line);
            push_str(&mut line, " %");
            push_str(&mut line, self.interner.resolve(params[i].0));
            proof {
                let pre = params@.take(i as int);
                let next = params@.take(i + 1);
                assert(next.drop_last() =~= pre);
                assert(next.last() == params@[i as int]);
                if i == 0 {
                    assert(next[0] == params@[0]);
                }
                assert(line@ =~= base + params_text(next, self.names()));
            }
            i = i + 1;
        }
        assert(params@.take(params@.len() as int) =~= params@);
        push_str(&mut line, ") {\n");
        push_str(&mut self.output, line.as_str());
        assert(self.out() =~= old(self).out() + ("define "@ + llvm_text(*ret_ty) + " @"@ + old(self).names()[name.0 as int]
            + "("@ + params_text(params@, old(self).names()) + ") {\n"@));
    }

    /// Closes the current function: the allocas collected for its entry
    /// block are put at the start of that block.
    pub fn emit_function_end(&mut self)
        ensures
            final(self).settled() == old(self).settled(),
            old(self).sound() && old(self).settled().len() <= old(self).entry_pos() ==> final(self).sound(),
            final(self).out() == (if old(self).allocas().len() == 0 || old(self).entry_pos() > old(self).out().len() {
                old(self).out()
            } else {
                old(self).out().take(old(self).entry_pos()) + old(self).allocas() + old(self).out().skip(
                    old(self).entry_pos(),
                )
            }) + "}\n\n"@,
            final(self).allocas() == (if old(self).allocas().len() == 0 || old(self).entry_pos() > old(self).out().len() {
                old(self).allocas()
            } else {
                Seq::<char>::empty()
            }),
            final(self).glob() == old(self).glob(),
            final(self).temps() == old(self).temps(),
            final(self).blocks() == old(self).blocks(),
            final(self).nglobals() == old(self).nglobals(),
            final(self).term() == old(self).term(),
            final(self).entry_pos() == old(self).entry_pos(),
            final(self).names() == old(self).names(),
    {
        let allocas = crate::text::chars_of(self.entry_allocas.as_str());
        if allocas.len() > 0 {
            let chars = crate::text::chars_of(self.output.as_str());
            let pos = self.fn_entry_pos;
            if pos <= chars.len() {
                let mut s = String::new();
                let mut i: usize = 0;
                while i < pos
                    invariant
                        pos <= chars@.len(),
                        i <= pos,
                        s@ == chars@.take(i as int),
                    decreases pos - i,
                {
                    push_char(&mut s, chars[i]);
                    i = i + 1;
                    assert(s@ =~= chars@.take(i as int));
                }
                push_str(&mut s, self.entry_allocas.as_str());
                let ghost mid = s@;
                let mut j: usize = pos;
                while j < chars.len()
                    invariant
                        pos <= j <= chars@.len(),
                        s@ == mid + chars@.subrange(pos as int, j as int),
                    decreases chars@.len() - j,
                {
                    push_char(&mut s, chars[j]);
                    j = j + 1;
                    assert(s@ =~= mid + chars@.subrange(pos as int, j as int));
                }
                assert(chars@.subrange(pos as int, chars@.len() as int) =~= chars@.skip(pos as int));
                self.output = s;
                self.entry_allocas = String::new();
            }
        }
        push_str(&mut self.output, "}\n\n");
    }

    /// Starts the entry block of a function; allocas go at its start.
    pub fn emit_entry(&mut self)
        ensures
            final(self).settled() == old(self).settled(),
            old(self).sound() ==> final(self).sound(),
            final(self).out() == old(self).out() + label_line("entry"@),
            final(self).entry_pos() == final(self).out().len(),
            final(self).allocas() == Seq::<char>::empty(),
            !final(self).term(),
            final(self).glob() == old(self).glob(),
            final(self).temps() == old(self).temps(),
            final(self).blocks() == old(self).blocks(),
            final(self).nglobals() == old(self).nglobals(),
            final(self).names() == old(self).names(),
    {
        self.emit_label("entry");
        let n = crate::text::chars_of(self.output.as_str()).len();
        self.fn_entry_pos = n;
        self.entry_allocas = String::new();
    }

    /// Declares the layout of struct `name`.
    pub fn emit_struct_type(&mut self, name: Symbol, fields: &[LlvmType])
        ensures
            final(self).settled() == old(self).settled(),
            old(self).sound() ==> final(self).sound(),
            final(self).glob() == old(self).glob() + "%struct."@ + dec(name.0 as nat) + " = type { "@
                + types_text(fields@) + " }\n"@,
            final(self).out() == old(self).out(),
            final(self).temps() == old(self).temps(),
            final(self).blocks() == old(self).blocks(),
            final(self).nglobals() == old(self).nglobals(),
            final(self).term() == old(self).term(),
            final(self).allocas() == old(self).allocas(),
            final(self).entry_pos() == old(self).entry_pos(),
            final(self).names() == old(self).names(),
    {
        let mut line = String::new();
        push_str(&mut line, "%struct.");
        push_u64(&mut line, name.0 as u64);
        push_str(&mut line, " = type { ");
        write_types(&mut line, fields);
        push_str(&mut line, " }\n");
        push_str(&mut self.globals, line.as_str());
        assert(self.glob() =~= old(self).glob() + "%struct."@ + dec(name.0 as nat) + " = type { "@
            + types_text(fields@) + " }\n"@);
    }

    /// Declares the layout of an enum instantiation: a tag and a payload of
    /// `payload_slots` 64-bit words.
    pub fn emit_enum_type(&mut self, name: &str, payload_slots: usize)
        ensures
            final(self).settled() == old(self).settled(),
            old(self).sound() ==> final(self).sound(),
            final(self).glob() == old(self).glob() + "%enum."@ + name@ + " = type { i32, ["@ + dec(
                payload_slots as nat,
            ) + " x i64] }\n"@,
            final(self).out() == old(self).out(),
            final(self).temps() == old(self).temps(),
            final(self).blocks() == old(self).blocks(),
            final(self).nglobals() == old(self).nglobals(),
            final(self).term() == old(self).term(),
            final(self).allocas() == old(self).allocas(),
            final(self).entry_pos() == old(self).entry_pos(),
            final(self).names() == old(self).names(),
    {
        let mut line = String::new();
        push_str(&mut line, "%enum.");
        push_str(&mut line, name);
        push_str(&mut line, " = type { i32, [");
        push_u64(&mut line, payload_slots as u64);
        push_str(&mut line, " x i64] }\n");
        push_str(&mut self.globals, line.as_str());
        assert(self.glob() =~= old(self).glob() + "%enum."@ + name@ + " = type { i32, ["@ + dec(
            payload_slots as nat,
        ) + " x i64] }\n"@);
    }

    /// Declares the layout of the payload of one variant.
    pub fn emit_variant_type(&mut self, enum_inst: &str, variant: Symbol, fields: &[LlvmType])
        ensures
            final(self).settled() == old(self).settled(),
            old(self).sound() ==> final(self).sound(),
            final(self).glob() == old(self).glob() + "%variant."@ + enum_inst@ + "."@ + dec(variant.0 as nat)
                + " = type { "@ + types_text(fields@) + " }\n"@,
            final(self).out() == old(self).out(),
            final(self).temps() == old(self).temps(),
            final(self).blocks() == old(self).blocks(),
            final(self).nglobals() == old(self).nglobals(),
            final(self).term() == old(self).term(),
            final(self).allocas() == old(self).allocas(),
            final(self).entry_pos() == old(self).entry_pos(),
            final(self).names() == old(self).names(),
    {
        let mut line = String::new();
        push_str(&mut line, "%variant.");
        push_str(&mut line, enum_inst);
        push_str(&mut line, ".");
        push_u64(&mut line, variant.0 as u64);
        push_str(&mut line, " = type { ");
        write_types(&mut line, fields);
        push_str(&mut line, " }\n");
        push_str(&mut self.globals, line.as_str());
        assert(self.glob() =~= old(self).glob() + "%variant."@ + enum_inst@ + "."@ + dec(variant.0 as nat)
            + " = type { "@ + types_text(fields@) + " }\n"@);
    }
}

/// Appends the types, separated by `, `.
fn write_types(out: &mut String, ts: &[LlvmType])
    ensures
        final(out)@ == old(out)@ + types_text(ts@),
{
    let ghost base = out@;
    let mut i: usize = 0;
    while i < ts.len()
        invariant
            i <= ts@.len(),
            out@ == base + types_text(ts@.take(i as int)),
        decreases ts@.len() - i,
    {
        if i > 0 {
            push_str(out, ", ");
        }
        ts[i].write_ir(out);
        proof {
            let pre = ts@.take(i as int);
            let next = ts@.take(i + 1);
            assert(next.drop_last() =~= pre);
            assert(next.last() == ts@[i as int]);
            if i == 0 {
                assert(next[0] == ts@[0]);
            }
            assert(out@ =~= base + types_text(next));
        }
        i = i + 1;
    }
    assert(ts@.take(ts@.len() as int) =~= ts@);
}

impl<'i> IrBuilder<'i> {
    /// `  %tN = getelementptr %enum.<inst>, ptr <ptr>, i32 0, i32 0`: the tag's address.
    pub fn build_gep_enum_tag(&mut self, enum_inst: &str, ptr: Value) -> (r: Value)
        requires
            old(self).temps() < u32::MAX,
        ensures
            final(self).settled() == old(self).settled(),
            old(self).sound() ==> final(self).sound(),
            final(self).defines(
                old(self),
                r,
                " = getelementptr %enum."@ + enum_inst@ + ", ptr "@ + value_text(ptr) + ", i32 0, i32 0\n"@,
            ),
    {
        let r = self.fresh_temp();
        push_str(&mut self.output, "  ");
        r.write_ir(&mut self.output);
        push_str(&mut self.output, " = getelementptr %enum.");
        push_str(&mut self.output, enum_inst);
        push_str(&mut self.output, ", ptr ");
        ptr.write_ir(&mut self.output);
        push_str(&mut self.output, ", i32 0, i32 0\n");
        assert(self.out() =~= old(self).out() + "  "@ + tmp(old(self).temps()) + (" = getelementptr %enum."@
            + enum_inst@ + ", ptr "@ + value_text(ptr) + ", i32 0, i32 0\n"@));
        r
    }

    /// The payload's address.
    pub fn build_gep_enum_payload(&mut self, enum_inst: &str, ptr: Value) -> (r: Value)
        requires
            old(self).temps() < u32::MAX,
        ensures
            final(self).settled() == old(self).settled(),
            old(self).sound() ==> final(self).sound(),
            final(self).defines(
                old(self),
                r,
                " = getelementptr %enum."@ + enum_inst@ + ", ptr "@ + value_text(ptr) + ", i32 0, i32 1\n"@,
            ),
    {
        let r = self.fresh_temp();
        push_str(&mut self.output, "  ");
        r.write_ir(&mut self.output);
        push_str(&mut self.output, " = getelementptr %enum.");
        push_str(&mut self.output, enum_inst);
        push_str(&mut self.output, ", ptr ");
        ptr.write_ir(&mut self.output);
        push_str(&mut self.output, ", i32 0, i32 1\n");
        assert(self.out() =~= old(self).out() + "  "@ + tmp(old(self).temps()) + (" = getelementptr %enum."@
            + enum_inst@ + ", ptr "@ + value_text(ptr) + ", i32 0, i32 1\n"@));
        r
    }

    /// The address of field `idx` of a variant's payload.
    #[verifier::rlimit(40)]
    pub fn build_gep_variant_field(&mut self, enum_inst: &str, variant: Symbol, payload_ptr: Value, idx: u32) -> (r: Value)
        requires
            old(self).temps() < u32::MAX,
        ensures
            final(self).settled() == old(self).settled(),
            old(self).sound() ==> final(self).sound(),
            final(self).defines(
                old(self),
                r,
                " = getelementptr %variant."@ + enum_inst@ + "."@ + dec(variant.0 as nat) + ", ptr "@
                    + value_text(payload_ptr) + ", i32 0, i32 "@ + dec(idx as nat) + "\n"@,
            ),
    {
        let r = self.fresh_temp();
        push_str(&mut self.output, "  ");
        r.write_ir(&mut self.output);
        push_str(&mut self.output, " = getelementptr %variant.");
        push_str(&mut self.output, enum_inst);
        push_str(&mut self.output, ".");
        push_u64(&mut self.output, variant.0 as u64);
        push_str(&mut self.output, ", ptr ");
        payload_ptr.write_ir(&mut self.output);
        push_str(&mut self.output, ", i32 0, i32 ");
        push_u64(&mut self.output, idx as u64);
        push_str(&mut self.output, "\n");
        assert(self.out() =~= old(self).out() + "  "@ + tmp(old(self).temps()) + (" = getelementptr %variant."@
            + enum_inst@ + "."@ + dec(variant.0 as nat) + ", ptr "@ + value_text(payload_ptr)
            + ", i32 0, i32 "@ + dec(idx as nat) + "\n"@));
        r
    }

    /// A stack slot, allocated at the start of the function's entry block.
    pub fn build_entry_alloca(&mut self, ty: &LlvmType) -> (r: Value)
        requires
            old(self).temps() < u32::MAX,
        ensures
            final(self).settled() == old(self).settled(),
            old(self).sound() ==> final(self).sound(),
            r == Value::Temp(old(self).temps()),
            final(self).temps() == old(self).temps() + 1,
            final(self).allocas() == old(self).allocas() + "  "@ + tmp(old(self).temps()) + " = alloca  "@
                + llvm_text(*ty) + "\n"@,
            final(self).out() == old(self).out(),
            final(self).glob() == old(self).glob(),
            final(self).blocks() == old(self).blocks(),
            final(self).nglobals() == old(self).nglobals(),
            final(self).term() == old(self).term(),
            final(self).entry_pos() == old(self).entry_pos(),
            final(self).names() == old(self).names(),
    {
        let ptr = Value::Temp(self.next_temp);
        self.next_temp = self.next_temp + 1;
        push_str(&mut self.entry_allocas, "  ");
        ptr.write_ir(&mut self.entry_allocas);
        push_str(&mut self.entry_allocas, " = alloca  ");
        ty.write_ir(&mut self.entry_allocas);
        push_str(&mut self.entry_allocas, "\n");
        assert(self.allocas() =~= old(self).allocas() + "  "@ + tmp(old(self).temps()) + " = alloca  "@
            + llvm_text(*ty) + "\n"@);
        ptr
    }

    pub fn build_store(&mut self, ty: &LlvmType, val: Value, ptr: Value)
        ensures
            final(self).settled() == old(self).settled(),
            old(self).sound() ==> final(self).sound(),
            final(self).appends(
                old(self),
                "  store "@ + llvm_text(*ty) + " "@ + value_text(val) + ", ptr "@ + value_text(ptr) + "\n"@,
            ),
    {
        push_str(&mut self.output, "  store ");
        ty.write_ir(&mut self.output);
        push_str(&mut self.output, " ");
        val.write_ir(&mut self.output);
        push_str(&mut self.output, ", ptr ");
        ptr.write_ir(&mut self.output);
        push_str(&mut self.output, "\n");
        assert(self.out() =~= old(self).out() + ("  store "@ + llvm_text(*ty) + " "@ + value_text(val) + ", ptr "@
            + value_text(ptr) + "\n"@));
    }

    pub fn build_load(&mut self, ty: &LlvmType, ptr: Value) -> (r: Value)
        requires
            old(self).temps() < u32::MAX,
        ensures
            final(self).settled() == old(self).settled(),
            old(self).sound() ==> final(self).sound(),
            final(self).defines(old(self), r, " = load "@ + llvm_text(*ty) + ", ptr "@ + value_text(ptr) + "\n"@),
    {
        let r = self.fresh_temp();
        push_str(&mut self.output, "  ");
        r.write_ir(&mut self.output);
        push_str(&mut self.output, " = load ");
        ty.write_ir(&mut self.output);
        push_str(&mut self.output, ", ptr ");
        ptr.write_ir(&mut self.output);
        push_str(&mut self.output, "\n");
        assert(self.out() =~= old(self).out() + "  "@ + tmp(old(self).temps()) + (" = load "@ + llvm_text(*ty)
            + ", ptr "@ + value_text(ptr) + "\n"@));
        r
    }

    /// `  %tN = <op> <ty> <lhs>, <rhs>`.
    fn build_binop(&mut self, op: &str, ty: &LlvmType, lhs: Value, rhs: Value) -> (r: Value)
        requires
            old(self).temps() < u32::MAX,
        ensures
            final(self).settled() == old(self).settled(),
            old(self).sound() ==> final(self).sound(),
            final(self).defines(
                old(self),
                r,
                " = "@ + op@ + " "@ + llvm_text(*ty) + " "@ + value_text(lhs) + ", "@ + value_text(rhs) + "\n"@,
            ),
    {
        let r = self.fresh_temp();
        push_str(&mut self.output, "  ");
        r.write_ir(&mut self.output);
        push_str(&mut self.output, " = ");
        push_str(&mut self.output, op);
        push_str(&mut self.output, " ");
        ty.write_ir(&mut self.output);
        push_str(&mut self.output, " ");
        lhs.write_ir(&mut self.output);
        push_str(&mut self.output, ", ");
        rhs.write_ir(&mut self.output);
        push_str(&mut self.output, "\n");
        assert(self.out() =~= old(self).out() + "  "@ + tmp(old(self).temps()) + (" = "@ + op@ + " "@
            + llvm_text(*ty) + " "@ + value_text(lhs) + ", "@ + value_text(rhs) + "\n"@));
        r
    }

    pub fn build_add(&mut self, ty: &LlvmType, lhs: Value, rhs: Value) -> (r: Value)
        requires
            old(self).temps() < u32::MAX,
        ensures
            final(self).settled() == old(self).settled(),
            old(self).sound() ==> final(self).sound(),
            final(self).defines(
                old(self),
                r,
                " = "@ + "add"@ + " "@ + llvm_text(*ty) + " "@ + value_text(lhs) + ", "@ + value_text(rhs) + "\n"@,
            ),
    {
        self.build_binop("add", ty, lhs, rhs)
    }

    pub fn build_sub(&mut self, ty: &LlvmType, lhs: Value, rhs: Value) -> (r: Value)
        requires
            old(self).temps() < u32::MAX,
        ensures
            final(self).settled() == old(self).settled(),
            old(self).sound() ==> final(self).sound(),
            final(self).defines(
                old(self),
                r,
                " = "@ + "sub"@ + " "@ + llvm_text(*ty) + " "@ + value_text(lhs) + ", "@ + value_text(rhs) + "\n"@,
            ),
    {
        self.build_binop("sub", ty, lhs, rhs)
    }

    pub fn build_mul(&mut self, ty: &LlvmType, lhs: Value, rhs: Value) -> (r: Value)
        requires
            old(self).temps() < u32::MAX,
        ensures
            final(self).settled() == old(self).settled(),
            old(self).sound() ==> final(self).sound(),
            final(self).defines(
                old(self),
                r,
                " = "@ + "mul"@ + " "@ + llvm_text(*ty) + " "@ + value_text(lhs) + ", "@ + value_text(rhs) + "\n"@,
            ),
    {
        self.build_binop("mul", ty, lhs, rhs)
    }

    pub fn build_sdiv(&mut self, ty: &LlvmType, lhs: Value, rhs: Value) -> (r: Value)
        requires
            old(self).temps() < u32::MAX,
        ensures
            final(self).settled() == old(self).settled(),
            old(self).sound() ==> final(self).sound(),
            final(self).out() == old(self).out() + binop_line(old(self).temps(), "sdiv"@, *ty, lhs, rhs),
            final(self).defines(
                old(self),
                r,
                " = "@ + "sdiv"@ + " "@ + llvm_text(*ty) + " "@ + value_text(lhs) + ", "@ + value_text(rhs) + "\n"@,
            ),
    {
        let r = self.build_binop("sdiv", ty, lhs, rhs);
        proof {
            reveal(binop_line);
            assert(self.out() =~= old(self).out() + binop_line(old(self).temps(), "sdiv"@, *ty, lhs, rhs));
        }
        r
    }

    /// `  %tN = icmp <pred> <ty> <lhs>, <rhs>`.
    pub fn build_icmp(&mut self, pred: &str, ty: &LlvmType, lhs: Value, rhs: Value) -> (r: Value)
        requires
            old(self).temps() < u32::MAX,
        ensures
            final(self).settled() == old(self).settled(),
            old(self).sound() ==> final(self).sound(),
            final(self).out() == old(self).out() + binop_line(old(self).temps(), compare_op(pred@), *ty, lhs, rhs),
            final(self).defines(
                old(self),
                r,
                " = "@ + ("icmp "@ + pred@) + " "@ + llvm_text(*ty) + " "@ + value_text(lhs) + ", "@ + value_text(
                    rhs,
                ) + "\n"@,
            ),
    {
        let mut op = to_string("icmp ");
        push_str(&mut op, pred);
        let r = self.build_binop(op.as_str(), ty, lhs, rhs);
        proof {
            reveal(binop_line);
            assert(self.out() =~= old(self).out() + binop_line(old(self).temps(), compare_op(pred@), *ty, lhs, rhs));
        }
        r
    }

    /// `  %tN = <op> i1 <lhs>, <rhs>`.
    fn build_logic(&mut self, op: &str, lhs: Value, rhs: Value) -> (r: Value)
        requires
            old(self).temps() < u32::MAX,
        ensures
            final(self).settled() == old(self).settled(),
            old(self).sound() ==> final(self).sound(),
            final(self).defines(
                old(self),
                r,
                " = "@ + op@ + " i1 "@ + value_text(lhs) + ", "@ + value_text(rhs) + "\n"@,
            ),
    {
        let r = self.fresh_temp();
        push_str(&mut self.output, "  ");
        r.write_ir(&mut self.output);
        push_str(&mut self.output, " = ");
        push_str(&mut self.output, op);
        push_str(&mut self.output, " i1 ");
        lhs.write_ir(&mut self.output);
        push_str(&mut self.output, ", ");
        rhs.write_ir(&mut self.output);
        push_str(&mut self.output, "\n");
        assert(self.out() =~= old(self).out() + "  "@ + tmp(old(self).temps()) + (" = "@ + op@ + " i1 "@
            + value_text(lhs) + ", "@ + value_text(rhs) + "\n"@));
        r
    }

    pub fn build_and(&mut self, lhs: Value, rhs: Value) -> (r: Value)
        requires
            old(self).temps() < u32::MAX,
        ensures
            final(self).settled() == old(self).settled(),
            old(self).sound() ==> final(self).sound(),
            final(self).out() == old(self).out() + and_line(old(self).temps(), lhs, rhs),
            final(self).defines(old(self), r, " = "@ + "and"@ + " i1 "@ + value_text(lhs) + ", "@ + value_text(rhs) + "\n"@),
    {
        let r = self.build_logic("and", lhs, rhs);
        proof {
            reveal(and_line);
            assert(self.out() =~= old(self).out() + and_line(old(self).temps(), lhs, rhs));
        }
        r
    }

    pub fn build_or(&mut self, lhs: Value, rhs: Value) -> (r: Value)
        requires
            old(self).temps() < u32::MAX,
        ensures
            final(self).settled() == old(self).settled(),
            old(self).sound() ==> final(self).sound(),
            final(self).defines(old(self), r, " = "@ + "or"@ + " i1 "@ + value_text(lhs) + ", "@ + value_text(rhs) + "\n"@),
    {
        self.build_logic("or", lhs, rhs)
    }

    pub fn build_not(&mut self, val: Value) -> (r: Value)
        requires
            old(self).temps() < u32::MAX,
        ensures
            final(self).settled() == old(self).settled(),
            old(self).sound() ==> final(self).sound(),
            final(self).defines(old(self), r, " = xor i1 "@ + value_text(val) + ", 1\n"@),
    {
        let r = self.fresh_temp();
        push_str(&mut self.output, "  ");
        r.write_ir(&mut self.output);
        push_str(&mut self.output, " = xor i1 ");
        val.write_ir(&mut self.output);
        push_str(&mut self.output, ", 1\n");
        assert(self.out() =~= old(self).out() + "  "@ + tmp(old(self).temps()) + (" = xor i1 "@ + value_text(val)
            + ", 1\n"@));
        r
    }

    pub fn build_neg(&mut self, ty: &LlvmType, val: Value) -> (r: Value)
        requires
            old(self).temps() < u32::MAX,
        ensures
            final(self).settled() == old(self).settled(),
            old(self).sound() ==> final(self).sound(),
            final(self).defines(old(self), r, " = sub "@ + llvm_text(*ty) + " 0, "@ + value_text(val) + "\n"@),
    {
        let r = self.fresh_temp();
        push_str(&mut self.output, "  ");
        r.write_ir(&mut self.output);
        push_str(&mut self.output, " = sub ");
        ty.write_ir(&mut self.output);
        push_str(&mut self.output, " 0, ");
        val.write_ir(&mut self.output);
        push_str(&mut self.output, "\n");
        assert(self.out() =~= old(self).out() + "  "@ + tmp(old(self).temps()) + (" = sub "@ + llvm_text(*ty)
            + " 0, "@ + value_text(val) + "\n"@));
        r
    }

    /// `  %tN = <op> <from> <val> to <to>`.
    fn build_conv(&mut self, op: &str, val: Value, from: &LlvmType, to: &LlvmType) -> (r: Value)
        requires
            old(self).temps() < u32::MAX,
        ensures
            final(self).settled() == old(self).settled(),
            old(self).sound() ==> final(self).sound(),
            final(self).defines(
                old(self),
                r,
                " = "@ + op@ + " "@ + llvm_text(*from) + " "@ + value_text(val) + " to "@ + llvm_text(*to) + "\n"@,
            ),
    {
        let r = self.fresh_temp();
        push_str(&mut self.output, "  ");
        r.write_ir(&mut self.output);
        push_str(&mut self.output, " = ");
        push_str(&mut self.output, op);
        push_str(&mut self.output, " ");
        from.write_ir(&mut self.output);
        push_str(&mut self.output, " ");
        val.write_ir(&mut self.output);
        push_str(&mut self.output, " to ");
        to.write_ir(&mut self.output);
        push_str(&mut self.output, "\n");
        assert(self.out() =~= old(self).out() + "  "@ + tmp(old(self).temps()) + (" = "@ + op@ + " "@
            + llvm_text(*from) + " "@ + value_text(val) + " to "@ + llvm_text(*to) + "\n"@));
        r
    }

    pub fn build_sext(&mut self, val: Value, from: &LlvmType, to: &LlvmType) -> (r: Value)
        requires
            old(self).temps() < u32::MAX,
        ensures
            final(self).settled() == old(self).settled(),
            old(self).sound() ==> final(self).sound(),
            final(self).defines(
                old(self),
                r,
                " = "@ + "sext"@ + " "@ + llvm_text(*from) + " "@ + value_text(val) + " to "@ + llvm_text(*to) + "\n"@,
            ),
    {
        self.build_conv("sext", val, from, to)
    }

    pub fn build_trunc(&mut self, val: Value, from: &LlvmType, to: &LlvmType) -> (r: Value)
        requires
            old(self).temps() < u32::MAX,
        ensures
            final(self).settled() == old(self).settled(),
            old(self).sound() ==> final(self).sound(),
            final(self).defines(
                old(self),
                r,
                " = "@ + "trunc"@ + " "@ + llvm_text(*from) + " "@ + value_text(val) + " to "@ + llvm_text(*to) + "\n"@,
            ),
    {
        self.build_conv("trunc", val, from, to)
    }

    /// Ends the block with a jump, unless it already ended.
    pub fn build_br(&mut self, label: &str)
        ensures
            final(self).settled() == old(self).settled(),
            old(self).sound() ==> final(self).sound(),
            final(self).out() == old(self).out() + if old(self).term() {
                Seq::<char>::empty()
            } else {
                "  br label %"@ + label@ + "\n"@
            },
            final(self).term(),
            final(self).temps() == old(self).temps(),
            final(self).blocks() == old(self).blocks(),
            final(self).keeps(old(self)),
    {
        if self.terminated {
            assert(self.out() =~= old(self).out() + Seq::<char>::empty());
            return;
        }
        push_str(&mut self.output, "  br label %");
        push_str(&mut self.output, label);
        push_str(&mut self.output, "\n");
        self.terminated = true;
        assert(self.out() =~= old(self).out() + ("  br label %"@ + label@ + "\n"@));
    }

    /// Ends the block with a two-way branch, unless it already ended.
    /// The step at the foot of a counting loop: the loop variable (kept
    /// behind `ivar`) goes up by one, control goes back to the test under
    /// `cond` unless the block already ended, and the code after the loop
    /// starts under `end`.
    pub fn build_range_step(&mut self, ivar: Value, cond: &str, end: &str)
        requires
            old(self).temps() + 2 <= u32::MAX,
        ensures
            final(self).settled() == old(self).settled(),
            old(self).sound() ==> final(self).sound(),
            final(self).out() == old(self).out() + range_step_text(old(self).temps(), old(self).term(), ivar, cond@, end@),
            !final(self).term(),
            final(self).temps() == old(self).temps() + 2,
            final(self).blocks() == old(self).blocks(),
            final(self).keeps(old(self)),
    {
        let ghost o0 = self.out();
        let ghost t = self.temps();
        let ghost tm0 = self.term();
        let cur = self.build_load(&LlvmType::I32, ivar.dup());
        let next = self.build_add(&LlvmType::I32, cur, Value::Const(1));
        self.build_store(&LlvmType::I32, next, ivar);
        self.build_br(cond);
        self.emit_label(end);
        proof {
            assert(self.out() =~= o0 + range_step_text(t, tm0, ivar, cond@, end@));
        }
    }

    /// The test at the head of a counting loop `for i in a..b`: under label
    /// `cond` the loop variable (kept behind `ivar`) and the bound (kept
    /// behind `bound`) are loaded and compared with a signed `<`; the loop
    /// goes to `body` while the variable is below the bound and to `end` once
    /// it reaches it, so the bound itself is never run.
    pub fn build_range_test(&mut self, cond: &str, ivar: Value, bound: Value, body: &str, end: &str)
        requires
            old(self).temps() + 3 <= u32::MAX,
        ensures
            final(self).settled() == old(self).settled(),
            old(self).sound() ==> final(self).sound(),
            final(self).out() == old(self).out() + range_test_text(
                old(self).temps(),
                cond@,
                ivar,
                bound,
                body@,
                end@,
            ),
            final(self).term(),
            final(self).temps() == old(self).temps() + 3,
            final(self).blocks() == old(self).blocks(),
            final(self).keeps(old(self)),
    {
        let ghost o0 = self.out();
        let ghost t = self.temps();
        self.emit_label(cond);
        let cur = self.build_load(&LlvmType::I32, ivar);
        let lim = self.build_load(&LlvmType::I32, bound);
        let c = self.build_icmp("slt", &LlvmType::I32, cur, lim);
        self.build_cond_br(c, body, end);
        proof {
            assert(self.out() =~= o0 + range_test_text(t, cond@, ivar, bound, body@, end@));
        }
    }

    pub fn build_cond_br(&mut self, cond: Value, then_label: &str, else_label: &str)
        ensures
            final(self).settled() == old(self).settled(),
            old(self).sound() ==> final(self).sound(),
            final(self).out() == old(self).out() + cond_br_text(
                old(self).term(),
                value_text(cond),
                then_label@,
                else_label@,
            ),
            final(self).term(),
            final(self).temps() == old(self).temps(),
            final(self).blocks() == old(self).blocks(),
            final(self).keeps(old(self)),
    {
        if self.terminated {
            assert(self.out() =~= old(self).out() + Seq::<char>::empty());
            return;
        }
        push_str(&mut self.output, "  br i1 ");
        cond.write_ir(&mut self.output);
        push_str(&mut self.output, ", label %");
        push_str(&mut self.output, then_label);
        push_str(&mut self.output, ", label %");
        push_str(&mut self.output, else_label);
        push_str(&mut self.output, "\n");
        self.terminated = true;
        assert(self.out() =~= old(self).out() + cond_br_text(false, value_text(cond), then_label@, else_label@));
    }

    /// Ends the block with a return, unless it already ended.
    pub fn build_ret(&mut self, ty: &LlvmType, val: Value)
        ensures
            final(self).settled() == old(self).settled(),
            old(self).sound() ==> final(self).sound(),
            final(self).out() == old(self).out() + if old(self).term() {
                Seq::<char>::empty()
            } else if *ty == LlvmType::Void {
                "  ret void\n"@
            } else {
                "  ret "@ + llvm_text(*ty) + " "@ + value_text(val) + "\n"@
            },
            final(self).term(),
            final(self).temps() == old(self).temps(),
            final(self).blocks() == old(self).blocks(),
            final(self).keeps(old(self)),
    {
        if self.terminated {
            assert(self.out() =~= old(self).out() + Seq::<char>::empty());
            return;
        }
        let is_void = match ty {
            LlvmType::Void => true,
            _ => false,
        };
        if is_void {
            push_str(&mut self.output, "  ret void\n");
        } else {
            push_str(&mut self.output, "  ret ");
            ty.write_ir(&mut self.output);
            push_str(&mut self.output, " ");
            val.write_ir(&mut self.output);
            push_str(&mut self.output, "\n");
            assert(self.out() =~= old(self).out() + ("  ret "@ + llvm_text(*ty) + " "@ + value_text(val) + "\n"@));
        }
        self.terminated = true;
    }

    /// Whether the current block has ended.
    pub fn is_terminated(&self) -> (r: bool)
        ensures
            r == self.term(),
    {
        self.terminated
    }

    /// Ends the block as unreachable, unless it already ended.
    pub fn build_unreachable(&mut self)
        ensures
            final(self).settled() == old(self).settled(),
            old(self).sound() ==> final(self).sound(),
            final(self).out() == old(self).out() + if old(self).term() {
                Seq::<char>::empty()
            } else {
                "  unreachable\n"@
            },
            final(self).term(),
            final(self).temps() == old(self).temps(),
            final(self).blocks() == old(self).blocks(),
            final(self).keeps(old(self)),
    {
        if self.terminated {
            assert(self.out() =~= old(self).out() + Seq::<char>::empty());
            return;
        }
        push_str(&mut self.output, "  unreachable\n");
        self.terminated = true;
    }

    /// Calls `name`; a call of a `void` function defines no temporary.
    pub fn build_call(&mut self, ret_ty: &LlvmType, name: Symbol, args: &[(LlvmType, Value)]) -> (r: Value)
        requires
            (name.0 as int) < old(self).names().len(),
            old(self).temps() < u32::MAX,
        ensures
            final(self).settled() == old(self).settled(),
            old(self).sound() ==> final(self).sound(),
            *ret_ty == LlvmType::Void ==> r == Value::Void && final(self).appends(
                old(self),
                "  call void @"@ + old(self).names()[name.0 as int] + "("@ + args_text(args@) + ")\n"@,
            ),
            *ret_ty != LlvmType::Void ==> final(self).defines(
                old(self),
                r,
                " = call "@ + llvm_text(*ret_ty) + " @"@ + old(self).names()[name.0 as int] + "("@ + args_text(
                    args@,
                ) + ")\n"@,
            ),
    {
        let mut args_str = String::new();
        let mut i: usize = 0;
        while i < args.len()
            invariant
                i <= args@.len(),
                args_str@ == args_text(args@.take(i as int)),
            decreases args@.len() - i,
        {
            if i > 0 {
                push_str(&mut args_str, ", ");
            }
            args[i].0.write_ir(&mut args_str);
            push_str(&mut args_str, " ");
            args[i].1.write_ir(&mut args_str);
            proof {
                let pre = args@.take(i as int);
                let next = args@.take(i + 1);
                assert(next.drop_last() =~= pre);
                assert(next.last() == args@[i as int]);
                if i == 0 {
                    assert(next[0] == args@[0]);
                }
                assert(args_str@ =~= args_text(next));
            }
            i = i + 1;
        }
        assert(args@.take(args@.len() as int) =~= args@);
        let name_str = self.interner.resolve(name);
        let is_void = match ret_ty {
            LlvmType::Void => true,
            _ => false,
        };
        if is_void {
            push_str(&mut self.output, "  call void @");
            push_str(&mut self.output, name_str);
            push_str(&mut self.output, "(");
            push_str(&mut self.output, args_str.as_str());
            push_str(&mut self.output, ")\n");
            assert(self.out() =~= old(self).out() + ("  call void @"@ + old(self).names()[name.0 as int] + "("@
                + args_text(args@) + ")\n"@));
            Value::Void
        } else {
            let r = self.fresh_temp();
            push_str(&mut self.output, "  ");
            r.write_ir(&mut self.output);
            push_str(&mut self.output, " = call ");
            ret_ty.write_ir(&mut self.output);
            push_str(&mut self.output, " @");
            push_str(&mut self.output, name_str);
            push_str(&mut self.output, "(");
            push_str(&mut self.output, args_str.as_str());
            push_str(&mut self.output, ")\n");
            assert(self.out() =~= old(self).out() + "  "@ + tmp(old(self).temps()) + (" = call "@
                + llvm_text(*ret_ty) + " @"@ + old(self).names()[name.0 as int] + "("@ + args_text(args@)
                + ")\n"@));
            r
        }
    }

    /// The address of element `index` of an array of `array_size` elements.
    pub fn build_gep_array(&mut self, elem_ty: &LlvmType, array_size: usize, ptr: Value, index: Value) -> (r: Value)
        requires
            old(self).temps() < u32::MAX,
        ensures
            final(self).settled() == old(self).settled(),
            old(self).sound() ==> final(self).sound(),
            final(self).out() == old(self).out() + gep_array_line(old(self).temps(), *elem_ty, array_size, ptr, index),
            final(self).defines(
                old(self),
                r,
                " = getelementptr ["@ + dec(array_size as nat) + " x "@ + llvm_text(*elem_ty) + "], ptr "@
                    + value_text(ptr) + ", i32 0, i32 "@ + value_text(index) + "\n"@,
            ),
    {
        let r = self.fresh_temp();
        push_str(&mut self.output, "  ");
        r.write_ir(&mut self.output);
        push_str(&mut self.output, " = getelementptr [");
        push_u64(&mut self.output, array_size as u64);
        push_str(&mut self.output, " x ");
        elem_ty.write_ir(&mut self.output);
        push_str(&mut self.output, "], ptr ");
        ptr.write_ir(&mut self.output);
        push_str(&mut self.output, ", i32 0, i32 ");
        index.write_ir(&mut self.output);
        push_str(&mut self.output, "\n");
        assert(self.out() =~= old(self).out() + "  "@ + tmp(old(self).temps()) + (" = getelementptr ["@
            + dec(array_size as nat) + " x "@ + llvm_text(*elem_ty) + "], ptr "@ + value_text(ptr)
            + ", i32 0, i32 "@ + value_text(index) + "\n"@));
        proof {
            reveal(gep_array_line);
        }
        r
    }

    /// The address of field `field_index` of a struct.
    pub fn build_gep_struct(&mut self, struct_name: Symbol, ptr: Value, field_index: u32) -> (r: Value)
        requires
            old(self).temps() < u32::MAX,
        ensures
            final(self).settled() == old(self).settled(),
            old(self).sound() ==> final(self).sound(),
            final(self).defines(
                old(self),
                r,
                " = getelementptr %struct."@ + dec(struct_name.0 as nat) + ", ptr "@ + value_text(ptr)
                    + ", i32 0, i32 "@ + dec(field_index as nat) + "\n"@,
            ),
    {
        let r = self.fresh_temp();
        push_str(&mut self.output, "  ");
        r.write_ir(&mut self.output);
        push_str(&mut self.output, " = getelementptr %struct.");
        push_u64(&mut self.output, struct_name.0 as u64);
        push_str(&mut self.output, ", ptr ");
        ptr.write_ir(&mut self.output);
        push_str(&mut self.output, ", i32 0, i32 ");
        push_u64(&mut self.output, field_index as u64);
        push_str(&mut self.output, "\n");
        assert(self.out() =~= old(self).out() + "  "@ + tmp(old(self).temps()) + (" = getelementptr %struct."@
            + dec(struct_name.0 as nat) + ", ptr "@ + value_text(ptr) + ", i32 0, i32 "@ + dec(
            field_index as nat,
        ) + "\n"@));
        r
    }

    /// Calls a runtime function that takes operands and returns nothing.
    fn call_void(&mut self, callee: &str, args: &str)
        ensures
            final(self).settled() == old(self).settled(),
            old(self).sound() ==> final(self).sound(),
            final(self).appends(old(self), "  call void @"@ + callee@ + "("@ + args@ + ")\n"@),
    {
        push_str(&mut self.output, "  call void @");
        push_str(&mut self.output, callee);
        push_str(&mut self.output, "(");
        push_str(&mut self.output, args);
        push_str(&mut self.output, ")\n");
        assert(self.out() =~= old(self).out() + ("  call void @"@ + callee@ + "("@ + args@ + ")\n"@));
    }

    /// Calls a runtime function and names its result.
    fn call_value(&mut self, ret: &str, callee: &str, args: &str) -> (r: Value)
        requires
            old(self).temps() < u32::MAX,
        ensures
            final(self).settled() == old(self).settled(),
            old(self).sound() ==> final(self).sound(),
            final(self).defines(old(self), r, " = call "@ + ret@ + " @"@ + callee@ + "("@ + args@ + ")\n"@),
    {
        let r = self.fresh_temp();
        push_str(&mut self.output, "  ");
        r.write_ir(&mut self.output);
        push_str(&mut self.output, " = call ");
        push_str(&mut self.output, ret);
        push_str(&mut self.output, " @");
        push_str(&mut self.output, callee);
        push_str(&mut self.output, "(");
        push_str(&mut self.output, args);
        push_str(&mut self.output, ")\n");
        assert(self.out() =~= old(self).out() + "  "@ + tmp(old(self).temps()) + (" = call "@ + ret@ + " @"@
            + callee@ + "("@ + args@ + ")\n"@));
        r
    }

    pub fn build_free(&mut self, ptr: Value)
        ensures
            final(self).settled() == old(self).settled(),
            old(self).sound() ==> final(self).sound(),
            final(self).appends(old(self), "  call void @"@ + "lexora_free"@ + "("@ + ("ptr "@ + value_text(ptr)) + ")\n"@),
    {
        let mut a = to_string("ptr ");
        ptr.write_ir(&mut a);
        self.call_void("lexora_free", a.as_str());
    }

    pub fn build_call_str_new(&mut self, val: Value) -> (r: Value)
        requires
            old(self).temps() < u32::MAX,
        ensures
            final(self).settled() == old(self).settled(),
            old(self).sound() ==> final(self).sound(),
            final(self).defines(old(self), r, " = call "@ + "ptr"@ + " @"@ + "lexora_str_new"@ + "("@ + ("ptr "@ + value_text(val)) + ")\n"@),
    {
        let mut a = to_string("ptr ");
        val.write_ir(&mut a);
        self.call_value("ptr", "lexora_str_new", a.as_str())
    }

    pub fn build_call_str_free(&mut self, ptr: Value)
        ensures
            final(self).settled() == old(self).settled(),
            old(self).sound() ==> final(self).sound(),
            final(self).appends(old(self), "  call void @"@ + "lexora_str_free"@ + "("@ + ("ptr "@ + value_text(ptr)) + ")\n"@),
    {
        let mut a = to_string("ptr ");
        ptr.write_ir(&mut a);
        self.call_void("lexora_str_free", a.as_str());
    }

    /// The address `offset` bytes past `ptr`.
    pub fn build_gep_i8(&mut self, ptr: Value, offset: i64) -> (r: Value)
        requires
            old(self).temps() < u32::MAX,
        ensures
            final(self).settled() == old(self).settled(),
            old(self).sound() ==> final(self).sound(),
            final(self).defines(
                old(self),
                r,
                " = getelementptr i8, ptr "@ + value_text(ptr) + ", i64 "@ + dec_int(offset as int) + "\n"@,
            ),
    {
        let r = self.fresh_temp();
        push_str(&mut self.output, "  ");
        r.write_ir(&mut self.output);
        push_str(&mut self.output, " = getelementptr i8, ptr ");
        ptr.write_ir(&mut self.output);
        push_str(&mut self.output, ", i64 ");
        push_i64(&mut self.output, offset);
        push_str(&mut self.output, "\n");
        assert(self.out() =~= old(self).out() + "  "@ + tmp(old(self).temps()) + (" = getelementptr i8, ptr "@
            + value_text(ptr) + ", i64 "@ + dec_int(offset as int) + "\n"@));
        r
    }

    pub fn build_call_strlen(&mut self, ptr: Value) -> (r: Value)
        requires
            old(self).temps() < u32::MAX,
        ensures
            final(self).settled() == old(self).settled(),
            old(self).sound() ==> final(self).sound(),
            final(self).defines(old(self), r, " = call "@ + "i64"@ + " @"@ + "strlen"@ + "("@ + ("ptr "@ + value_text(ptr)) + ")\n"@),
    {
        let mut a = to_string("ptr ");
        ptr.write_ir(&mut a);
        self.call_value("i64", "strlen", a.as_str())
    }

    pub fn build_call_str_concat(&mut self, a: Value, alen: Value, b: Value, blen: Value) -> (r: Value)
        requires
            old(self).temps() < u32::MAX,
        ensures
            final(self).settled() == old(self).settled(),
            old(self).sound() ==> final(self).sound(),
            final(self).defines(
                old(self),
                r,
                " = call "@ + "ptr"@ + " @"@ + "lexora_str_concat"@ + "("@ + ("ptr "@ + value_text(a) + ", i64 "@
                    + value_text(alen) + ", ptr "@ + value_text(b) + ", i64 "@ + value_text(blen)) + ")\n"@,
            ),
    {
        let args = str_pair_args(&a, &alen, &b, &blen);
        self.call_value("ptr", "lexora_str_concat", args.as_str())
    }

    pub fn build_call_str_eq(&mut self, a: Value, alen: Value, b: Value, blen: Value) -> (r: Value)
        requires
            old(self).temps() < u32::MAX,
        ensures
            final(self).settled() == old(self).settled(),
            old(self).sound() ==> final(self).sound(),
            final(self).defines(
                old(self),
                r,
                " = call "@ + "i1"@ + " @"@ + "lexora_str_eq"@ + "("@ + ("ptr "@ + value_text(a) + ", i64 "@
                    + value_text(alen) + ", ptr "@ + value_text(b) + ", i64 "@ + value_text(blen)) + ")\n"@,
            ),
    {
        let args = str_pair_args(&a, &alen, &b, &blen);
        self.call_value("i1", "lexora_str_eq", args.as_str())
    }

    pub fn build_call_strcmp(&mut self, a: Value, b: Value) -> (r: Value)
        requires
            old(self).temps() < u32::MAX,
        ensures
            final(self).settled() == old(self).settled(),
            old(self).sound() ==> final(self).sound(),
            final(self).defines(
                old(self),
                r,
                " = call "@ + "i32"@ + " @"@ + "strcmp"@ + "("@ + ("ptr "@ + value_text(a) + ", ptr "@ + value_text(b)) + ")\n"@,
            ),
    {
        let mut s = to_string("ptr ");
        a.write_ir(&mut s);
        push_str(&mut s, ", ptr ");
        b.write_ir(&mut s);
        assert(s@ =~= "ptr "@ + value_text(a) + ", ptr "@ + value_text(b));
        self.call_value("i32", "strcmp", s.as_str())
    }

    /// Opens the drop function of an enum instantiation.
    pub fn emit_drop_function_begin(&mut self, enum_inst: &str)
        ensures
            final(self).settled() == old(self).settled(),
            old(self).sound() ==> final(self).sound(),
            final(self).appends(old(self), "define void @drop.enum."@ + enum_inst@ + "(ptr %s) {\n"@),
    {
        push_str(&mut self.output, "define void @drop.enum.");
        push_str(&mut self.output, enum_inst);
        push_str(&mut self.output, "(ptr %s) {\n");
        assert(self.out() =~= old(self).out() + ("define void @drop.enum."@ + enum_inst@ + "(ptr %s) {\n"@));
    }

    pub fn build_call_drop_enum(&mut self, enum_inst: &str, ptr: Value)
        ensures
            final(self).settled() == old(self).settled(),
            old(self).sound() ==> final(self).sound(),
            final(self).appends(
                old(self),
                "  call void @"@ + ("drop.enum."@ + enum_inst@) + "("@ + ("ptr "@ + value_text(ptr)) + ")\n"@,
            ),
    {
        let mut callee = to_string("drop.enum.");
        push_str(&mut callee, enum_inst);
        let mut a = to_string("ptr ");
        ptr.write_ir(&mut a);
        self.call_void(callee.as_str(), a.as_str());
    }

    /// The temporary, block and global counters.
    pub fn counters(&self) -> (r: (u32, u32, u32))
        ensures
            r == (self.temps(), self.blocks(), self.nglobals()),
    {
        (self.next_temp, self.next_block, self.next_global)
    }

    /// Whether `sym` names an interned text.
    pub fn knows(&self, sym: Symbol) -> (r: bool)
        ensures
            r == ((sym.0 as int) < self.names().len()),
    {
        (sym.0 as usize) < self.interner.len()
    }

    /// Whether the current block already ended.
    pub fn terminated(&self) -> (r: bool)
        ensures
            r == self.term(),
    {
        self.terminated
    }

    /// Appends declarations to the globals.
    pub fn add_global_text(&mut self, text: &str)
        ensures
            final(self).settled() == old(self).settled(),
            old(self).sound() ==> final(self).sound(),
            final(self).glob() == old(self).glob() + text@,
            final(self).out() == old(self).out(),
            final(self).temps() == old(self).temps(),
            final(self).blocks() == old(self).blocks(),
            final(self).nglobals() == old(self).nglobals(),
            final(self).term() == old(self).term(),
            final(self).allocas() == old(self).allocas(),
            final(self).entry_pos() == old(self).entry_pos(),
            final(self).names() == old(self).names(),
    {
        push_str(&mut self.globals, text);
    }

    /// A call of `printf` with the format `fmt` and one argument.
    pub fn emit_print_call(&mut self, fmt: &str, ty: &LlvmType, val: &Value)
        ensures
            final(self).settled() == old(self).settled(),
            old(self).sound() ==> final(self).sound(),
            final(self).appends(
                old(self),
                "  call i32 (ptr, ...) @printf(ptr "@ + fmt@ + ", "@ + llvm_text(*ty) + " "@ + value_text(*val)
                    + ")\n"@,
            ),
    {
        push_str(&mut self.output, "  call i32 (ptr, ...) @printf(ptr ");
        push_str(&mut self.output, fmt);
        push_str(&mut self.output, ", ");
        ty.write_ir(&mut self.output);
        push_str(&mut self.output, " ");
        val.write_ir(&mut self.output);
        push_str(&mut self.output, ")\n");
        assert(self.out() =~= old(self).out() + ("  call i32 (ptr, ...) @printf(ptr "@ + fmt@ + ", "@ + llvm_text(*ty)
            + " "@ + value_text(*val) + ")\n"@));
    }

    /// The whole module: the globals, an empty line, then the functions.
    pub fn finish(&self) -> (r: String)
        ensures
            r@ == self.glob() + "\n"@ + self.out(),
    {
        let mut s = String::new();
        push_str(&mut s, self.globals.as_str());
        push_str(&mut s, "\n");
        push_str(&mut s, self.output.as_str());
        assert(s@ =~= self.glob() + "\n"@ + self.out());
        s
    }
}

/// `ptr a, i64 alen, ptr b, i64 blen`.
fn str_pair_args(a: &Value, alen: &Value, b: &Value, blen: &Value) -> (r: String)
    ensures
        r@ == "ptr "@ + value_text(*a) + ", i64 "@ + value_text(*alen) + ", ptr "@ + value_text(*b) + ", i64 "@
            + value_text(*blen),
{
    let mut s = to_string("ptr ");
    a.write_ir(&mut s);
    push_str(&mut s, ", i64 ");
    alen.write_ir(&mut s);
    push_str(&mut s, ", ptr ");
    b.write_ir(&mut s);
    push_str(&mut s, ", i64 ");
    blen.write_ir(&mut s);
    assert(s@ =~= "ptr "@ + value_text(*a) + ", i64 "@ + value_text(*alen) + ", ptr "@ + value_text(*b) + ", i64 "@
        + value_text(*blen));
    s
}

/// An instruction line `  %t<n> = <op> <ty> <l>, <r>`.
#[verifier::opaque]
pub open spec fn binop_line(n: u32, op: Seq<char>, ty: LlvmType, l: Value, r: Value) -> Seq<char> {
    "  "@ + tmp(n) + (" = "@ + op + " "@ + llvm_text(ty) + " "@ + value_text(l) + ", "@ + value_text(r) + "\n"@)
}

/// The instruction name of an integer comparison with its predicate.
pub open spec fn compare_op(pred: Seq<char>) -> Seq<char> {
    "icmp "@ + pred
}

/// An `and` of two truth values: `  %t<n> = and i1 <l>, <r>`.
#[verifier::opaque]
pub open spec fn and_line(n: u32, l: Value, r: Value) -> Seq<char> {
    "  "@ + tmp(n) + (" = "@ + "and"@ + " i1 "@ + value_text(l) + ", "@ + value_text(r) + "\n"@)
}

/// The foot of a counting loop, with its first temporary `t`: load the
/// variable, add one, store it back, branch to the test (unless the block
/// already ended) and open the block after the loop.
pub open spec fn range_step_text(t: u32, term: bool, ivar: Value, cond: Seq<char>, end: Seq<char>) -> Seq<char> {
    range_step_body(t, term, ivar, cond) + label_line(end)
}

/// The foot of a counting loop before the label that follows it.
pub open spec fn range_step_body(t: u32, term: bool, ivar: Value, cond: Seq<char>) -> Seq<char> {
    "  "@ + tmp(t) + (" = load "@ + llvm_text(LlvmType::I32) + ", ptr "@ + value_text(ivar) + "\n"@) + "  "@ + tmp(
        (t + 1) as u32,
    ) + (" = "@ + "add"@ + " "@ + llvm_text(LlvmType::I32) + " "@ + value_text(Value::Temp(t)) + ", "@ + value_text(
        Value::Const(1),
    ) + "\n"@) + ("  store "@ + llvm_text(LlvmType::I32) + " "@ + value_text(Value::Temp((t + 1) as u32))
        + ", ptr "@ + value_text(ivar) + "\n"@) + (if term {
        Seq::<char>::empty()
    } else {
        "  br label %"@ + cond + "\n"@
    })
}

/// The loop-head test of a counting loop, with its first temporary `t`:
/// the label, two loads, a signed `<` and the branch on it.
pub open spec fn range_test_text(
    t: u32,
    cond: Seq<char>,
    ivar: Value,
    bound: Value,
    body: Seq<char>,
    end: Seq<char>,
) -> Seq<char> {
    label_line(cond) + "  "@ + tmp(t) + (" = load "@ + llvm_text(LlvmType::I32) + ", ptr "@ + value_text(ivar)
        + "\n"@) + "  "@ + tmp((t + 1) as u32) + (" = load "@ + llvm_text(LlvmType::I32) + ", ptr "@ + value_text(
        bound,
    ) + "\n"@) + binop_line((t + 2) as u32, compare_op("slt"@), LlvmType::I32, Value::Temp(t), Value::Temp((t + 1) as u32))
        + cond_br_text(false, value_text(Value::Temp((t + 2) as u32)), body, end)
}

/// The temporary `k` places after the `t`-th.
pub open spec fn temp_after(t: u32, k: int) -> Value {
    Value::Temp((t + k) as u32)
}

/// A block label: `prefix` and the number `b + k`.
pub open spec fn block_label(prefix: Seq<char>, b: u32, k: int) -> Seq<char> {
    prefix + dec((b + k) as nat)
}

/// The smallest value of the integer type (`i64` or else `i32`).
pub open spec fn int_min(ty: LlvmType) -> i64 {
    if ty == LlvmType::I64 {
        -9223372036854775808i64
    } else {
        -2147483648i64
    }
}

/// A call of the runtime's panic routine with one of its messages.
pub open spec fn panic_line(msg: Seq<char>) -> Seq<char> {
    "  call void @lexora_panic(ptr @.panicmsg_"@ + msg + ")\n"@
}

/// A guard: branch on `cond` to a block that panics with `msg`, and go on
/// in the other block.
#[verifier::opaque]
pub open spec fn guard_text(term: bool, cond: Seq<char>, bad: Seq<char>, good: Seq<char>, msg: Seq<char>) -> Seq<char> {
    cond_br_text(term, cond, bad, good) + label_line(bad) + panic_line(msg) + "  unreachable\n"@ + label_line(good)
}

/// The text of a division that checks for a zero divisor and for the one
/// overflowing quotient first.
pub open spec fn checked_sdiv_text(t: u32, b: u32, term: bool, ty: LlvmType, lhs: Value, rhs: Value) -> Seq<char> {
    binop_line(t, compare_op("eq"@), ty, rhs, Value::Const(0)) + guard_text(
        term,
        value_text(Value::Temp(t)),
        block_label("div_panic"@, b, 0),
        block_label("div_ok"@, b, 1),
        "div"@,
    ) + binop_line((t + 1) as u32, compare_op("eq"@), ty, lhs, Value::Const(int_min(ty))) + binop_line(
        (t + 2) as u32,
        compare_op("eq"@),
        ty,
        rhs,
        Value::Const(-1i64),
    ) + and_line((t + 3) as u32, temp_after(t, 1), temp_after(t, 2)) + guard_text(
        false,
        value_text(temp_after(t, 3)),
        block_label("divovf_panic"@, b, 2),
        block_label("divovf_ok"@, b, 3),
        "ovf"@,
    ) + binop_line((t + 4) as u32, "sdiv"@, ty, lhs, rhs)
}

/// The call of an overflow-checking intrinsic.
#[verifier::opaque]
pub open spec fn intrinsic_line(t: u32, intrinsic: Seq<char>, ty: LlvmType, lhs: Value, rhs: Value) -> Seq<char> {
    let tt = llvm_text(ty);
    "  "@ + tmp(t) + " = call {"@ + tt + ", i1} @llvm."@ + intrinsic + ".with.overflow."@ + tt + "("@ + tt + " "@
        + value_text(lhs) + ", "@ + tt + " "@ + value_text(rhs) + ")\n"@
}

/// Field `k` of the pair that temporary `t` holds.
#[verifier::opaque]
pub open spec fn extract_line(n: u32, ty: LlvmType, t: u32, k: Seq<char>) -> Seq<char> {
    "  "@ + tmp(n) + " = extractvalue {"@ + llvm_text(ty) + ", i1} "@ + tmp(t) + ", "@ + k + "\n"@
}

/// The text of an arithmetic operation through an overflow-checking intrinsic.
pub open spec fn checked_arith_text(
    t: u32,
    b: u32,
    term: bool,
    intrinsic: Seq<char>,
    ty: LlvmType,
    lhs: Value,
    rhs: Value,
) -> Seq<char> {
    intrinsic_line(t, intrinsic, ty, lhs, rhs) + extract_line((t + 1) as u32, ty, t, "0"@) + extract_line(
        (t + 2) as u32,
        ty,
        t,
        "1"@,
    ) + guard_text(
        term,
        value_text(temp_after(t, 2)),
        block_label("ovf_panic"@, b, 0),
        block_label("ovf_ok"@, b, 1),
        "ovf"@,
    )
}

/// An element address: `  %t<n> = getelementptr [<size> x <ty>], ptr <p>, i32 0, i32 <i>`.
#[verifier::opaque]
pub open spec fn gep_array_line(n: u32, elem_ty: LlvmType, array_size: usize, ptr: Value, index: Value) -> Seq<char> {
    "  "@ + tmp(n) + (" = getelementptr ["@ + dec(array_size as nat) + " x "@ + llvm_text(elem_ty) + "], ptr "@
        + value_text(ptr) + ", i32 0, i32 "@ + value_text(index) + "\n"@)
}

/// The text of a bounds-checked element address.
pub open spec fn checked_gep_text(
    t: u32,
    b: u32,
    term: bool,
    elem_ty: LlvmType,
    array_size: usize,
    ptr: Value,
    index: Value,
) -> Seq<char> {
    binop_line(t, compare_op("uge"@), LlvmType::I32, index, Value::Const(array_size as i64)) + guard_text(
        term,
        value_text(Value::Temp(t)),
        block_label("idx_panic"@, b, 0),
        block_label("idx_ok"@, b, 1),
        "idx"@,
    ) + gep_array_line((t + 1) as u32, elem_ty, array_size, ptr, index)
}

/// A constant operand holding an array length.
fn size_const(n: usize) -> (r: Value)
    ensures
        r == Value::Const(n as i64),
{
    Value::Const(n as i64)
}

/// The pieces that a checked division appends make up `checked_sdiv_text`.
proof fn lemma_sdiv_text(
    o0: Seq<char>,
    o1: Seq<char>,
    o2: Seq<char>,
    o3: Seq<char>,
    o4: Seq<char>,
    o5: Seq<char>,
    o6: Seq<char>,
    o7: Seq<char>,
    t: u32,
    b: u32,
    term: bool,
    ty: LlvmType,
    lhs: Value,
    rhs: Value,
    min: i64,
    l1: Seq<char>,
    l2: Seq<char>,
    l3: Seq<char>,
    l4: Seq<char>,
    rhs_a: Value,
    rhs_b: Value,
    lhs_a: Value,
)
    requires
        value_text(rhs_a) == value_text(rhs),
        value_text(rhs_b) == value_text(rhs),
        value_text(lhs_a) == value_text(lhs),
        t + 5 <= u32::MAX,
        b + 4 <= u32::MAX,
        min == int_min(ty),
        l1 == "div_panic"@ + dec(b as nat),
        l2 == "div_ok"@ + dec((b + 1) as nat),
        l3 == "divovf_panic"@ + dec((b + 2) as nat),
        l4 == "divovf_ok"@ + dec((b + 3) as nat),
        o1 == o0 + binop_line(t, compare_op("eq"@), ty, rhs_a, Value::Const(0)),
        o2 == o1 + guard_text(term, value_text(Value::Temp(t)), l1, l2, "div"@),
        o3 == o2 + binop_line((t + 1) as u32, compare_op("eq"@), ty, lhs_a, Value::Const(min)),
        o4 == o3 + binop_line((t + 2) as u32, compare_op("eq"@), ty, rhs_b, Value::Const(-1i64)),
        o5 == o4 + and_line((t + 3) as u32, Value::Temp((t + 1) as u32), Value::Temp((t + 2) as u32)),
        o6 == o5 + guard_text(false, value_text(Value::Temp((t + 3) as u32)), l3, l4, "ovf"@),
        o7 == o6 + binop_line((t + 4) as u32, "sdiv"@, ty, lhs, rhs),
    ensures
        o7 == o0 + checked_sdiv_text(t, b, term, ty, lhs, rhs),
{
    reveal(binop_line);
    assert(o7 =~= o0 + checked_sdiv_text(t, b, term, ty, lhs, rhs));
}

/// The pieces that a bounds-checked address appends make up `checked_gep_text`.
proof fn lemma_gep_text(
    o0: Seq<char>,
    o1: Seq<char>,
    o2: Seq<char>,
    o3: Seq<char>,
    t: u32,
    b: u32,
    term: bool,
    elem_ty: LlvmType,
    array_size: usize,
    ptr: Value,
    index: Value,
    bound: Value,
    l1: Seq<char>,
    l2: Seq<char>,
    index_a: Value,
)
    requires
        value_text(index_a) == value_text(index),
        t + 2 <= u32::MAX,
        b + 2 <= u32::MAX,
        bound == Value::Const(array_size as i64),
        l1 == "idx_panic"@ + dec(b as nat),
        l2 == "idx_ok"@ + dec((b + 1) as nat),
        o1 == o0 + binop_line(t, compare_op("uge"@), LlvmType::I32, index_a, bound),
        o2 == o1 + guard_text(term, value_text(Value::Temp(t)), l1, l2, "idx"@),
        o3 == o2 + gep_array_line((t + 1) as u32, elem_ty, array_size, ptr, index),
    ensures
        o3 == o0 + checked_gep_text(t, b, term, elem_ty, array_size, ptr, index),
{
    reveal(binop_line);
    assert(o3 =~= o0 + checked_gep_text(t, b, term, elem_ty, array_size, ptr, index));
}

impl<'i> IrBuilder<'i> {
    /// Branches to a block that panics with `msg` when `cond` holds.
    fn guard(&mut self, cond: Value, bad: &str, good: &str, msg: &str)
        ensures
            final(self).settled() == old(self).settled(),
            old(self).sound() ==> final(self).sound(),
            final(self).out() == old(self).out() + guard_text(old(self).term(), value_text(cond), bad@, good@, msg@),
            !final(self).term(),
            final(self).temps() == old(self).temps(),
            final(self).blocks() == old(self).blocks(),
            final(self).keeps(old(self)),
    {
        self.build_cond_br(cond, bad, good);
        self.emit_label(bad);
        push_str(&mut self.output, "  call void @lexora_panic(ptr @.panicmsg_");
        push_str(&mut self.output, msg);
        push_str(&mut self.output, ")\n");
        self.build_unreachable();
        self.emit_label(good);
        proof {
            reveal(guard_text);
        }
        assert(self.out() =~= old(self).out() + guard_text(old(self).term(), value_text(cond), bad@, good@, msg@));
    }

    /// Signed division that panics on a zero divisor and on the overflowing
    /// quotient of the smallest value by -1.
    pub fn build_checked_sdiv(&mut self, ty: &LlvmType, lhs: Value, rhs: Value) -> (r: Value)
        requires
            old(self).temps() + 5 <= u32::MAX,
            old(self).blocks() + 4 <= u32::MAX,
        ensures
            final(self).settled() == old(self).settled(),
            old(self).sound() ==> final(self).sound(),
            r == temp_after(old(self).temps(), 4),
            final(self).out() == old(self).out() + checked_sdiv_text(
                old(self).temps(),
                old(self).blocks(),
                old(self).term(),
                *ty,
                lhs,
                rhs,
            ),
            final(self).temps() == old(self).temps() + 5,
            final(self).blocks() == old(self).blocks() + 4,
            !final(self).term(),
            final(self).keeps(old(self)),
    {
        let ghost o0 = self.out();
        let rhs_a = rhs.dup();
        let ghost rhs_a_g = rhs_a;
        let is_zero = self.build_icmp("eq", ty, rhs_a, Value::Const(0));
        let ghost o1 = self.out();
        let panic_label = self.fresh_block("div_panic");
        let ok_label = self.fresh_block("div_ok");
        self.guard(is_zero, panic_label.as_str(), ok_label.as_str(), "div");
        let ghost o2 = self.out();
        let is_i64 = match ty {
            LlvmType::I64 => true,
            _ => false,
        };
        let min: i64 = if is_i64 {
            -9223372036854775808i64
        } else {
            -2147483648i64
        };
        let lhs_a = lhs.dup();
        let ghost lhs_a_g = lhs_a;
        let l_min = self.build_icmp("eq", ty, lhs_a, Value::Const(min));
        let ghost o3 = self.out();
        let rhs_b = rhs.dup();
        let ghost rhs_b_g = rhs_b;
        let r_neg1 = self.build_icmp("eq", ty, rhs_b, Value::Const(-1));
        let ghost o4 = self.out();
        let both = self.build_and(l_min, r_neg1);
        let ghost o5 = self.out();
        let ovf_label = self.fresh_block("divovf_panic");
        let ok2_label = self.fresh_block("divovf_ok");
        self.guard(both, ovf_label.as_str(), ok2_label.as_str(), "ovf");
        let ghost o6 = self.out();
        let r = self.build_sdiv(ty, lhs, rhs);
        proof {
            lemma_sdiv_text(
                o0,
                o1,
                o2,
                o3,
                o4,
                o5,
                o6,
                self.out(),
                old(self).temps(),
                old(self).blocks(),
                old(self).term(),
                *ty,
                lhs,
                rhs,
                min,
                panic_label@,
                ok_label@,
                ovf_label@,
                ok2_label@,
                rhs_a_g,
                rhs_b_g,
                lhs_a_g,
            );
        }
        r
    }

    /// `lhs op rhs` through the intrinsic `llvm.<intrinsic>.with.overflow`,
    /// panicking on overflow.
    pub fn build_checked_arith(&mut self, intrinsic: &str, ty: &LlvmType, lhs: Value, rhs: Value) -> (r: Value)
        requires
            old(self).temps() + 3 <= u32::MAX,
            old(self).blocks() + 2 <= u32::MAX,
        ensures
            final(self).settled() == old(self).settled(),
            old(self).sound() ==> final(self).sound(),
            r == temp_after(old(self).temps(), 1),
            final(self).out() == old(self).out() + checked_arith_text(
                old(self).temps(),
                old(self).blocks(),
                old(self).term(),
                intrinsic@,
                *ty,
                lhs,
                rhs,
            ),
            final(self).temps() == old(self).temps() + 3,
            final(self).blocks() == old(self).blocks() + 2,
            !final(self).term(),
            final(self).keeps(old(self)),
    {
        let ghost o0 = self.out();
        let t = ty.to_ir_str();
        let pair = self.fresh_temp();
        let mut line = String::new();
        push_str(&mut line, "  ");
        pair.write_ir(&mut line);
        push_str(&mut line, " = call {");
        push_str(&mut line, t.as_str());
        push_str(&mut line, ", i1} @llvm.");
        push_str(&mut line, intrinsic);
        push_str(&mut line, ".with.overflow.");
        push_str(&mut line, t.as_str());
        push_str(&mut line, "(");
        push_str(&mut line, t.as_str());
        push_str(&mut line, " ");
        lhs.write_ir(&mut line);
        push_str(&mut line, ", ");
        push_str(&mut line, t.as_str());
        push_str(&mut line, " ");
        rhs.write_ir(&mut line);
        push_str(&mut line, ")\n");
        proof {
            reveal(intrinsic_line);
            assert(line@ =~= intrinsic_line(old(self).temps(), intrinsic@, *ty, lhs, rhs));
        }
        push_str(&mut self.output, line.as_str());
        let ghost o1 = self.out();
        let res = self.fresh_temp();
        let l2 = self.extract(ty, &res, &pair, "0");
        push_str(&mut self.output, l2.as_str());
        let ghost o2 = self.out();
        let ovf = self.fresh_temp();
        let l3 = self.extract(ty, &ovf, &pair, "1");
        push_str(&mut self.output, l3.as_str());
        let ghost o3 = self.out();
        let panic_label = self.fresh_block("ovf_panic");
        let ok_label = self.fresh_block("ovf_ok");
        self.guard(ovf, panic_label.as_str(), ok_label.as_str(), "ovf");
        proof {
            let tt = old(self).temps();
            let b = old(self).blocks();
            let p1 = intrinsic_line(tt, intrinsic@, *ty, lhs, rhs);
            let p2 = extract_line((tt + 1) as u32, *ty, tt, "0"@);
            let p3 = extract_line((tt + 2) as u32, *ty, tt, "1"@);
            let p4 = guard_text(
                old(self).term(),
                value_text(temp_after(tt, 2)),
                block_label("ovf_panic"@, b, 0),
                block_label("ovf_ok"@, b, 1),
                "ovf"@,
            );
            assert(o1 == o0 + p1);
            assert(o2 == o1 + p2);
            assert(o3 == o2 + p3);
            assert(self.out() == o3 + p4);
            assert(self.out() =~= o0 + (p1 + p2 + p3 + p4));
        }
        res
    }

    /// The line that extracts field `k` of the pair `pair` into `dst`.
    fn extract(&self, ty: &LlvmType, dst: &Value, pair: &Value, k: &str) -> (r: String)
        requires
            *dst is Temp,
            *pair is Temp,
        ensures
            r@ == extract_line(dst->Temp_0, *ty, pair->Temp_0, k@),
    {
        let mut s = String::new();
        push_str(&mut s, "  ");
        dst.write_ir(&mut s);
        push_str(&mut s, " = extractvalue {");
        ty.write_ir(&mut s);
        push_str(&mut s, ", i1} ");
        pair.write_ir(&mut s);
        push_str(&mut s, ", ");
        push_str(&mut s, k);
        push_str(&mut s, "\n");
        proof {
            reveal(extract_line);
        }
        assert(s@ =~= extract_line(dst->Temp_0, *ty, pair->Temp_0, k@));
        s
    }

    /// The address of element `index`, panicking when the index is out of bounds.
    pub fn build_checked_gep_array(&mut self, elem_ty: &LlvmType, array_size: usize, ptr: Value, index: Value) -> (r: Value)
        requires
            old(self).temps() + 2 <= u32::MAX,
            old(self).blocks() + 2 <= u32::MAX,
        ensures
            final(self).settled() == old(self).settled(),
            old(self).sound() ==> final(self).sound(),
            r == temp_after(old(self).temps(), 1),
            final(self).out() == old(self).out() + checked_gep_text(
                old(self).temps(),
                old(self).blocks(),
                old(self).term(),
                *elem_ty,
                array_size,
                ptr,
                index,
            ),
            final(self).temps() == old(self).temps() + 2,
            final(self).blocks() == old(self).blocks() + 2,
            !final(self).term(),
            final(self).keeps(old(self)),
    {
        let ghost o0 = self.out();
        let bound = size_const(array_size);
        let index_a = index.dup();
        let ghost index_a_g = index_a;
        let ghost bound_g = bound;
        let oob = self.build_icmp("uge", &LlvmType::I32, index_a, bound);
        let ghost o1 = self.out();
        let panic_label = self.fresh_block("idx_panic");
        let ok_label = self.fresh_block("idx_ok");
        self.guard(oob, panic_label.as_str(), ok_label.as_str(), "idx");
        let ghost o2 = self.out();
        let r = self.build_gep_array(elem_ty, array_size, ptr, index);
        proof {
            lemma_gep_text(
                o0,
                o1,
                o2,
                self.out(),
                old(self).temps(),
                old(self).blocks(),
                old(self).term(),
                *elem_ty,
                array_size,
                ptr,
                index,
                bound_g,
                panic_label@,
                ok_label@,
                index_a_g,
            );
        }
        r
    }

    /// Moves `val` to a fresh heap cell of its type's size and returns the cell.
    pub fn build_box(&mut self, pointee: &LlvmType, val: Value) -> (r: Value)
        requires
            old(self).temps() + 2 <= u32::MAX,
        ensures
            final(self).settled() == old(self).settled(),
            old(self).sound() ==> final(self).sound(),
            r == Value::Temp((old(self).temps() + 1) as u32),
            final(self).out() == old(self).out() + "  "@ + tmp(old(self).temps()) + " = ptrtoint ptr getelementptr ("@
                + llvm_text(*pointee) + ", ptr null, i32 1) to i64\n"@ + "  "@ + tmp((old(self).temps() + 1) as u32)
                + " = call ptr @lexora_alloc(i64 "@ + tmp(old(self).temps()) + ")\n"@ + "  store "@ + llvm_text(*pointee)
                + " "@ + value_text(val) + ", ptr "@ + tmp((old(self).temps() + 1) as u32) + "\n"@,
            final(self).temps() == old(self).temps() + 2,
            final(self).blocks() == old(self).blocks(),
            final(self).term() == old(self).term(),
            final(self).keeps(old(self)),
    {
        let pt = pointee.to_ir_str();
        let size = self.fresh_temp();
        push_str(&mut self.output, "  ");
        size.write_ir(&mut self.output);
        push_str(&mut self.output, " = ptrtoint ptr getelementptr (");
        push_str(&mut self.output, pt.as_str());
        push_str(&mut self.output, ", ptr null, i32 1) to i64\n");
        let raw = self.fresh_temp();
        push_str(&mut self.output, "  ");
        raw.write_ir(&mut self.output);
        push_str(&mut self.output, " = call ptr @lexora_alloc(i64 ");
        size.write_ir(&mut self.output);
        push_str(&mut self.output, ")\n");
        push_str(&mut self.output, "  store ");
        push_str(&mut self.output, pt.as_str());
        push_str(&mut self.output, " ");
        val.write_ir(&mut self.output);
        push_str(&mut self.output, ", ptr ");
        raw.write_ir(&mut self.output);
        push_str(&mut self.output, "\n");
        assert(self.out() =~= old(self).out() + "  "@ + tmp(old(self).temps()) + " = ptrtoint ptr getelementptr ("@
            + llvm_text(*pointee) + ", ptr null, i32 1) to i64\n"@ + "  "@ + tmp((old(self).temps() + 1) as u32)
            + " = call ptr @lexora_alloc(i64 "@ + tmp(old(self).temps()) + ")\n"@ + "  store "@ + llvm_text(*pointee)
            + " "@ + value_text(val) + ", ptr "@ + tmp((old(self).temps() + 1) as u32) + "\n"@);
        raw
    }

    /// Declares a private constant holding the bytes of `s` and a final NUL;
    /// returns its name and its length in bytes.
    pub fn add_string_global(&mut self, s: &str) -> (r: (Value, usize))
        requires
            old(self).nglobals() < u32::MAX,
            s.spec_bytes().len() < usize::MAX,
        ensures
            final(self).settled() == old(self).settled(),
            old(self).sound() ==> final(self).sound(),
            r.1 == s.spec_bytes().len() + 1,
            r.0 matches Value::Named(n) && n@ == "@str"@ + dec(old(self).nglobals() as nat),
            final(self).glob() == old(self).glob() + "@str"@ + dec(old(self).nglobals() as nat)
                + " = private unnamed_addr constant ["@ + dec(r.1 as nat) + " x i8] c\""@ + escaped(s.spec_bytes())
                + "\\00\"\n"@,
            final(self).nglobals() == old(self).nglobals() + 1,
            final(self).out() == old(self).out(),
            final(self).temps() == old(self).temps(),
            final(self).blocks() == old(self).blocks(),
            final(self).term() == old(self).term(),
            final(self).allocas() == old(self).allocas(),
            final(self).entry_pos() == old(self).entry_pos(),
            final(self).names() == old(self).names(),
    {
        let id = self.next_global;
        self.next_global = self.next_global + 1;
        let bytes = s.as_bytes();
        let len = bytes.len() + 1;
        let mut esc = String::new();
        let mut i: usize = 0;
        while i < bytes.len()
            invariant
                i <= bytes@.len(),
                esc@ == escaped(bytes@.take(i as int)),
            decreases bytes@.len() - i,
        {
            let b = bytes[i];
            if b == 92u8 || b == 34u8 || b < 32u8 || b >= 127u8 {
                push_char(&mut esc, '\\');
                super::value::push_hex(&mut esc, b as u64, 2);
            } else {
                push_char(&mut esc, b as char);
            }
            proof {
                let next = bytes@.take(i + 1);
                assert(next.drop_last() =~= bytes@.take(i as int));
                assert(next.last() == b);
                assert(esc@ =~= escaped(next));
            }
            i = i + 1;
        }
        assert(bytes@.take(bytes@.len() as int) =~= bytes@);
        let mut name = to_string("@str");
        push_u64(&mut name, id as u64);
        let mut line = String::new();
        push_str(&mut line, name.as_str());
        push_str(&mut line, " = private unnamed_addr constant [");
        push_u64(&mut line, len as u64);
        push_str(&mut line, " x i8] c\"");
        push_str(&mut line, esc.as_str());
        push_str(&mut line, "\\00\"\n");
        push_str(&mut self.globals, line.as_str());
        assert(self.glob() =~= old(self).glob() + "@str"@ + dec(old(self).nglobals() as nat)
            + " = private unnamed_addr constant ["@ + dec(len as nat) + " x i8] c\""@ + escaped(s.spec_bytes())
            + "\\00\"\n"@);
        (Value::Named(name), len)
    }
}

} // verus!
