//! Decoding of source symbols into instruction tags.
//!
//! Decoding is total: every symbol maps to exactly one tag, and any symbol
//! outside the recognized eight maps to [`Instractions::Nop`], which is
//! dropped when a whole source text is decoded. Decoding a text therefore
//! never fails; malformed input simply contributes no instructions.

use vstd::prelude::*;

verus! {

/// One instruction tag. The first eight are the opcodes that can appear in
/// an executable sequence; `Nop` marks an unrecognized symbol and exists only
/// transiently during decoding — [`spec_decode_program`] never keeps it.
#[derive(Clone, Copy, PartialEq, Eq, Structural, Debug)]
pub enum Instractions {
    PtrIncr,
    PtrDecr,
    ValIncr,
    ValDecr,
    PutChar,
    GetChar,
    BeginLoop,
    EndLoop,
    Nop,
}

/// Reserved for callers that want to report an unrecognized symbol
/// themselves; the decoder itself is total and never produces it.
#[derive(Clone, Copy, PartialEq, Eq, Structural, Debug)]
pub struct ParseError;

/// The symbol table: which tag a single source symbol denotes. Total over
/// all symbols; everything outside the eight opcode glyphs is `Nop`.
pub open spec fn spec_decode(c: char) -> Instractions {
    if c == '😅' {
        Instractions::PtrIncr
    } else if c == '😭' {
        Instractions::PtrDecr
    } else if c == '😘' {
        Instractions::ValIncr
    } else if c == '😚' {
        Instractions::ValDecr
    } else if c == '💦' {
        Instractions::PutChar
    } else if c == '⁉' {
        Instractions::GetChar
    } else if c == '✋' {
        Instractions::BeginLoop
    } else if c == '🤟' {
        Instractions::EndLoop
    } else {
        Instractions::Nop
    }
}

/// The instruction sequence a whole source text decodes to: each symbol is
/// decoded once, in order, and every `Nop` result is dropped.
pub open spec fn spec_decode_program(s: Seq<char>) -> Seq<Instractions>
    decreases s.len(),
{
    if s.len() == 0 {
        Seq::empty()
    } else {
        let rest = spec_decode_program(s.drop_last());
        if spec_decode(s.last()) == Instractions::Nop {
            rest
        } else {
            rest.push(spec_decode(s.last()))
        }
    }
}

impl core::convert::From<char> for Instractions {
    /// Decode one symbol.
    fn from(c: char) -> (r: Self) {
        match c {
            '😅' => Instractions::PtrIncr,
            '😭' => Instractions::PtrDecr,
            '😘' => Instractions::ValIncr,
            '😚' => Instractions::ValDecr,
            '💦' => Instractions::PutChar,
            '⁉' => Instractions::GetChar,
            '✋' => Instractions::BeginLoop,
            '🤟' => Instractions::EndLoop,
            _ => Instractions::Nop,
        }
    }
}

impl vstd::std_specs::convert::FromSpecImpl<char> for Instractions {
    open spec fn obeys_from_spec() -> bool {
        true
    }

    open spec fn from_spec(c: char) -> Self {
        spec_decode(c)
    }
}

/// The symbols that decode to an opcode rather than to `Nop`.
pub open spec fn is_opcode_symbol(c: char) -> bool {
    spec_decode(c) != Instractions::Nop
}

/// The recognized glyphs of a source text, in order, with everything else
/// dropped.
pub open spec fn opcode_symbols_of(s: Seq<char>) -> Seq<char>
    decreases s.len(),
{
    if s.len() == 0 {
        s
    } else if is_opcode_symbol(s.last()) {
        opcode_symbols_of(s.drop_last()).push(s.last())
    } else {
        opcode_symbols_of(s.drop_last())
    }
}

/// Decoding sees only the recognized glyphs: a text decodes to the same
/// program as its recognized subsequence alone. Unrecognized symbols may
/// therefore be inserted, deleted or repeated at any positions without
/// changing the decoded program.
pub proof fn lemma_decode_sees_only_opcode_symbols(s: Seq<char>)
    ensures
        spec_decode_program(opcode_symbols_of(s)) == spec_decode_program(s),
    decreases s.len(),
{
    if s.len() > 0 {
        lemma_decode_sees_only_opcode_symbols(s.drop_last());
        let sub = opcode_symbols_of(s.drop_last());
        if is_opcode_symbol(s.last()) {
            assert(sub.push(s.last()).drop_last() =~= sub);
            assert(sub.push(s.last()).last() == s.last());
        }
    }
}

/// Two source texts with the same recognized glyphs, in the same order,
/// decode to the same program, whatever unrecognized symbols stand around
/// or between them in either.
pub proof fn lemma_same_opcode_symbols_same_program(s1: Seq<char>, s2: Seq<char>)
    requires
        opcode_symbols_of(s1) == opcode_symbols_of(s2),
    ensures
        spec_decode_program(s1) == spec_decode_program(s2),
{
    lemma_decode_sees_only_opcode_symbols(s1);
    lemma_decode_sees_only_opcode_symbols(s2);
}

/// The symbol table is injective on the opcodes: two symbols that decode to
/// the same tag other than `Nop` are the same symbol, so each opcode has
/// exactly one glyph.
pub proof fn lemma_decode_injective_on_opcodes(a: char, b: char)
    requires
        spec_decode(a) == spec_decode(b),
        spec_decode(a) != Instractions::Nop,
    ensures
        a == b,
{
}

/// A decoded program is clean: it contains only the eight opcode tags, never
/// `Nop` — unrecognized symbols are dropped, not kept.
pub proof fn lemma_decoded_program_clean(s: Seq<char>)
    ensures
        forall|i: int|
            0 <= i < spec_decode_program(s).len() ==> #[trigger] spec_decode_program(s)[i]
                != Instractions::Nop,
    decreases s.len(),
{
    if s.len() > 0 {
        lemma_decoded_program_clean(s.drop_last());
    }
}

/// A symbol outside the recognized eight contributes nothing: inserting it
/// anywhere in a source text, any number of times, leaves the decoded
/// instruction sequence unchanged.
pub proof fn lemma_ignored_symbol_adds_nothing(s: Seq<char>, i: int, c: char)
    requires
        0 <= i <= s.len(),
        spec_decode(c) == Instractions::Nop,
    ensures
        spec_decode_program(s.insert(i, c)) == spec_decode_program(s),
    decreases s.len(),
{
    let t = s.insert(i, c);
    if i == s.len() {
        assert(t.last() == c);
        assert(t.drop_last() =~= s);
    } else {
        assert(t.last() == s.last());
        assert(t.drop_last() =~= s.drop_last().insert(i, c));
        lemma_ignored_symbol_adds_nothing(s.drop_last(), i, c);
    }
}

} // verus!
