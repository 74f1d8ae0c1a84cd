//! Writing the assembly text of a module's sections: functions, data and bss
//! symbols in address order, with the bytes between them dumped raw.
use vstd::prelude::*;
use vstd::slice::slice_subrange;

use crate::data::{data_text, le_value, read_le, window, write_assembly, DataError, DataLayout};
use crate::lookup::SymbolLookup;
use crate::section::{Section, SectionSpec};
use crate::delinks::last_index_of;
use crate::symbol::{first_at, addr_sorted, InstructionMode, SymData, SymFunction, SymbolKind, Symbol};
use crate::text::{byte_literal, hex_literal, push_byte, push_hex};

verus! {

/// `bytes` as `0xNN` literals separated by `, `.
pub open spec fn byte_list(bytes: Seq<u8>) -> Seq<char>
    decreases bytes.len(),
{
    if bytes.len() == 0 {
        Seq::empty()
    } else if bytes.len() == 1 {
        byte_literal(bytes[0])
    } else {
        byte_list(bytes.drop_last()) + ", "@ + byte_literal(bytes.last())
    }
}

/// The raw dump of `bytes`: `.byte` lines of at most 16 values.
pub open spec fn byte_lines(bytes: Seq<u8>) -> Seq<char>
    decreases bytes.len(),
{
    if bytes.len() == 0 {
        Seq::empty()
    } else {
        let k = if bytes.len() < 16 {
            bytes.len() as int
        } else {
            16
        };
        "    .byte "@ + byte_list(bytes.subrange(0, k)) + "\n"@ + byte_lines(bytes.subrange(k, bytes.len() as int))
    }
}

/// The bytes of `bytes` cut into the lines of its raw dump.
pub open spec fn byte_rows(bytes: Seq<u8>) -> Seq<Seq<u8>>
    decreases bytes.len(),
{
    if bytes.len() == 0 {
        Seq::empty()
    } else {
        let k = if bytes.len() < 16 {
            bytes.len() as int
        } else {
            16
        };
        seq![bytes.subrange(0, k)] + byte_rows(bytes.subrange(k, bytes.len() as int))
    }
}

/// The raw dump is its rows, each written as one `.byte` line.
pub open spec fn rows_text(rows: Seq<Seq<u8>>) -> Seq<char>
    decreases rows.len(),
{
    if rows.len() == 0 {
        Seq::empty()
    } else {
        "    .byte "@ + byte_list(rows[0]) + "\n"@ + rows_text(rows.drop_first())
    }
}

/// The rows in order, put back together.
pub open spec fn concat_rows(rows: Seq<Seq<u8>>) -> Seq<u8>
    decreases rows.len(),
{
    if rows.len() == 0 {
        Seq::empty()
    } else {
        rows[0] + concat_rows(rows.drop_first())
    }
}

/// A raw dump lists every byte once and in order: its lines are the rows of
/// at most 16 bytes whose concatenation is the dumped bytes.
pub proof fn lemma_byte_lines_round_trip(bytes: Seq<u8>)
    ensures
        byte_lines(bytes) == rows_text(byte_rows(bytes)),
        concat_rows(byte_rows(bytes)) == bytes,
        forall|i: int|
            0 <= i < byte_rows(bytes).len() ==> 1 <= (#[trigger] byte_rows(bytes)[i]).len() <= 16,
    decreases bytes.len(),
{
    if bytes.len() > 0 {
        let k = if bytes.len() < 16 {
            bytes.len() as int
        } else {
            16
        };
        let rest = bytes.subrange(k, bytes.len() as int);
        lemma_byte_lines_round_trip(rest);
        let rows = byte_rows(bytes);
        assert(rows.drop_first() =~= byte_rows(rest));
        assert(bytes.subrange(0, k) + rest =~= bytes);
        assert forall|i: int| 0 <= i < rows.len() implies 1 <= (#[trigger] rows[i]).len() <= 16 by {
            if i > 0 {
                assert(rows[i] == byte_rows(rest)[i - 1]);
            }
        }
    }
}

/// A section that no symbol falls in is written as its directive and a raw
/// dump of all its bytes, whose rows put back together are those bytes.
pub proof fn lemma_plain_section_round_trip(sec: SectionSpec, code: Seq<u8>, syms: Seq<Symbol>, look: SymbolLookup)
    requires
        sec.wf(),
        code.len() == sec.end - sec.start,
        code.len() > 0,
        forall|i: int| 0 <= i < syms.len() ==> !((#[trigger] syms[i]).addr >= sec.start && syms[i].addr < sec.end),
    ensures
        section_text(sec, Some(code), syms, look) == Ok::<Seq<char>, DisError>(
            section_directive(sec.name) + (rows_text(byte_rows(code)) + "\n"@),
        ),
        concat_rows(byte_rows(code)) == code,
{
    lemma_walk_skips(sec, code, syms, look, 0);
    lemma_byte_lines_round_trip(code);
    assert(code.subrange(0, code.len() as int) =~= code);
}

proof fn lemma_walk_skips(sec: SectionSpec, code: Seq<u8>, syms: Seq<Symbol>, look: SymbolLookup, i: nat)
    requires
        forall|k: int| 0 <= k < syms.len() ==> !((#[trigger] syms[k]).addr >= sec.start && syms[k].addr < sec.end),
    ensures
        section_walk(sec, Some(code), syms, look, i, 0) == Ok::<Seq<char>, DisError>(section_tail(sec, Some(code), 0)),
    decreases syms.len() - i,
{
    if i < syms.len() {
        assert(!(syms[i as int].addr >= sec.start && syms[i as int].addr < sec.end));
        lemma_walk_skips(sec, code, syms, look, i + 1);
        let step = walk_step(sec, Some(code), syms, look, i as int, 0);
        assert(step == Ok::<(Seq<char>, nat), DisError>((Seq::empty(), 0)));
        assert(Seq::<char>::empty() + section_tail(sec, Some(code), 0) =~= section_tail(sec, Some(code), 0));
    }
}

/// Appends the raw dump of `code[offset..end_offset]`.
pub fn dump_bytes(code: &[u8], offset: u32, end_offset: u32, out: &mut String)
    requires
        offset <= end_offset <= code@.len(),
    ensures
        final(out)@ == old(out)@ + byte_lines(code@.subrange(offset as int, end_offset as int)),
{
    let ghost out0 = out@;
    let mut offset = offset;
    let ghost first = offset;
    while offset < end_offset
        invariant
            first <= offset <= end_offset <= code@.len(),
            byte_lines(code@.subrange(first as int, end_offset as int)) =~= out@.subrange(
                out0.len() as int,
                out@.len() as int,
            ) + byte_lines(code@.subrange(offset as int, end_offset as int)),
            out@.len() >= out0.len(),
            out@.subrange(0, out0.len() as int) == out0,
        decreases end_offset - offset,
    {
        let ghost before = out@;
        let ghost start = offset;
        let count: u32 = if end_offset - offset < 16 {
            end_offset - offset
        } else {
            16
        };
        out.append("    .byte ");
        let ghost line_start = out@;
        let mut i: u32 = 0;
        while i < count
            invariant
                i <= count <= 16,
                start + count <= end_offset <= code@.len(),
                offset == start + i,
                out@ == line_start + byte_list(code@.subrange(start as int, offset as int)),
            decreases count - i,
        {
            let ghost pre = code@.subrange(start as int, offset as int);
            if i != 0 {
                out.append(", ");
            }
            push_byte(out, code[offset as usize]);
            offset += 1;
            i += 1;
            proof {
                let cur = code@.subrange(start as int, offset as int);
                assert(cur.drop_last() =~= pre);
                if i == 1 {
                    assert(pre.len() == 0);
                }
            }
        }
        out.append("\n");
        proof {
            let s = code@.subrange(start as int, end_offset as int);
            assert(s.subrange(0, count as int) =~= code@.subrange(start as int, offset as int));
            assert(s.subrange(count as int, s.len() as int) =~= code@.subrange(offset as int, end_offset as int));
            assert(out@.subrange(out0.len() as int, out@.len() as int) =~= before.subrange(
                out0.len() as int,
                before.len() as int,
            ) + ("    .byte "@ + byte_list(s.subrange(0, count as int)) + "\n"@));
            assert(out@.subrange(0, out0.len() as int) =~= out0) by {
                assert(out@.subrange(0, before.len() as int) =~= before);
            }
        }
    }
    assert(out@ =~= out0 + out@.subrange(out0.len() as int, out@.len() as int));
}

/// How far a symbol reaches when it states no size: to the next symbol, or
/// to the end of its section if that comes first.
pub open spec fn size_to_next_spec(section: SectionSpec, symbol: Symbol, next: Option<Symbol>) -> int {
    match next {
        Some(n) => (if n.addr < section.end {
            n.addr
        } else {
            section.end
        }) - symbol.addr,
        None => section.end - symbol.addr,
    }
}

/// The size of a symbol that states none: the distance to the next symbol,
/// clamped to the end of the section.
pub fn size_to_next_symbol(section: &Section, symbol: &Symbol, next: Option<&Symbol>) -> (r: u32)
    requires
        symbol.addr <= section@.end,
        next is Some ==> next->0.addr >= symbol.addr,
    ensures
        r == size_to_next_spec(
            section@,
            *symbol,
            match next {
                Some(n) => Some(*n),
                None => None,
            },
        ),
{
    match next {
        Some(n) => {
            let bound = if n.addr < section.end_address() {
                n.addr
            } else {
                section.end_address()
            };
            bound - symbol.addr
        },
        None => section.end_address() - symbol.addr,
    }
}

/// What the ARM decoder gives for the instruction word `code` at `pc`: its
/// text, and the target address of a direct branch.
pub uninterp spec fn arm_ins(code: u32, pc: u32) -> (Seq<char>, Option<u32>);

/// What the Thumb decoder gives for the halfwords in `code` (the first in the
/// low half) at `pc`: its text, its size in bytes, and the target address of
/// a direct branch.
pub uninterp spec fn thumb_ins(code: u32, pc: u32) -> (Seq<char>, u32, Option<u32>);

/// Relies on unarm::parse_arm and the `Display` of its result (ARMv5TE, the
/// DS's ARM9): the text and the target of a direct `b`, `bl` or `blx` depend
/// on the word and its address alone.
#[verifier::external_body]
fn decode_arm(code: u32, pc: u32) -> (r: (String, Option<u32>))
    ensures
        (r.0@, r.1) == arm_ins(code, pc),
{
    let options = unarm::Options { version: unarm::Version::V5Te, ..Default::default() };
    let ins = unarm::parse_arm(code, pc, &options);
    let target = match ins {
        unarm::Ins::B { target, .. } => Some(target.addr),
        unarm::Ins::Bl { target, .. } => Some(target.addr),
        unarm::Ins::Blx { target: unarm::BlxTarget::Direct(target), .. } => Some(target.addr),
        _ => None,
    };
    (ins.display(&options).to_string(), target)
}

/// Relies on unarm::parse_thumb and the `Display` of its instruction
/// (ARMv5TE): the text, the size it reports and the target of a direct
/// branch depend on the halfwords and their address alone.
#[verifier::external_body]
fn decode_thumb(code: u32, pc: u32) -> (r: (String, u32, Option<u32>))
    ensures
        (r.0@, r.1, r.2) == thumb_ins(code, pc),
{
    let options = unarm::Options { version: unarm::Version::V5Te, ..Default::default() };
    let (ins, size) = unarm::parse_thumb(code, pc, &options);
    let target = match ins {
        unarm::Ins::B { target, .. } => Some(target.addr),
        unarm::Ins::Bl { target, .. } => Some(target.addr),
        unarm::Ins::Blx { target: unarm::BlxTarget::Direct(target), .. } => Some(target.addr),
        _ => None,
    };
    (ins.display(&options).to_string(), size, target)
}

/// Whether the first local symbol at `address` is a pool constant.
pub open spec fn pool_at(local: Seq<Symbol>, address: u32) -> bool {
    match first_at(local, address) {
        Some(i) => local[i].kind is PoolConstant,
        None => false,
    }
}

/// An instruction's text with its branch target (from the last `#`) replaced
/// by a symbol name.
pub open spec fn with_target_name(text: Seq<char>, name: Seq<char>) -> Seq<char> {
    if last_index_of(text, '#') >= 0 {
        text.subrange(0, last_index_of(text, '#')) + name
    } else {
        text
    }
}

/// The text, size and branch target of the instruction at `code[at..]` (at
/// address `pc`) in `mode`; a Thumb size other than 4 counts as 2.
pub open spec fn decoded(mode: InstructionMode, word: u32, pc: u32) -> (Seq<char>, nat, Option<u32>) {
    if mode == InstructionMode::Arm {
        (arm_ins(word, pc).0, 4, arm_ins(word, pc).1)
    } else {
        (thumb_ins(word, pc).0, if thumb_ins(word, pc).1 == 4 {
            4
        } else {
            2
        }, thumb_ins(word, pc).2)
    }
}

/// The shown text of a decoded instruction: a branch target that names a
/// symbol is written by name.
pub open spec fn shown_text(look: SymbolLookup, text: Seq<char>, target: Option<u32>, pc: u32) -> Seq<char> {
    match target {
        Some(d) => match look.name_for(pc, d) {
            Some(n) => with_target_name(text, n),
            None => text,
        },
        None => text,
    }
}

/// The lines of the function bytes `code[at..end)`, whose section starts at
/// `base`: a pool constant is a `.word` (by name where it refers to a
/// symbol), anything else an instruction; a tail too short for its
/// instruction is dumped raw.
pub open spec fn ins_lines(
    mode: InstructionMode,
    code: Seq<u8>,
    at: nat,
    end: nat,
    base: u32,
    look: SymbolLookup,
) -> Result<Seq<char>, DisError>
    decreases end - at,
{
    if at >= end || end > code.len() {
        Ok(Seq::empty())
    } else {
        let pc = (base + at) as u32;
        let word = le_value(window(code, at as int, 4)) as u32;
        if pool_at(look.symbol_map@, pc) && at + 4 <= end {
            match look.directive(pc, word) {
                Err(e) => Err(DisError::Data(DataError::Lookup(e))),
                Ok(Some(t)) => then_text("    "@ + t + "\n"@, ins_lines(mode, code, (at + 4) as nat, end, base, look)),
                Ok(None) => then_text(
                    "    .word "@ + hex_literal(word as nat) + "\n"@,
                    ins_lines(mode, code, (at + 4) as nat, end, base, look),
                ),
            }
        } else {
            let d = decoded(mode, word, pc);
            if at + d.1 > end {
                Ok(byte_lines(code.subrange(at as int, end as int)))
            } else {
                then_text(
                    "    "@ + shown_text(look, d.0, d.2, pc) + "\n"@,
                    ins_lines(mode, code, (at + d.1) as nat, end, base, look),
                )
            }
        }
    }
}

/// Why a section could not be written.
#[derive(Clone, Copy, Debug, PartialEq, Eq, Structural)]
pub enum DisError {
    /// A function or data symbol lies in a section without bytes.
    MissingCode,
    /// A symbol reaches past the end of its section.
    OutOfRange,
    Data(DataError),
}

/// The line that opens a section.
pub open spec fn section_directive(name: Seq<char>) -> Seq<char> {
    if name == ".text"@ {
        "    .text\n"@
    } else {
        "    .section "@ + name + ", 4, 1, 4\n"@
    }
}

/// Puts `s` before a text that may have failed.
pub open spec fn then_text(s: Seq<char>, r: Result<Seq<char>, DisError>) -> Result<Seq<char>, DisError> {
    match r {
        Ok(t) => Ok(s + t),
        Err(e) => Err(e),
    }
}

/// The symbol after `syms[i]`, if any.
pub open spec fn next_of(syms: Seq<Symbol>, i: int) -> Option<Symbol> {
    if i + 1 < syms.len() {
        Some(syms[i + 1])
    } else {
        None
    }
}

/// What ends a section once its symbols are written: the bytes from `offset`
/// to the end, raw, or a `.space` where the section has no bytes.
pub open spec fn section_tail(sec: SectionSpec, code: Option<Seq<u8>>, offset: nat) -> Seq<char> {
    let size = (sec.end - sec.start) as nat;
    if offset < size {
        match code {
            Some(c) => byte_lines(c.subrange(offset as int, size as int)) + "\n"@,
            None => "    .space "@ + hex_literal((size - offset) as nat) + "\n"@,
        }
    } else {
        Seq::empty()
    }
}

/// What the symbol `syms[i]` adds to a section `offset` bytes into it, and
/// how far into the section that leaves the text: symbols outside the section
/// and labels, pool constants and jump tables (written with their function)
/// add nothing.
pub open spec fn walk_step(
    sec: SectionSpec,
    code: Option<Seq<u8>>,
    syms: Seq<Symbol>,
    look: SymbolLookup,
    i: int,
    offset: nat,
) -> Result<(Seq<char>, nat), DisError> {
    let s = syms[i];
    let size = (sec.end - sec.start) as nat;
    let start = (s.addr - sec.start) as nat;
    if s.addr < sec.start || s.addr >= sec.end {
        Ok((Seq::empty(), offset))
    } else {
        match s.kind {
            SymbolKind::Function(f) => {
                let end = (start + f.size) as nat;
                match code {
                    None => Err(DisError::MissingCode),
                    Some(c) => if end > size {
                        Err(DisError::OutOfRange)
                    } else {
                        match ins_lines(f.mode, c, start, end, sec.start, look) {
                            Err(e) => Err(e),
                            Ok(body) => Ok(
                                (
                                    (if offset < start {
                                        byte_lines(c.subrange(offset as int, start as int)) + "\n"@
                                    } else {
                                        Seq::empty()
                                    }) + s.name@ + ":\n"@ + body + "\n"@,
                                    end,
                                ),
                            ),
                        }
                    },
                }
            },
            SymbolKind::Data(d) => {
                let len: nat = match d.spec_size() {
                    Some(n) => n as nat,
                    None => size_to_next_spec(sec, s, next_of(syms, i)) as nat,
                };
                match code {
                    None => Err(DisError::MissingCode),
                    Some(c) => if start + len > size {
                        Err(DisError::OutOfRange)
                    } else {
                        match data_text(
                            DataLayout { data: d, addr: s.addr, bytes: c.subrange(start as int, (start + len) as int) },
                            look,
                            0,
                            0,
                            false,
                        ) {
                            Err(e) => Err(DisError::Data(DataError::Lookup(e))),
                            Ok(t) => Ok(
                                (
                                    s.name@ + ":"@ + (if s.ambiguous {
                                        " ; ambiguous"@
                                    } else {
                                        Seq::empty()
                                    }) + "\n"@ + t + "\n"@,
                                    (start + len) as nat,
                                ),
                            ),
                        }
                    },
                }
            },
            SymbolKind::Bss(b) => {
                let len: nat = match b.size {
                    Some(n) => n as nat,
                    None => size_to_next_spec(sec, s, next_of(syms, i)) as nat,
                };
                if offset + len > size {
                    Err(DisError::OutOfRange)
                } else {
                    Ok((s.name@ + ":\n    .space "@ + hex_literal(len) + "\n"@, (offset + len) as nat))
                }
            },
            _ => Ok((Seq::empty(), offset)),
        }
    }
}

/// The text of a section's symbols from `syms[i]` on, `offset` bytes into the
/// section having been written, and its tail.
pub open spec fn section_walk(
    sec: SectionSpec,
    code: Option<Seq<u8>>,
    syms: Seq<Symbol>,
    look: SymbolLookup,
    i: nat,
    offset: nat,
) -> Result<Seq<char>, DisError>
    decreases syms.len() - i,
{
    if i >= syms.len() {
        Ok(section_tail(sec, code, offset))
    } else {
        match walk_step(sec, code, syms, look, i as int, offset) {
            Err(e) => Err(e),
            Ok((piece, next)) => then_text(piece, section_walk(sec, code, syms, look, i + 1, next)),
        }
    }
}

/// The whole text of a section: its directive, then its symbols.
pub open spec fn section_text(sec: SectionSpec, code: Option<Seq<u8>>, syms: Seq<Symbol>, look: SymbolLookup) -> Result<
    Seq<char>,
    DisError,
> {
    then_text(section_directive(sec.name), section_walk(sec, code, syms, look, 0, 0))
}

/// The bytes that a section has, if it has any.
pub open spec fn code_view(code: Option<&[u8]>) -> Option<Seq<u8>> {
    match code {
        Some(c) => Some(c@),
        None => None,
    }
}

proof fn lemma_then_assoc(a: Seq<char>, b: Seq<char>, x: Result<Seq<char>, DisError>)
    ensures
        then_text(a, then_text(b, x)) == then_text(a + b, x),
{
    if let Ok(t) = x {
        assert(a + (b + t) =~= (a + b) + t);
    }
}

/// Replaces the branch target of an instruction's text by `name`.
fn name_target(text: &str, name: &str) -> (r: String)
    ensures
        r@ == with_target_name(text@, name@),
{
    let n = text.unicode_len();
    let mut i: usize = n;
    assert(text@.subrange(0, n as int) =~= text@);
    while i > 0 && text.get_char(i - 1) != '#'
        invariant
            i <= n == text@.len(),
            last_index_of(text@, '#') == last_index_of(text@.subrange(0, i as int), '#'),
        decreases i,
    {
        assert(text@.subrange(0, i as int).drop_last() =~= text@.subrange(0, i - 1));
        i -= 1;
    }
    if i == 0 {
        assert(text@.subrange(0, 0) =~= Seq::<char>::empty());
        return text.to_owned();
    }
    assert(text@.subrange(0, i as int).last() == '#');
    let mut r = text.substring_char(0, i - 1).to_owned();
    r.append(name);
    r
}

/// Appends the lines of the function bytes `code[at..end)` of a section
/// that starts at `base`.
#[verifier::rlimit(60)]
pub fn write_instructions(
    out: &mut String,
    mode: InstructionMode,
    code: &[u8],
    at: u32,
    end: u32,
    base: u32,
    lookup: &SymbolLookup,
) -> (r: Result<(), DisError>)
    requires
        at <= end <= code@.len(),
        base as int + end <= 0x1_0000_0000,
    ensures
        match ins_lines(mode, code@, at as nat, end as nat, base, *lookup) {
            Ok(t) => r == Ok::<(), DisError>(()) && final(out)@ == old(out)@ + t,
            Err(e) => r == Err::<(), DisError>(e),
        },
{
    let ghost out0 = out@;
    let ghost at0 = at;
    let mut pos = at;
    assert(out@.subrange(out0.len() as int, out@.len() as int) =~= Seq::<char>::empty());
    while pos < end
        invariant
            at0 <= pos <= end <= code@.len(),
            at0 == at,
            base as int + end <= 0x1_0000_0000,
            out0 == old(out)@,
            out@.len() >= out0.len(),
            out@.subrange(0, out0.len() as int) == out0,
            ins_lines(mode, code@, at0 as nat, end as nat, base, *lookup) == then_text(
                out@.subrange(out0.len() as int, out@.len() as int),
                ins_lines(mode, code@, pos as nat, end as nat, base, *lookup),
            ),
        decreases end - pos,
    {
        let ghost before = out@;
        let ghost at1 = pos;
        let pc = base + pos;
        let word = read_le(code, pos as usize, 4);
        proof {
            crate::data::lemma_word_fits(code@, pos as int);
        }
        assert(word == le_value(window(code@, pos as int, 4)) as u32);
        let is_pool = match lookup.symbol_map.by_address(pc) {
            Some((_, s)) => match s.kind {
                SymbolKind::PoolConstant => true,
                _ => false,
            },
            None => false,
        };
        let ghost piece: Seq<char>;
        if is_pool && end - pos >= 4 {
            let mut pending = false;
            match lookup.write_symbol(out, pc, word, &mut pending, "    ") {
                Err(e) => {
                    assert(ins_lines(mode, code@, pos as nat, end as nat, base, *lookup) == Err::<Seq<char>, DisError>(
                        DisError::Data(DataError::Lookup(e)),
                    ));
                    return Err(DisError::Data(DataError::Lookup(e)));
                },
                Ok(true) => {
                    proof {
                        piece = "    "@ + lookup.directive(pc, word)->Ok_0->Some_0 + "\n"@;
                    }
                },
                Ok(false) => {
                    out.append("    .word ");
                    push_hex(out, word as u64);
                    out.append("\n");
                    proof {
                        piece = "    .word "@ + hex_literal(word as nat) + "\n"@;
                    }
                },
            }
            pos += 4;
        } else {
            let (text, size, target) = match mode {
                InstructionMode::Arm => {
                    let (t, g) = decode_arm(word, pc);
                    (t, 4u32, g)
                },
                InstructionMode::Thumb => {
                    let (t, z, g) = decode_thumb(word, pc);
                    (t, if z == 4 {
                        4u32
                    } else {
                        2u32
                    }, g)
                },
            };
            if size > end - pos {
                dump_bytes(code, pos, end, out);
                proof {
                    piece = byte_lines(code@.subrange(pos as int, end as int));
                }
                assert(out@ =~= before + piece);
                assert(ins_lines(mode, code@, pos as nat, end as nat, base, *lookup) == Ok::<Seq<char>, DisError>(piece));
                assert(ins_lines(mode, code@, end as nat, end as nat, base, *lookup) == Ok::<Seq<char>, DisError>(Seq::empty()));
                pos = end;
            } else {
                out.append("    ");
                let named = match target {
                    Some(d) => lookup.lookup_symbol_name(pc, d),
                    None => None,
                };
                match named {
                    Some(n) => {
                        let shown = name_target(text.as_str(), n);
                        out.append(shown.as_str());
                    },
                    None => out.append(text.as_str()),
                }
                out.append("\n");
                proof {
                    piece = "    "@ + shown_text(*lookup, text@, target, pc) + "\n"@;
                }
                pos += size;
            }
        }
        proof {
            let p = out@.subrange(before.len() as int, out@.len() as int);
            assert(out@ =~= before + piece);
            assert(p =~= piece);
            assert(ins_lines(mode, code@, at1 as nat, end as nat, base, *lookup) == then_text(
                piece,
                ins_lines(mode, code@, pos as nat, end as nat, base, *lookup),
            ));
            lemma_then_assoc(
                before.subrange(out0.len() as int, before.len() as int),
                piece,
                ins_lines(mode, code@, pos as nat, end as nat, base, *lookup),
            );
            assert(out@.subrange(out0.len() as int, out@.len() as int) =~= before.subrange(out0.len() as int, before.len() as int) + piece);
            assert(out@.subrange(0, out0.len() as int) =~= out0) by {
                assert(out@.subrange(0, before.len() as int) =~= before);
            }
        }
    }
    proof {
        let body = out@.subrange(out0.len() as int, out@.len() as int);
        assert(body + Seq::<char>::empty() =~= body);
        assert(out@ =~= out0 + body);
    }
    Ok(())
}

/// Writes a section: its directive, then its functions, data and bss symbols
/// in address order, with the bytes between and after them dumped raw.
/// `code` holds the section's bytes, where it has any.
#[verifier::rlimit(40)]
pub fn write_section(
    out: &mut String,
    section: &Section,
    code: Option<&[u8]>,
    symbols: &[Symbol],
    lookup: &SymbolLookup,
) -> (r: Result<(), DisError>)
    requires
        section@.wf(),
        code is Some ==> code->0@.len() == section@.end - section@.start,
        addr_sorted(symbols@),
    ensures
        match section_text(section@, code_view(code), symbols@, *lookup) {
            Ok(t) => r == Ok::<(), DisError>(()) && final(out)@ == old(out)@ + t,
            Err(e) => r == Err::<(), DisError>(e),
        },
{
    let ghost sec = section@;
    let ghost out0 = out@;
    proof {
        reveal_strlit(".text");
    }
    if str_is_text(section.name()) {
        out.append("    .text\n");
    } else {
        out.append("    .section ");
        out.append(section.name());
        out.append(", 4, 1, 4\n");
    }
    assert(out@ =~= out0 + section_directive(sec.name));
    let ghost out1 = out@;
    let size: u64 = section.size() as u64;
    let sec_start = section.start_address();
    let sec_end = section.end_address();
    let mut offset: u64 = 0;
    let mut i: usize = 0;
    assert(out@.subrange(out1.len() as int, out@.len() as int) =~= Seq::<char>::empty());
    assert(out@.subrange(0, out1.len() as int) =~= out1);
    while i < symbols.len()
        invariant
            sec == section@,
            sec.wf(),
            size == sec.end - sec.start,
            sec_start == sec.start,
            sec_end == sec.end,
            code is Some ==> code->0@.len() == size,
            addr_sorted(symbols@),
            i <= symbols@.len(),
            offset <= size,
            out1 == old(out)@ + section_directive(sec.name),
            out@.len() >= out1.len(),
            out@.subrange(0, out1.len() as int) == out1,
            section_walk(sec, code_view(code), symbols@, *lookup, 0, 0) == then_text(
                out@.subrange(out1.len() as int, out@.len() as int),
                section_walk(sec, code_view(code), symbols@, *lookup, i as nat, offset as nat),
            ),
        decreases symbols@.len() - i,
    {
        let ghost before = out@;
        let ghost i0 = i;
        let ghost offset0 = offset;
        offset = write_symbol_at(out, section, code, symbols, i, offset, lookup)?;
        i += 1;
        proof {
            let piece = out@.subrange(before.len() as int, out@.len() as int);
            assert(out@ =~= before + piece);
            let step = walk_step(sec, code_view(code), symbols@, *lookup, i0 as int, offset0 as nat);
            assert(step is Ok);
            assert(piece =~= step->Ok_0.0);
            assert(section_walk(sec, code_view(code), symbols@, *lookup, i0 as nat, offset0 as nat) == then_text(
                piece,
                section_walk(sec, code_view(code), symbols@, *lookup, i as nat, offset as nat),
            ));
            lemma_then_assoc(
                before.subrange(out1.len() as int, before.len() as int),
                piece,
                section_walk(sec, code_view(code), symbols@, *lookup, i as nat, offset as nat),
            );
            assert(out@.subrange(out1.len() as int, out@.len() as int) =~= before.subrange(
                out1.len() as int,
                before.len() as int,
            ) + piece);
            assert(out@.subrange(0, out1.len() as int) =~= out1) by {
                assert(out@.subrange(0, before.len() as int) =~= before);
            }
        }
    }
    let ghost before = out@;
    write_tail(out, section, code, offset);
    proof {
        let piece = out@.subrange(before.len() as int, out@.len() as int);
        assert(out@ =~= before + piece);
        assert(piece =~= section_tail(sec, code_view(code), offset as nat));
        assert(out@ =~= out1 + (before.subrange(out1.len() as int, before.len() as int) + piece));
        assert(out@ =~= out0 + (section_directive(sec.name) + (before.subrange(out1.len() as int, before.len() as int) + piece)));
    }
    Ok(())
}

/// Writes the end of a section, `offset` bytes into it.
fn write_tail(out: &mut String, section: &Section, code: Option<&[u8]>, offset: u64)
    requires
        section@.wf(),
        code is Some ==> code->0@.len() == section@.end - section@.start,
        offset <= section@.end - section@.start,
    ensures
        final(out)@ == old(out)@ + section_tail(section@, code_view(code), offset as nat),
{
    let size: u64 = section.size() as u64;
    if offset < size {
        match code {
            Some(c) => {
                dump_bytes(c, offset as u32, size as u32, out);
                out.append("\n");
            },
            None => {
                out.append("    .space ");
                push_hex(out, size - offset);
                out.append("\n");
            },
        }
        assert(final(out)@ =~= old(out)@ + section_tail(section@, code_view(code), offset as nat));
    } else {
        assert(old(out)@ =~= old(out)@ + Seq::<char>::empty());
    }
}

/// Writes what the symbol `symbols[i]` adds to a section `offset` bytes into
/// it, and tells how far into the section that leaves the text.
fn write_symbol_at(
    out: &mut String,
    section: &Section,
    code: Option<&[u8]>,
    symbols: &[Symbol],
    i: usize,
    offset: u64,
    lookup: &SymbolLookup,
) -> (r: Result<u64, DisError>)
    requires
        section@.wf(),
        code is Some ==> code->0@.len() == section@.end - section@.start,
        addr_sorted(symbols@),
        i < symbols@.len(),
        offset <= section@.end - section@.start,
    ensures
        match walk_step(section@, code_view(code), symbols@, *lookup, i as int, offset as nat) {
            Err(e) => r == Err::<u64, DisError>(e),
            Ok((piece, next)) => r == Ok::<u64, DisError>(next as u64) && next <= section@.end - section@.start
                && final(out)@ == old(out)@ + piece,
        },
{
    let s = &symbols[i];
    let size: u64 = section.size() as u64;
    let sec_start = section.start_address();
    let next: Option<&Symbol> = if i + 1 < symbols.len() {
        Some(&symbols[i + 1])
    } else {
        None
    };
    if s.addr < sec_start || s.addr >= section.end_address() {
        assert(old(out)@ =~= old(out)@ + Seq::<char>::empty());
        return Ok(offset);
    }
    let start: u64 = (s.addr - sec_start) as u64;
    match s.kind {
        SymbolKind::Function(f) => write_function_at(out, section, code, symbols, i, offset, f, lookup),
        SymbolKind::Data(d) => write_data_at(out, section, code, symbols, i, offset, d, lookup),
        SymbolKind::Bss(b) => {
            let len: u64 = match b.size {
                Some(n) => n as u64,
                None => size_to_next_symbol(section, s, next) as u64,
            };
            if offset + len > size {
                return Err(DisError::OutOfRange);
            }
            let ghost out0 = out@;
            out.append(s.name.as_str());
            out.append(":\n    .space ");
            push_hex(out, len);
            out.append("\n");
            assert(out@ =~= out0 + (s.name@ + ":\n    .space "@ + hex_literal(len as nat) + "\n"@));
            Ok(offset + len)
        },
        _ => {
            assert(old(out)@ =~= old(out)@ + Seq::<char>::empty());
            Ok(offset)
        },
    }
}

fn write_function_at(
    out: &mut String,
    section: &Section,
    code: Option<&[u8]>,
    symbols: &[Symbol],
    i: usize,
    offset: u64,
    f: SymFunction,
    lookup: &SymbolLookup,
) -> (r: Result<u64, DisError>)
    requires
        section@.wf(),
        code is Some ==> code->0@.len() == section@.end - section@.start,
        i < symbols@.len(),
        section@.start <= symbols@[i as int].addr < section@.end,
        symbols@[i as int].kind == SymbolKind::Function(f),
        offset <= section@.end - section@.start,
    ensures
        match walk_step(section@, code_view(code), symbols@, *lookup, i as int, offset as nat) {
            Err(e) => r == Err::<u64, DisError>(e),
            Ok((piece, next)) => r == Ok::<u64, DisError>(next as u64) && next <= section@.end - section@.start
                && final(out)@ == old(out)@ + piece,
        },
{
    let s = &symbols[i];
    let size: u64 = section.size() as u64;
    let sec_start = section.start_address();
    let start: u64 = (s.addr - sec_start) as u64;
        let end: u64 = start + f.size as u64;
        let c = match code {
            Some(c) => c,
            None => {
                return Err(DisError::MissingCode);
            },
        };
        if end > size {
            return Err(DisError::OutOfRange);
        }
        let ghost out0 = out@;
        if offset < start {
            dump_bytes(c, offset as u32, start as u32, out);
            out.append("\n");
        }
        let ghost out1 = out@;
        out.append(s.name.as_str());
        out.append(":\n");
        let ghost out2 = out@;
        match write_instructions(out, f.mode, c, start as u32, end as u32, section.start_address(), lookup) {
            Ok(()) => {},
            Err(e) => {
                return Err(e);
            },
        }
        let ghost body = out@.subrange(out2.len() as int, out@.len() as int);
        assert(out@ =~= out2 + body);
        out.append("\n");
        assert(out@ =~= out1 + (s.name@ + ":\n"@ + body + "\n"@));
        assert(out@ =~= out0 + ((if offset < start {
            byte_lines(c@.subrange(offset as int, start as int)) + "\n"@
        } else {
            Seq::empty()
        }) + s.name@ + ":\n"@ + body + "\n"@));
        Ok(end)
}

fn write_data_at(
    out: &mut String,
    section: &Section,
    code: Option<&[u8]>,
    symbols: &[Symbol],
    i: usize,
    offset: u64,
    d: SymData,
    lookup: &SymbolLookup,
) -> (r: Result<u64, DisError>)
    requires
        section@.wf(),
        code is Some ==> code->0@.len() == section@.end - section@.start,
        addr_sorted(symbols@),
        i < symbols@.len(),
        section@.start <= symbols@[i as int].addr < section@.end,
        symbols@[i as int].kind == SymbolKind::Data(d),
        offset <= section@.end - section@.start,
    ensures
        match walk_step(section@, code_view(code), symbols@, *lookup, i as int, offset as nat) {
            Err(e) => r == Err::<u64, DisError>(e),
            Ok((piece, next)) => r == Ok::<u64, DisError>(next as u64) && next <= section@.end - section@.start
                && final(out)@ == old(out)@ + piece,
        },
{
    let s = &symbols[i];
    let size: u64 = section.size() as u64;
    let sec_start = section.start_address();
    let start: u64 = (s.addr - sec_start) as u64;
    let next: Option<&Symbol> = if i + 1 < symbols.len() {
        Some(&symbols[i + 1])
    } else {
        None
    };
        let len: u64 = match d.size() {
            Some(n) => n,
            None => size_to_next_symbol(section, s, next) as u64,
        };
        let c = match code {
            Some(c) => c,
            None => {
                return Err(DisError::MissingCode);
            },
        };
        if start + len > size {
            return Err(DisError::OutOfRange);
        }
        let ghost out0 = out@;
        out.append(s.name.as_str());
        out.append(":");
        if s.ambiguous {
            out.append(" ; ambiguous");
        }
        out.append("\n");
        let ghost mid = out@;
        let bytes = slice_subrange(c, start as usize, (start + len) as usize);
        match write_assembly(&d, out, s, bytes, lookup) {
            Ok(()) => {},
            Err(e) => {
                return Err(DisError::Data(e));
            },
        }
        let ghost mid2 = out@;
        out.append("\n");
        assert(mid =~= out0 + (s.name@ + ":"@ + (if s.ambiguous {
            " ; ambiguous"@
        } else {
            Seq::empty()
        }) + "\n"@));
        assert(out@ =~= out0 + (s.name@ + ":"@ + (if s.ambiguous {
            " ; ambiguous"@
        } else {
            Seq::empty()
        }) + "\n"@ + mid2.subrange(mid.len() as int, mid2.len() as int) + "\n"@));
        Ok(start + len)
}

/// The bytes of a section in a module whose code starts at `base`: none for
/// bss, and none where the code does not cover the section.
pub open spec fn code_of(sec: SectionSpec, code: Seq<u8>, base: u32) -> Option<Seq<u8>> {
    if sec.kind == crate::section::SectionKind::Bss || sec.start < base || sec.end - base > code.len() {
        None
    } else {
        Some(code.subrange(sec.start - base, sec.end - base))
    }
}

/// The text of the sections `order[i..]` of a module.
pub open spec fn module_sections_text(
    order: Seq<&Section>,
    code: Seq<u8>,
    base: u32,
    syms: Seq<Symbol>,
    look: SymbolLookup,
    i: nat,
) -> Result<Seq<char>, DisError>
    decreases order.len() - i,
{
    if i >= order.len() {
        Ok(Seq::empty())
    } else {
        let sec = order[i as int]@;
        if sec.kind != crate::section::SectionKind::Bss && code_of(sec, code, base) is None {
            Err(DisError::MissingCode)
        } else {
            match section_text(sec, code_of(sec, code, base), syms, look) {
                Err(e) => Err(e),
                Ok(t) => then_text(t, module_sections_text(order, code, base, syms, look, i + 1)),
            }
        }
    }
}

/// The assembly file of a module: the macro include line, then each section
/// in the order given.
pub open spec fn module_text(
    order: Seq<&Section>,
    code: Seq<u8>,
    base: u32,
    syms: Seq<Symbol>,
    look: SymbolLookup,
) -> Result<Seq<char>, DisError> {
    then_text("    .include \"macros/function.inc\"\n\n"@, module_sections_text(order, code, base, syms, look, 0))
}

/// Writes the assembly of a module whose code starts at `base`: each
/// section of `order` (the module's sections by address) with the module's
/// symbols. An initialized section that the code does not cover fails.
#[verifier::rlimit(80)]
pub fn disassemble(
    out: &mut String,
    order: &[&Section],
    code: &[u8],
    base: u32,
    symbols: &[Symbol],
    lookup: &SymbolLookup,
) -> (r: Result<(), DisError>)
    requires
        forall|k: int| 0 <= k < order@.len() ==> (#[trigger] order@[k])@.wf(),
        crate::section::starts_sorted(order@),
        addr_sorted(symbols@),
    ensures
        match module_text(order@, code@, base, symbols@, *lookup) {
            Ok(t) => r == Ok::<(), DisError>(()) && final(out)@ == old(out)@ + t,
            Err(e) => r == Err::<(), DisError>(e),
        },
{
    out.append("    .include \"macros/function.inc\"\n\n");
    let ghost out1 = out@;
    let mut i: usize = 0;
    assert(out@.subrange(out1.len() as int, out@.len() as int) =~= Seq::<char>::empty());
    while i < order.len()
        invariant
            i <= order@.len(),
            forall|k: int| 0 <= k < order@.len() ==> (#[trigger] order@[k])@.wf(),
            addr_sorted(symbols@),
            out1 == old(out)@ + "    .include \"macros/function.inc\"\n\n"@,
            out@.len() >= out1.len(),
            out@.subrange(0, out1.len() as int) == out1,
            module_sections_text(order@, code@, base, symbols@, *lookup, 0) == then_text(
                out@.subrange(out1.len() as int, out@.len() as int),
                module_sections_text(order@, code@, base, symbols@, *lookup, i as nat),
            ),
        decreases order@.len() - i,
    {
        let ghost before = out@;
        let section = order[i];
        let ghost sec = section@;
        let initialized = section.kind().is_initialized();
        let covered = section.start_address() >= base && ((section.end_address() - base) as usize) <= code.len();
        let section_code: Option<&[u8]> = if initialized && covered {
            Some(slice_subrange(code, (section.start_address() - base) as usize, (section.end_address() - base) as usize))
        } else {
            None
        };
        if initialized && !covered {
            return Err(DisError::MissingCode);
        }
        assert(code_view(section_code) == code_of(sec, code@, base));
        let ghost text = section_text(sec, code_of(sec, code@, base), symbols@, *lookup);
        match write_section(out, section, section_code, symbols, lookup) {
            Ok(()) => {},
            Err(e) => {
                return Err(e);
            },
        }
        i += 1;
        proof {
            let piece = out@.subrange(before.len() as int, out@.len() as int);
            assert(out@ =~= before + piece);
            assert(piece =~= text->Ok_0);
            assert(module_sections_text(order@, code@, base, symbols@, *lookup, (i - 1) as nat) == then_text(
                piece,
                module_sections_text(order@, code@, base, symbols@, *lookup, i as nat),
            ));
            lemma_then_assoc(
                before.subrange(out1.len() as int, before.len() as int),
                piece,
                module_sections_text(order@, code@, base, symbols@, *lookup, i as nat),
            );
            assert(out@.subrange(out1.len() as int, out@.len() as int) =~= before.subrange(out1.len() as int, before.len() as int) + piece);
            assert(out@.subrange(0, out1.len() as int) =~= out1) by {
                assert(out@.subrange(0, before.len() as int) =~= before);
            }
        }
    }
    proof {
        let body = out@.subrange(out1.len() as int, out@.len() as int);
        assert(body + Seq::<char>::empty() =~= body);
        assert(out@ =~= out1 + body);
        assert(out@ =~= old(out)@ + ("    .include \"macros/function.inc\"\n\n"@ + body));
    }
    Ok(())
}

/// Whether a section name is `.text`.
fn str_is_text(name: &str) -> (r: bool)
    ensures
        r == (name@ == ".text"@),
{
    crate::section::str_eq(name, ".text")
}

} // verus!
