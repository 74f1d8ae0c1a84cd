//! Reading a symbols file line: `name kind:K addr:A` followed by the
//! attributes of its kind (`mode:`, `size:`, `type:`, `count:`) and flags
//! (`ambiguous`, `code`, `unknown`).
use vstd::prelude::*;

use crate::section::str_eq;
use crate::symbol::{InstructionMode, SymBss, SymData, SymFunction, SymJumpTable, SymLabel, Symbol, SymbolKind};
use crate::text::{attr_key, attr_value, lemma_word_at, parse_u32, parse_u32_spec, split_attribute, split_words, words};

verus! {

/// The attributes read so far from a symbol line.
#[derive(Clone, Copy)]
pub struct SymbolAttrs {
    pub kind: Option<u8>,
    pub addr: Option<u32>,
    pub size: Option<u32>,
    pub mode: Option<InstructionMode>,
    pub data: Option<u8>,
    pub count: Option<u32>,
    pub ambiguous: bool,
    pub code: bool,
    pub unknown: bool,
}

/// Why a symbol line does not parse.
#[derive(Clone, Copy, Debug, PartialEq, Eq, Structural)]
pub enum SymbolParseError {
    UnknownKind,
    UnknownMode,
    UnknownDataType,
    BadNumber,
    UnknownAttribute,
    MissingKind,
    MissingAddress,
    MissingSize,
}

/// The number of a kind name: function 0, label 1, pool_constant 2,
/// jump_table 3, data 4, bss 5.
pub open spec fn kind_code(v: Seq<char>) -> Option<u8> {
    if v == "function"@ {
        Some(0)
    } else if v == "label"@ {
        Some(1)
    } else if v == "pool_constant"@ {
        Some(2)
    } else if v == "jump_table"@ {
        Some(3)
    } else if v == "data"@ {
        Some(4)
    } else if v == "bss"@ {
        Some(5)
    } else {
        None
    }
}

/// The number of a data type name: any 0, byte 1, short 2, word 3.
pub open spec fn data_code(v: Seq<char>) -> Option<u8> {
    if v == "any"@ {
        Some(0)
    } else if v == "byte"@ {
        Some(1)
    } else if v == "short"@ {
        Some(2)
    } else if v == "word"@ {
        Some(3)
    } else {
        None
    }
}

pub open spec fn mode_of(v: Seq<char>) -> Option<InstructionMode> {
    if v == "arm"@ {
        Some(InstructionMode::Arm)
    } else if v == "thumb"@ {
        Some(InstructionMode::Thumb)
    } else {
        None
    }
}

/// Reads one attribute word of a symbol line into `st`.
pub open spec fn symbol_attr_step(st: SymbolAttrs, key: Seq<char>, value: Seq<char>) -> Result<SymbolAttrs, SymbolParseError> {
    if key == "ambiguous"@ {
        Ok(SymbolAttrs { ambiguous: true, ..st })
    } else if key == "code"@ {
        Ok(SymbolAttrs { code: true, ..st })
    } else if key == "unknown"@ {
        Ok(SymbolAttrs { unknown: true, ..st })
    } else if key == "kind"@ {
        match kind_code(value) {
            Some(k) => Ok(SymbolAttrs { kind: Some(k), ..st }),
            None => Err(SymbolParseError::UnknownKind),
        }
    } else if key == "mode"@ {
        match mode_of(value) {
            Some(m) => Ok(SymbolAttrs { mode: Some(m), ..st }),
            None => Err(SymbolParseError::UnknownMode),
        }
    } else if key == "type"@ {
        match data_code(value) {
            Some(d) => Ok(SymbolAttrs { data: Some(d), ..st }),
            None => Err(SymbolParseError::UnknownDataType),
        }
    } else if key == "addr"@ || key == "size"@ || key == "count"@ {
        match parse_u32_spec(value) {
            None => Err(SymbolParseError::BadNumber),
            Some(n) => Ok(
                if key == "addr"@ {
                    SymbolAttrs { addr: Some(n), ..st }
                } else if key == "size"@ {
                    SymbolAttrs { size: Some(n), ..st }
                } else {
                    SymbolAttrs { count: Some(n), ..st }
                },
            ),
        }
    } else {
        Err(SymbolParseError::UnknownAttribute)
    }
}

pub open spec fn no_symbol_attrs() -> SymbolAttrs {
    SymbolAttrs {
        kind: None,
        addr: None,
        size: None,
        mode: None,
        data: None,
        count: None,
        ambiguous: false,
        code: false,
        unknown: false,
    }
}

/// Reads the attribute words `ws` from left to right; the first error stops it.
pub open spec fn symbol_attrs_scan(ws: Seq<Seq<char>>) -> Result<SymbolAttrs, SymbolParseError>
    decreases ws.len(),
{
    if ws.len() == 0 {
        Ok(no_symbol_attrs())
    } else {
        match symbol_attrs_scan(ws.drop_last()) {
            Ok(st) => symbol_attr_step(st, attr_key(ws.last()), attr_value(ws.last())),
            Err(e) => Err(e),
        }
    }
}

/// The kind that the attributes describe.
pub open spec fn kind_from_attrs(st: SymbolAttrs) -> Result<SymbolKind, SymbolParseError> {
    let mode = match st.mode {
        Some(m) => m,
        None => InstructionMode::Arm,
    };
    let k = st.kind->0;
    if k == 0 {
        match st.size {
            Some(size) => Ok(SymbolKind::Function(SymFunction { mode, size, unknown: st.unknown })),
            None => Err(SymbolParseError::MissingSize),
        }
    } else if k == 1 {
        Ok(SymbolKind::Label(SymLabel { mode }))
    } else if k == 2 {
        Ok(SymbolKind::PoolConstant)
    } else if k == 3 {
        match st.size {
            Some(size) => Ok(SymbolKind::JumpTable(SymJumpTable { size, code: st.code })),
            None => Err(SymbolParseError::MissingSize),
        }
    } else if k == 4 {
        let d = match st.data {
            Some(d) => d,
            None => 0,
        };
        Ok(
            SymbolKind::Data(
                if d == 0 {
                    SymData::Any
                } else if d == 1 {
                    SymData::Byte { count: st.count }
                } else if d == 2 {
                    SymData::Short { count: st.count }
                } else {
                    SymData::Word { count: st.count }
                },
            ),
        )
    } else {
        Ok(SymbolKind::Bss(SymBss { size: st.size }))
    }
}

/// What a symbols line parses to: nothing for a blank line, else the symbol
/// named by its first word. A function's address keeps its thumb bit cleared.
pub open spec fn symbol_line_spec(line: Seq<char>) -> Result<Option<(Seq<char>, SymbolKind, u32, bool)>, SymbolParseError> {
    let ws = words(line);
    if ws.len() == 0 {
        Ok(None)
    } else {
        match symbol_attrs_scan(ws.drop_first()) {
            Err(e) => Err(e),
            Ok(st) => if st.kind is None {
                Err(SymbolParseError::MissingKind)
            } else if st.addr is None {
                Err(SymbolParseError::MissingAddress)
            } else {
                match kind_from_attrs(st) {
                    Err(e) => Err(e),
                    Ok(kind) => Ok(
                        Some(
                            (
                                ws[0],
                                kind,
                                if kind is Function {
                                    st.addr->0 & 0xFFFF_FFFEu32
                                } else {
                                    st.addr->0
                                },
                                st.ambiguous,
                            ),
                        ),
                    ),
                }
            },
        }
    }
}

proof fn lemma_symbol_scan_err_extends(ws: Seq<Seq<char>>, k: int)
    requires
        0 <= k <= ws.len(),
        symbol_attrs_scan(ws.subrange(0, k)) is Err,
    ensures
        symbol_attrs_scan(ws) == symbol_attrs_scan(ws.subrange(0, k)),
    decreases ws.len() - k,
{
    if k < ws.len() {
        assert(ws.subrange(0, k + 1).drop_last() =~= ws.subrange(0, k));
        lemma_symbol_scan_err_extends(ws, k + 1);
    } else {
        assert(ws.subrange(0, k) =~= ws);
    }
}

fn pick<T: Copy>(value: &str, names: &[&str], codes: &[T]) -> (r: Option<T>)
    requires
        names@.len() == codes@.len(),
    ensures
        match r {
            Some(c) => exists|i: int| 0 <= i < names@.len() && names@[i]@ == value@ && codes@[i] == c && forall|j: int|
                0 <= j < i ==> (#[trigger] names@[j])@ != value@,
            None => forall|j: int| 0 <= j < names@.len() ==> (#[trigger] names@[j])@ != value@,
        },
{
    let mut i: usize = 0;
    while i < names.len()
        invariant
            i <= names@.len() == codes@.len(),
            forall|j: int| 0 <= j < i ==> (#[trigger] names@[j])@ != value@,
        decreases names@.len() - i,
    {
        if str_eq(names[i], value) {
            return Some(codes[i]);
        }
        i += 1;
    }
    None
}

fn apply_symbol_attribute(key: &str, value: &str, st: SymbolAttrs) -> (r: Result<SymbolAttrs, SymbolParseError>)
    ensures
        r == symbol_attr_step(st, key@, value@),
{
    if str_eq(key, "ambiguous") {
        Ok(SymbolAttrs { ambiguous: true, ..st })
    } else if str_eq(key, "code") {
        Ok(SymbolAttrs { code: true, ..st })
    } else if str_eq(key, "unknown") {
        Ok(SymbolAttrs { unknown: true, ..st })
    } else if str_eq(key, "kind") {
        let names = ["function", "label", "pool_constant", "jump_table", "data", "bss"];
        let codes: [u8; 6] = [0, 1, 2, 3, 4, 5];
        proof {
            reveal_strlit("function");
            reveal_strlit("label");
            reveal_strlit("pool_constant");
            reveal_strlit("jump_table");
            reveal_strlit("data");
            reveal_strlit("bss");
        }
        match pick(value, names.as_slice(), codes.as_slice()) {
            Some(k) => Ok(SymbolAttrs { kind: Some(k), ..st }),
            None => Err(SymbolParseError::UnknownKind),
        }
    } else if str_eq(key, "mode") {
        if str_eq(value, "arm") {
            Ok(SymbolAttrs { mode: Some(InstructionMode::Arm), ..st })
        } else if str_eq(value, "thumb") {
            Ok(SymbolAttrs { mode: Some(InstructionMode::Thumb), ..st })
        } else {
            Err(SymbolParseError::UnknownMode)
        }
    } else if str_eq(key, "type") {
        if str_eq(value, "any") {
            Ok(SymbolAttrs { data: Some(0), ..st })
        } else if str_eq(value, "byte") {
            Ok(SymbolAttrs { data: Some(1), ..st })
        } else if str_eq(value, "short") {
            Ok(SymbolAttrs { data: Some(2), ..st })
        } else if str_eq(value, "word") {
            Ok(SymbolAttrs { data: Some(3), ..st })
        } else {
            Err(SymbolParseError::UnknownDataType)
        }
    } else if str_eq(key, "addr") || str_eq(key, "size") || str_eq(key, "count") {
        match parse_u32(value) {
            None => Err(SymbolParseError::BadNumber),
            Some(n) => if str_eq(key, "addr") {
                Ok(SymbolAttrs { addr: Some(n), ..st })
            } else if str_eq(key, "size") {
                Ok(SymbolAttrs { size: Some(n), ..st })
            } else {
                Ok(SymbolAttrs { count: Some(n), ..st })
            },
        }
    } else {
        Err(SymbolParseError::UnknownAttribute)
    }
}

fn kind_of_attrs(st: SymbolAttrs) -> (r: Result<SymbolKind, SymbolParseError>)
    requires
        st.kind is Some,
    ensures
        r == kind_from_attrs(st),
{
    let mode = match st.mode {
        Some(m) => m,
        None => InstructionMode::Arm,
    };
    let k = match st.kind {
        Some(k) => k,
        None => 0,
    };
    if k == 0 {
        match st.size {
            Some(size) => Ok(SymbolKind::Function(SymFunction { mode, size, unknown: st.unknown })),
            None => Err(SymbolParseError::MissingSize),
        }
    } else if k == 1 {
        Ok(SymbolKind::Label(SymLabel { mode }))
    } else if k == 2 {
        Ok(SymbolKind::PoolConstant)
    } else if k == 3 {
        match st.size {
            Some(size) => Ok(SymbolKind::JumpTable(SymJumpTable { size, code: st.code })),
            None => Err(SymbolParseError::MissingSize),
        }
    } else if k == 4 {
        let d = match st.data {
            Some(d) => d,
            None => 0,
        };
        Ok(
            SymbolKind::Data(
                if d == 0 {
                    SymData::Any
                } else if d == 1 {
                    SymData::Byte { count: st.count }
                } else if d == 2 {
                    SymData::Short { count: st.count }
                } else {
                    SymData::Word { count: st.count }
                },
            ),
        )
    } else {
        Ok(SymbolKind::Bss(SymBss { size: st.size }))
    }
}

/// Parses one line of a symbols file.
pub fn parse_symbol_line(line: &str) -> (r: Result<Option<Symbol>, SymbolParseError>)
    ensures
        match r {
            Ok(None) => symbol_line_spec(line@) == Ok::<Option<(Seq<char>, SymbolKind, u32, bool)>, SymbolParseError>(None),
            Ok(Some(s)) => symbol_line_spec(line@) == Ok::<Option<(Seq<char>, SymbolKind, u32, bool)>, SymbolParseError>(
                Some((s.name@, s.kind, s.addr, s.ambiguous)),
            ),
            Err(e) => symbol_line_spec(line@) == Err::<Option<(Seq<char>, SymbolKind, u32, bool)>, SymbolParseError>(e),
        },
{
    let spans = split_words(line);
    let ghost ws = words(line@);
    if spans.len() == 0 {
        return Ok(None);
    }
    proof {
        lemma_word_at(line@, spans@, 0);
    }
    let ghost attrs = ws.drop_first();
    let mut st = SymbolAttrs {
        kind: None,
        addr: None,
        size: None,
        mode: None,
        data: None,
        count: None,
        ambiguous: false,
        code: false,
        unknown: false,
    };
    let mut k: usize = 1;
    assert(attrs.subrange(0, 0) =~= Seq::<Seq<char>>::empty());
    while k < spans.len()
        invariant
            1 <= k <= spans@.len(),
            ws.len() == spans@.len(),
            attrs == ws.drop_first(),
            ws == words(line@),
            spans@.len() == crate::text::word_spans(line@).len(),
            forall|i: int|
                0 <= i < spans@.len() ==> (#[trigger] spans@[i]).0 as int == crate::text::word_spans(line@)[i].0
                    && spans@[i].1 as int == crate::text::word_spans(line@)[i].1,
            forall|i: int| 0 <= i < spans@.len() ==> (#[trigger] spans@[i]).0 < spans@[i].1 <= line@.len(),
            symbol_attrs_scan(attrs.subrange(0, k - 1)) == Ok::<SymbolAttrs, SymbolParseError>(st),
        decreases spans@.len() - k,
    {
        let (a, b) = spans[k];
        proof {
            lemma_word_at(line@, spans@, k as int);
        }
        let (key, value) = split_attribute(line, a, b);
        let ghost next = attrs.subrange(0, k as int);
        assert(next.drop_last() =~= attrs.subrange(0, k - 1));
        assert(next.last() == ws[k as int]);
        match apply_symbol_attribute(key, value, st) {
            Ok(n) => {
                st = n;
            },
            Err(e) => {
                proof {
                    lemma_symbol_scan_err_extends(attrs, k as int);
                }
                return Err(e);
            },
        }
        k += 1;
    }
    assert(attrs.subrange(0, k - 1) =~= attrs);
    if st.kind.is_none() {
        return Err(SymbolParseError::MissingKind);
    }
    let addr = match st.addr {
        Some(a) => a,
        None => {
            return Err(SymbolParseError::MissingAddress);
        },
    };
    let kind = kind_of_attrs(st)?;
    let (a, b) = spans[0];
    let name = line.substring_char(a, b).to_owned();
    let addr = match kind {
        SymbolKind::Function(_) => addr & 0xFFFF_FFFEu32,
        _ => addr,
    };
    Ok(Some(Symbol { name, kind, addr, ambiguous: st.ambiguous }))
}

} // verus!
