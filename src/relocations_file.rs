//! Reading a relocations file line: `from:A to:B add:N module:M ...`, where
//! each `module:` names one candidate target (`main`, `itcm`, `dtcm` or an
//! overlay number); none means the relocation stays within its module.
use vstd::prelude::*;

use crate::relocation::{Relocation, RelocationModule};
use crate::section::str_eq;
use crate::symbol::{AutoloadKind, ModuleKind};
use crate::text::{attr_key, attr_value, lemma_word_at, parse_u32, parse_u32_spec, split_attribute, split_words, words};

verus! {

/// Why a relocation line does not parse.
#[derive(Clone, Copy, Debug, PartialEq, Eq, Structural)]
pub enum RelocationParseError {
    BadNumber,
    UnknownModule,
    UnknownAttribute,
    MissingFrom,
    MissingTo,
}

/// The attributes read so far from a relocation line.
pub struct RelocationAttrs {
    pub from: Option<u32>,
    pub to: Option<u32>,
    pub addend: i64,
    pub modules: Seq<ModuleKind>,
}

/// The module that a `module:` value names.
pub open spec fn module_of(v: Seq<char>) -> Option<ModuleKind> {
    if v == "main"@ {
        Some(ModuleKind::Arm9)
    } else if v == "itcm"@ {
        Some(ModuleKind::Autoload(AutoloadKind::Itcm))
    } else if v == "dtcm"@ {
        Some(ModuleKind::Autoload(AutoloadKind::Dtcm))
    } else {
        match parse_u32_spec(v) {
            Some(n) => if n <= u16::MAX {
                Some(ModuleKind::Overlay(n as u16))
            } else {
                None
            },
            None => None,
        }
    }
}

/// The addend that an `add:` value writes: a number, negative after `-`.
pub open spec fn addend_of(v: Seq<char>) -> Option<i64> {
    if v.len() > 0 && v[0] == '-' {
        match parse_u32_spec(v.drop_first()) {
            Some(n) => Some((-(n as int)) as i64),
            None => None,
        }
    } else {
        match parse_u32_spec(v) {
            Some(n) => Some(n as i64),
            None => None,
        }
    }
}

/// Reads one attribute word of a relocation line. `kind:` is accepted and
/// not kept.
pub open spec fn reloc_attr_step(st: RelocationAttrs, key: Seq<char>, value: Seq<char>) -> Result<RelocationAttrs, RelocationParseError> {
    if key == "from"@ || key == "to"@ {
        match parse_u32_spec(value) {
            None => Err(RelocationParseError::BadNumber),
            Some(n) => Ok(
                if key == "from"@ {
                    RelocationAttrs { from: Some(n), ..st }
                } else {
                    RelocationAttrs { to: Some(n), ..st }
                },
            ),
        }
    } else if key == "add"@ {
        match addend_of(value) {
            None => Err(RelocationParseError::BadNumber),
            Some(a) => Ok(RelocationAttrs { addend: a, ..st }),
        }
    } else if key == "module"@ {
        match module_of(value) {
            None => Err(RelocationParseError::UnknownModule),
            Some(m) => Ok(RelocationAttrs { modules: st.modules.push(m), ..st }),
        }
    } else if key == "kind"@ {
        Ok(st)
    } else {
        Err(RelocationParseError::UnknownAttribute)
    }
}

/// Reads the words `ws` from left to right; the first error stops it.
pub open spec fn reloc_attrs_scan(ws: Seq<Seq<char>>) -> Result<RelocationAttrs, RelocationParseError>
    decreases ws.len(),
{
    if ws.len() == 0 {
        Ok(RelocationAttrs { from: None, to: None, addend: 0, modules: Seq::empty() })
    } else {
        match reloc_attrs_scan(ws.drop_last()) {
            Ok(st) => reloc_attr_step(st, attr_key(ws.last()), attr_value(ws.last())),
            Err(e) => Err(e),
        }
    }
}

/// Whether `m` is the target that `modules` describe: the same module for
/// none, one or several candidates.
pub open spec fn module_matches(m: RelocationModule, modules: Seq<ModuleKind>) -> bool {
    match m {
        RelocationModule::Local => modules.len() == 0,
        RelocationModule::Module(k) => modules == seq![k],
        RelocationModule::Candidates(v) => modules.len() >= 2 && v@ == modules,
    }
}

/// What a relocations line parses to: nothing for a blank line, else the
/// relocation from `from:` to `to:`, with `add:` (zero when absent).
pub open spec fn relocation_line_spec(line: Seq<char>) -> Result<Option<RelocationAttrs>, RelocationParseError> {
    let ws = words(line);
    if ws.len() == 0 {
        Ok(None)
    } else {
        match reloc_attrs_scan(ws) {
            Err(e) => Err(e),
            Ok(st) => if st.from is None {
                Err(RelocationParseError::MissingFrom)
            } else if st.to is None {
                Err(RelocationParseError::MissingTo)
            } else {
                Ok(Some(st))
            },
        }
    }
}

proof fn lemma_reloc_scan_err_extends(ws: Seq<Seq<char>>, k: int)
    requires
        0 <= k <= ws.len(),
        reloc_attrs_scan(ws.subrange(0, k)) is Err,
    ensures
        reloc_attrs_scan(ws) == reloc_attrs_scan(ws.subrange(0, k)),
    decreases ws.len() - k,
{
    if k < ws.len() {
        assert(ws.subrange(0, k + 1).drop_last() =~= ws.subrange(0, k));
        lemma_reloc_scan_err_extends(ws, k + 1);
    } else {
        assert(ws.subrange(0, k) =~= ws);
    }
}

fn read_module(value: &str) -> (r: Option<ModuleKind>)
    ensures
        r == module_of(value@),
{
    if str_eq(value, "main") {
        Some(ModuleKind::Arm9)
    } else if str_eq(value, "itcm") {
        Some(ModuleKind::Autoload(AutoloadKind::Itcm))
    } else if str_eq(value, "dtcm") {
        Some(ModuleKind::Autoload(AutoloadKind::Dtcm))
    } else {
        match parse_u32(value) {
            Some(n) => if n <= 0xFFFF {
                Some(ModuleKind::Overlay(n as u16))
            } else {
                None
            },
            None => None,
        }
    }
}

fn read_addend(value: &str) -> (r: Option<i64>)
    ensures
        r == addend_of(value@),
{
    let n = value.unicode_len();
    if n > 0 && value.get_char(0) == '-' {
        let rest = value.substring_char(1, n);
        assert(rest@ =~= value@.drop_first());
        match parse_u32(rest) {
            Some(v) => Some(-(v as i64)),
            None => None,
        }
    } else {
        match parse_u32(value) {
            Some(v) => Some(v as i64),
            None => None,
        }
    }
}

/// Parses one line of a relocations file.
pub fn parse_relocation_line(line: &str) -> (r: Result<Option<Relocation>, RelocationParseError>)
    ensures
        match r {
            Ok(None) => relocation_line_spec(line@) is Ok && relocation_line_spec(line@)->Ok_0 is None,
            Ok(Some(rel)) => relocation_line_spec(line@) is Ok && relocation_line_spec(line@)->Ok_0 is Some && {
                let st = relocation_line_spec(line@)->Ok_0->Some_0;
                rel.from == st.from->0 && rel.to == st.to->0 && rel.addend == st.addend && module_matches(
                    rel.module,
                    st.modules,
                )
            },
            Err(e) => relocation_line_spec(line@) == Err::<Option<RelocationAttrs>, RelocationParseError>(e),
        },
{
    let spans = split_words(line);
    let ghost ws = words(line@);
    if spans.len() == 0 {
        return Ok(None);
    }
    let mut from: Option<u32> = None;
    let mut to: Option<u32> = None;
    let mut addend: i64 = 0;
    let mut modules: Vec<ModuleKind> = Vec::new();
    let mut k: usize = 0;
    assert(ws.subrange(0, 0) =~= Seq::<Seq<char>>::empty());
    while k < spans.len()
        invariant
            k <= spans@.len(),
            ws == words(line@),
            spans@.len() == crate::text::word_spans(line@).len(),
            forall|i: int|
                0 <= i < spans@.len() ==> (#[trigger] spans@[i]).0 as int == crate::text::word_spans(line@)[i].0
                    && spans@[i].1 as int == crate::text::word_spans(line@)[i].1,
            forall|i: int| 0 <= i < spans@.len() ==> (#[trigger] spans@[i]).0 < spans@[i].1 <= line@.len(),
            reloc_attrs_scan(ws.subrange(0, k as int)) == Ok::<RelocationAttrs, RelocationParseError>(
                RelocationAttrs { from, to, addend, modules: modules@ },
            ),
        decreases spans@.len() - k,
    {
        let (a, b) = spans[k];
        proof {
            lemma_word_at(line@, spans@, k as int);
        }
        let (key, value) = split_attribute(line, a, b);
        let ghost next = ws.subrange(0, k + 1);
        assert(next.drop_last() =~= ws.subrange(0, k as int));
        assert(next.last() == ws[k as int]);
        if str_eq(key, "from") || str_eq(key, "to") {
            match parse_u32(value) {
                None => {
                    proof {
                        lemma_reloc_scan_err_extends(ws, k + 1);
                        assert(ws.subrange(0, ws.len() as int) =~= ws);
                    }
                    return Err(RelocationParseError::BadNumber);
                },
                Some(n) => {
                    if str_eq(key, "from") {
                        from = Some(n);
                    } else {
                        to = Some(n);
                    }
                },
            }
        } else if str_eq(key, "add") {
            match read_addend(value) {
                None => {
                    proof {
                        lemma_reloc_scan_err_extends(ws, k + 1);
                    }
                    return Err(RelocationParseError::BadNumber);
                },
                Some(v) => {
                    addend = v;
                },
            }
        } else if str_eq(key, "module") {
            match read_module(value) {
                None => {
                    proof {
                        lemma_reloc_scan_err_extends(ws, k + 1);
                    }
                    return Err(RelocationParseError::UnknownModule);
                },
                Some(m) => {
                    modules.push(m);
                },
            }
        } else if !str_eq(key, "kind") {
            proof {
                lemma_reloc_scan_err_extends(ws, k + 1);
            }
            return Err(RelocationParseError::UnknownAttribute);
        }
        k += 1;
    }
    assert(ws.subrange(0, k as int) =~= ws);
    let from = match from {
        Some(f) => f,
        None => {
            return Err(RelocationParseError::MissingFrom);
        },
    };
    let to = match to {
        Some(t) => t,
        None => {
            return Err(RelocationParseError::MissingTo);
        },
    };
    let module = if modules.len() == 0 {
        RelocationModule::Local
    } else if modules.len() == 1 {
        assert(modules@ =~= seq![modules@[0]]);
        RelocationModule::Module(modules[0])
    } else {
        RelocationModule::Candidates(modules)
    };
    Ok(Some(Relocation { from, to, addend, module }))
}

} // verus!
