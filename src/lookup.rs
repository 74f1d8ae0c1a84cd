//! Resolving a referenced address to a symbol name, through the relocations
//! of the referring module and the symbol maps of every module.
use vstd::prelude::*;

use crate::relocation::{first_from, Relocation, Relocations};
use crate::symbol::{first_at, first_function_at, map_of, ModuleKind, Symbol, SymbolMap, SymbolMaps};
use crate::text::{hex_literal, push_hex};

verus! {

/// Why a relocated reference could not be resolved.
#[derive(Clone, Copy, Debug, PartialEq, Eq, Structural)]
pub enum LookupError {
    /// The relocation's target address is not the referenced address less its addend.
    AddressMismatch,
    /// No symbol map is registered for the relocation's module.
    NoSymbolMap,
    /// The relocation's module has no symbol at or around the target address.
    SymbolNotFound,
}

/// The symbol of `m` at `address`: one at exactly that address, else a
/// function whose bytes hold it.
pub open spec fn resolve_in(m: Seq<Symbol>, address: u32) -> Option<Symbol> {
    match first_at(m, address) {
        Some(i) => Some(m[i]),
        None => match first_function_at(m, address) {
            Some(i) => Some(m[i]),
            None => None,
        },
    }
}

/// How an addend is written after a symbol name: `+0xN`, `-0xN`, or nothing.
pub open spec fn addend_text(addend: i64) -> Seq<char> {
    if addend > 0 {
        "+"@ + hex_literal(addend as nat)
    } else if addend < 0 {
        "-"@ + hex_literal((-addend) as nat)
    } else {
        Seq::empty()
    }
}

/// The names that the modules `others` have at `address`, skipping modules
/// without a map or without a symbol there.
pub open spec fn peer_names(maps: Seq<(ModuleKind, SymbolMap)>, others: Seq<ModuleKind>, address: u32) -> Seq<
    Seq<char>,
>
    decreases others.len(),
{
    if others.len() == 0 {
        Seq::empty()
    } else {
        let p = peer_names(maps, others.drop_last(), address);
        match map_of(maps, others.last()) {
            None => p,
            Some(m) => match resolve_in(m, address) {
                None => p,
                Some(s) => p.push(s.name@),
            },
        }
    }
}

/// `names` separated by `, `.
pub open spec fn join_names(names: Seq<Seq<char>>) -> Seq<char>
    decreases names.len(),
{
    if names.len() == 0 {
        Seq::empty()
    } else if names.len() == 1 {
        names[0]
    } else {
        join_names(names.drop_last()) + ", "@ + names.last()
    }
}

/// The comment that lists what the other candidate modules of an ambiguous
/// relocation at `source` hold at `address`; empty for any other reference.
pub open spec fn ambiguity_comment(
    maps: Seq<(ModuleKind, SymbolMap)>,
    relocations: Seq<Relocation>,
    source: u32,
    address: u32,
) -> Seq<char> {
    match first_from(relocations, source) {
        None => Seq::empty(),
        Some(i) => match relocations[i].module.spec_others() {
            None => Seq::empty(),
            Some(others) => " ; "@ + join_names(peer_names(maps, others, address)),
        },
    }
}

/// The directive that refers to `destination` from the word at `source`:
/// through the relocation at `source` where it names a module, else through
/// a local symbol at exactly `destination`; `None` where neither applies.
pub open spec fn symbol_directive(
    local: Seq<Symbol>,
    maps: Seq<(ModuleKind, SymbolMap)>,
    relocations: Seq<Relocation>,
    source: u32,
    destination: u32,
) -> Result<Option<Seq<char>>, LookupError> {
    match first_from(relocations, source) {
        Some(i) => {
            let rel = relocations[i];
            match rel.module.spec_first() {
                None => Ok(local_directive(local, destination)),
                Some(kind) => if (destination as int - rel.addend) % 0x1_0000_0000 != rel.to as int {
                    Err(LookupError::AddressMismatch)
                } else {
                    match map_of(maps, kind) {
                        None => Err(LookupError::NoSymbolMap),
                        Some(m) => match resolve_in(m, rel.to) {
                            None => Err(LookupError::SymbolNotFound),
                            Some(sym) => Ok(
                                Some(
                                    ".word "@ + sym.name@ + addend_text(rel.addend) + ambiguity_comment(
                                        maps,
                                        relocations,
                                        source,
                                        rel.to,
                                    ),
                                ),
                            ),
                        },
                    }
                },
            }
        },
        None => Ok(local_directive(local, destination)),
    }
}

/// The directive for a local symbol at exactly `destination`, if there is one.
pub open spec fn local_directive(local: Seq<Symbol>, destination: u32) -> Option<Seq<char>> {
    match first_at(local, destination) {
        Some(j) => Some(".word "@ + local[j].name@),
        None => None,
    }
}

/// The name that the instruction decoder shows for a reference from
/// `source` to `destination`: a local symbol at exactly `destination`, else a
/// symbol there in the module that the relocation at `source` names.
pub open spec fn lookup_name_spec(
    local: Seq<Symbol>,
    maps: Seq<(ModuleKind, SymbolMap)>,
    relocations: Seq<Relocation>,
    source: u32,
    destination: u32,
) -> Option<Seq<char>> {
    match first_at(local, destination) {
        Some(j) => Some(local[j].name@),
        None => match first_from(relocations, source) {
            None => None,
            Some(i) => match relocations[i].module.spec_first() {
                None => None,
                Some(kind) => match map_of(maps, kind) {
                    None => None,
                    Some(m) => match first_at(m, destination) {
                        Some(k) => Some(m[k].name@),
                        None => None,
                    },
                },
            },
        },
    }
}

/// Resolves references made from one module.
pub struct SymbolLookup<'a> {
    pub module_kind: ModuleKind,
    /// The module's own symbols.
    pub symbol_map: &'a SymbolMap,
    /// The symbols of every module, this one included.
    pub symbol_maps: &'a SymbolMaps,
    pub relocations: &'a Relocations,
}

fn lookup_in(m: &SymbolMap, address: u32) -> (r: Option<&Symbol>)
    ensures
        match r {
            Some(s) => resolve_in(m@, address) == Some(*s),
            None => resolve_in(m@, address).is_none(),
        },
{
    match m.by_address(address) {
        Some((_, s)) => Some(s),
        None => match m.get_function(address) {
            Some((_, s)) => Some(s),
            None => None,
        },
    }
}

impl<'a> SymbolLookup<'a> {
    /// The directive that `write_symbol` writes for this reference.
    pub open spec fn directive(&self, source: u32, destination: u32) -> Result<Option<Seq<char>>, LookupError> {
        symbol_directive(self.symbol_map@, self.symbol_maps@, self.relocations@, source, destination)
    }

    /// The name shown for a reference from `source` to `destination`.
    pub open spec fn name_for(&self, source: u32, destination: u32) -> Option<Seq<char>> {
        lookup_name_spec(self.symbol_map@, self.symbol_maps@, self.relocations@, source, destination)
    }

    /// The name of the symbol that an instruction at `source` refers to at
    /// `destination`, for the instruction decoder. A module or symbol that is
    /// missing gives no name rather than an error.
    pub fn lookup_symbol_name(&self, source: u32, destination: u32) -> (r: Option<&str>)
        ensures
            match r {
                Some(n) => self.name_for(source, destination) == Some(n@),
                None => self.name_for(source, destination) is None,
            },
    {
        if let Some((_, s)) = self.symbol_map.by_address(destination) {
            return Some(s.name.as_str());
        }
        let relocation = match self.relocations.get(source) {
            Some(r) => r,
            None => {
                return None;
            },
        };
        let kind = match relocation.module.first_module() {
            Some(k) => k,
            None => {
                return None;
            },
        };
        let map = match self.symbol_maps.get(kind) {
            Some(m) => m,
            None => {
                return None;
            },
        };
        match map.by_address(destination) {
            Some((_, s)) => Some(s.name.as_str()),
            None => None,
        }
    }

    /// Writes `.word NAME` for a word at `source` whose value is
    /// `destination`, on a line of its own after `indent`, and tells whether
    /// it did. A pending line of literals (`new_line`) is ended first.
    pub fn write_symbol(
        &self,
        out: &mut String,
        source: u32,
        destination: u32,
        new_line: &mut bool,
        indent: &str,
    ) -> (r: Result<bool, LookupError>)
        ensures
            match self.directive(source, destination) {
                Err(e) => r == Err::<bool, LookupError>(e) && final(out)@ == old(out)@ && *final(new_line)
                    == *old(new_line),
                Ok(None) => r == Ok::<bool, LookupError>(false) && final(out)@ == old(out)@ && *final(new_line)
                    == *old(new_line),
                Ok(Some(t)) => r == Ok::<bool, LookupError>(true) && final(out)@ == old(out)@ + (if *old(
                    new_line,
                ) {
                    "\n"@
                } else {
                    Seq::empty()
                }) + indent@ + t + "\n"@ && !*final(new_line),
            },
    {
        let ghost out0 = out@;
        match self.relocations.get(source) {
            Some(relocation) => {
                let kind = match relocation.module.first_module() {
                    Some(k) => k,
                    None => {
                        return Ok(self.write_local(out, destination, new_line, indent));
                    },
                };
                let shifted: u128 = (destination as i128 - relocation.addend as i128 + 0x1_0000_0000_0000_0000i128) as u128;
                let symbol_address: u128 = shifted % 0x1_0000_0000u128;
                proof {
                    vstd::arithmetic::div_mod::lemma_mod_multiples_vanish(
                        0x1_0000_0000,
                        destination as int - relocation.addend,
                        0x1_0000_0000,
                    );
                    assert(0x1_0000_0000 * 0x1_0000_0000int == 0x1_0000_0000_0000_0000int);
                }
                if symbol_address != relocation.to as u128 {
                    return Err(LookupError::AddressMismatch);
                }
                let external = match self.symbol_maps.get(kind) {
                    Some(m) => m,
                    None => {
                        return Err(LookupError::NoSymbolMap);
                    },
                };
                let symbol = match lookup_in(external, relocation.to) {
                    Some(s) => s,
                    None => {
                        return Err(LookupError::SymbolNotFound);
                    },
                };
                if *new_line {
                    out.append("\n");
                    *new_line = false;
                }
                let ghost out1 = out@;
                out.append(indent);
                out.append(".word ");
                out.append(symbol.name.as_str());
                write_addend(out, relocation.addend);
                self.write_ambiguous_symbols_comment(out, source, relocation.to);
                out.append("\n");
                assert(out@ =~= out1 + indent@ + (".word "@ + symbol.name@ + addend_text(relocation.addend)
                    + ambiguity_comment(self.symbol_maps@, self.relocations@, source, relocation.to)) + "\n"@);
                Ok(true)
            },
            None => Ok(self.write_local(out, destination, new_line, indent)),
        }
    }

    /// Writes `.word NAME` for a local symbol at exactly `destination`, if
    /// there is one, and tells whether it did.
    fn write_local(&self, out: &mut String, destination: u32, new_line: &mut bool, indent: &str) -> (r: bool)
        ensures
            match local_directive(self.symbol_map@, destination) {
                None => !r && final(out)@ == old(out)@ && *final(new_line) == *old(new_line),
                Some(t) => r && final(out)@ == old(out)@ + (if *old(new_line) {
                    "\n"@
                } else {
                    Seq::empty()
                }) + indent@ + t + "\n"@ && !*final(new_line),
            },
    {
        match self.symbol_map.by_address(destination) {
            Some((_, symbol)) => {
                if *new_line {
                    out.append("\n");
                    *new_line = false;
                }
                let ghost out1 = out@;
                out.append(indent);
                out.append(".word ");
                out.append(symbol.name.as_str());
                out.append("\n");
                assert(out@ =~= out1 + indent@ + (".word "@ + symbol.name@) + "\n"@);
                true
            },
            None => false,
        }
    }

    /// Writes ` ; NAME, ...` listing what the other candidate modules of an
    /// ambiguous relocation at `source` hold at `destination`.
    pub fn write_ambiguous_symbols_comment(&self, out: &mut String, source: u32, destination: u32)
        ensures
            final(out)@ == old(out)@ + ambiguity_comment(
                self.symbol_maps@,
                self.relocations@,
                source,
                destination,
            ),
    {
        let relocation = match self.relocations.get(source) {
            Some(r) => r,
            None => {
                assert(out@ =~= out@ + Seq::<char>::empty());
                return;
            },
        };
        let others = match relocation.module.other_modules() {
            Some(o) => o,
            None => {
                assert(out@ =~= out@ + Seq::<char>::empty());
                return;
            },
        };
        let ghost maps = self.symbol_maps@;
        out.append(" ; ");
        let ghost out1 = out@;
        let mut written = false;
        let mut i: usize = 0;
        assert(others@.subrange(0, 0) =~= Seq::<ModuleKind>::empty());
        while i < others.len()
            invariant
                i <= others@.len(),
                maps == self.symbol_maps@,
                out@ == out1 + join_names(peer_names(maps, others@.subrange(0, i as int), destination)),
                written == (peer_names(maps, others@.subrange(0, i as int), destination).len() > 0),
            decreases others@.len() - i,
        {
            let ghost pre = others@.subrange(0, i as int);
            let ghost cur = others@.subrange(0, i + 1);
            assert(cur.drop_last() =~= pre);
            let ghost names = peer_names(maps, pre, destination);
            if let Some(m) = self.symbol_maps.get(others[i]) {
                if let Some(symbol) = lookup_in(m, destination) {
                    if written {
                        out.append(", ");
                    }
                    out.append(symbol.name.as_str());
                    written = true;
                    proof {
                        let next = names.push(symbol.name@);
                        assert(next.drop_last() =~= names);
                        if names.len() == 0 {
                            assert(join_names(next) == symbol.name@);
                            assert(out@ =~= out1 + join_names(next));
                        } else {
                            assert(out@ =~= out1 + join_names(next));
                        }
                    }
                }
            }
            i += 1;
        }
        assert(others@.subrange(0, others@.len() as int) =~= others@);
        assert(out@ =~= old(out)@ + (" ; "@ + join_names(peer_names(maps, others@, destination))));
    }
}

/// Resolution depends on the local map, the relocations and the maps of
/// all modules alone: lookups that agree on them write the same directive.
pub proof fn lemma_symbol_resolution_stable(a: SymbolLookup, b: SymbolLookup, source: u32, destination: u32)
    requires
        a.symbol_map@ == b.symbol_map@,
        a.symbol_maps@ == b.symbol_maps@,
        a.relocations@ == b.relocations@,
    ensures
        a.directive(source, destination) == b.directive(source, destination),
{
}

/// Appends how `addend` is written after a symbol name.
fn write_addend(out: &mut String, addend: i64)
    ensures
        final(out)@ == old(out)@ + addend_text(addend),
{
    if addend > 0 {
        out.append("+");
        push_hex(out, addend as u64);
        assert(final(out)@ =~= old(out)@ + addend_text(addend));
    } else if addend < 0 {
        out.append("-");
        let magnitude: u64 = if addend == i64::MIN {
            0x8000_0000_0000_0000u64
        } else {
            (-addend) as u64
        };
        push_hex(out, magnitude);
        assert(final(out)@ =~= old(out)@ + addend_text(addend));
    } else {
        assert(final(out)@ =~= old(out)@ + addend_text(addend));
    }
}

} // verus!
