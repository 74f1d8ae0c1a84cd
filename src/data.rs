//! Writing the bytes of a data symbol as assembler directives, with words that
//! refer to symbols written by name.
use vstd::prelude::*;

use crate::lookup::{LookupError, SymbolLookup};
use crate::symbol::{SymData, Symbol};
use crate::text::{byte_literal, hex_literal, push_byte, push_hex};

verus! {

/// The little-endian number that the bytes `s` hold.
pub open spec fn le_value(s: Seq<u8>) -> nat
    decreases s.len(),
{
    if s.len() == 0 {
        0
    } else {
        s[0] as nat + 256 * le_value(s.drop_first())
    }
}

pub open spec fn pow256(n: nat) -> nat
    decreases n,
{
    if n == 0 {
        1
    } else {
        256 * pow256((n - 1) as nat)
    }
}

proof fn lemma_le_value_bound(s: Seq<u8>)
    ensures
        le_value(s) < pow256(s.len()),
    decreases s.len(),
{
    if s.len() > 0 {
        lemma_le_value_bound(s.drop_first());
        let a = s[0] as nat;
        let b = le_value(s.drop_first());
        let p = pow256((s.len() - 1) as nat);
        assert(a + 256 * b < 256 * p) by (nonlinear_arith)
            requires
                a < 256,
                b < p,
        ;
    }
}

/// The bytes from `o`, at most `n` of them.
pub open spec fn window(bytes: Seq<u8>, o: int, n: int) -> Seq<u8> {
    bytes.subrange(o, if o + n <= bytes.len() {
        o + n
    } else {
        bytes.len() as int
    })
}

/// Reads the little-endian number held by at most `n` (up to 4) bytes from `o`.
pub fn read_le(bytes: &[u8], o: usize, n: usize) -> (r: u32)
    requires
        o < bytes@.len(),
        1 <= n <= 4,
    ensures
        r as nat == le_value(window(bytes@, o as int, n as int)),
{
    let end: usize = if n <= bytes.len() - o {
        o + n
    } else {
        bytes.len()
    };
    let mut k: usize = end;
    let mut val: u64 = 0;
    assert(bytes@.subrange(end as int, end as int) =~= Seq::<u8>::empty());
    proof {
        assert(pow256(0) == 1);
        assert(pow256(1) == 256);
        assert(pow256(2) == 65536);
        assert(pow256(3) == 16777216);
        assert(pow256(4) == 4294967296);
    }
    while k > o
        invariant
            o <= k <= end,
            end <= bytes@.len(),
            end - o <= 4,
            val as nat == le_value(bytes@.subrange(k as int, end as int)),
            val < pow256((end - k) as nat),
            pow256(0) == 1,
            pow256(1) == 256,
            pow256(2) == 65536,
            pow256(3) == 16777216,
            pow256(4) == 4294967296,
        decreases k,
    {
        let ghost s = bytes@.subrange(k - 1, end as int);
        assert(s.drop_first() =~= bytes@.subrange(k as int, end as int));
        proof {
            lemma_le_value_bound(s);
        }
        val = bytes[k - 1] as u64 + 256 * val;
        k -= 1;
    }
    assert(window(bytes@, o as int, n as int) =~= bytes@.subrange(o as int, end as int));
    val as u32
}

/// What a data symbol's bytes are written as.
pub struct DataLayout {
    pub data: SymData,
    pub addr: u32,
    pub bytes: Seq<u8>,
}

/// The directive that starts a line of literals of `data`.
pub open spec fn directive_head(data: SymData) -> Seq<char> {
    match data {
        SymData::Any => "    .byte "@,
        SymData::Byte { .. } => "    .byte "@,
        SymData::Short { .. } => "    .short "@,
        SymData::Word { .. } => "    .word "@,
    }
}

/// One literal element of `data` at offset `o`.
pub open spec fn literal_text(data: SymData, bytes: Seq<u8>, o: int) -> Seq<char> {
    match data {
        SymData::Any => byte_literal(bytes[o]),
        SymData::Byte { .. } => byte_literal(bytes[o]),
        _ => hex_literal(le_value(window(bytes, o, data.spec_element_size() as int))),
    }
}

/// Puts `s` before a text that may have failed.
pub open spec fn prepend(s: Seq<char>, r: Result<Seq<char>, LookupError>) -> Result<Seq<char>, LookupError> {
    match r {
        Ok(t) => Ok(s + t),
        Err(e) => Err(e),
    }
}

/// The text for the bytes from row `row`, column `col`, with a line of
/// literals open where `pending`: rows of 16 bytes; at each column a word
/// that refers to a symbol (aligned, 4 bytes left) is written by name, any
/// other element as a literal joined to the open line.
pub open spec fn data_text(l: DataLayout, look: SymbolLookup, row: nat, col: nat, pending: bool) -> Result<
    Seq<char>,
    LookupError,
>
    decreases l.bytes.len() + 16 - row, 20 - col,
{
    let n = l.bytes.len();
    let o = row + col;
    if row >= n {
        Ok(Seq::empty())
    } else if col >= 16 || o >= n {
        prepend(
            if pending {
                "\n"@
            } else {
                Seq::empty()
            },
            data_text(l, look, (row + 16) as nat, 0, false),
        )
    } else {
        let address = (l.addr + o) as u32;
        let word = le_value(window(l.bytes, o as int, 4)) as u32;
        let named = if n - o >= 4 && address % 4 == 0 {
            look.directive(address, word)
        } else {
            Ok(None)
        };
        match named {
            Err(e) => Err(e),
            Ok(Some(t)) => prepend(
                (if pending {
                    "\n"@
                } else {
                    Seq::empty()
                }) + "    "@ + t + "\n"@,
                data_text(l, look, row, (col + 4) as nat, false),
            ),
            Ok(None) => prepend(
                (if pending {
                    ", "@
                } else {
                    directive_head(l.data)
                }) + literal_text(l.data, l.bytes, o as int),
                data_text(l, look, row, (col + l.data.spec_element_size()) as nat, true),
            ),
        }
    }
}

proof fn lemma_prepend_assoc(a: Seq<char>, b: Seq<char>, x: Result<Seq<char>, LookupError>)
    ensures
        prepend(a, prepend(b, x)) == prepend(a + b, x),
{
    if let Ok(t) = x {
        assert(a + (b + t) =~= (a + b) + t);
    }
}

pub(crate) proof fn lemma_word_fits(bytes: Seq<u8>, o: int)
    requires
        0 <= o <= bytes.len(),
    ensures
        le_value(window(bytes, o, 4)) < 0x1_0000_0000,
{
    lemma_le_value_bound(window(bytes, o, 4));
    assert(pow256(0) == 1);
    assert(pow256(1) == 256);
    assert(pow256(2) == 65536);
    assert(pow256(3) == 16777216);
    assert(pow256(4) == 4294967296);
}

/// Why a data symbol could not be written.
#[derive(Clone, Copy, Debug, PartialEq, Eq, Structural)]
pub enum DataError {
    /// Fewer bytes than the symbol's declared size.
    NotEnoughBytes,
    Lookup(LookupError),
}

fn write_literal(out: &mut String, data: &SymData, bytes: &[u8], o: usize, pending: bool)
    requires
        o < bytes@.len(),
    ensures
        final(out)@ == old(out)@ + (if pending {
            ", "@
        } else {
            directive_head(*data)
        }) + literal_text(*data, bytes@, o as int),
{
    let ghost out0 = out@;
    if pending {
        out.append(", ");
    } else {
        match data {
            SymData::Any => out.append("    .byte "),
            SymData::Byte { .. } => out.append("    .byte "),
            SymData::Short { .. } => out.append("    .short "),
            SymData::Word { .. } => out.append("    .word "),
        }
    }
    let ghost out1 = out@;
    match data {
        SymData::Any => push_byte(out, bytes[o]),
        SymData::Byte { .. } => push_byte(out, bytes[o]),
        _ => {
            let v = read_le(bytes, o, data.element_size() as usize);
            push_hex(out, v as u64);
        },
    }
    assert(out@ =~= out0 + (if pending {
        ", "@
    } else {
        directive_head(*data)
    }) + literal_text(*data, bytes@, o as int));
}

/// Writes the bytes of the data symbol `symbol` (of layout `data`).
pub fn write_assembly(data: &SymData, out: &mut String, symbol: &Symbol, bytes: &[u8], symbols: &SymbolLookup) -> (r:
    Result<(), DataError>)
    requires
        symbol.addr as int + bytes@.len() <= 0x1_0000_0000,
    ensures
        match data.spec_size() {
            Some(size) if bytes@.len() < size => r == Err::<(), DataError>(DataError::NotEnoughBytes) && final(out)@ == old(out)@,
            _ => match data_text(DataLayout { data: *data, addr: symbol.addr, bytes: bytes@ }, *symbols, 0, 0, false) {
                Ok(t) => r == Ok::<(), DataError>(()) && final(out)@ == old(out)@ + t,
                Err(e) => r == Err::<(), DataError>(DataError::Lookup(e)),
            },
        },
{
    if let Some(size) = data.size() {
        if (bytes.len() as u64) < size {
            return Err(DataError::NotEnoughBytes);
        }
    }
    let ghost l = DataLayout { data: *data, addr: symbol.addr, bytes: bytes@ };
    let ghost out0 = out@;
    let n = bytes.len();
    let es = data.element_size() as usize;
    let mut row: usize = 0;
    assert(out@.subrange(out0.len() as int, out@.len() as int) =~= Seq::<char>::empty());
    assert(out@.subrange(0, out0.len() as int) =~= out0);
    while row < n
        invariant
            n == bytes@.len(),
            l == (DataLayout { data: *data, addr: symbol.addr, bytes: bytes@ }),
            es == data.spec_element_size(),
            symbol.addr as int + n <= 0x1_0000_0000,
            !(data.spec_size() is Some && n < data.spec_size()->0),
            out@.len() >= out0.len(),
            out0 == old(out)@,
            out@.subrange(0, out0.len() as int) == out0,
            data_text(l, *symbols, 0, 0, false) == prepend(
                out@.subrange(out0.len() as int, out@.len() as int),
                data_text(l, *symbols, row as nat, 0, false),
            ),
        decreases n + 16 - row,
    {
        let mut col: usize = 0;
        let mut pending = false;
        while col < 16 && col < n - row
            invariant
                n == bytes@.len(),
                row < n,
                col <= 19,
                l == (DataLayout { data: *data, addr: symbol.addr, bytes: bytes@ }),
                es == data.spec_element_size(),
                symbol.addr as int + n <= 0x1_0000_0000,
                !(data.spec_size() is Some && n < data.spec_size()->0),
            !(data.spec_size() is Some && n < data.spec_size()->0),
                out@.len() >= out0.len(),
                out0 == old(out)@,
            out0 == old(out)@,
                out@.subrange(0, out0.len() as int) == out0,
                data_text(l, *symbols, 0, 0, false) == prepend(
                    out@.subrange(out0.len() as int, out@.len() as int),
                    data_text(l, *symbols, row as nat, col as nat, pending),
                ),
            decreases 20 - col,
        {
            let o = row + col;
            let address = symbol.addr + o as u32;
            let ghost before = out@;
            let ghost col0 = col;
            let ghost pending0 = pending;
            let mut named = false;
            let ghost piece: Seq<char>;
            proof {
                lemma_word_fits(bytes@, o as int);
            }
            let ghost word_spec = le_value(window(l.bytes, o as int, 4)) as u32;
            let ghost named_spec = if n - o >= 4 && address % 4 == 0 {
                symbols.directive(address, word_spec)
            } else {
                Ok(None)
            };
            if n - o >= 4 && address % 4 == 0 {
                let word = read_le(bytes, o, 4);
                assert(word == word_spec);
                match symbols.write_symbol(out, address, word, &mut pending, "    ") {
                    Ok(b) => {
                        named = b;
                    },
                    Err(e) => {
                        assert(data_text(l, *symbols, row as nat, col0 as nat, pending0) == Err::<
                            Seq<char>,
                            LookupError,
                        >(e));
                        return Err(DataError::Lookup(e));
                    },
                }
            }
            if named {
                proof {
                    piece = (if pending0 {
                        "\n"@
                    } else {
                        Seq::empty()
                    }) + "    "@ + named_spec->Ok_0->Some_0 + "\n"@;
                }
                col += 4;
            } else {
                assert(named_spec == Ok::<Option<Seq<char>>, LookupError>(None));
                write_literal(out, data, bytes, o, pending);
                proof {
                    piece = (if pending0 {
                        ", "@
                    } else {
                        directive_head(*data)
                    }) + literal_text(*data, bytes@, o as int);
                }
                pending = true;
                col += es;
            }
            let ghost delta = out@.subrange(before.len() as int, out@.len() as int);
            assert(out@ =~= before + piece);
            assert(delta =~= piece);
            assert(data_text(l, *symbols, row as nat, col0 as nat, pending0) == prepend(
                delta,
                data_text(l, *symbols, row as nat, col as nat, pending),
            ));
            proof {
                lemma_prepend_assoc(
                    before.subrange(out0.len() as int, before.len() as int),
                    delta,
                    data_text(l, *symbols, row as nat, col as nat, pending),
                );
            }
            assert(out@.subrange(0, out0.len() as int) =~= out0) by {
                assert(out@.subrange(0, before.len() as int) =~= before);
            }
            assert(out@.subrange(out0.len() as int, out@.len() as int) =~= before.subrange(
                out0.len() as int,
                before.len() as int,
            ) + delta);
        }
        let ghost before = out@;
        if pending {
            out.append("\n");
        }
        let ghost delta = out@.subrange(before.len() as int, out@.len() as int);
        assert(out@ =~= before + delta);
        assert(delta =~= (if pending {
            "\n"@
        } else {
            Seq::<char>::empty()
        }));
        assert(data_text(l, *symbols, row as nat, col as nat, pending) == prepend(
            delta,
            data_text(l, *symbols, (row + 16) as nat, 0, false),
        ));
        proof {
            lemma_prepend_assoc(
                before.subrange(out0.len() as int, before.len() as int),
                delta,
                data_text(l, *symbols, (row + 16) as nat, 0, false),
            );
        }
        assert(out@.subrange(out0.len() as int, out@.len() as int) =~= before.subrange(
            out0.len() as int,
            before.len() as int,
        ) + delta);
        assert(out@.subrange(0, out0.len() as int) =~= out0) by {
            assert(out@.subrange(0, before.len() as int) =~= before);
        }
        if n - row <= 16 {
            assert(data_text(l, *symbols, (row + 16) as nat, 0, false) == Ok::<Seq<char>, LookupError>(
                Seq::empty(),
            ));
            assert(out@ =~= out0 + out@.subrange(out0.len() as int, out@.len() as int));
            assert(out@.subrange(out0.len() as int, out@.len() as int) + Seq::<char>::empty() =~= out@.subrange(
                out0.len() as int,
                out@.len() as int,
            ));
            return Ok(());
        }
        row += 16;
    }
    assert(out@ =~= out0 + out@.subrange(out0.len() as int, out@.len() as int));
    assert(out@.subrange(out0.len() as int, out@.len() as int) + Seq::<char>::empty() =~= out@.subrange(
        out0.len() as int,
        out@.len() as int,
    ));
    Ok(())
}

} // verus!
