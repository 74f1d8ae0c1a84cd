//! Small text utilities shared by the parsers and the emitters: splitting a
//! line into words, splitting an attribute at its colon, and reading integers.
use vstd::prelude::*;

verus! {

/// The whitespace characters that separate words on a line: Unicode's
/// White_Space set, as `char::is_whitespace` has it.
pub open spec fn is_ws(c: char) -> bool {
    c == ' ' || ('\t' <= c && c <= '\r') || c == '\u{85}' || c == '\u{a0}' || c == '\u{1680}' || ('\u{2000}' <= c
        && c <= '\u{200a}') || c == '\u{2028}' || c == '\u{2029}' || c == '\u{202f}' || c == '\u{205f}' || c == '\u{3000}'
}

/// The `[start, end)` spans of the maximal runs of non-whitespace characters
/// of `s`, from left to right.
pub open spec fn word_spans(s: Seq<char>) -> Seq<(int, int)>
    decreases s.len(),
{
    if s.len() == 0 {
        Seq::empty()
    } else {
        let p = word_spans(s.drop_last());
        let n = s.len() as int;
        if is_ws(s[n - 1]) {
            p
        } else if n >= 2 && !is_ws(s[n - 2]) {
            p.update(p.len() - 1, (p.last().0, n))
        } else {
            p.push((n - 1, n))
        }
    }
}

/// The words of `s`: its maximal runs of non-whitespace characters.
pub open spec fn words(s: Seq<char>) -> Seq<Seq<char>> {
    word_spans(s).map_values(|sp: (int, int)| s.subrange(sp.0, sp.1))
}

proof fn lemma_word_spans_last(s: Seq<char>)
    requires
        s.len() >= 1,
        !is_ws(s.last()),
    ensures
        word_spans(s).len() >= 1,
        word_spans(s).last().1 == s.len(),
    decreases s.len(),
{
    let n = s.len() as int;
    if n >= 2 && !is_ws(s[n - 2]) {
        lemma_word_spans_last(s.drop_last());
    }
}

proof fn lemma_word_spans_bounds(s: Seq<char>)
    ensures
        forall|k: int|
            0 <= k < word_spans(s).len() ==> 0 <= #[trigger] word_spans(s)[k].0 < word_spans(s)[k].1
                <= s.len(),
    decreases s.len(),
{
    if s.len() > 0 {
        let q = s.drop_last();
        lemma_word_spans_bounds(q);
        let p = word_spans(q);
        let n = s.len() as int;
        if !is_ws(s[n - 1]) && n >= 2 && !is_ws(s[n - 2]) {
            lemma_word_spans_last(q);
            assert forall|k: int| 0 <= k < word_spans(s).len() implies 0 <= #[trigger] word_spans(s)[k].0
                < word_spans(s)[k].1 <= s.len() by {
                if k < p.len() - 1 {
                    assert(word_spans(s)[k] == p[k]);
                }
            }
        } else if !is_ws(s[n - 1]) {
            assert forall|k: int| 0 <= k < word_spans(s).len() implies 0 <= #[trigger] word_spans(s)[k].0
                < word_spans(s)[k].1 <= s.len() by {
                if k < p.len() {
                    assert(word_spans(s)[k] == p[k]);
                }
            }
        }
    }
}

/// Splits `line` into the spans of its words.
pub fn split_words(line: &str) -> (r: Vec<(usize, usize)>)
    ensures
        r@.len() == word_spans(line@).len(),
        forall|k: int|
            0 <= k < r@.len() ==> (#[trigger] r@[k]).0 as int == word_spans(line@)[k].0 && r@[k].1 as int
                == word_spans(line@)[k].1,
        forall|k: int| 0 <= k < r@.len() ==> (#[trigger] r@[k]).0 < r@[k].1 <= line@.len(),
{
    let n = line.unicode_len();
    let mut r: Vec<(usize, usize)> = Vec::new();
    let mut i: usize = 0;
    let mut prev_ws = true;
    while i < n
        invariant
            n == line@.len(),
            i <= n,
            r@.len() == word_spans(line@.subrange(0, i as int)).len(),
            forall|k: int|
                0 <= k < r@.len() ==> (#[trigger] r@[k]).0 as int == word_spans(
                    line@.subrange(0, i as int),
                )[k].0 && r@[k].1 as int == word_spans(line@.subrange(0, i as int))[k].1,
            prev_ws == (i == 0 || is_ws(line@[i - 1])),
        decreases n - i,
    {
        let c = line.get_char(i);
        let ghost pre = line@.subrange(0, i as int);
        let ghost cur = line@.subrange(0, i + 1);
        assert(cur.drop_last() =~= pre);
        if is_whitespace(c) {
            prev_ws = true;
        } else if !prev_ws {
            proof {
                lemma_word_spans_last(pre);
            }
            let last = r.len() - 1;
            let start = r[last].0;
            r.set(last, (start, i + 1));
            prev_ws = false;
        } else {
            r.push((i, i + 1));
            prev_ws = false;
        }
        i += 1;
    }
    assert(line@.subrange(0, n as int) =~= line@);
    proof {
        lemma_word_spans_bounds(line@);
    }
    r
}

/// The first word of a line starts at its first character when that
/// character is not blank, and later otherwise.
pub proof fn lemma_words_first(s: Seq<char>)
    requires
        words(s).len() > 0,
    ensures
        s.len() > 0,
        !is_ws(s[0]) ==> word_spans(s)[0].0 == 0,
        is_ws(s[0]) ==> word_spans(s)[0].0 > 0,
    decreases s.len(),
{
    lemma_word_spans_bounds(s);
    let q = s.drop_last();
    let n = s.len() as int;
    if word_spans(q).len() > 0 {
        lemma_words_first(q);
        assert(q[0] == s[0]);
        if n >= 2 && !is_ws(s[n - 1]) && !is_ws(s[n - 2]) && word_spans(q).len() == 1 {
            lemma_word_spans_last(q);
        }
    } else {
        lemma_word_spans_bounds(q);
        lemma_no_words_all_blank(q);
        if n >= 2 {
            assert(is_ws(q[0]));
        }
    }
}

proof fn lemma_no_words_all_blank(s: Seq<char>)
    requires
        word_spans(s).len() == 0,
    ensures
        forall|i: int| 0 <= i < s.len() ==> is_ws(#[trigger] s[i]),
    decreases s.len(),
{
    if s.len() > 0 {
        let q = s.drop_last();
        if !is_ws(s.last()) {
            lemma_word_spans_len_grows(s);
        }
        lemma_word_spans_len_mono(s);
        lemma_no_words_all_blank(q);
        assert forall|i: int| 0 <= i < s.len() implies is_ws(#[trigger] s[i]) by {
            if i < s.len() - 1 {
                assert(s[i] == q[i]);
            }
        }
    }
}

proof fn lemma_word_spans_len_grows(s: Seq<char>)
    requires
        s.len() > 0,
        !is_ws(s.last()),
    ensures
        word_spans(s).len() > 0,
{
    lemma_word_spans_last(s);
}

proof fn lemma_word_spans_len_mono(s: Seq<char>)
    requires
        s.len() > 0,
    ensures
        word_spans(s.drop_last()).len() <= word_spans(s).len(),
{
    let n = s.len() as int;
    if !is_ws(s[n - 1]) && n >= 2 && !is_ws(s[n - 2]) {
        lemma_word_spans_last(s.drop_last());
    }
}

/// A word's characters, from its span.
pub proof fn lemma_word_at(line: Seq<char>, spans: Seq<(usize, usize)>, k: int)
    requires
        spans.len() == word_spans(line).len(),
        forall|i: int|
            0 <= i < spans.len() ==> (#[trigger] spans[i]).0 as int == word_spans(line)[i].0 && spans[i].1 as int
                == word_spans(line)[i].1,
        0 <= k < spans.len(),
    ensures
        words(line)[k] == line.subrange(spans[k].0 as int, spans[k].1 as int),
        words(line).len() == spans.len(),
{
}

/// Whether `c` separates words.
pub fn is_whitespace(c: char) -> (r: bool)
    ensures
        r == is_ws(c),
{
    c == ' ' || ('\t' <= c && c <= '\r') || c == '\u{85}' || c == '\u{a0}' || c == '\u{1680}' || ('\u{2000}' <= c
        && c <= '\u{200a}') || c == '\u{2028}' || c == '\u{2029}' || c == '\u{202f}' || c == '\u{205f}' || c == '\u{3000}'
}

/// The value of `c` as a digit in base `radix` (10 or 16), if it is one.
pub open spec fn digit_of(c: char, radix: nat) -> Option<nat> {
    if '0' <= c <= '9' {
        Some((c as nat - '0' as nat) as nat)
    } else if radix == 16 && 'a' <= c <= 'f' {
        Some((c as nat - 'a' as nat + 10) as nat)
    } else if radix == 16 && 'A' <= c <= 'F' {
        Some((c as nat - 'A' as nat + 10) as nat)
    } else {
        None
    }
}

/// Whether every character of `s` is a digit in base `radix`.
pub open spec fn all_digits(s: Seq<char>, radix: nat) -> bool {
    forall|i: int| 0 <= i < s.len() ==> (#[trigger] digit_of(s[i], radix)).is_some()
}

/// The number that the digits `s` write in base `radix`.
pub open spec fn digits_value(s: Seq<char>, radix: nat) -> nat
    decreases s.len(),
{
    if s.len() == 0 {
        0
    } else {
        digits_value(s.drop_last(), radix) * radix + digit_of(s.last(), radix).unwrap_or(0)
    }
}

/// The digits of a number literal and their base: hexadecimal after a `0x`
/// prefix, decimal otherwise.
pub open spec fn literal_digits(s: Seq<char>) -> (Seq<char>, nat) {
    if s.len() >= 2 && s[0] == '0' && s[1] == 'x' {
        (s.subrange(2, s.len() as int), 16)
    } else {
        (s, 10)
    }
}

/// The 32-bit number that `s` writes, in hexadecimal after `0x` or in decimal;
/// `None` for an empty or non-digit literal and for one that exceeds `u32::MAX`.
pub open spec fn parse_u32_spec(s: Seq<char>) -> Option<u32> {
    let (d, radix) = literal_digits(s);
    if d.len() > 0 && all_digits(d, radix) && digits_value(d, radix) <= u32::MAX {
        Some(digits_value(d, radix) as u32)
    } else {
        None
    }
}

proof fn lemma_digits_value_monotone(s: Seq<char>, radix: nat, i: int, j: int)
    requires
        radix >= 1,
        0 <= i <= j <= s.len(),
    ensures
        digits_value(s.subrange(0, i), radix) <= digits_value(s.subrange(0, j), radix),
    decreases j - i,
{
    if i < j {
        lemma_digits_value_monotone(s, radix, i, j - 1);
        let t = s.subrange(0, j);
        assert(t.drop_last() =~= s.subrange(0, j - 1));
        let v = digits_value(s.subrange(0, j - 1), radix);
        assert(v * radix >= v) by (nonlinear_arith)
            requires
                radix >= 1,
        ;
    }
}

fn digit(c: char, radix: u32) -> (r: Option<u32>)
    requires
        radix == 10 || radix == 16,
    ensures
        r.is_some() == digit_of(c, radix as nat).is_some(),
        r.is_some() ==> r.unwrap() as nat == digit_of(c, radix as nat).unwrap(),
        r.is_some() ==> r.unwrap() < radix,
{
    if '0' <= c && c <= '9' {
        Some(c as u32 - '0' as u32)
    } else if radix == 16 && 'a' <= c && c <= 'f' {
        Some(c as u32 - 'a' as u32 + 10)
    } else if radix == 16 && 'A' <= c && c <= 'F' {
        Some(c as u32 - 'A' as u32 + 10)
    } else {
        None
    }
}

/// Reads a 32-bit number written in hexadecimal after `0x`, or in decimal.
pub fn parse_u32(s: &str) -> (r: Option<u32>)
    ensures
        r == parse_u32_spec(s@),
{
    let n = s.unicode_len();
    let mut start: usize = 0;
    let mut radix: u32 = 10;
    if n >= 2 && s.get_char(0) == '0' && s.get_char(1) == 'x' {
        start = 2;
        radix = 16;
    }
    let ghost d = literal_digits(s@).0;
    assert(d =~= s@.subrange(start as int, n as int));
    if start == n {
        return None;
    }
    let mut val: u32 = 0;
    let mut i: usize = start;
    assert(d.subrange(0, 0) =~= Seq::<char>::empty());
    while i < n
        invariant
            n == s@.len(),
            radix as nat == literal_digits(s@).1,
            radix == 10 || radix == 16,
            d == s@.subrange(start as int, n as int),
            d == literal_digits(s@).0,
            start <= i <= n,
            all_digits(d.subrange(0, i - start), radix as nat),
            val as nat == digits_value(d.subrange(0, i - start), radix as nat),
        decreases n - i,
    {
        let ghost k = i - start;
        let c = s.get_char(i);
        assert(c == d[k]);
        let ghost pre = d.subrange(0, k);
        let ghost cur = d.subrange(0, k + 1);
        assert(cur.drop_last() =~= pre);
        match digit(c, radix) {
            None => {
                assert(digit_of(d[k], radix as nat).is_none());
                assert(!all_digits(d, radix as nat));
                assert(literal_digits(s@).0 == d);
                assert(parse_u32_spec(s@).is_none());
                return None;
            },
            Some(v) => {
                assert(val as u64 * radix as u64 <= 0xF_FFFF_FFFFu64) by (nonlinear_arith)
                    requires
                        val <= 0xFFFF_FFFFu32,
                        radix <= 16,
                ;
                let next: u64 = val as u64 * radix as u64 + v as u64;
                if next > 0xFFFF_FFFFu64 {
                    proof {
                        assert(cur.last() == c);
                        assert(digits_value(cur, radix as nat) == val as nat * radix as nat + v as nat);
                        lemma_digits_value_monotone(d, radix as nat, k + 1, d.len() as int);
                        assert(d.subrange(0, d.len() as int) =~= d);
                        assert(literal_digits(s@).0 == d);
                        assert(parse_u32_spec(s@).is_none());
                    }
                    return None;
                }
                assert forall|x: int| 0 <= x < cur.len() implies (#[trigger] digit_of(cur[x], radix as nat)).is_some() by {
                    if x < k {
                        assert(cur[x] == pre[x]);
                    }
                }
                val = next as u32;
                i += 1;
            },
        }
    }
    assert(d.subrange(0, d.len() as int) =~= d);
    Some(val)
}

/// The position of the first `:` in `w`, or -1 if there is none.
pub open spec fn first_colon(w: Seq<char>) -> int
    decreases w.len(),
{
    if w.len() == 0 {
        -1
    } else {
        let p = first_colon(w.drop_last());
        if p >= 0 {
            p
        } else if w.last() == ':' {
            w.len() - 1
        } else {
            -1
        }
    }
}

/// The key of a `key:value` attribute word: what stands before its first colon.
pub open spec fn attr_key(w: Seq<char>) -> Seq<char> {
    if first_colon(w) >= 0 {
        w.subrange(0, first_colon(w))
    } else {
        w
    }
}

/// The value of a `key:value` attribute word: what stands after its first colon.
pub open spec fn attr_value(w: Seq<char>) -> Seq<char> {
    if first_colon(w) >= 0 {
        w.subrange(first_colon(w) + 1, w.len() as int)
    } else {
        Seq::empty()
    }
}

/// Splits the characters `[from, to)` of `line` at the first colon: the key
/// before it and the value after it (empty where there is no colon).
pub fn split_attribute(line: &str, from: usize, to: usize) -> (r: (&str, &str))
    requires
        from <= to <= line@.len(),
    ensures
        r.0@ == attr_key(line@.subrange(from as int, to as int)),
        r.1@ == attr_value(line@.subrange(from as int, to as int)),
{
    let ghost w = line@.subrange(from as int, to as int);
    let mut i: usize = from;
    assert(w.subrange(0, 0) =~= Seq::<char>::empty());
    while i < to
        invariant
            from <= i <= to <= line@.len(),
            w == line@.subrange(from as int, to as int),
            first_colon(w.subrange(0, i - from)) == -1,
        decreases to - i,
    {
        let ghost pre = w.subrange(0, i - from);
        let ghost cur = w.subrange(0, i - from + 1);
        assert(cur.drop_last() =~= pre);
        let c = line.get_char(i);
        assert(c == w[i - from]);
        if c == ':' {
            proof {
                lemma_prefix_colon(w, i - from);
            }
            let key = line.substring_char(from, i);
            let value = line.substring_char(i + 1, to);
            assert(key@ =~= w.subrange(0, i - from));
            assert(value@ =~= w.subrange(i - from + 1, w.len() as int));
            return (key, value);
        }
        i += 1;
    }
    assert(w.subrange(0, w.len() as int) =~= w);
    proof {
        reveal_strlit("");
    }
    (line.substring_char(from, to), "")
}

proof fn lemma_prefix_colon(w: Seq<char>, k: int)
    requires
        0 <= k < w.len(),
        first_colon(w.subrange(0, k)) == -1,
        w[k] == ':',
    ensures
        first_colon(w) == k,
    decreases w.len(),
{
    if k < w.len() - 1 {
        assert(w.drop_last().subrange(0, k) =~= w.subrange(0, k));
        lemma_prefix_colon(w.drop_last(), k);
    } else {
        assert(w.drop_last() =~= w.subrange(0, k));
    }
}

/// The lowercase hexadecimal digit of `d`.
pub open spec fn hex_char(d: nat) -> char {
    if d < 10 {
        ('0' as nat + d) as char
    } else {
        ('a' as nat + d - 10) as char
    }
}

/// The lowercase hexadecimal digits of `n`, without leading zeros (`0` for zero).
pub open spec fn hex_digits(n: nat) -> Seq<char>
    decreases n,
{
    if n < 16 {
        seq![hex_char(n)]
    } else {
        hex_digits(n / 16).push(hex_char(n % 16))
    }
}

/// `0x` followed by the hexadecimal digits of `n`.
pub open spec fn hex_literal(n: nat) -> Seq<char> {
    "0x"@ + hex_digits(n)
}

/// Two hexadecimal digits of a byte, after `0x`.
pub open spec fn byte_literal(b: u8) -> Seq<char> {
    "0x"@ + seq![hex_char(b as nat / 16), hex_char(b as nat % 16)]
}

fn hex_digit_str(d: u64) -> (r: &'static str)
    requires
        d < 16,
    ensures
        r@ == seq![hex_char(d as nat)],
{
    proof {
        reveal_strlit("0");
        reveal_strlit("1");
        reveal_strlit("2");
        reveal_strlit("3");
        reveal_strlit("4");
        reveal_strlit("5");
        reveal_strlit("6");
        reveal_strlit("7");
        reveal_strlit("8");
        reveal_strlit("9");
        reveal_strlit("a");
        reveal_strlit("b");
        reveal_strlit("c");
        reveal_strlit("d");
        reveal_strlit("e");
        reveal_strlit("f");
    }
    match d {
        0 => "0",
        1 => "1",
        2 => "2",
        3 => "3",
        4 => "4",
        5 => "5",
        6 => "6",
        7 => "7",
        8 => "8",
        9 => "9",
        10 => "a",
        11 => "b",
        12 => "c",
        13 => "d",
        14 => "e",
        15 => "f",
        _ => "f",
    }
}

/// Appends the hexadecimal digits of `n`.
pub fn push_hex_digits(out: &mut String, n: u64)
    ensures
        final(out)@ == old(out)@ + hex_digits(n as nat),
    decreases n,
{
    if n >= 16 {
        push_hex_digits(out, n / 16);
    }
    out.append(hex_digit_str(n % 16));
    assert(final(out)@ =~= old(out)@ + hex_digits(n as nat));
}

/// Appends `0x` and the hexadecimal digits of `n`.
pub fn push_hex(out: &mut String, n: u64)
    ensures
        final(out)@ == old(out)@ + hex_literal(n as nat),
{
    out.append("0x");
    push_hex_digits(out, n);
    assert(final(out)@ =~= old(out)@ + hex_literal(n as nat));
}

/// Appends a byte as `0x` and two hexadecimal digits.
pub fn push_byte(out: &mut String, b: u8)
    ensures
        final(out)@ == old(out)@ + byte_literal(b),
{
    out.append("0x");
    out.append(hex_digit_str(b as u64 / 16));
    out.append(hex_digit_str(b as u64 % 16));
    assert(final(out)@ =~= old(out)@ + byte_literal(b));
}

} // verus!
