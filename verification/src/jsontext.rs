//! The textual building blocks of the canonical claims JSON: decimal
//! numbers, string escaping, and their parsers, all at the level of
//! UTF-8 bytes. Printing and parsing are proved inverse.

use vstd::arithmetic::div_mod::lemma_fundamental_div_mod;
use vstd::prelude::*;
use vstd::utf8::{char_is_scalar, encode_scalar, encode_utf8, encode_utf8_valid_utf8,
    has_width_1_encoding, is_leading_byte_width_1, leading_byte_width_1, pop_first_scalar,
    valid_first_scalar, valid_utf8, valid_utf8_concat};

verus! {

/// ASCII decimal digit.
pub open spec fn is_digit(b: u8) -> bool {
    48 <= b && b <= 57
}

pub open spec fn all_digits(s: Seq<u8>) -> bool {
    forall|k: int| 0 <= k < s.len() ==> is_digit(#[trigger] s[k])
}

/// Numeric value of a digit string, most significant digit first.
pub open spec fn value_of(s: Seq<u8>) -> int
    decreases s.len(),
{
    if s.len() == 0 {
        0
    } else {
        value_of(s.drop_last()) * 10 + (s.last() - 48)
    }
}

/// Canonical decimal digits of a number.
pub open spec fn dec_of(n: nat) -> Seq<u8>
    decreases n,
{
    if n < 10 {
        seq![(n + 48) as u8]
    } else {
        dec_of(n / 10).push((n % 10 + 48) as u8)
    }
}

pub proof fn lemma_dec_of_digits(n: nat)
    ensures
        dec_of(n).len() >= 1,
        all_digits(dec_of(n)),
    decreases n,
{
    if n >= 10 {
        lemma_dec_of_digits(n / 10);
        assert forall|k: int| 0 <= k < dec_of(n).len() implies is_digit(#[trigger] dec_of(n)[k]) by {
            if k < dec_of(n / 10).len() {
                assert(dec_of(n)[k] == dec_of(n / 10)[k]);
            }
        }
    }
}

pub proof fn lemma_dec_of_value(n: nat)
    ensures
        value_of(dec_of(n)) == n,
    decreases n,
{
    if n < 10 {
        let d = dec_of(n);
        assert(d == seq![(n + 48) as u8]);
        assert(d.len() == 1);
        assert(d.last() == (n + 48) as u8);
        assert((n + 48) as u8 == n + 48);
        assert(d.drop_last() =~= Seq::<u8>::empty());
        assert(value_of(d) == value_of(Seq::<u8>::empty()) * 10 + (d.last() - 48));
    } else {
        lemma_dec_of_value(n / 10);
        let d = dec_of(n);
        assert(d == dec_of(n / 10).push((n % 10 + 48) as u8));
        assert(d.last() == (n % 10 + 48) as u8);
        assert((n % 10 + 48) as u8 == n % 10 + 48);
        assert(d.drop_last() =~= dec_of(n / 10));
        assert(value_of(d) == value_of(dec_of(n / 10)) * 10 + (d.last() - 48));
        lemma_fundamental_div_mod(n as int, 10);
        assert(n == 10 * (n / 10) + n % 10);
    }
}

pub proof fn lemma_value_nonneg(s: Seq<u8>)
    requires
        all_digits(s),
    ensures
        value_of(s) >= 0,
    decreases s.len(),
{
    if s.len() > 0 {
        assert(all_digits(s.drop_last()));
        lemma_value_nonneg(s.drop_last());
    }
}

/// A digit string is worth at least any of its prefixes.
pub proof fn lemma_value_prefix(s: Seq<u8>, j: int)
    requires
        all_digits(s),
        0 <= j <= s.len(),
    ensures
        value_of(s.take(j)) <= value_of(s),
    decreases s.len(),
{
    if j == s.len() {
        assert(s.take(j) =~= s);
    } else {
        assert(all_digits(s.drop_last()));
        assert(s.take(j) =~= s.drop_last().take(j));
        lemma_value_prefix(s.drop_last(), j);
        lemma_value_nonneg(s.drop_last());
    }
}

/// Length of the run of digits starting at `i`.
pub open spec fn run_len(s: Seq<u8>, i: int) -> int
    decreases s.len() - i when 0 <= i <= s.len()
{
    if i < s.len() && is_digit(s[i]) {
        1 + run_len(s, i + 1)
    } else {
        0
    }
}

pub proof fn lemma_run_len(s: Seq<u8>, i: int)
    requires
        0 <= i <= s.len(),
    ensures
        0 <= run_len(s, i),
        i + run_len(s, i) <= s.len(),
        forall|k: int| i <= k < i + run_len(s, i) ==> is_digit(#[trigger] s[k]),
        i + run_len(s, i) == s.len() || !is_digit(s[i + run_len(s, i)]),
    decreases s.len() - i,
{
    if i < s.len() && is_digit(s[i]) {
        lemma_run_len(s, i + 1);
    }
}

/// A run that is digits up to `j` and stops there has length `j - i`.
pub proof fn lemma_run_exact(s: Seq<u8>, i: int, j: int)
    requires
        0 <= i <= j <= s.len(),
        forall|k: int| i <= k < j ==> is_digit(#[trigger] s[k]),
        j == s.len() || !is_digit(s[j]),
    ensures
        run_len(s, i) == j - i,
    decreases j - i,
{
    if i < j {
        lemma_run_exact(s, i + 1, j);
    }
}

/// Parses the decimal number at `i`: the whole digit run, as a `u64`.
/// Fails where no digit stands at `i` or the run exceeds `u64::MAX`.
pub open spec fn parse_number_at(s: Seq<u8>, i: int) -> Option<(u64, int)> {
    let l = run_len(s, i);
    if l == 0 {
        Option::None
    } else {
        let v = value_of(s.subrange(i, i + l));
        if v > u64::MAX {
            Option::None
        } else {
            Option::Some((v as u64, i + l))
        }
    }
}

/// Printing a number and parsing it back yields the number, whatever
/// follows, as long as it does not begin with a digit.
pub proof fn lemma_parse_number_dec(s: Seq<u8>, i: int, n: u64)
    requires
        0 <= i,
        i + dec_of(n as nat).len() <= s.len(),
        s.subrange(i, i + dec_of(n as nat).len()) == dec_of(n as nat),
        i + dec_of(n as nat).len() == s.len() || !is_digit(s[i + dec_of(n as nat).len()]),
    ensures
        parse_number_at(s, i) == Option::Some((n, i + dec_of(n as nat).len())),
{
    let d = dec_of(n as nat);
    lemma_dec_of_digits(n as nat);
    lemma_dec_of_value(n as nat);
    assert forall|k: int| i <= k < i + d.len() implies is_digit(#[trigger] s[k]) by {
        assert(s[k] == d[k - i]);
    }
    lemma_run_exact(s, i, i + d.len());
}

/// JSON escaping of one byte: quote and backslash get a backslash, control
/// bytes become a `\u00XX` escape, and every other byte stands as itself
/// (multi-byte UTF-8 sequences pass through untouched).
pub open spec fn hex_digit(v: u8) -> u8
    recommends
        v < 16,
{
    if v < 10 {
        (v + 48) as u8
    } else {
        (v + 87) as u8
    }
}

pub open spec fn hex_val(b: u8) -> u8 {
    if 48 <= b && b <= 57 {
        (b - 48) as u8
    } else if 97 <= b && b <= 102 {
        (b - 87) as u8
    } else {
        255u8
    }
}

pub open spec fn esc_byte(b: u8) -> Seq<u8> {
    if b == 34 {
        seq![92u8, 34u8]
    } else if b == 92 {
        seq![92u8, 92u8]
    } else if b < 32 {
        seq![92u8, 117u8, 48u8, 48u8, hex_digit(b / 16), hex_digit(b % 16)]
    } else {
        seq![b]
    }
}

/// JSON escaping of a byte string.
pub open spec fn esc(s: Seq<u8>) -> Seq<u8>
    decreases s.len(),
{
    if s.len() == 0 {
        Seq::<u8>::empty()
    } else {
        esc_byte(s[0]) + esc(s.skip(1))
    }
}

/// Parses a JSON string body starting at `i` (just inside the opening
/// quote) up to and including the closing quote; yields the unescaped
/// bytes and the position after the quote. Accepts exactly the escapes
/// `esc` emits, plus any raw byte other than quote and backslash.
pub open spec fn parse_jstr_at(s: Seq<u8>, i: int) -> Option<(Seq<u8>, int)>
    decreases s.len() - i when 0 <= i <= s.len()
{
    if i >= s.len() {
        Option::None
    } else if s[i] == 34 {
        Option::Some((Seq::<u8>::empty(), i + 1))
    } else if s[i] == 92 {
        if i + 1 >= s.len() {
            Option::None
        } else if s[i + 1] == 34 || s[i + 1] == 92 {
            match parse_jstr_at(s, i + 2) {
                Option::Some((c, j)) => Option::Some((seq![s[i + 1]] + c, j)),
                Option::None => Option::None,
            }
        } else if s[i + 1] == 117 {
            if i + 6 > s.len() {
                Option::None
            } else if s[i + 2] == 48 && s[i + 3] == 48 && (s[i + 4] == 48 || s[i + 4] == 49)
                && hex_val(s[i + 5]) < 16 {
                match parse_jstr_at(s, i + 6) {
                    Option::Some((c, j)) => Option::Some(
                        (seq![(16 * (s[i + 4] - 48) + hex_val(s[i + 5])) as u8] + c, j),
                    ),
                    Option::None => Option::None,
                }
            } else {
                Option::None
            }
        } else {
            Option::None
        }
    } else {
        match parse_jstr_at(s, i + 1) {
            Option::Some((c, j)) => Option::Some((seq![s[i]] + c, j)),
            Option::None => Option::None,
        }
    }
}

/// Unescaping inverts escaping: an escaped string followed by its closing
/// quote parses back to the original bytes.
pub proof fn lemma_jstr_roundtrip(s: Seq<u8>, x: Seq<u8>, i: int)
    requires
        0 <= i,
        i + esc(x).len() + 1 <= s.len(),
        s.subrange(i, i + esc(x).len() + 1) == esc(x).push(34u8),
    ensures
        parse_jstr_at(s, i) == Option::Some((x, i + esc(x).len() + 1)),
    decreases x.len(),
{
    let e = esc(x);
    let w = e.push(34u8);
    let sub = s.subrange(i, i + e.len() + 1);
    assert(w.len() == e.len() + 1);
    assert forall|k: int| 0 <= k < w.len() implies s[i + k] == #[trigger] w[k] by {
        assert(sub[k] == s[i + k]);
        assert(sub[k] == w[k]);
    }
    if x.len() == 0 {
        assert(e =~= Seq::<u8>::empty());
        assert(s[i + 0] == w[0]);
        assert(s[i] == 34);
    } else {
        let b = x[0];
        let rest = x.skip(1);
        let eb = esc_byte(b);
        let er = esc(rest);
        assert(e == eb + er);
        assert forall|k: int| 0 <= k < eb.len() implies s[i + k] == #[trigger] eb[k] by {
            assert(s[i + k] == w[k]);
            assert(w[k] == e[k]);
            assert(e[k] == (eb + er)[k]);
        }
        let i2 = i + eb.len();
        assert(s.subrange(i2, i2 + er.len() + 1) =~= er.push(34u8)) by {
            assert forall|k: int|
                0 <= k < er.len() + 1 implies #[trigger] s.subrange(i2, i2 + er.len() + 1)[k]
                == er.push(34u8)[k] by {
                assert(s.subrange(i2, i2 + er.len() + 1)[k] == s[i2 + k]);
                assert(s[i + (eb.len() + k)] == w[eb.len() + k]);
                if k < er.len() {
                    assert(w[eb.len() + k] == e[eb.len() + k]);
                    assert(e[eb.len() + k] == (eb + er)[eb.len() + k]);
                    assert((eb + er)[eb.len() + k] == er[k]);
                } else {
                    assert(eb.len() + k == e.len());
                    assert(w[e.len() as int] == 34u8);
                }
            }
        }
        lemma_jstr_roundtrip(s, rest, i2);
        assert(parse_jstr_at(s, i2) == Option::Some((rest, i2 + er.len() + 1)));
        assert(i2 + er.len() + 1 == i + e.len() + 1);
        if b == 34 {
            assert(s[i + 0] == eb[0] && s[i + 1] == eb[1]);
            assert(s[i] == 92 && s[i + 1] == 34);
            assert(seq![s[i + 1]] + rest =~= x);
        } else if b == 92 {
            assert(s[i + 0] == eb[0] && s[i + 1] == eb[1]);
            assert(s[i] == 92 && s[i + 1] == 92);
            assert(seq![s[i + 1]] + rest =~= x);
        } else if b < 32 {
            assert(s[i + 0] == eb[0] && s[i + 1] == eb[1] && s[i + 2] == eb[2] && s[i + 3] == eb[3]
                && s[i + 4] == eb[4] && s[i + 5] == eb[5]);
            assert(s[i] == 92 && s[i + 1] == 117 && s[i + 2] == 48 && s[i + 3] == 48);
            assert(s[i + 4] == hex_digit(b / 16) && s[i + 5] == hex_digit(b % 16));
            assert(b / 16 < 2 && b % 16 < 16) by {
                lemma_fundamental_div_mod(b as int, 16);
            }
            assert(hex_digit(b / 16) == 48 + b / 16);
            assert(hex_val(hex_digit(b % 16)) == b % 16);
            assert(16 * ((s[i + 4] - 48) as u8) + hex_val(s[i + 5]) == b) by {
                lemma_fundamental_div_mod(b as int, 16);
            }
            assert(seq![(16 * (s[i + 4] - 48) + hex_val(s[i + 5])) as u8] + rest =~= x);
        } else {
            assert(s[i + 0] == eb[0]);
            assert(s[i] == b && b != 34 && b != 92);
            assert(seq![s[i]] + rest =~= x);
        }
    }
}

/// Escaping distributes over concatenation.
pub proof fn lemma_esc_concat(a: Seq<u8>, b: Seq<u8>)
    ensures
        esc(a + b) == esc(a) + esc(b),
    decreases a.len(),
{
    if a.len() == 0 {
        assert(a + b =~= b);
        assert(esc(a) + esc(b) =~= esc(b));
    } else {
        assert((a + b)[0] == a[0]);
        assert((a + b).skip(1) =~= a.skip(1) + b);
        lemma_esc_concat(a.skip(1), b);
        assert(esc_byte(a[0]) + (esc(a.skip(1)) + esc(b)) =~= (esc_byte(a[0]) + esc(a.skip(1)))
            + esc(b));
    }
}

/// Escaping leaves non-ASCII bytes untouched.
proof fn lemma_esc_id_high(x: Seq<u8>)
    requires
        forall|i: int| 0 <= i < x.len() ==> (#[trigger] x[i]) >= 128,
    ensures
        esc(x) == x,
    decreases x.len(),
{
    if x.len() > 0 {
        assert(esc_byte(x[0]) =~= seq![x[0]]);
        lemma_esc_id_high(x.skip(1));
        assert(seq![x[0]] + x.skip(1) =~= x);
    }
}

/// Every byte an escape sequence emits for an ASCII byte is ASCII.
proof fn lemma_esc_byte_ascii(b: u8)
    requires
        b < 128,
    ensures
        forall|i: int| 0 <= i < esc_byte(b).len() ==> (#[trigger] esc_byte(b)[i]) < 128,
{
    if b < 32 {
        assert(b / 16 < 16 && b % 16 < 16);
    }
}

/// The escaping of a UTF-8 encoding is itself valid UTF-8: ASCII bytes
/// become ASCII escapes, and the bytes of a multi-byte scalar pass
/// through whole.
pub proof fn lemma_esc_utf8_valid(s: Seq<char>)
    ensures
        valid_utf8(esc(encode_utf8(s))),
    decreases s.len(),
{
    if s.len() == 0 {
        assert(encode_utf8(s) =~= Seq::<u8>::empty());
    } else {
        let c = s[0] as u32;
        let eb = encode_scalar(c);
        let rest = encode_utf8(s.drop_first());
        assert(encode_utf8(s) == eb + rest);
        lemma_esc_concat(eb, rest);
        lemma_esc_utf8_valid(s.drop_first());
        char_is_scalar(s[0]);
        encode_utf8_valid_utf8(seq![s[0]]);
        assert(encode_utf8(seq![s[0]]) =~= eb) by {
            assert(seq![s[0]][0] == s[0]);
            assert(seq![s[0]].drop_first() =~= Seq::<char>::empty());
            assert(encode_utf8(Seq::<char>::empty()) =~= Seq::<u8>::empty());
            assert(eb + Seq::<u8>::empty() =~= eb);
        }
        if has_width_1_encoding(c) {
            let b0 = leading_byte_width_1(c);
            assert((c & 0x7F) < 128) by (bit_vector);
            assert(eb == seq![b0]);
            lemma_esc_byte_ascii(b0);
            assert(esc(eb) =~= esc_byte(b0)) by {
                assert(eb[0] == b0);
                assert(eb.skip(1) =~= Seq::<u8>::empty());
                assert(esc(Seq::<u8>::empty()) =~= Seq::<u8>::empty());
                assert(esc_byte(b0) + Seq::<u8>::empty() =~= esc_byte(b0));
            }
            lemma_ascii_valid_utf8(esc_byte(b0));
        } else {
            assert forall|i: int| 0 <= i < eb.len() implies (#[trigger] eb[i]) >= 128 by {
                let sc = c;
                assert((0xC0u8 | ((sc >> 6) & 0x1F) as u8) >= 128) by (bit_vector);
                assert((0xE0u8 | ((sc >> 12) & 0x0F) as u8) >= 128) by (bit_vector);
                assert((0xF0u8 | ((sc >> 18) & 0x7) as u8) >= 128) by (bit_vector);
                assert((0x80u8 | (sc & 0x3F) as u8) >= 128) by (bit_vector);
                assert((0x80u8 | ((sc >> 6) & 0x3F) as u8) >= 128) by (bit_vector);
                assert((0x80u8 | ((sc >> 12) & 0x3F) as u8) >= 128) by (bit_vector);
            }
            lemma_esc_id_high(eb);
        }
        valid_utf8_concat(esc(eb), esc(rest));
    }
}

/// A sequence of ASCII bytes is valid UTF-8.
pub proof fn lemma_ascii_valid_utf8(s: Seq<u8>)
    requires
        forall|i: int| 0 <= i < s.len() ==> (#[trigger] s[i]) < 128,
    ensures
        valid_utf8(s),
    decreases s.len(),
{
    if s.len() > 0 {
        assert(is_leading_byte_width_1(s[0]));
        let b = s[0];
        assert((b & 0x7f) < 128) by (bit_vector);
        assert(valid_first_scalar(s));
        assert(pop_first_scalar(s) =~= s.skip(1));
        lemma_ascii_valid_utf8(s.skip(1));
    }
}

/// A literal stands at position `i`.
pub open spec fn lit_at(s: Seq<u8>, i: int, l: Seq<u8>) -> bool {
    0 <= i && i + l.len() <= s.len() && s.subrange(i, i + l.len()) == l
}

/// Byte-for-byte equality of two slices.
pub fn bytes_eq(a: &[u8], b: &[u8]) -> (r: bool)
    ensures
        r == (a@ == b@),
{
    let n = a.len();
    if n != b.len() {
        return false;
    }
    let mut i: usize = 0;
    while i < n
        invariant
            i <= n,
            n == a@.len() && n == b@.len(),
            forall|k: int| 0 <= k < i ==> a@[k] == b@[k],
        decreases n - i,
    {
        if a[i] != b[i] {
            return false;
        }
        i = i + 1;
    }
    proof {
        assert(a@ =~= b@);
    }
    true
}

/// Does the literal `l` stand at `start` in `s`?
pub fn match_lit(s: &[u8], start: usize, l: &[u8]) -> (r: bool)
    requires
        start <= s@.len(),
    ensures
        r == lit_at(s@, start as int, l@),
{
    let n = s.len();
    let m = l.len();
    if n - start < m {
        return false;
    }
    let mut i: usize = 0;
    while i < m
        invariant
            i <= m,
            start + m <= n,
            n == s@.len() && m == l@.len(),
            forall|k: int| 0 <= k < i ==> s@[start + k] == l@[k],
        decreases m - i,
    {
        if s[start + i] != l[i] {
            proof {
                assert(s@.subrange(start as int, start + m) != l@) by {
                    assert(s@.subrange(start as int, start + m)[i as int] == s@[start + i]);
                }
            }
            return false;
        }
        i = i + 1;
    }
    proof {
        assert(s@.subrange(start as int, start + m) =~= l@);
    }
    true
}

/// Appends a byte slice to a vector.
pub fn push_bytes(out: &mut Vec<u8>, s: &[u8])
    ensures
        final(out)@ == old(out)@ + s@,
{
    let n = s.len();
    let mut i: usize = 0;
    proof {
        assert(out@ =~= old(out)@ + s@.subrange(0, 0));
    }
    while i < n
        invariant
            i <= n,
            n == s@.len(),
            out@ == old(out)@ + s@.subrange(0, i as int),
        decreases n - i,
    {
        out.push(s[i]);
        proof {
            assert(s@.subrange(0, i + 1) =~= s@.subrange(0, i as int).push(s@[i as int]));
            assert(out@ =~= old(out)@ + s@.subrange(0, i + 1));
        }
        i = i + 1;
    }
    proof {
        assert(s@.subrange(0, n as int) =~= s@);
    }
}

/// Copies the bytes of `s` between `a` and `b` into a fresh vector.
pub fn copy_range(s: &[u8], a: usize, b: usize) -> (out: Vec<u8>)
    requires
        a <= b <= s@.len(),
    ensures
        out@ == s@.subrange(a as int, b as int),
{
    let mut out: Vec<u8> = Vec::new();
    let mut j = a;
    proof {
        assert(out@ =~= s@.subrange(a as int, a as int));
    }
    while j < b
        invariant
            a <= j <= b <= s@.len(),
            out@ == s@.subrange(a as int, j as int),
        decreases b - j,
    {
        out.push(s[j]);
        proof {
            assert(s@.subrange(a as int, j + 1) =~= s@.subrange(a as int, j as int).push(
                s@[j as int],
            ));
        }
        j = j + 1;
    }
    out
}

fn hex_digit_x(v: u8) -> (r: u8)
    requires
        v < 16,
    ensures
        r == hex_digit(v),
{
    if v < 10 {
        v + 48
    } else {
        v + 87
    }
}

fn hex_val_x(b: u8) -> (r: u8)
    ensures
        r == hex_val(b),
{
    if 48 <= b && b <= 57 {
        b - 48
    } else if 97 <= b && b <= 102 {
        b - 87
    } else {
        255
    }
}

/// Appends the canonical decimal digits of `n`.
pub fn push_decimal(out: &mut Vec<u8>, n: u64)
    ensures
        final(out)@ == old(out)@ + dec_of(n as nat),
    decreases n,
{
    if n < 10 {
        out.push((n as u8) + 48);
        proof {
            assert(out@ =~= old(out)@ + dec_of(n as nat));
        }
    } else {
        push_decimal(out, n / 10);
        out.push(((n % 10) as u8) + 48);
        proof {
            assert(out@ =~= old(out)@ + dec_of(n as nat));
        }
    }
}

/// Appends the JSON escaping of `s`.
pub fn push_escaped(out: &mut Vec<u8>, s: &[u8])
    ensures
        final(out)@ == old(out)@ + esc(s@),
{
    let n = s.len();
    let mut i: usize = 0;
    proof {
        assert(s@.skip(0) =~= s@);
        assert(old(out)@ + esc(s@.skip(0)) == old(out)@ + esc(s@));
    }
    while i < n
        invariant
            i <= n,
            n == s@.len(),
            out@ + esc(s@.skip(i as int)) == old(out)@ + esc(s@),
        decreases n - i,
    {
        let ghost prev = out@;
        let b = s[i];
        if b == 34 {
            out.push(92);
            out.push(34);
        } else if b == 92 {
            out.push(92);
            out.push(92);
        } else if b < 32 {
            out.push(92);
            out.push(117);
            out.push(48);
            out.push(48);
            out.push(hex_digit_x(b / 16));
            out.push(hex_digit_x(b % 16));
        } else {
            out.push(b);
        }
        proof {
            let rest = s@.skip(i as int);
            assert(rest[0] == b);
            assert(rest.skip(1) =~= s@.skip(i + 1));
            assert(out@ =~= prev + esc_byte(b));
            assert((prev + esc_byte(b)) + esc(s@.skip(i + 1)) =~= prev + (esc_byte(b) + esc(
                s@.skip(i + 1),
            )));
        }
        i = i + 1;
    }
    proof {
        assert(s@.skip(n as int) =~= Seq::<u8>::empty());
        assert(out@ + Seq::<u8>::empty() =~= out@);
    }
}

/// Parses the decimal number at `start`, as `parse_number_at` describes.
pub fn parse_number(s: &[u8], start: usize) -> (r: Option<(u64, usize)>)
    requires
        start <= s@.len(),
    ensures
        match r {
            Option::Some(p) => parse_number_at(s@, start as int) == Option::Some((p.0, p.1 as int))
                && start <= p.1 <= s@.len(),
            Option::None => parse_number_at(s@, start as int) is None,
        },
{
    let n = s.len();
    proof {
        lemma_run_len(s@, start as int);
    }
    let ghost run = run_len(s@, start as int);
    let ghost lend = start + run;
    if start == n || !(48 <= s[start] && s[start] <= 57) {
        proof {
            assert(run == 0);
        }
        return Option::None;
    }
    let mut j = start;
    let mut acc: u64 = 0;
    proof {
        assert(s@.subrange(start as int, start as int) =~= Seq::<u8>::empty());
        assert(all_digits(s@.subrange(start as int, lend)));
    }
    while j < n && 48 <= s[j] && s[j] <= 57
        invariant
            start <= j,
            j <= lend <= n,
            n == s@.len(),
            run == run_len(s@, start as int),
            lend == start + run,
            all_digits(s@.subrange(start as int, lend)),
            lend == n || !is_digit(s@[lend]),
            forall|k: int| start <= k < lend ==> is_digit(#[trigger] s@[k]),
            acc == value_of(s@.subrange(start as int, j as int)),
        decreases n - j,
    {
        proof {
            assert(is_digit(s@[j as int]));
            assert(j < lend) by {
                if j == lend {
                    assert(!is_digit(s@[j as int]));
                }
            }
        }
        let d: u64 = (s[j] - 48) as u64;
        let ghost prefix1 = s@.subrange(start as int, j + 1);
        proof {
            assert(prefix1.drop_last() =~= s@.subrange(start as int, j as int));
            assert(prefix1.last() == s@[j as int]);
            assert(value_of(prefix1) == acc * 10 + d);
            assert(prefix1 =~= s@.subrange(start as int, lend).take(j + 1 - start));
            lemma_value_prefix(s@.subrange(start as int, lend), j + 1 - start);
        }
        if acc > 1844674407370955161 {
            proof {
                assert(acc * 10 + d > u64::MAX);
                assert(value_of(s@.subrange(start as int, lend)) > u64::MAX);
            }
            return Option::None;
        }
        let acc2 = acc * 10;
        if d > u64::MAX - acc2 {
            proof {
                assert(acc * 10 + d > u64::MAX);
                assert(value_of(s@.subrange(start as int, lend)) > u64::MAX);
            }
            return Option::None;
        }
        acc = acc2 + d;
        j = j + 1;
    }
    proof {
        assert(j == lend) by {
            if j < lend {
                assert(is_digit(s@[j as int]));
            }
        }
        assert(run > 0);
    }
    Option::Some((acc, j))
}

/// Parses the JSON string body at `start`, as `parse_jstr_at` describes.
pub fn parse_jstr(s: &[u8], start: usize) -> (r: Option<(Vec<u8>, usize)>)
    requires
        start <= s@.len(),
    ensures
        match r {
            Option::Some(p) => parse_jstr_at(s@, start as int) == Option::Some((p.0@, p.1 as int))
                && start <= p.1 <= s@.len(),
            Option::None => parse_jstr_at(s@, start as int) is None,
        },
{
    let n = s.len();
    let mut out: Vec<u8> = Vec::new();
    let mut j = start;
    proof {
        assert forall|c: Seq<u8>, k: int|
            parse_jstr_at(s@, j as int) == Option::Some((c, k)) implies parse_jstr_at(
            s@,
            start as int,
        ) == Option::Some((out@ + c, k)) by {
            assert(out@ + c =~= c);
        }
    }
    loop
        invariant
            start <= j <= n,
            n == s@.len(),
            forall|c: Seq<u8>, k: int|
                parse_jstr_at(s@, j as int) == Option::Some((c, k)) ==> parse_jstr_at(
                    s@,
                    start as int,
                ) == Option::Some((out@ + c, k)),
            parse_jstr_at(s@, j as int) is None ==> parse_jstr_at(s@, start as int) is None,
        decreases n - j,
    {
        if j == n {
            return Option::None;
        }
        let b = s[j];
        if b == 34 {
            proof {
                assert(parse_jstr_at(s@, j as int) == Option::Some((Seq::<u8>::empty(), j + 1)));
                assert(out@ + Seq::<u8>::empty() =~= out@);
            }
            return Option::Some((out, j + 1));
        } else if b == 92 {
            if n - j < 2 {
                return Option::None;
            }
            let b2 = s[j + 1];
            if b2 == 34 || b2 == 92 {
                let ghost prev = out@;
                out.push(b2);
                proof {
                    assert(out@ =~= prev + seq![b2]);
                    assert forall|c: Seq<u8>, k: int|
                        parse_jstr_at(s@, j + 2) == Option::Some((c, k)) implies parse_jstr_at(
                        s@,
                        start as int,
                    ) == Option::Some((out@ + c, k)) by {
                        assert(parse_jstr_at(s@, j as int) == Option::Some((seq![b2] + c, k)));
                        assert(prev + (seq![b2] + c) =~= (prev + seq![b2]) + c);
                    }
                }
                j = j + 2;
            } else if b2 == 117 {
                if n - j < 6 {
                    return Option::None;
                }
                let h = s[j + 4];
                let lo = hex_val_x(s[j + 5]);
                if s[j + 2] == 48 && s[j + 3] == 48 && (h == 48 || h == 49) && lo < 16 {
                    let v = 16 * (h - 48) + lo;
                    let ghost prev = out@;
                    out.push(v);
                    proof {
                        assert(out@ =~= prev + seq![v]);
                        assert forall|c: Seq<u8>, k: int|
                            parse_jstr_at(s@, j + 6) == Option::Some((c, k)) implies parse_jstr_at(
                            s@,
                            start as int,
                        ) == Option::Some((out@ + c, k)) by {
                            assert(parse_jstr_at(s@, j as int) == Option::Some((seq![v] + c, k)));
                            assert(prev + (seq![v] + c) =~= (prev + seq![v]) + c);
                        }
                    }
                    j = j + 6;
                } else {
                    return Option::None;
                }
            } else {
                return Option::None;
            }
        } else {
            let ghost prev = out@;
            out.push(b);
            proof {
                assert(out@ =~= prev + seq![b]);
                assert forall|c: Seq<u8>, k: int|
                    parse_jstr_at(s@, j + 1) == Option::Some((c, k)) implies parse_jstr_at(
                    s@,
                    start as int,
                ) == Option::Some((out@ + c, k)) by {
                    assert(parse_jstr_at(s@, j as int) == Option::Some((seq![b] + c, k)));
                    assert(prev + (seq![b] + c) =~= (prev + seq![b]) + c);
                }
            }
            j = j + 1;
        }
    }
}

} // verus!
