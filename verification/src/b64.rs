//! base64url (RFC 4648 §5, no padding), the framing of JWT segments.
//! Encoding and decoding are implemented here and proved inverse; the
//! decoder accepts exactly the canonical encodings this module produces
//! (in particular, non-zero trailing bits are rejected).

use vstd::prelude::*;

verus! {

/// Alphabet byte for a 6-bit value.
pub open spec fn b64_char(v: u8) -> u8
    recommends
        v < 64,
{
    if v < 26 {
        (v + 65) as u8  // 'A'..='Z'
    } else if v < 52 {
        (v + 71) as u8  // 'a'..='z'
    } else if v < 62 {
        (v - 4) as u8  // '0'..='9'
    } else if v == 62 {
        45u8  // '-'
    } else {
        95u8  // '_'
    }
}

/// 6-bit value of an alphabet byte; 255 for a byte outside the alphabet.
pub open spec fn b64_val(b: u8) -> u8 {
    if 65 <= b && b <= 90 {
        (b - 65) as u8
    } else if 97 <= b && b <= 122 {
        (b - 71) as u8
    } else if 48 <= b && b <= 57 {
        (b + 4) as u8
    } else if b == 45 {
        62u8
    } else if b == 95 {
        63u8
    } else {
        255u8
    }
}

pub open spec fn e0(b0: u8) -> u8 {
    b0 >> 2
}

pub open spec fn e1(b0: u8, b1: u8) -> u8 {
    ((b0 & 3) << 4) | (b1 >> 4)
}

pub open spec fn e2(b1: u8, b2: u8) -> u8 {
    ((b1 & 15) << 2) | (b2 >> 6)
}

pub open spec fn e3(b2: u8) -> u8 {
    b2 & 63
}

pub open spec fn d0(v0: u8, v1: u8) -> u8 {
    (v0 << 2) | (v1 >> 4)
}

pub open spec fn d1(v1: u8, v2: u8) -> u8 {
    ((v1 & 15) << 4) | (v2 >> 2)
}

pub open spec fn d2(v2: u8, v3: u8) -> u8 {
    ((v2 & 3) << 6) | v3
}

/// base64url encoding of a byte sequence, without padding.
pub open spec fn b64_of(s: Seq<u8>) -> Seq<u8>
    decreases s.len(),
{
    if s.len() == 0 {
        Seq::<u8>::empty()
    } else if s.len() == 1 {
        seq![b64_char(e0(s[0])), b64_char(e1(s[0], 0))]
    } else if s.len() == 2 {
        seq![b64_char(e0(s[0])), b64_char(e1(s[0], s[1])), b64_char(e2(s[1], 0))]
    } else {
        seq![
            b64_char(e0(s[0])),
            b64_char(e1(s[0], s[1])),
            b64_char(e2(s[1], s[2])),
            b64_char(e3(s[2])),
        ] + b64_of(s.skip(3))
    }
}

/// Canonical base64url decoding: `Some(b)` exactly on well-formed input
/// with zero trailing bits, so that it inverts `b64_of`.
pub open spec fn b64_dec(s: Seq<u8>) -> Option<Seq<u8>>
    decreases s.len(),
{
    if s.len() == 0 {
        Option::Some(Seq::<u8>::empty())
    } else if s.len() == 1 {
        Option::None
    } else if s.len() == 2 {
        if b64_val(s[0]) < 64 && b64_val(s[1]) < 64 && b64_val(s[1]) & 15 == 0 {
            Option::Some(seq![d0(b64_val(s[0]), b64_val(s[1]))])
        } else {
            Option::None
        }
    } else if s.len() == 3 {
        if b64_val(s[0]) < 64 && b64_val(s[1]) < 64 && b64_val(s[2]) < 64 && b64_val(s[2]) & 3
            == 0 {
            Option::Some(
                seq![
                    d0(b64_val(s[0]), b64_val(s[1])),
                    d1(b64_val(s[1]), b64_val(s[2])),
                ],
            )
        } else {
            Option::None
        }
    } else {
        if b64_val(s[0]) < 64 && b64_val(s[1]) < 64 && b64_val(s[2]) < 64 && b64_val(s[3]) < 64 {
            match b64_dec(s.skip(4)) {
                Option::Some(r) => Option::Some(
                    seq![
                        d0(b64_val(s[0]), b64_val(s[1])),
                        d1(b64_val(s[1]), b64_val(s[2])),
                        d2(b64_val(s[2]), b64_val(s[3])),
                    ] + r,
                ),
                Option::None => Option::None,
            }
        } else {
            Option::None
        }
    }
}

/// Every alphabet byte carries its own 6-bit value, is ASCII, and is not '.'.
pub proof fn lemma_b64_char(v: u8)
    requires
        v < 64,
    ensures
        b64_val(b64_char(v)) == v,
        b64_char(v) < 128,
        b64_char(v) != 46,
{
}

/// The four 6-bit values of a full chunk recombine to the three bytes.
proof fn lemma_chunk_roundtrip(b0: u8, b1: u8, b2: u8)
    ensures
        e0(b0) < 64,
        e1(b0, b1) < 64,
        e2(b1, b2) < 64,
        e3(b2) < 64,
        d0(e0(b0), e1(b0, b1)) == b0,
        d1(e1(b0, b1), e2(b1, b2)) == b1,
        d2(e2(b1, b2), e3(b2)) == b2,
{
    assert((b0 >> 2) < 64 && (((b0 & 3) << 4) | (b1 >> 4)) < 64 && (((b1 & 15) << 2) | (b2 >> 6))
        < 64 && (b2 & 63) < 64) by (bit_vector);
    assert((((b0 >> 2) << 2) | ((((b0 & 3) << 4) | (b1 >> 4)) >> 4)) == b0) by (bit_vector);
    assert(b1 == ((((((b0 & 3) << 4) | (b1 >> 4)) & 15) << 4) | (((((b1 & 15) << 2) | (b2 >> 6)))
        >> 2))) by (bit_vector);
    assert(b2 == ((((((b1 & 15) << 2) | (b2 >> 6)) & 3) << 6) | (b2 & 63))) by (bit_vector);
}

/// The trailing bits of a final 2- or 3-character group are zero.
proof fn lemma_tail_bits(b0: u8, b1: u8)
    ensures
        e1(b0, 0) & 15 == 0,
        e2(b1, 0) & 3 == 0,
        d0(e0(b0), e1(b0, 0)) == b0,
        d1(e1(b0, b1), e2(b1, 0)) == b1,
{
    assert(((((b0 & 3) << 4) | (0u8 >> 4)) & 15) == 0) by (bit_vector);
    assert(((((b1 & 15) << 2) | (0u8 >> 6)) & 3) == 0) by (bit_vector);
    assert((((b0 >> 2) << 2) | ((((b0 & 3) << 4) | (0u8 >> 4)) >> 4)) == b0) by (bit_vector);
    assert(b1 == ((((((b0 & 3) << 4) | (b1 >> 4)) & 15) << 4) | (((((b1 & 15) << 2) | (0u8 >> 6)))
        >> 2))) by (bit_vector);
}

/// Decoding inverts encoding.
pub proof fn lemma_b64_roundtrip(s: Seq<u8>)
    ensures
        b64_dec(b64_of(s)) == Option::Some(s),
    decreases s.len(),
{
    if s.len() == 0 {
        assert(b64_of(s) =~= Seq::<u8>::empty());
        assert(b64_dec(b64_of(s)) == Option::Some(Seq::<u8>::empty()));
        assert(Seq::<u8>::empty() =~= s);
    } else if s.len() == 1 {
        lemma_chunk_roundtrip(s[0], 0, 0);
        lemma_tail_bits(s[0], 0);
        lemma_b64_char(e0(s[0]));
        lemma_b64_char(e1(s[0], 0));
        assert(b64_dec(b64_of(s)) =~= Option::Some(seq![s[0]]));
        assert(seq![s[0]] =~= s);
    } else if s.len() == 2 {
        lemma_chunk_roundtrip(s[0], s[1], 0);
        lemma_tail_bits(s[0], s[1]);
        lemma_b64_char(e0(s[0]));
        lemma_b64_char(e1(s[0], s[1]));
        lemma_b64_char(e2(s[1], 0));
        assert(b64_dec(b64_of(s)) =~= Option::Some(seq![s[0], s[1]]));
        assert(seq![s[0], s[1]] =~= s);
    } else {
        let t = s.skip(3);
        lemma_b64_roundtrip(t);
        lemma_chunk_roundtrip(s[0], s[1], s[2]);
        lemma_b64_char(e0(s[0]));
        lemma_b64_char(e1(s[0], s[1]));
        lemma_b64_char(e2(s[1], s[2]));
        lemma_b64_char(e3(s[2]));
        let q = seq![
            b64_char(e0(s[0])),
            b64_char(e1(s[0], s[1])),
            b64_char(e2(s[1], s[2])),
            b64_char(e3(s[2])),
        ];
        assert(b64_of(s) == q + b64_of(t));
        assert((q + b64_of(t)).len() >= 4);
        assert((q + b64_of(t)).skip(4) =~= b64_of(t));
        match b64_dec(b64_of(t)) {
            Option::Some(r) => {
                assert(r == t);
                assert(b64_dec(b64_of(s)) == Option::Some(seq![s[0], s[1], s[2]] + t));
                assert(seq![s[0], s[1], s[2]] + t =~= s);
            },
            Option::None => {
                assert(false);
            },
        }
    }
}

/// Everything `b64_of` emits is in the alphabet: ASCII and never '.'.
pub proof fn lemma_b64_of_alphabet(s: Seq<u8>)
    ensures
        forall|i: int|
            0 <= i < b64_of(s).len() ==> (#[trigger] b64_of(s)[i]) < 128 && b64_of(s)[i] != 46,
    decreases s.len(),
{
    if s.len() == 0 {
    } else if s.len() == 1 {
        lemma_chunk_roundtrip(s[0], 0, 0);
        lemma_b64_char(e0(s[0]));
        lemma_b64_char(e1(s[0], 0));
    } else if s.len() == 2 {
        lemma_chunk_roundtrip(s[0], s[1], 0);
        lemma_b64_char(e0(s[0]));
        lemma_b64_char(e1(s[0], s[1]));
        lemma_b64_char(e2(s[1], 0));
    } else {
        lemma_b64_of_alphabet(s.skip(3));
        lemma_chunk_roundtrip(s[0], s[1], s[2]);
        lemma_b64_char(e0(s[0]));
        lemma_b64_char(e1(s[0], s[1]));
        lemma_b64_char(e2(s[1], s[2]));
        lemma_b64_char(e3(s[2]));
        let q = seq![
            b64_char(e0(s[0])),
            b64_char(e1(s[0], s[1])),
            b64_char(e2(s[1], s[2])),
            b64_char(e3(s[2])),
        ];
        assert(b64_of(s) == q + b64_of(s.skip(3)));
        assert forall|i: int| 0 <= i < b64_of(s).len() implies (#[trigger] b64_of(s)[i]) < 128
            && b64_of(s)[i] != 46 by {
            if i < 4 {
                assert(b64_of(s)[i] == q[i]);
            } else {
                assert(b64_of(s)[i] == b64_of(s.skip(3))[i - 4]);
            }
        }
    }
}

/// Executable alphabet lookup.
fn b64_char_x(v: u8) -> (c: u8)
    requires
        v < 64,
    ensures
        c == b64_char(v),
{
    if v < 26 {
        v + 65
    } else if v < 52 {
        v + 71
    } else if v < 62 {
        v - 4
    } else if v == 62 {
        45
    } else {
        95
    }
}

/// Executable inverse lookup; 255 for a byte outside the alphabet.
fn b64_val_x(b: u8) -> (v: u8)
    ensures
        v == b64_val(b),
{
    if 65 <= b && b <= 90 {
        b - 65
    } else if 97 <= b && b <= 122 {
        b - 71
    } else if 48 <= b && b <= 57 {
        b + 4
    } else if b == 45 {
        62
    } else if b == 95 {
        63
    } else {
        255
    }
}

/// Encodes a byte slice to base64url text (as ASCII bytes).
pub fn b64_encode(input: &[u8]) -> (out: Vec<u8>)
    ensures
        out@ == b64_of(input@),
{
    let n = input.len();
    let mut out: Vec<u8> = Vec::new();
    let mut i: usize = 0;
    proof {
        assert(input@.skip(0) =~= input@);
        assert(Seq::<u8>::empty() + b64_of(input@) =~= b64_of(input@));
    }
    while n - i >= 3
        invariant
            i <= n,
            n == input@.len(),
            out@ + b64_of(input@.skip(i as int)) == b64_of(input@),
        decreases n - i,
    {
        let b0 = input[i];
        let b1 = input[i + 1];
        let b2 = input[i + 2];
        proof {
            lemma_chunk_roundtrip(b0, b1, b2);
        }
        out.push(b64_char_x(b0 >> 2));
        out.push(b64_char_x(((b0 & 3) << 4) | (b1 >> 4)));
        out.push(b64_char_x(((b1 & 15) << 2) | (b2 >> 6)));
        out.push(b64_char_x(b2 & 63));
        proof {
            let rest = input@.skip(i as int);
            assert(rest.len() >= 3);
            assert(rest[0] == b0 && rest[1] == b1 && rest[2] == b2);
            assert(rest.skip(3) =~= input@.skip(i + 3));
            assert(out@ + b64_of(input@.skip(i + 3)) =~= b64_of(input@));
        }
        i = i + 3;
    }
    if n - i == 1 {
        let b0 = input[i];
        proof {
            lemma_chunk_roundtrip(b0, 0, 0);
            assert(((b0 & 3) << 4) == (((b0 & 3) << 4) | (0u8 >> 4))) by (bit_vector);
        }
        out.push(b64_char_x(b0 >> 2));
        out.push(b64_char_x((b0 & 3) << 4));
        proof {
            let rest = input@.skip(i as int);
            assert(rest.len() == 1 && rest[0] == b0);
            assert(out@ =~= b64_of(input@));
        }
    } else if n - i == 2 {
        let b0 = input[i];
        let b1 = input[i + 1];
        proof {
            lemma_chunk_roundtrip(b0, b1, 0);
            assert(((b1 & 15) << 2) == (((b1 & 15) << 2) | (0u8 >> 6))) by (bit_vector);
        }
        out.push(b64_char_x(b0 >> 2));
        out.push(b64_char_x(((b0 & 3) << 4) | (b1 >> 4)));
        out.push(b64_char_x((b1 & 15) << 2));
        proof {
            let rest = input@.skip(i as int);
            assert(rest.len() == 2 && rest[0] == b0 && rest[1] == b1);
            assert(out@ =~= b64_of(input@));
        }
    } else {
        proof {
            assert(input@.skip(i as int) =~= Seq::<u8>::empty());
            assert(out@ =~= b64_of(input@));
        }
    }
    out
}

/// Decodes canonical base64url text; `None` exactly where `b64_dec` says so.
pub fn b64_decode(input: &[u8]) -> (out: Option<Vec<u8>>)
    ensures
        match out {
            Option::Some(v) => b64_dec(input@) == Option::Some(v@),
            Option::None => b64_dec(input@) is None,
        },
{
    let n = input.len();
    let mut out: Vec<u8> = Vec::new();
    let mut i: usize = 0;
    proof {
        assert(input@.skip(0) =~= input@);
        assert forall|r: Seq<u8>|
            b64_dec(input@.skip(0)) == Option::Some(r) implies b64_dec(input@) == Option::Some(
            out@ + r,
        ) by {
            assert(out@ + r =~= r);
        }
    }
    while n - i >= 4
        invariant
            i <= n,
            n == input@.len(),
            forall|r: Seq<u8>|
                b64_dec(input@.skip(i as int)) == Option::Some(r) ==> b64_dec(input@)
                    == Option::Some(out@ + r),
            b64_dec(input@.skip(i as int)) is None ==> b64_dec(input@) is None,
        decreases n - i,
    {
        let v0 = b64_val_x(input[i]);
        let v1 = b64_val_x(input[i + 1]);
        let v2 = b64_val_x(input[i + 2]);
        let v3 = b64_val_x(input[i + 3]);
        proof {
            let rest = input@.skip(i as int);
            assert(rest.len() >= 4);
            assert(rest[0] == input@[i as int] && rest[1] == input@[i + 1] && rest[2] == input@[i
                + 2] && rest[3] == input@[i + 3]);
            assert(rest.skip(4) =~= input@.skip(i + 4));
        }
        if v0 < 64 && v1 < 64 && v2 < 64 && v3 < 64 {
            let ghost prev = out@;
            out.push((v0 << 2) | (v1 >> 4));
            out.push(((v1 & 15) << 4) | (v2 >> 2));
            out.push(((v2 & 3) << 6) | v3);
            proof {
                let rest = input@.skip(i as int);
                let chunk = seq![d0(v0, v1), d1(v1, v2), d2(v2, v3)];
                assert(out@ =~= prev + chunk);
                assert forall|r: Seq<u8>|
                    b64_dec(input@.skip(i + 4)) == Option::Some(r) implies b64_dec(input@)
                    == Option::Some(out@ + r) by {
                    assert(b64_dec(rest) == Option::Some(chunk + r));
                    assert((prev + chunk) + r =~= prev + (chunk + r));
                }
            }
            i = i + 4;
        } else {
            return Option::None;
        }
    }
    let rem = n - i;
    if rem == 0 {
        proof {
            assert(input@.skip(i as int) =~= Seq::<u8>::empty());
            assert(b64_dec(input@.skip(i as int)) == Option::Some(Seq::<u8>::empty()));
            assert(out@ + Seq::<u8>::empty() =~= out@);
        }
        Option::Some(out)
    } else if rem == 1 {
        Option::None
    } else if rem == 2 {
        let v0 = b64_val_x(input[i]);
        let v1 = b64_val_x(input[i + 1]);
        proof {
            let rest = input@.skip(i as int);
            assert(rest.len() == 2);
            assert(rest[0] == input@[i as int] && rest[1] == input@[i + 1]);
        }
        if v0 < 64 && v1 < 64 && v1 & 15 == 0 {
            let ghost prev = out@;
            out.push((v0 << 2) | (v1 >> 4));
            proof {
                assert(out@ =~= prev + seq![d0(v0, v1)]);
            }
            Option::Some(out)
        } else {
            Option::None
        }
    } else {
        let v0 = b64_val_x(input[i]);
        let v1 = b64_val_x(input[i + 1]);
        let v2 = b64_val_x(input[i + 2]);
        proof {
            let rest = input@.skip(i as int);
            assert(rest.len() == 3);
            assert(rest[0] == input@[i as int] && rest[1] == input@[i + 1] && rest[2] == input@[i
                + 2]);
        }
        if v0 < 64 && v1 < 64 && v2 < 64 && v2 & 3 == 0 {
            let ghost prev = out@;
            out.push((v0 << 2) | (v1 >> 4));
            out.push(((v1 & 15) << 4) | (v2 >> 2));
            proof {
                assert(out@ =~= prev + seq![d0(v0, v1), d1(v1, v2)]);
            }
            Option::Some(out)
        } else {
            Option::None
        }
    }
}

} // verus!
