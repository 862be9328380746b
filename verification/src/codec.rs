//! Percent-codec for path segments of listing links.
//!
//! A link must survive being pasted into an `href`: characters that are
//! unsafe or significant there (controls, space, `"`, `<`, `>`, backtick,
//! `#`, `?`, `{`, `}`, backslash) are written as `%XX`; every other byte,
//! multi-byte text included, passes through unchanged.  Decoding is
//! forgiving: a `%` that is not followed by two hex digits is kept as a
//! literal byte, so no file name can make decoding fail.

use vstd::prelude::*;

verus! {

/// True of the bytes that a link must write as a `%XX` escape.
pub open spec fn must_escape(b: u8) -> bool {
    b <= 0x1f || b == 0x7f || b == 0x20 || b == 0x22 || b == 0x3c || b == 0x3e || b == 0x60
        || b == 0x23 || b == 0x3f || b == 0x7b || b == 0x7d || b == 0x5c
}

/// True of ASCII hex digits, either case.
pub open spec fn is_hex_digit(b: u8) -> bool {
    (0x30 <= b && b <= 0x39) || (0x41 <= b && b <= 0x46) || (0x61 <= b && b <= 0x66)
}

/// Numeric value of a hex digit.
pub open spec fn hex_value(b: u8) -> u8
    recommends
        is_hex_digit(b),
{
    if 0x30 <= b && b <= 0x39 {
        (b - 0x30) as u8
    } else if 0x41 <= b && b <= 0x46 {
        (b - 0x41 + 10) as u8
    } else {
        (b - 0x61 + 10) as u8
    }
}

/// Upper-case hex digit for a value below sixteen.
pub open spec fn upper_hex_digit(v: u8) -> u8
    recommends
        v < 16,
{
    if v < 10 {
        (0x30 + v) as u8
    } else {
        (0x41 + v - 10) as u8
    }
}

/// How one byte appears in a link: itself, or `%` and two hex digits.
pub open spec fn encode_byte(b: u8) -> Seq<u8> {
    if must_escape(b) {
        seq![0x25u8, upper_hex_digit(b / 16), upper_hex_digit(b % 16)]
    } else {
        seq![b]
    }
}

/// The encoded form of a whole segment.
pub open spec fn encode_seq(s: Seq<u8>) -> Seq<u8>
    decreases s.len(),
{
    if s.len() == 0 {
        Seq::empty()
    } else {
        encode_byte(s[0]) + encode_seq(s.skip(1))
    }
}

/// The decoded form of a byte string: each `%` followed by two hex
/// digits becomes one byte; everything else passes through.
pub open spec fn decode_seq(s: Seq<u8>) -> Seq<u8>
    decreases s.len(),
{
    if s.len() == 0 {
        Seq::empty()
    } else if s[0] == 0x25 && s.len() >= 3 && is_hex_digit(s[1]) && is_hex_digit(s[2]) {
        seq![(hex_value(s[1]) * 16 + hex_value(s[2])) as u8] + decode_seq(s.skip(3))
    } else {
        seq![s[0]] + decode_seq(s.skip(1))
    }
}

/// True when no `%` in `s` is followed by two hex digits.  Encoding is
/// the identity on `%`, so only such a triple can make the decoder see
/// an escape that the encoder never wrote.
pub open spec fn decodable_free(s: Seq<u8>) -> bool {
    forall|i: int|
        0 <= i && i + 2 < s.len() ==> !(#[trigger] s[i] == 0x25 && is_hex_digit(s[i + 1])
            && is_hex_digit(s[i + 2]))
}

proof fn lemma_hex_digit_round_trip(v: u8)
    requires
        v < 16,
    ensures
        is_hex_digit(upper_hex_digit(v)),
        hex_value(upper_hex_digit(v)) == v,
        !must_escape(upper_hex_digit(v)),
{
}

/// Encoding a segment and decoding the result gives the original bytes
/// back, for every segment in which no `%` is directly followed by two
/// hex digits.  (A segment such as `%41` is re-read as an escape and
/// does not round-trip; nothing else is excluded.)
pub proof fn lemma_round_trip(s: Seq<u8>)
    requires
        decodable_free(s),
    ensures
        decode_seq(encode_seq(s)) == s,
    decreases s.len(),
{
    if s.len() == 0 {
        assert(decode_seq(encode_seq(s)) =~= s);
    } else {
        let b = s[0];
        let rest = s.skip(1);
        assert(decodable_free(rest)) by {
            assert forall|i: int|
                0 <= i && i + 2 < rest.len() implies !(#[trigger] rest[i] == 0x25 && is_hex_digit(
                rest[i + 1],
            ) && is_hex_digit(rest[i + 2])) by {
                assert(rest[i] == s[i + 1]);
                assert(rest[i + 1] == s[i + 2]);
                assert(rest[i + 2] == s[i + 3]);
            }
        }
        lemma_round_trip(rest);
        let e = encode_seq(s);
        assert(e == encode_byte(b) + encode_seq(rest));
        if must_escape(b) {
            let hi = upper_hex_digit(b / 16);
            let lo = upper_hex_digit(b % 16);
            lemma_hex_digit_round_trip(b / 16);
            lemma_hex_digit_round_trip(b % 16);
            assert(e[0] == 0x25 && e[1] == hi && e[2] == lo);
            assert(e.len() >= 3);
            assert(hex_value(hi) * 16 + hex_value(lo) == b) by {
                assert(b / 16 * 16 + b % 16 == b) by (nonlinear_arith);
            }
            assert(e.skip(3) =~= encode_seq(rest));
            assert(decode_seq(e) == seq![b] + decode_seq(encode_seq(rest)));
            assert(decode_seq(e) =~= s);
        } else if b != 0x25 {
            assert(e[0] == b);
            assert(e.skip(1) =~= encode_seq(rest));
            assert(decode_seq(e) == seq![b] + decode_seq(encode_seq(rest)));
            assert(decode_seq(e) =~= s);
        } else {
            // A literal `%` passes through the encoder; show that the
            // decoder cannot mistake what follows for an escape.
            assert(e[0] == 0x25);
            assert(!(e.len() >= 3 && is_hex_digit(e[1]) && is_hex_digit(e[2]))) by {
                if rest.len() == 0 {
                    assert(e.len() == 1);
                } else if must_escape(rest[0]) {
                    assert(encode_seq(rest)[0] == 0x25);
                    assert(e[1] == 0x25);
                    assert(!is_hex_digit(0x25));
                } else {
                    assert(encode_seq(rest)[0] == rest[0]);
                    assert(e[1] == rest[0]);
                    if is_hex_digit(rest[0]) {
                        if rest.len() == 1 {
                            assert(encode_seq(rest.skip(1)) =~= Seq::<u8>::empty());
                            assert(encode_seq(rest).len() == 1);
                            assert(e.len() == 2);
                        } else {
                            let rest2 = rest.skip(1);
                            assert(encode_seq(rest) == encode_byte(rest[0]) + encode_seq(rest2));
                            assert(encode_seq(rest)[1] == encode_seq(rest2)[0]);
                            if must_escape(rest2[0]) {
                                assert(encode_seq(rest2)[0] == 0x25);
                                assert(!is_hex_digit(0x25));
                            } else {
                                assert(encode_seq(rest2)[0] == rest2[0]);
                                assert(rest2[0] == s[2]);
                                assert(rest[0] == s[1]);
                                assert(s.len() >= 3);
                                if is_hex_digit(s[2]) {
                                    assert(s[0] == 0x25 && is_hex_digit(s[1]) && is_hex_digit(
                                        s[2],
                                    ));
                                    assert(false);
                                }
                            }
                        }
                    }
                }
            }
            assert(decode_seq(e) == seq![b] + decode_seq(e.skip(1)));
            assert(e.skip(1) =~= encode_seq(rest));
            assert(decode_seq(e) =~= s);
        }
    }
}

fn needs_escape(b: u8) -> (r: bool)
    ensures
        r == must_escape(b),
{
    b <= 0x1f || b == 0x7f || b == 0x20 || b == 0x22 || b == 0x3c || b == 0x3e || b == 0x60
        || b == 0x23 || b == 0x3f || b == 0x7b || b == 0x7d || b == 0x5c
}

fn hex_digit_exec(v: u8) -> (r: u8)
    requires
        v < 16,
    ensures
        r == upper_hex_digit(v),
{
    if v < 10 {
        0x30 + v
    } else {
        0x41 + (v - 10)
    }
}

fn is_hex_exec(b: u8) -> (r: bool)
    ensures
        r == is_hex_digit(b),
{
    (0x30 <= b && b <= 0x39) || (0x41 <= b && b <= 0x46) || (0x61 <= b && b <= 0x66)
}

fn hex_value_exec(b: u8) -> (r: u8)
    requires
        is_hex_digit(b),
    ensures
        r == hex_value(b),
{
    if 0x30 <= b && b <= 0x39 {
        b - 0x30
    } else if 0x41 <= b && b <= 0x46 {
        b - 0x41 + 10
    } else {
        b - 0x61 + 10
    }
}

/// Percent-encode one path segment.
pub fn encode_segment(seg: &Vec<u8>) -> (r: Vec<u8>)
    ensures
        r@ == encode_seq(seg@),
{
    let mut r: Vec<u8> = Vec::new();
    let mut i: usize = 0;
    proof {
        assert(seg@.skip(0) =~= seg@);
        assert(r@ + encode_seq(seg@) =~= encode_seq(seg@));
    }
    while i < seg.len()
        invariant
            i <= seg.len(),
            r@ + encode_seq(seg@.skip(i as int)) == encode_seq(seg@),
        decreases seg.len() - i,
    {
        let b = seg[i];
        proof {
            assert(seg@.skip(i as int)[0] == b);
            assert(seg@.skip(i as int).skip(1) =~= seg@.skip(i + 1));
            assert(encode_seq(seg@.skip(i as int)) == encode_byte(b) + encode_seq(
                seg@.skip(i + 1),
            ));
        }
        if needs_escape(b) {
            r.push(0x25);
            r.push(hex_digit_exec(b / 16));
            r.push(hex_digit_exec(b % 16));
        } else {
            r.push(b);
        }
        proof {
            assert(r@ + encode_seq(seg@.skip(i + 1)) =~= encode_seq(seg@));
        }
        i = i + 1;
    }
    proof {
        assert(seg@.skip(seg@.len() as int) =~= Seq::<u8>::empty());
        assert(r@ =~= encode_seq(seg@));
    }
    r
}

/// Percent-decode a byte string, keeping malformed escapes as literals.
pub fn decode_bytes(s: &Vec<u8>) -> (r: Vec<u8>)
    ensures
        r@ == decode_seq(s@),
{
    let mut r: Vec<u8> = Vec::new();
    let mut i: usize = 0;
    proof {
        assert(s@.skip(0) =~= s@);
        assert(r@ + decode_seq(s@) =~= decode_seq(s@));
    }
    while i < s.len()
        invariant
            i <= s.len(),
            r@ + decode_seq(s@.skip(i as int)) == decode_seq(s@),
        decreases s.len() - i,
    {
        let b = s[i];
        proof {
            assert(s@.skip(i as int)[0] == b);
        }
        if b == 0x25 && s.len() - i >= 3 && is_hex_exec(s[i + 1]) && is_hex_exec(s[i + 2]) {
            let hi = hex_value_exec(s[i + 1]);
            let lo = hex_value_exec(s[i + 2]);
            proof {
                assert(s@.skip(i as int)[1] == s@[i + 1]);
                assert(s@.skip(i as int)[2] == s@[i + 2]);
                assert(s@.skip(i as int).skip(3) =~= s@.skip(i + 3));
                assert(decode_seq(s@.skip(i as int)) == seq![(hex_value(s@[i + 1]) * 16
                    + hex_value(s@[i + 2])) as u8] + decode_seq(s@.skip(i + 3)));
            }
            r.push(hi * 16 + lo);
            proof {
                assert(r@ + decode_seq(s@.skip(i + 3)) =~= decode_seq(s@));
            }
            i = i + 3;
        } else {
            proof {
                if s@.skip(i as int).len() >= 3 {
                    assert(s@.skip(i as int)[1] == s@[i + 1]);
                    assert(s@.skip(i as int)[2] == s@[i + 2]);
                }
                assert(s@.skip(i as int).skip(1) =~= s@.skip(i + 1));
                assert(decode_seq(s@.skip(i as int)) == seq![b] + decode_seq(s@.skip(i + 1)));
            }
            r.push(b);
            proof {
                assert(r@ + decode_seq(s@.skip(i + 1)) =~= decode_seq(s@));
            }
            i = i + 1;
        }
    }
    proof {
        assert(s@.skip(s@.len() as int) =~= Seq::<u8>::empty());
        assert(r@ =~= decode_seq(s@));
    }
    r
}

/// The link for a path given as segments: each segment encoded on its
/// own, the encoded segments joined with a literal `/`.  A segment's
/// content can therefore never add or break a path separator.
pub open spec fn encode_rel_path(segs: Seq<Seq<u8>>) -> Seq<u8>
    decreases segs.len(),
{
    if segs.len() == 0 {
        Seq::empty()
    } else if segs.len() == 1 {
        encode_seq(segs[0])
    } else {
        encode_rel_path(segs.drop_last()) + seq![0x2fu8] + encode_seq(segs.last())
    }
}

/// The link for one child of a listed directory: the directory's
/// root-relative segments followed by the child's name.
pub open spec fn link_of(rel: Seq<Seq<u8>>, name: Seq<u8>) -> Seq<u8> {
    encode_rel_path(rel.push(name))
}

/// Build the link for the child `name` of the directory whose
/// root-relative segments are `rel`.
pub fn encode_link(rel: &Vec<Vec<u8>>, name: &Vec<u8>) -> (r: Vec<u8>)
    ensures
        r@ == link_of(crate::seq_views(rel@), name@),
{
    let rv = Ghost(crate::seq_views(rel@));
    let mut r: Vec<u8> = Vec::new();
    let mut j: usize = 0;
    while j < rel.len()
        invariant
            j <= rel.len(),
            rv@ == crate::seq_views(rel@),
            r@ == if j == 0 {
                Seq::<u8>::empty()
            } else {
                encode_rel_path(rv@.take(j as int)) + seq![0x2fu8]
            },
        decreases rel.len() - j,
    {
        let mut enc = encode_segment(&rel[j]);
        proof {
            assert(rv@.take(j + 1).drop_last() =~= rv@.take(j as int));
            assert(rv@.take(j + 1).last() == rv@[j as int]);
            assert(rv@[j as int] == rel@[j as int]@);
            if j == 0 {
                assert(rv@.take(1).len() == 1);
                assert(encode_rel_path(rv@.take(1)) == encode_seq(rv@[0]));
            } else {
                assert(encode_rel_path(rv@.take(j + 1)) == encode_rel_path(rv@.take(j as int))
                    + seq![0x2fu8] + encode_seq(rv@[j as int]));
            }
        }
        r.append(&mut enc);
        r.push(0x2f);
        proof {
            assert(r@ =~= encode_rel_path(rv@.take(j + 1)) + seq![0x2fu8]);
        }
        j = j + 1;
    }
    let mut encn = encode_segment(name);
    proof {
        let whole = rv@.push(name@);
        assert(whole.drop_last() =~= rv@);
        assert(whole.last() == name@);
        if rel.len() == 0 {
            assert(whole.len() == 1);
            assert(whole[0] == name@);
            assert(link_of(rv@, name@) == encode_seq(name@));
        } else {
            assert(rv@.take(rel@.len() as int) =~= rv@);
            assert(link_of(rv@, name@) == encode_rel_path(rv@) + seq![0x2fu8] + encode_seq(
                name@,
            ));
        }
    }
    r.append(&mut encn);
    proof {
        assert(r@ =~= link_of(rv@, name@));
    }
    r
}

} // verus!
