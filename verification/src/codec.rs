//! Byte-level primitives of the snapshot format.
//!
//! The snapshot is a flat byte sequence built from three primitives: a u64 in
//! little-endian order, a u32 in little-endian order, and a string as a u64
//! character count followed by one u32 code point per character. Each
//! primitive has a spec encoder, a total spec decoder over a position, an
//! executable reader and writer proved against them, and a round-trip proof:
//! decoding an encoding yields the encoded value exactly.

use crate::ids::chars_to_string;
use vstd::prelude::*;
use vstd::string::StrSliceExecFns;

verus! {

/// The little-endian bytes of a u64.
pub open spec fn spec_le64(x: u64) -> Seq<u8> {
    seq![
        (x & 0xff) as u8,
        ((x >> 8) & 0xff) as u8,
        ((x >> 16) & 0xff) as u8,
        ((x >> 24) & 0xff) as u8,
        ((x >> 32) & 0xff) as u8,
        ((x >> 40) & 0xff) as u8,
        ((x >> 48) & 0xff) as u8,
        ((x >> 56) & 0xff) as u8,
    ]
}

/// The little-endian bytes of a u32.
pub open spec fn spec_le32(x: u32) -> Seq<u8> {
    seq![(x & 0xff) as u8, ((x >> 8) & 0xff) as u8, ((x >> 16) & 0xff) as u8, ((x >> 24)
        & 0xff) as u8]
}

/// The u64 read from eight little-endian bytes at a position.
pub open spec fn le64_val(b: Seq<u8>, pos: int) -> u64
    recommends
        0 <= pos,
        pos + 8 <= b.len(),
{
    (b[pos] as u64) | ((b[pos + 1] as u64) << 8) | ((b[pos + 2] as u64) << 16) | ((b[pos
        + 3] as u64) << 24) | ((b[pos + 4] as u64) << 32) | ((b[pos + 5] as u64) << 40) | ((b[pos
        + 6] as u64) << 48) | ((b[pos + 7] as u64) << 56)
}

/// The u32 read from four little-endian bytes at a position.
pub open spec fn le32_val(b: Seq<u8>, pos: int) -> u32
    recommends
        0 <= pos,
        pos + 4 <= b.len(),
{
    (b[pos] as u32) | ((b[pos + 1] as u32) << 8) | ((b[pos + 2] as u32) << 16) | ((b[pos
        + 3] as u32) << 24)
}

/// Decode a u64 at a position: the value and the position after it.
pub open spec fn dec_u64(b: Seq<u8>, pos: int) -> Option<(u64, int)> {
    if 0 <= pos && pos + 8 <= b.len() {
        Some((le64_val(b, pos), pos + 8))
    } else {
        None
    }
}

/// Decode a u32 at a position: the value and the position after it.
pub open spec fn dec_u32(b: Seq<u8>, pos: int) -> Option<(u32, int)> {
    if 0 <= pos && pos + 4 <= b.len() {
        Some((le32_val(b, pos), pos + 4))
    } else {
        None
    }
}

/// Whether a code point is a Unicode scalar value — the values characters
/// take.
pub open spec fn valid_code(x: u32) -> bool {
    (x < 0xD800) || (0xE000 <= x && x <= 0x10FFFF)
}

/// The code point of a character.
pub open spec fn char_code(c: char) -> u32 {
    c as u32
}

/// The character with a given code point.
pub open spec fn code_char(x: u32) -> char {
    choose|c: char| #[trigger] char_code(c) == x
}

/// Every character's code point is a Unicode scalar value.
proof fn lemma_char_valid(c: char)
    ensures
        valid_code(char_code(c)),
{
    assert((c as u32) < 0xD800 || (c as u32) >= 0xE000);
    assert(c as u32 <= 0x10FFFF);
}

/// A character is recovered from its own code point.
proof fn lemma_code_char_of(c: char)
    ensures
        code_char(char_code(c)) == c,
{
    assert(char_code(c) == char_code(c));
    let c2 = code_char(char_code(c));
    assert(char_code(c2) == char_code(c));
    assert(c2 == c);
}

/// The encoding of a character sequence: one u32 code point per character.
pub open spec fn enc_chars(s: Seq<char>) -> Seq<u8>
    decreases s.len(),
{
    if s.len() == 0 {
        Seq::empty()
    } else {
        enc_chars(s.drop_last()) + spec_le32(s.last() as u32)
    }
}

/// The encoding of a string: its character count, then its characters.
pub open spec fn enc_str(s: Seq<char>) -> Seq<u8>
    recommends
        s.len() <= u64::MAX,
{
    spec_le64(s.len() as u64) + enc_chars(s)
}

/// Decode a fixed number of characters at a position.
pub open spec fn dec_chars(b: Seq<u8>, pos: int, n: nat) -> Option<(Seq<char>, int)>
    decreases n,
{
    if n == 0 {
        Some((Seq::empty(), pos))
    } else {
        match dec_u32(b, pos) {
            None => None,
            Some((x, p1)) => {
                if valid_code(x) {
                    match dec_chars(b, p1, (n - 1) as nat) {
                        None => None,
                        Some((s, p2)) => Some((seq![code_char(x)] + s, p2)),
                    }
                } else {
                    None
                }
            },
        }
    }
}

/// Decode a string at a position: its character count, then its characters.
pub open spec fn dec_str(b: Seq<u8>, pos: int) -> Option<(Seq<char>, int)> {
    match dec_u64(b, pos) {
        None => None,
        Some((n, p1)) => dec_chars(b, p1, n as nat),
    }
}

/// Where a span of the buffer equals a concatenation of two parts, each
/// part equals its own span.
pub proof fn lemma_split_window(b: Seq<u8>, pos: int, x: Seq<u8>, y: Seq<u8>)
    requires
        0 <= pos,
        pos + x.len() + y.len() <= b.len(),
        b.subrange(pos, pos + x.len() + y.len()) == x + y,
    ensures
        b.subrange(pos, pos + x.len()) == x,
        b.subrange(pos + x.len(), pos + x.len() + y.len()) == y,
{
    let w = b.subrange(pos, pos + x.len() + y.len());
    assert(b.subrange(pos, pos + x.len()) =~= x) by {
        assert forall|k: int| 0 <= k < x.len() implies #[trigger] b.subrange(
            pos,
            pos + x.len(),
        )[k] == x[k] by {
            assert(w[k] == (x + y)[k]);
        }
    }
    assert(b.subrange(pos + x.len(), pos + x.len() + y.len()) =~= y) by {
        assert forall|k: int| 0 <= k < y.len() implies #[trigger] b.subrange(
            pos + x.len(),
            pos + x.len() + y.len(),
        )[k] == y[k] by {
            assert(w[x.len() + k] == (x + y)[x.len() + k]);
        }
    }
}

/// Reading back an encoded u64 yields the encoded value.
pub proof fn lemma_le64_roundtrip(b: Seq<u8>, pos: int, x: u64)
    requires
        0 <= pos,
        pos + 8 <= b.len(),
        b.subrange(pos, pos + 8) == spec_le64(x),
    ensures
        dec_u64(b, pos) == Some((x, pos + 8)),
{
    let s = b.subrange(pos, pos + 8);
    assert(b[pos] == s[0] && b[pos + 1] == s[1] && b[pos + 2] == s[2] && b[pos + 3] == s[3] && b[pos
        + 4] == s[4] && b[pos + 5] == s[5] && b[pos + 6] == s[6] && b[pos + 7] == s[7]);
    assert((((x & 0xff) as u8) as u64 | ((((x >> 8) & 0xff) as u8) as u64) << 8 | ((((x >> 16)
        & 0xff) as u8) as u64) << 16 | ((((x >> 24) & 0xff) as u8) as u64) << 24 | ((((x >> 32)
        & 0xff) as u8) as u64) << 32 | ((((x >> 40) & 0xff) as u8) as u64) << 40 | ((((x >> 48)
        & 0xff) as u8) as u64) << 48 | ((((x >> 56) & 0xff) as u8) as u64) << 56) == x)
        by (bit_vector);
}

/// Reading back an encoded u32 yields the encoded value.
pub proof fn lemma_le32_roundtrip(b: Seq<u8>, pos: int, x: u32)
    requires
        0 <= pos,
        pos + 4 <= b.len(),
        b.subrange(pos, pos + 4) == spec_le32(x),
    ensures
        dec_u32(b, pos) == Some((x, pos + 4)),
{
    let s = b.subrange(pos, pos + 4);
    assert(b[pos] == s[0] && b[pos + 1] == s[1] && b[pos + 2] == s[2] && b[pos + 3] == s[3]);
    assert((((x & 0xff) as u8) as u32 | ((((x >> 8) & 0xff) as u8) as u32) << 8 | ((((x >> 16)
        & 0xff) as u8) as u32) << 16 | ((((x >> 24) & 0xff) as u8) as u32) << 24) == x)
        by (bit_vector);
}

/// Decoding characters out of a buffer that continues past them neither sees
/// nor is changed by what follows: decoding is stable under extending the
/// buffer, as long as the decoded span lies inside it.
pub proof fn lemma_dec_chars_roundtrip(b: Seq<u8>, pos: int, s: Seq<char>)
    requires
        0 <= pos,
        pos + enc_chars(s).len() <= b.len(),
        b.subrange(pos, pos + enc_chars(s).len()) == enc_chars(s),
    ensures
        dec_chars(b, pos, s.len()) == Some((s, pos + enc_chars(s).len())),
    decreases s.len(),
{
    lemma_enc_chars_len(s);
    if s.len() > 0 {
        let front = s.drop_last();
        let c = s.last();
        lemma_enc_chars_len(front);
        let fl = enc_chars(front).len() as int;
        assert(enc_chars(s) == enc_chars(front) + spec_le32(c as u32));
        assert(b.subrange(pos, pos + fl) =~= enc_chars(front)) by {
            assert forall|k: int| 0 <= k < fl implies #[trigger] b.subrange(pos, pos + fl)[k]
                == enc_chars(front)[k] by {
                assert(b.subrange(pos, pos + enc_chars(s).len() as int)[k] == enc_chars(s)[k]);
            }
        }
        lemma_dec_chars_roundtrip(b, pos, front);
        assert(b.subrange(pos + fl, pos + fl + 4) =~= spec_le32(c as u32)) by {
            assert forall|k: int| 0 <= k < 4 implies #[trigger] b.subrange(
                pos + fl,
                pos + fl + 4,
            )[k] == spec_le32(c as u32)[k] by {
                assert(b.subrange(pos, pos + enc_chars(s).len() as int)[fl + k] == enc_chars(
                    s,
                )[fl + k]);
            }
        }
        lemma_le32_roundtrip(b, pos + fl, c as u32);
        lemma_char_valid(c);
        assert(valid_code(c as u32));
        // decoding runs front to back: peel the first character instead
        lemma_dec_chars_snoc(b, pos, front, c);
    }
}

/// Unfolding helper: decoding n + 1 characters is decoding n and then one
/// more at the end.
proof fn lemma_dec_chars_snoc(b: Seq<u8>, pos: int, front: Seq<char>, c: char)
    requires
        0 <= pos,
        dec_chars(b, pos, front.len()) == Some((front, pos + enc_chars(front).len())),
        dec_u32(b, pos + enc_chars(front).len(), ) == Some(
            (c as u32, pos + enc_chars(front).len() + 4),
        ),
        valid_code(c as u32),
    ensures
        dec_chars(b, pos, front.len() + 1) == Some(
            (front.push(c), pos + enc_chars(front).len() + 4),
        ),
    decreases front.len(),
{
    lemma_enc_chars_len(front);
    if front.len() == 0 {
        lemma_code_char_of(c);
        assert(code_char(c as u32) == c);
        assert(front =~= Seq::<char>::empty());
        assert(dec_chars(b, pos + 4, 0) == Some((Seq::<char>::empty(), pos + 4)));
        assert(seq![code_char(c as u32)] + Seq::<char>::empty() =~= front.push(c));
    } else {
        lemma_enc_chars_len(front.drop_first());
        assert(dec_u32(b, pos) is Some) by {
            assert(dec_chars(b, pos, front.len()) is Some);
        }
        let (y, py) = dec_u32(b, pos)->0;
        assert(valid_code(y));
        let inner = dec_chars(b, py, (front.len() - 1) as nat);
        assert(inner is Some);
        let (s1, pe) = inner->0;
        assert(front == seq![code_char(y)] + s1);
        assert(s1 =~= front.drop_first());
        assert(front[0] == code_char(y));
        assert(enc_chars(front).len() == 4 * front.len());
        assert(pe == pos + enc_chars(front).len());
        lemma_dec_chars_snoc(b, py, front.drop_first(), c);
        assert(dec_chars(b, py, front.len()) == Some((front.drop_first().push(c), pe + 4)));
        assert(seq![code_char(y)] + front.drop_first().push(c) =~= front.push(c));
        assert(dec_chars(b, pos, front.len() + 1) == Some((front.push(c), pe + 4)));
    }
}

/// The encoding of a character sequence takes four bytes per character.
pub proof fn lemma_enc_chars_len(s: Seq<char>)
    ensures
        enc_chars(s).len() == 4 * s.len(),
    decreases s.len(),
{
    if s.len() > 0 {
        lemma_enc_chars_len(s.drop_last());
    }
}

/// Reading back an encoded string yields the encoded characters.
pub proof fn lemma_dec_str_roundtrip(b: Seq<u8>, pos: int, s: Seq<char>)
    requires
        0 <= pos,
        s.len() <= u64::MAX,
        pos + enc_str(s).len() <= b.len(),
        b.subrange(pos, pos + enc_str(s).len()) == enc_str(s),
    ensures
        dec_str(b, pos) == Some((s, pos + enc_str(s).len())),
{
    lemma_enc_chars_len(s);
    let es = enc_str(s);
    assert(es == spec_le64(s.len() as u64) + enc_chars(s));
    assert(spec_le64(s.len() as u64).len() == 8);
    assert(b.subrange(pos, pos + 8) =~= spec_le64(s.len() as u64)) by {
        assert forall|k: int| 0 <= k < 8 implies #[trigger] b.subrange(pos, pos + 8)[k]
            == spec_le64(s.len() as u64)[k] by {
            assert(b.subrange(pos, pos + es.len() as int)[k] == es[k]);
        }
    }
    lemma_le64_roundtrip(b, pos, s.len() as u64);
    assert(b.subrange(pos + 8, pos + 8 + enc_chars(s).len()) =~= enc_chars(s)) by {
        assert forall|k: int| 0 <= k < enc_chars(s).len() implies b.subrange(
            pos + 8,
            pos + 8 + enc_chars(s).len(),
        )[k] == enc_chars(s)[k] by {
            assert(b.subrange(pos, pos + es.len() as int)[8 + k] == es[8 + k]);
        }
    }
    lemma_dec_chars_roundtrip(b, pos + 8, s);
}

/// Append the little-endian bytes of a u64.
pub(crate) fn put_u64(out: &mut Vec<u8>, x: u64)
    ensures
        final(out)@ == old(out)@ + spec_le64(x),
{
    out.push((x & 0xff) as u8);
    out.push(((x >> 8) & 0xff) as u8);
    out.push(((x >> 16) & 0xff) as u8);
    out.push(((x >> 24) & 0xff) as u8);
    out.push(((x >> 32) & 0xff) as u8);
    out.push(((x >> 40) & 0xff) as u8);
    out.push(((x >> 48) & 0xff) as u8);
    out.push(((x >> 56) & 0xff) as u8);
    proof {
        assert(out@ =~= old(out)@ + spec_le64(x));
    }
}

/// Append the little-endian bytes of a u32.
pub(crate) fn put_u32(out: &mut Vec<u8>, x: u32)
    ensures
        final(out)@ == old(out)@ + spec_le32(x),
{
    out.push((x & 0xff) as u8);
    out.push(((x >> 8) & 0xff) as u8);
    out.push(((x >> 16) & 0xff) as u8);
    out.push(((x >> 24) & 0xff) as u8);
    proof {
        assert(out@ =~= old(out)@ + spec_le32(x));
    }
}

/// Append the encoding of a string.
pub(crate) fn put_str(out: &mut Vec<u8>, s: &str)
    ensures
        final(out)@ == old(out)@ + enc_str(s@),
{
    let n = s.unicode_len();
    put_u64(out, n as u64);
    let mut i: usize = 0;
    proof {
        assert(enc_chars(s@.take(0)) =~= Seq::<u8>::empty());
        assert(out@ =~= old(out)@ + spec_le64(n as u64) + enc_chars(s@.take(0)));
    }
    while i < n
        invariant
            0 <= i <= n,
            n == s@.len(),
            out@ == old(out)@ + spec_le64(n as u64) + enc_chars(s@.take(i as int)),
        decreases n - i,
    {
        let c = s.get_char(i);
        let ghost prev = out@;
        put_u32(out, c as u32);
        proof {
            assert(s@.take(i as int + 1).drop_last() =~= s@.take(i as int));
            assert(s@.take(i as int + 1).last() == s@[i as int]);
            assert(enc_chars(s@.take(i as int + 1)) == enc_chars(s@.take(i as int)) + spec_le32(
                s@[i as int] as u32,
            ));
            assert(out@ =~= old(out)@ + spec_le64(n as u64) + enc_chars(s@.take(i as int + 1)));
        }
        i = i + 1;
    }
    proof {
        assert(s@.take(n as int) =~= s@);
    }
}

/// Read a u64 at a position.
pub(crate) fn get_u64(b: &Vec<u8>, pos: usize) -> (x: u64)
    requires
        pos + 8 <= b@.len(),
    ensures
        x == le64_val(b@, pos as int),
{
    let n = b.len();
    (b[pos] as u64) | ((b[pos + 1] as u64) << 8) | ((b[pos + 2] as u64) << 16) | ((b[pos
        + 3] as u64) << 24) | ((b[pos + 4] as u64) << 32) | ((b[pos + 5] as u64) << 40) | ((b[pos
        + 6] as u64) << 48) | ((b[pos + 7] as u64) << 56)
}

/// Read a u32 at a position.
pub(crate) fn get_u32(b: &Vec<u8>, pos: usize) -> (x: u32)
    requires
        pos + 4 <= b@.len(),
    ensures
        x == le32_val(b@, pos as int),
{
    let n = b.len();
    (b[pos] as u32) | ((b[pos + 1] as u32) << 8) | ((b[pos + 2] as u32) << 16) | ((b[pos
        + 3] as u32) << 24)
}

/// Relies on char::from_u32 from std: Some exactly for Unicode scalar values,
/// and the returned character has the given code point.
#[verifier::external_body]
fn char_from_u32(x: u32) -> (r: Option<char>)
    ensures
        r is Some <==> valid_code(x),
        r is Some ==> (r->0) as u32 == x,
{
    char::from_u32(x)
}

/// Read a string at a position: the decoded string and the position after
/// it, or None where the spec decoder rejects the bytes.
pub(crate) fn get_str(b: &Vec<u8>, pos: usize) -> (r: Option<(String, usize)>)
    requires
        pos <= b@.len(),
    ensures
        r is Some ==> dec_str(b@, pos as int) == Some(((r->0).0@, (r->0).1 as int)) && (r->0).1
            <= b@.len(),
        r is None ==> dec_str(b@, pos as int) is None,
{
    if b.len() - pos < 8 {
        return None;
    }
    let n = get_u64(b, pos);
    let mut cur: usize = pos + 8;
    let mut j: u64 = 0;
    let mut acc: Vec<char> = Vec::new();
    while j < n
        invariant
            pos + 8 <= cur <= b@.len(),
            0 <= j <= n,
            dec_u64(b@, pos as int) == Some((n, pos as int + 8)),
            acc@.len() == j,
            ({
                match dec_chars(b@, cur as int, (n - j) as nat) {
                    Some((s, p)) => dec_chars(b@, pos as int + 8, n as nat) == Some(
                        (acc@ + s, p),
                    ),
                    None => dec_chars(b@, pos as int + 8, n as nat) is None,
                }
            }),
        decreases n - j,
    {
        if b.len() - cur < 4 {
            proof {
                assert(dec_chars(b@, cur as int, (n - j) as nat) is None);
            }
            return None;
        }
        let x = get_u32(b, cur);
        let decoded = char_from_u32(x);
        match decoded {
            None => {
                proof {
                    assert(dec_chars(b@, cur as int, (n - j) as nat) is None);
                }
                return None;
            },
            Some(c) => {
                proof {
                    lemma_code_char_of(c);
                    assert(code_char(x) == c);
                }
                let ghost prev = acc@;
                acc.push(c);
                proof {
                    let inner = dec_chars(b@, cur as int + 4, (n - j - 1) as nat);
                    match inner {
                        Some((s2, p2)) => {
                            assert(dec_chars(b@, cur as int, (n - j) as nat) == Some(
                                (seq![c] + s2, p2),
                            ));
                            assert(prev + (seq![c] + s2) =~= acc@ + s2);
                        },
                        None => {
                            assert(dec_chars(b@, cur as int, (n - j) as nat) is None);
                        },
                    }
                }
                cur = cur + 4;
                j = j + 1;
            },
        }
    }
    proof {
        assert(dec_chars(b@, cur as int, 0) == Some((Seq::<char>::empty(), cur as int)));
        assert(acc@ + Seq::<char>::empty() =~= acc@);
    }
    let s = chars_to_string(&acc);
    Some((s, cur))
}

} // verus!
