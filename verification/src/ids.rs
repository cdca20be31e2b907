//! Opaque identifiers and their string form.
//!
//! Identifiers are issued by the state store from a monotonic counter and are
//! rendered as canonical decimal strings for the outside world and for the
//! persisted snapshot. Parsing accepts exactly the canonical renderings, so a
//! rendered identifier always parses back to itself; anything else is rejected
//! and the caller treats the lookup as a miss.

use vstd::prelude::*;
use vstd::string::StrSliceExecFns;

verus! {

/// A character that stands for a decimal digit.
pub open spec fn is_digit(c: char) -> bool {
    '0' as u32 <= c as u32 && c as u32 <= '9' as u32
}

/// The numeric value of a digit character.
pub open spec fn digit_val(c: char) -> int {
    c as u32 - '0' as u32
}

/// The digit character for a value below ten.
pub open spec fn digit_char(d: int) -> char
    recommends
        0 <= d < 10,
{
    if d == 0 {
        '0'
    } else if d == 1 {
        '1'
    } else if d == 2 {
        '2'
    } else if d == 3 {
        '3'
    } else if d == 4 {
        '4'
    } else if d == 5 {
        '5'
    } else if d == 6 {
        '6'
    } else if d == 7 {
        '7'
    } else if d == 8 {
        '8'
    } else {
        '9'
    }
}

/// Every character of the sequence is a decimal digit.
pub open spec fn all_digits(s: Seq<char>) -> bool {
    forall|i: int| 0 <= i < s.len() ==> is_digit(#[trigger] s[i])
}

/// The number denoted by a sequence of digit characters, most significant first.
pub open spec fn digits_val(s: Seq<char>) -> int
    decreases s.len(),
{
    if s.len() == 0 {
        0
    } else {
        digits_val(s.drop_last()) * 10 + digit_val(s.last())
    }
}

/// The canonical decimal rendering of an identifier.
pub open spec fn spec_render_id(n: u64) -> Seq<char>
    decreases n,
{
    if n < 10 {
        seq![digit_char(n as int)]
    } else {
        spec_render_id(n / 10).push(digit_char((n % 10) as int))
    }
}

/// The identifier denoted by a string, if the string is a canonical rendering:
/// non-empty, digits only, no leading zero, and within range.
pub open spec fn spec_parse_id(s: Seq<char>) -> Option<u64> {
    if s.len() >= 1 && all_digits(s) && (s.len() == 1 || s[0] != '0') && digits_val(s)
        <= u64::MAX {
        Some(digits_val(s) as u64)
    } else {
        None
    }
}

proof fn lemma_digit_char_val(d: int)
    requires
        0 <= d < 10,
    ensures
        is_digit(digit_char(d)),
        digit_val(digit_char(d)) == d,
{
}

proof fn lemma_digits_val_nonneg(s: Seq<char>)
    requires
        all_digits(s),
    ensures
        digits_val(s) >= 0,
    decreases s.len(),
{
    if s.len() > 0 {
        lemma_digits_val_nonneg(s.drop_last());
    }
}

/// The rendering of an identifier is canonical: digits only, no leading zero
/// except for zero itself, and it denotes the identifier it was made from.
pub proof fn lemma_render_id_canonical(n: u64)
    ensures
        spec_render_id(n).len() >= 1,
        all_digits(spec_render_id(n)),
        digits_val(spec_render_id(n)) == n,
        n >= 1 ==> spec_render_id(n)[0] != '0',
        n == 0 ==> spec_render_id(n) == seq!['0'],
    decreases n,
{
    if n < 10 {
        lemma_digit_char_val(n as int);
        let r = spec_render_id(n);
        assert(r == seq![digit_char(n as int)]);
        assert(r.drop_last() =~= Seq::<char>::empty());
        assert(r.last() == digit_char(n as int));
        assert(digits_val(Seq::<char>::empty()) == 0);
        assert(digits_val(r) == digits_val(r.drop_last()) * 10 + digit_val(r.last()));
    } else {
        lemma_render_id_canonical(n / 10);
        lemma_digit_char_val((n % 10) as int);
        let r = spec_render_id(n);
        assert(r.drop_last() =~= spec_render_id(n / 10));
        assert(r.last() == digit_char((n % 10) as int));
        assert(digits_val(r) == digits_val(r.drop_last()) * 10 + digit_val(r.last()));
        assert(n / 10 * 10 + n % 10 == n);
        assert(r[0] == spec_render_id(n / 10)[0]);
    }
}

/// Parsing inverts rendering: a rendered identifier parses back to itself.
pub proof fn lemma_parse_render_id(n: u64)
    ensures
        spec_parse_id(spec_render_id(n)) == Some(n),
{
    lemma_render_id_canonical(n);
}

/// Law: rendering is injective — distinct identifiers render to distinct
/// strings, so the string form never conflates two entities.
pub proof fn lemma_render_id_injective(a: u64, b: u64)
    requires
        spec_render_id(a) == spec_render_id(b),
    ensures
        a == b,
{
    lemma_parse_render_id(a);
    lemma_parse_render_id(b);
}

proof fn lemma_digits_val_prefix_le(s: Seq<char>, j: int)
    requires
        all_digits(s),
        0 <= j <= s.len(),
    ensures
        digits_val(s.take(j)) <= digits_val(s),
    decreases s.len() - j,
{
    if j < s.len() {
        lemma_digits_val_prefix_le(s, j + 1);
        let t = s.take(j + 1);
        assert(t.drop_last() =~= s.take(j));
        assert(t.last() == s[j]);
        lemma_digits_val_nonneg(s.take(j));
    } else {
        assert(s.take(j) =~= s);
    }
}

/// The digit character for a value below ten.
fn digit_to_char(d: u64) -> (c: char)
    requires
        d < 10,
    ensures
        c == digit_char(d as int),
{
    if d == 0 {
        '0'
    } else if d == 1 {
        '1'
    } else if d == 2 {
        '2'
    } else if d == 3 {
        '3'
    } else if d == 4 {
        '4'
    } else if d == 5 {
        '5'
    } else if d == 6 {
        '6'
    } else if d == 7 {
        '7'
    } else if d == 8 {
        '8'
    } else {
        '9'
    }
}

fn render_digits(n: u64, v: &mut Vec<char>)
    ensures
        final(v)@ == old(v)@ + spec_render_id(n),
    decreases n,
{
    if n >= 10 {
        render_digits(n / 10, v);
    }
    v.push(digit_to_char(n % 10));
    proof {
        if n < 10 {
            assert(old(v)@ + spec_render_id(n) =~= v@);
        } else {
            assert(old(v)@ + spec_render_id(n) =~= old(v)@ + spec_render_id(n / 10) + seq![
                digit_char((n % 10) as int),
            ]);
            assert(v@ =~= old(v)@ + spec_render_id(n / 10) + seq![digit_char((n % 10) as int)]);
        }
    }
}

/// Relies on `String: FromIterator<char>` from std: collecting an iterator of
/// characters yields a string holding exactly those characters in order.
#[verifier::external_body]
pub(crate) fn chars_to_string(v: &Vec<char>) -> (r: String)
    ensures
        r@ == v@,
{
    v.iter().collect()
}

/// Render an identifier as its canonical decimal string.
pub fn render_id(n: u64) -> (r: String)
    ensures
        r@ == spec_render_id(n),
{
    let mut v: Vec<char> = Vec::new();
    render_digits(n, &mut v);
    proof {
        assert(v@ =~= spec_render_id(n));
    }
    chars_to_string(&v)
}

/// Parse a canonical decimal identifier string; reject anything else.
pub fn parse_id(s: &str) -> (r: Option<u64>)
    ensures
        r == spec_parse_id(s@),
{
    let n = s.unicode_len();
    if n == 0 {
        return None;
    }
    if n > 1 && s.get_char(0) as u32 == '0' as u32 {
        return None;
    }
    let mut val: u64 = 0;
    let mut i: usize = 0;
    while i < n
        invariant
            0 <= i <= n,
            n == s@.len(),
            all_digits(s@.take(i as int)),
            val == digits_val(s@.take(i as int)),
        decreases n - i,
    {
        let c = s.get_char(i);
        let cu = c as u32;
        if cu < '0' as u32 || cu > '9' as u32 {
            return None;
        }
        let d: u64 = (cu - '0' as u32) as u64;
        if val > (u64::MAX - d) / 10 {
            proof {
                let t = s@.take(i as int + 1);
                assert(t.drop_last() =~= s@.take(i as int));
                assert(t.last() == s@[i as int]);
                assert(digits_val(t) == val * 10 + d);
                assert(val * 10 + d > u64::MAX) by {
                    assert(val >= (u64::MAX - d) / 10 + 1);
                    assert(((u64::MAX - d) / 10 + 1) * 10 >= u64::MAX - d + 1);
                }
                if all_digits(s@) {
                    lemma_digits_val_prefix_le(s@, i as int + 1);
                }
            }
            return None;
        }
        proof {
            let t = s@.take(i as int + 1);
            assert(t.drop_last() =~= s@.take(i as int));
            assert(t.last() == s@[i as int]);
        }
        val = val * 10 + d;
        i = i + 1;
    }
    proof {
        assert(s@.take(n as int) =~= s@);
    }
    Some(val)
}

} // verus!
