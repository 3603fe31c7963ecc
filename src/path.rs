//! The stored text of an ancestor path: the root marker `0`, then `,` and the decimal text of
//! each ancestor id, root first (`0,1,2`).
use crate::token::{lemma_ascii_is_utf8, lemma_split_nonempty, split_on, split_pieces, utf8_to_string, views};
use vstd::prelude::*;
use vstd::string::*;
use vstd::utf8::*;

verus! {

/// Byte value of the separator between ids.
pub const ID_SEP: u8 = 44;

/// Byte value of the minus sign.
pub const MINUS: u8 = 45;

/// The byte of a decimal digit.
pub open spec fn digit_byte(d: nat) -> u8 {
    (48 + d) as u8
}

/// The decimal digits of `n`, most significant first, without leading zeros.
pub open spec fn digits_of(n: nat) -> Seq<u8>
    decreases n,
{
    if n < 10 {
        seq![digit_byte(n)]
    } else {
        digits_of(n / 10).push(digit_byte(n % 10))
    }
}

/// The decimal text of an integer, with a minus sign when it is negative.
pub open spec fn int_text(x: int) -> Seq<u8> {
    if x < 0 {
        seq![MINUS] + digits_of((-x) as nat)
    } else {
        digits_of(x as nat)
    }
}

/// The stored text of an ancestor path.
pub open spec fn path_text(p: Seq<i64>) -> Seq<u8>
    decreases p.len(),
{
    if p.len() == 0 {
        seq![48u8]
    } else {
        path_text(p.drop_last()) + seq![ID_SEP] + int_text(p.last() as int)
    }
}

/// Whether a byte is a decimal digit.
pub open spec fn is_digit(c: u8) -> bool {
    48 <= c && c <= 57
}

/// Whether every byte is a decimal digit.
pub open spec fn all_digits(s: Seq<u8>) -> bool {
    forall|i: int| 0 <= i < s.len() ==> is_digit(#[trigger] s[i])
}

/// The number that a run of decimal digits stands for.
pub open spec fn digits_value(s: Seq<u8>) -> int
    decreases s.len(),
{
    if s.len() == 0 {
        0
    } else {
        digits_value(s.drop_last()) * 10 + (s.last() - 48)
    }
}

/// The integer that a decimal text stands for: one or more digits, after an optional minus
/// sign.
pub open spec fn int_value(s: Seq<u8>) -> Option<int> {
    if s.len() > 0 && all_digits(s) {
        Some(digits_value(s))
    } else if s.len() > 1 && s[0] == MINUS && all_digits(s.drop_first()) {
        Some(-digits_value(s.drop_first()))
    } else {
        None
    }
}

/// The `i64` that a decimal text stands for, if it stands for one in range.
pub open spec fn i64_value(s: Seq<u8>) -> Option<i64> {
    match int_value(s) {
        Some(v) => if i64::MIN <= v <= i64::MAX {
            Some(v as i64)
        } else {
            None
        },
        None => None,
    }
}

/// The ids that each of a list of decimal texts stands for.
pub open spec fn ids_of(pieces: Seq<Seq<u8>>) -> Seq<i64> {
    pieces.map_values(|t: Seq<u8>| i64_value(t)->Some_0)
}

/// The ancestor path that a stored text stands for: the root marker first, then one id per
/// piece between separators.
pub open spec fn path_of(b: Seq<u8>) -> Option<Seq<i64>> {
    let pieces = split_on(b, ID_SEP);
    if pieces[0] == seq![48u8] && forall|i: int|
        1 <= i < pieces.len() ==> (#[trigger] i64_value(pieces[i])) is Some {
        Some(ids_of(pieces.drop_first()))
    } else {
        None
    }
}

proof fn lemma_digits_value_grows(s: Seq<u8>, k: int)
    requires
        all_digits(s),
        0 <= k <= s.len(),
    ensures
        0 <= digits_value(s.subrange(0, k)) <= digits_value(s),
    decreases s.len() - k,
{
    if k < s.len() {
        lemma_digits_value_grows(s, k + 1);
        assert(s.subrange(0, k + 1).drop_last() =~= s.subrange(0, k));
        assert(is_digit(s[k]));
    } else {
        assert(s.subrange(0, k) =~= s);
    }
    lemma_digits_value_nonneg(s.subrange(0, k));
}

proof fn lemma_digits_value_nonneg(s: Seq<u8>)
    requires
        all_digits(s),
    ensures
        digits_value(s) >= 0,
    decreases s.len(),
{
    if s.len() > 0 {
        assert(is_digit(s[s.len() - 1]));
        lemma_digits_value_nonneg(s.drop_last());
    }
}

/// Reads a decimal `i64`.
pub fn parse_i64(s: &[u8]) -> (r: Option<i64>)
    ensures
        r == i64_value(s@),
{
    let neg = s.len() > 0 && s[0] == MINUS;
    let start: usize = if neg {
        1
    } else {
        0
    };
    if start >= s.len() {
        return None;
    }
    let ghost body = s@.subrange(start as int, s@.len() as int);
    assert(neg ==> body =~= s@.drop_first());
    assert(!neg ==> body =~= s@);
    let limit: u128 = if neg {
        9223372036854775808
    } else {
        9223372036854775807
    };
    let mut mag: u128 = 0;
    let mut i: usize = start;
    while i < s.len()
        invariant
            start <= i <= s@.len(),
            neg == (s@.len() > 0 && s@[0] == MINUS),
            start == (if neg {
                1usize
            } else {
                0usize
            }),
            limit == (if neg {
                9223372036854775808u128
            } else {
                9223372036854775807u128
            }),
            body == s@.subrange(start as int, s@.len() as int),
            neg ==> body == s@.drop_first(),
            !neg ==> body == s@,
            mag <= limit,
            limit <= 9223372036854775808,
            mag == digits_value(body.subrange(0, i - start)),
            forall|j: int| start <= j < i ==> is_digit(#[trigger] s@[j]),
        decreases s@.len() - i,
    {
        let c = s[i];
        if c < 48 || c > 57 {
            assert(body[i - start] == c);
            assert(!all_digits(body));
            assert(neg ==> !(s@.len() > 0 && all_digits(s@)));
            return None;
        }
        assert(body.subrange(0, i + 1 - start).drop_last() =~= body.subrange(0, i - start));
        mag = mag * 10 + (c - 48) as u128;
        i = i + 1;
        assert(body[i - 1 - start] == c);
        assert(mag == digits_value(body.subrange(0, i - start)));
        if mag > limit {
            proof {
                if all_digits(body) {
                    lemma_digits_value_grows(body, i - start);
                    assert(digits_value(body) > limit);
                    if neg {
                        assert(!is_digit(s@[0]));
                    }
                } else if neg {
                    assert(!is_digit(s@[0]));
                }
            }
            return None;
        }
    }
    assert(body.subrange(0, i - start) =~= body);
    assert(all_digits(body)) by {
        assert forall|j: int| 0 <= j < body.len() implies is_digit(#[trigger] body[j]) by {
            assert(body[j] == s@[start + j]);
        }
    }
    if neg {
        Some((0 - (mag as i128)) as i64)
    } else {
        Some(mag as i64)
    }
}


proof fn lemma_digits_are_ascii(n: nat)
    ensures
        forall|i: int| 0 <= i < digits_of(n).len() ==> is_digit(#[trigger] digits_of(n)[i]),
    decreases n,
{
    if n >= 10 {
        lemma_digits_are_ascii(n / 10);
        let d = digits_of(n);
        let h = digits_of(n / 10);
        assert(d == h.push(digit_byte(n % 10)));
        assert forall|i: int| 0 <= i < d.len() implies is_digit(#[trigger] d[i]) by {
            if i < h.len() {
                assert(d[i] == h[i]);
            }
        }
    }
}

/// Appends the decimal digits of `n`.
fn push_digits(out: &mut Vec<u8>, n: u64)
    ensures
        final(out)@ == old(out)@ + digits_of(n as nat),
{
    let mut tail: Vec<u8> = Vec::new();
    let mut m = n;
    while m >= 10
        invariant
            digits_of(n as nat) == digits_of(m as nat) + tail@,
        decreases m,
    {
        let d = (m % 10) as u8;
        assert(digits_of(m as nat) == digits_of((m / 10) as nat).push(digit_byte((m % 10) as nat)));
        tail.insert(0, 48 + d);
        m = m / 10;
        assert(digits_of(n as nat) =~= digits_of(m as nat) + tail@);
    }
    let ghost o0 = out@;
    out.push(48 + m as u8);
    let mut i: usize = 0;
    while i < tail.len()
        invariant
            i <= tail@.len(),
            digits_of(n as nat) == digits_of(m as nat) + tail@,
            m < 10,
            out@ == o0 + digits_of(m as nat) + tail@.subrange(0, i as int),
        decreases tail@.len() - i,
    {
        out.push(tail[i]);
        i = i + 1;
        assert(out@ =~= o0 + digits_of(m as nat) + tail@.subrange(0, i as int));
    }
    assert(tail@.subrange(0, i as int) =~= tail@);
    assert(out@ =~= o0 + digits_of(n as nat));
}

/// Appends the decimal text of `x`.
pub fn push_i64(out: &mut Vec<u8>, x: i64)
    ensures
        final(out)@ == old(out)@ + int_text(x as int),
{
    if x < 0 {
        out.push(MINUS);
        let ghost o1 = out@;
        push_digits(out, (0 - (x as i128)) as u64);
        assert(out@ =~= old(out)@ + int_text(x as int));
    } else {
        push_digits(out, x as u64);
    }
}

/// Whether every byte is a digit, a separator or a minus sign.
pub open spec fn is_path_byte(c: u8) -> bool {
    is_digit(c) || c == ID_SEP || c == MINUS
}

/// The stored text of an ancestor path.
pub fn format_ancestors(path: &Vec<i64>) -> (r: String)
    ensures
        encode_utf8(r@) == path_text(path@),
{
    let mut out: Vec<u8> = Vec::new();
    out.push(48);
    let mut i: usize = 0;
    assert(out@ =~= path_text(path@.subrange(0, 0)));
    while i < path.len()
        invariant
            i <= path@.len(),
            out@ == path_text(path@.subrange(0, i as int)),
            forall|j: int| 0 <= j < out@.len() ==> is_path_byte(#[trigger] out@[j]),
        decreases path@.len() - i,
    {
        let ghost o0 = out@;
        out.push(ID_SEP);
        push_i64(&mut out, path[i]);
        i = i + 1;
        proof {
            assert(path@.subrange(0, i as int).drop_last() =~= path@.subrange(0, i - 1));
            let x = path@[i - 1] as int;
            if x < 0 {
                lemma_digits_are_ascii((-x) as nat);
            } else {
                lemma_digits_are_ascii(x as nat);
            }
            assert forall|j: int| 0 <= j < out@.len() implies is_path_byte(#[trigger] out@[j]) by {
                if j >= o0.len() + 1 {
                    assert(out@[j] == int_text(x)[j - o0.len() - 1]);
                    if x < 0 && j > o0.len() + 1 {
                        assert(int_text(x)[j - o0.len() - 1] == digits_of((-x) as nat)[j - o0.len() - 2]);
                    }
                } else if j < o0.len() {
                    assert(out@[j] == o0[j]);
                }
            }
        }
    }
    assert(path@.subrange(0, i as int) =~= path@);
    proof {
        lemma_ascii_is_utf8(out@);
    }
    match utf8_to_string(out) {
        Some(s) => s,
        None => String::new(),
    }
}

/// Reads a stored ancestor path; see [`path_of`].
pub fn parse_ancestors(text: &str) -> (r: Option<Vec<i64>>)
    ensures
        match r {
            Some(v) => path_of(text.spec_bytes()) == Some(v@),
            None => path_of(text.spec_bytes()) is None,
        },
{
    let pieces = split_pieces(text.as_bytes(), ID_SEP);
    let ghost pv = views(pieces@);
    proof {
        lemma_split_nonempty(text.spec_bytes(), ID_SEP);
    }
    assert(pv[0] == pieces@[0]@);
    if pieces[0].len() != 1 || pieces[0][0] != 48 {
        assert(pv[0] != seq![48u8]);
        return None;
    }
    assert(pv[0] =~= seq![48u8]);
    let mut ids: Vec<i64> = Vec::new();
    let mut i: usize = 1;
    while i < pieces.len()
        invariant
            1 <= i <= pieces@.len(),
            pv == views(pieces@),
            pv == split_on(text.spec_bytes(), ID_SEP),
            forall|j: int| 1 <= j < i ==> (#[trigger] i64_value(pv[j])) is Some,
            ids@ == ids_of(pv.drop_first().subrange(0, i - 1)),
        decreases pieces@.len() - i,
    {
        assert(pv[i as int] == pieces@[i as int]@);
        match parse_i64(pieces[i].as_slice()) {
            Some(v) => {
                ids.push(v);
            },
            None => {
                return None;
            },
        }
        i = i + 1;
        assert(ids@ =~= ids_of(pv.drop_first().subrange(0, i - 1)));
    }
    assert(pv.drop_first().subrange(0, i - 1) =~= pv.drop_first());
    Some(ids)
}

} // verus!
