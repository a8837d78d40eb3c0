//! Characters, digit values, and splitting text on a separator.

use vstd::prelude::*;

verus! {

use vstd::std_specs::iter::IteratorSpec;

/// A decimal digit `'0'..='9'`.
pub open spec fn is_dec_digit(c: char) -> bool {
    '0' <= c && c <= '9'
}

/// Numeric value of a decimal digit.
pub open spec fn dec_digit_val(c: char) -> nat
    recommends
        is_dec_digit(c),
{
    (c as int - '0' as int) as nat
}

/// A hexadecimal digit, either case.
pub open spec fn is_hex_digit(c: char) -> bool {
    is_dec_digit(c) || ('a' <= c && c <= 'f') || ('A' <= c && c <= 'F')
}

/// Numeric value of a hexadecimal digit.
pub open spec fn hex_digit_val(c: char) -> nat
    recommends
        is_hex_digit(c),
{
    if is_dec_digit(c) {
        (c as int - '0' as int) as nat
    } else if 'a' <= c && c <= 'f' {
        (c as int - 'a' as int + 10) as nat
    } else {
        (c as int - 'A' as int + 10) as nat
    }
}

pub open spec fn all_dec_digits(s: Seq<char>) -> bool {
    forall|i: int| 0 <= i < s.len() ==> is_dec_digit(#[trigger] s[i])
}

pub open spec fn all_hex_digits(s: Seq<char>) -> bool {
    forall|i: int| 0 <= i < s.len() ==> is_hex_digit(#[trigger] s[i])
}

/// Value of a string of decimal digits, most significant first.
pub open spec fn dec_val(s: Seq<char>) -> nat
    recommends
        all_dec_digits(s),
    decreases s.len(),
{
    if s.len() == 0 {
        0
    } else {
        10 * dec_val(s.drop_last()) + dec_digit_val(s.last())
    }
}

/// Value of a string of hexadecimal digits, most significant first.
pub open spec fn hex_val(s: Seq<char>) -> nat
    recommends
        all_hex_digits(s),
    decreases s.len(),
{
    if s.len() == 0 {
        0
    } else {
        16 * hex_val(s.drop_last()) + hex_digit_val(s.last())
    }
}

/// The chunks of `s` between occurrences of `sep`, in order.  A string
/// without the separator is one chunk; every separator ends the current
/// chunk and opens a new one, so the result always has one chunk more
/// than `s` has separators.
pub open spec fn split_on(s: Seq<char>, sep: char) -> Seq<Seq<char>>
    decreases s.len(),
{
    if s.len() == 0 {
        seq![Seq::<char>::empty()]
    } else if s.last() == sep {
        split_on(s.drop_last(), sep).push(Seq::<char>::empty())
    } else {
        let r = split_on(s.drop_last(), sep);
        r.update(r.len() - 1, r.last().push(s.last()))
    }
}

pub proof fn lemma_split_on_len(s: Seq<char>, sep: char)
    ensures
        split_on(s, sep).len() >= 1,
    decreases s.len(),
{
    if s.len() > 0 {
        lemma_split_on_len(s.drop_last(), sep);
    }
}

/// A string without the separator is a single chunk.
pub proof fn lemma_split_on_no_sep(s: Seq<char>, sep: char)
    requires
        forall|p: int| 0 <= p < s.len() ==> s[p] != sep,
    ensures
        split_on(s, sep).len() == 1,
    decreases s.len(),
{
    if s.len() > 0 {
        assert(forall|p: int| 0 <= p < s.len() - 1 ==> s.drop_last()[p] == s[p]);
        lemma_split_on_no_sep(s.drop_last(), sep);
    }
}

/// Every character other than the separator lands in some chunk.
pub proof fn lemma_split_on_member(s: Seq<char>, sep: char, p: int)
    requires
        0 <= p < s.len(),
        s[p] != sep,
    ensures
        exists|i: int|
            0 <= i < split_on(s, sep).len() && #[trigger] split_on(s, sep)[i].contains(s[p]),
    decreases s.len(),
{
    let r = split_on(s.drop_last(), sep);
    lemma_split_on_len(s.drop_last(), sep);
    if p == s.len() - 1 {
        let last_new = r.last().push(s.last());
        assert(last_new[last_new.len() - 1] == s[p]);
        assert(split_on(s, sep)[r.len() - 1].contains(s[p]));
    } else {
        assert(s.drop_last()[p] == s[p]);
        lemma_split_on_member(s.drop_last(), sep, p);
        let i = choose|i: int| 0 <= i < r.len() && #[trigger] r[i].contains(s[p]);
        if s.last() == sep {
            assert(split_on(s, sep)[i].contains(s[p]));
        } else {
            if i < r.len() - 1 {
                assert(split_on(s, sep)[i].contains(s[p]));
            } else {
                let j = choose|j: int| 0 <= j < r[i].len() && r[i][j] == s[p];
                assert(r.last().push(s.last())[j] == s[p]);
                assert(split_on(s, sep)[i].contains(s[p]));
            }
        }
    }
}

/// A digit string's value never shrinks when more digits follow.
pub proof fn lemma_dec_val_take_le(s: Seq<char>, j: int)
    requires
        0 <= j <= s.len(),
    ensures
        dec_val(s.take(j)) <= dec_val(s),
    decreases s.len() - j,
{
    if j == s.len() {
        assert(s.take(j) =~= s);
    } else {
        assert(s.take(j + 1).drop_last() =~= s.take(j));
        lemma_dec_val_take_le(s, j + 1);
    }
}

/// A string of `n` hexadecimal digits is worth less than `2^(4n)`.
pub proof fn lemma_hex_val_bound(s: Seq<char>)
    requires
        all_hex_digits(s),
    ensures
        hex_val(s) < vstd::arithmetic::power2::pow2(4 * s.len()),
    decreases s.len(),
{
    vstd::arithmetic::power2::lemma_pow2_pos(4 * s.len());
    if s.len() > 0 {
        lemma_hex_val_bound(s.drop_last());
        vstd::arithmetic::power2::lemma_pow2_adds(4 * (s.len() - 1) as nat, 4);
        vstd::arithmetic::power2::lemma2_to64();
    }
}

/// Reads a decimal numeral worth at most `limit`; rejects the empty
/// string, a non-digit, and any value over the limit.
pub fn parse_dec_bounded(chunk: &Vec<char>, limit: u32) -> (r: Option<u32>)
    requires
        limit <= 0xFFFF,
    ensures
        r is Some <==> (chunk@.len() >= 1 && all_dec_digits(chunk@) && dec_val(chunk@) <= limit),
        r matches Some(v) ==> v as nat == dec_val(chunk@) && v <= limit,
{
    if chunk.len() == 0 {
        return None;
    }
    let mut acc: u32 = 0;
    let mut i: usize = 0;
    while i < chunk.len()
        invariant
            0 <= i <= chunk@.len(),
            limit <= 0xFFFF,
            all_dec_digits(chunk@.take(i as int)),
            acc as nat == dec_val(chunk@.take(i as int)),
            acc <= limit,
        decreases chunk@.len() - i,
    {
        let c = chunk[i];
        proof {
            assert(chunk@.take(i + 1).drop_last() =~= chunk@.take(i as int));
            assert(chunk@.take(i + 1).last() == chunk@[i as int]);
        }
        if c < '0' || c > '9' {
            return None;
        }
        let d: u32 = (c as u32) - ('0' as u32);
        acc = acc * 10 + d;
        if acc > limit {
            proof {
                lemma_dec_val_take_le(chunk@, i + 1);
            }
            return None;
        }
        i += 1;
    }
    proof {
        assert(chunk@.take(chunk@.len() as int) =~= chunk@);
    }
    Some(acc)
}

/// Reads a group of one to four hexadecimal digits.
pub fn parse_hex_group(chunk: &Vec<char>) -> (r: Option<u16>)
    ensures
        r is Some <==> (1 <= chunk@.len() <= 4 && all_hex_digits(chunk@)),
        r matches Some(v) ==> v as nat == hex_val(chunk@),
{
    if chunk.len() == 0 || chunk.len() > 4 {
        return None;
    }
    let mut acc: u32 = 0;
    let mut i: usize = 0;
    while i < chunk.len()
        invariant
            0 <= i <= chunk@.len() <= 4,
            all_hex_digits(chunk@.take(i as int)),
            acc as nat == hex_val(chunk@.take(i as int)),
            acc < 0x10000,
        decreases chunk@.len() - i,
    {
        let c = chunk[i];
        proof {
            assert(chunk@.take(i + 1).drop_last() =~= chunk@.take(i as int));
            assert(chunk@.take(i + 1).last() == chunk@[i as int]);
        }
        let d: u32 = if c >= '0' && c <= '9' {
            (c as u32) - ('0' as u32)
        } else if c >= 'a' && c <= 'f' {
            (c as u32) - ('a' as u32) + 10
        } else if c >= 'A' && c <= 'F' {
            (c as u32) - ('A' as u32) + 10
        } else {
            return None;
        };
        proof {
            lemma_hex_val_bound(chunk@.take(i as int));
            vstd::arithmetic::power2::lemma2_to64();
            if i < 3 {
                vstd::arithmetic::power2::lemma_pow2_strictly_increases(4 * i as nat, 12);
            }
            assert(acc < 0x1000);
        }
        acc = acc * 16 + d;
        i += 1;
    }
    proof {
        assert(chunk@.take(chunk@.len() as int) =~= chunk@);
    }
    Some(acc as u16)
}

/// The characters of `s`, as a vector.
pub fn chars_of(s: &str) -> (v: Vec<char>)
    ensures
        v@ == s@,
{
    broadcast use vstd::string::next_postcondition;
    broadcast use vstd::string::axiom_spec_iter;

    let mut it = s.chars();
    let mut v: Vec<char> = Vec::new();
    loop
        invariant
            it.obeys_prophetic_iter_laws(),
            it.decrease() is Some,
            v@ + it.remaining() == s@,
        ensures
            v@ == s@,
        decreases it.decrease()->0,
    {
        match it.next() {
            Some(c) => v.push(c),
            None => {
                proof {
                    assert(v@ =~= v@ + it.remaining());
                }
                break;
            },
        }
    }
    v
}

/// The views of a vector of character vectors.
pub open spec fn views_of(vs: Seq<Vec<char>>) -> Seq<Seq<char>> {
    vs.map_values(|v: Vec<char>| v@)
}

/// Splits `s` on `sep`, as `split_on` describes.
pub fn split_chars(s: &Vec<char>, sep: char) -> (r: Vec<Vec<char>>)
    ensures
        views_of(r@) == split_on(s@, sep),
        r@.len() >= 1,
{
    let mut r: Vec<Vec<char>> = Vec::new();
    r.push(Vec::new());
    proof {
        assert(views_of(r@) =~= split_on(s@.take(0), sep));
    }
    let mut i: usize = 0;
    while i < s.len()
        invariant
            0 <= i <= s@.len(),
            r@.len() >= 1,
            views_of(r@) == split_on(s@.take(i as int), sep),
        decreases s@.len() - i,
    {
        let c = s[i];
        proof {
            assert(s@.take(i + 1).drop_last() =~= s@.take(i as int));
            assert(s@.take(i + 1).last() == s@[i as int]);
        }
        if c == sep {
            r.push(Vec::new());
            proof {
                assert(views_of(r@) =~= split_on(s@.take(i + 1), sep));
            }
        } else {
            let mut last_chunk = r.pop().unwrap();
            last_chunk.push(c);
            r.push(last_chunk);
            proof {
                lemma_split_on_len(s@.take(i as int), sep);
                assert(views_of(r@) =~= split_on(s@.take(i + 1), sep));
            }
        }
        i += 1;
    }
    proof {
        assert(s@.take(s@.len() as int) =~= s@);
    }
    r
}

} // verus!
