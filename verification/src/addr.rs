//! The textual grammar of IPv4 and IPv6 addresses, and its parsers.
//!
//! An IPv4 text is four dot-separated decimal octets (no leading zeros,
//! each at most 255).  An IPv6 text is colon-separated groups of one to
//! four hexadecimal digits: either exactly eight groups, or fewer with a
//! single `::` standing for the missing zero groups.  Dotted tails and
//! zone suffixes are not part of the grammar.

use vstd::prelude::*;

verus! {

use crate::text::{
    all_dec_digits, all_hex_digits, dec_val, hex_val, split_on, views_of,
    is_dec_digit, is_hex_digit,
    split_chars, parse_dec_bounded, parse_hex_group,
    lemma_split_on_len, lemma_hex_val_bound,
};

/// One decimal octet: digits only, no leading zero, at most 255.
pub open spec fn is_octet(s: Seq<char>) -> bool {
    &&& s.len() >= 1
    &&& all_dec_digits(s)
    &&& (s[0] == '0' ==> s.len() == 1)
    &&& dec_val(s) <= 255
}

/// The address value an IPv4 text denotes, if it is well formed.
pub open spec fn parse_v4(s: Seq<char>) -> Option<nat> {
    let ps = split_on(s, '.');
    if ps.len() == 4 && is_octet(ps[0]) && is_octet(ps[1]) && is_octet(ps[2]) && is_octet(ps[3]) {
        Some(((dec_val(ps[0]) * 256 + dec_val(ps[1])) * 256 + dec_val(ps[2])) * 256 + dec_val(ps[3]))
    } else {
        None
    }
}

pub open spec fn is_ipv4_text(s: Seq<char>) -> bool {
    parse_v4(s) is Some
}

pub open spec fn ipv4_value(s: Seq<char>) -> nat
    recommends
        is_ipv4_text(s),
{
    parse_v4(s)->Some_0
}

/// One group of an IPv6 text: one to four hexadecimal digits.
pub open spec fn is_group(s: Seq<char>) -> bool {
    1 <= s.len() <= 4 && all_hex_digits(s)
}

pub open spec fn groups_all(ps: Seq<Seq<char>>) -> bool {
    forall|i: int| 0 <= i < ps.len() ==> is_group(#[trigger] ps[i])
}

/// The numeric values of a sequence of groups.
pub open spec fn group_vals(ps: Seq<Seq<char>>) -> Seq<nat> {
    ps.map_values(|g: Seq<char>| hex_val(g))
}

pub open spec fn zero_groups(n: nat) -> Seq<nat> {
    Seq::new(n, |i: int| 0nat)
}

/// Big-endian value of a sequence of 16-bit groups.
pub open spec fn v6_fold(gs: Seq<nat>) -> nat
    decreases gs.len(),
{
    if gs.len() == 0 {
        0
    } else {
        v6_fold(gs.drop_last()) * 0x10000 + gs.last()
    }
}

/// Value of an address whose text gives the `heads` groups, then `::`,
/// then the `tails` groups.
pub open spec fn v6_join(heads: Seq<Seq<char>>, tails: Seq<Seq<char>>) -> nat
    recommends
        heads.len() + tails.len() <= 7,
{
    v6_fold(group_vals(heads) + zero_groups((8 - heads.len() - tails.len()) as nat) + group_vals(tails))
}

/// A lone empty chunk strictly inside the colon-chunks: the `::` of a
/// compressed text with groups on both sides.
pub open spec fn interior_gap(ps: Seq<Seq<char>>, i: int) -> bool {
    &&& 0 < i < ps.len() - 1
    &&& ps[i].len() == 0
    &&& groups_all(ps.take(i))
    &&& groups_all(ps.skip(i + 1))
    &&& ps.len() <= 8
}

/// The address value an IPv6 text denotes, if it is well formed.  The
/// colon-chunks are either eight groups, or carry one `::`: leading
/// (`::`, `::g...`), trailing (`g...::`), or interior (`g...::g...`),
/// with at most seven groups in all.
pub open spec fn parse_v6(s: Seq<char>) -> Option<nat> {
    let ps = split_on(s, ':');
    let l = ps.len() as int;
    if l == 8 && groups_all(ps) {
        Some(v6_fold(group_vals(ps)))
    } else if l == 3 && ps[0].len() == 0 && ps[1].len() == 0 && ps[2].len() == 0 {
        Some(0)
    } else if l >= 3 && ps[0].len() == 0 && ps[1].len() == 0 && groups_all(ps.skip(2)) && l - 2 <= 7 {
        Some(v6_join(Seq::empty(), ps.skip(2)))
    } else if l >= 3 && ps[l - 1].len() == 0 && ps[l - 2].len() == 0 && groups_all(ps.take(l - 2)) && l - 2 <= 7 {
        Some(v6_join(ps.take(l - 2), Seq::empty()))
    } else if exists|i: int| interior_gap(ps, i) {
        let i = choose|i: int| interior_gap(ps, i);
        Some(v6_join(ps.take(i), ps.skip(i + 1)))
    } else {
        None
    }
}

pub open spec fn is_ipv6_text(s: Seq<char>) -> bool {
    parse_v6(s) is Some
}

pub open spec fn ipv6_value(s: Seq<char>) -> nat
    recommends
        is_ipv6_text(s),
{
    parse_v6(s)->Some_0
}

/// Reads one octet chunk.
fn parse_octet(chunk: &Vec<char>) -> (r: Option<u8>)
    ensures
        r is Some <==> is_octet(chunk@),
        r matches Some(v) ==> v as nat == dec_val(chunk@),
{
    if chunk.len() >= 2 && chunk[0] == '0' {
        return None;
    }
    match parse_dec_bounded(chunk, 255) {
        Some(v) => Some(v as u8),
        None => None,
    }
}

/// Reads a whole IPv4 address text.
pub fn scan_ipv4(s: &Vec<char>) -> (r: Option<u32>)
    ensures
        match r {
            Some(v) => parse_v4(s@) == Some(v as nat),
            None => parse_v4(s@) is None,
        },
{
    let parts = split_chars(s, '.');
    if parts.len() != 4 {
        return None;
    }
    let a = match parse_octet(&parts[0]) {
        Some(v) => v,
        None => { return None; },
    };
    let b = match parse_octet(&parts[1]) {
        Some(v) => v,
        None => { return None; },
    };
    let c = match parse_octet(&parts[2]) {
        Some(v) => v,
        None => { return None; },
    };
    let d = match parse_octet(&parts[3]) {
        Some(v) => v,
        None => { return None; },
    };
    Some(((a as u32 * 256 + b as u32) * 256 + c as u32) * 256 + d as u32)
}

/// The values of a vector of 16-bit groups.
pub open spec fn nats_of(gs: Seq<u16>) -> Seq<nat> {
    gs.map_values(|g: u16| g as nat)
}

/// Eight groups of 16 bits make less than `2^128`.
pub proof fn lemma_v6_fold_bound(gs: Seq<nat>)
    requires
        forall|i: int| 0 <= i < gs.len() ==> gs[i] < 0x10000,
    ensures
        v6_fold(gs) < vstd::arithmetic::power2::pow2(16 * gs.len()),
    decreases gs.len(),
{
    vstd::arithmetic::power2::lemma_pow2_pos(16 * gs.len());
    if gs.len() > 0 {
        assert(forall|i: int| 0 <= i < gs.len() - 1 ==> gs.drop_last()[i] == gs[i]);
        lemma_v6_fold_bound(gs.drop_last());
        vstd::arithmetic::power2::lemma_pow2_adds(16 * (gs.len() - 1) as nat, 16);
        vstd::arithmetic::power2::lemma2_to64();
    }
}

/// Reads the chunks `[lo, hi)` as groups; fails if any is not a group.
fn parse_groups(parts: &Vec<Vec<char>>, lo: usize, hi: usize) -> (r: Option<Vec<u16>>)
    requires
        lo <= hi <= parts@.len(),
    ensures
        r is Some <==> groups_all(views_of(parts@).subrange(lo as int, hi as int)),
        r matches Some(v) ==> v@.len() == hi - lo && nats_of(v@) == group_vals(
            views_of(parts@).subrange(lo as int, hi as int),
        ),
{
    let ghost ps = views_of(parts@);
    let mut out: Vec<u16> = Vec::new();
    let mut i: usize = lo;
    proof {
        assert(nats_of(out@) =~= group_vals(ps.subrange(lo as int, lo as int)));
    }
    while i < hi
        invariant
            lo <= i <= hi <= parts@.len(),
            ps == views_of(parts@),
            out@.len() == i - lo,
            groups_all(ps.subrange(lo as int, i as int)),
            nats_of(out@) == group_vals(ps.subrange(lo as int, i as int)),
        decreases hi - i,
    {
        let ghost prev = out@;
        match crate::text::parse_hex_group(&parts[i]) {
            Some(g) => {
                out.push(g);
                proof {
                    assert(ps[i as int] == parts@[i as int]@);
                    assert(groups_all(ps.subrange(lo as int, i + 1))) by {
                        assert(forall|m: int|
                            0 <= m < i + 1 - lo ==> ps.subrange(lo as int, i + 1)[m] == ps.subrange(
                                lo as int,
                                i as int,
                            ).push(ps[i as int])[m]);
                    }
                    assert(out@ == prev.push(g));
                    assert forall|m: int| 0 <= m < i + 1 - lo implies nats_of(out@)[m]
                        == group_vals(ps.subrange(lo as int, i + 1))[m] by {
                        assert(ps.subrange(lo as int, i + 1)[m] == ps[lo + m]);
                        if m < i - lo {
                            assert(nats_of(prev)[m] == group_vals(
                                ps.subrange(lo as int, i as int),
                            )[m]);
                            assert(ps.subrange(lo as int, i as int)[m] == ps[lo + m]);
                        }
                    }
                    assert(nats_of(out@) =~= group_vals(ps.subrange(lo as int, i + 1)));
                }
            },
            None => {
                proof {
                    assert(ps.subrange(lo as int, hi as int)[i - lo] == ps[i as int]);
                }
                return None;
            },
        }
        i += 1;
    }
    Some(out)
}

/// Folds exactly eight groups into the 128-bit address value.
fn fold_groups(gs: &Vec<u16>) -> (r: u128)
    requires
        gs@.len() == 8,
    ensures
        r as nat == v6_fold(nats_of(gs@)),
{
    let mut acc: u128 = 0;
    let mut i: usize = 0;
    proof {
        vstd::arithmetic::power2::lemma2_to64();
        vstd::arithmetic::power2::lemma2_to64_rest();
    }
    while i < 8
        invariant
            0 <= i <= 8,
            gs@.len() == 8,
            acc as nat == v6_fold(nats_of(gs@).take(i as int)),
            (acc as nat) < vstd::arithmetic::power2::pow2(16 * i as nat),
        decreases 8 - i,
    {
        proof {
            vstd::arithmetic::power2::lemma2_to64();
            vstd::arithmetic::power2::lemma2_to64_rest();
            vstd::arithmetic::power2::lemma_pow2_adds(16 * i as nat, 16);
            vstd::arithmetic::power2::lemma_pow2_adds(64, 64);
            if (i as nat) < 7 {
                vstd::arithmetic::power2::lemma_pow2_strictly_increases(16 * i as nat, 112);
            }
            vstd::arithmetic::power2::lemma_pow2_adds(112, 16);
            assert(nats_of(gs@).take(i + 1).drop_last() =~= nats_of(gs@).take(i as int));
            assert(nats_of(gs@).take(i + 1).last() == gs@[i as int] as nat);
        }
        acc = acc * 0x10000 + (gs[i] as u128);
        i += 1;
    }
    proof {
        assert(nats_of(gs@).take(8) =~= nats_of(gs@));
    }
    acc
}

/// Pads `heads` with zero groups, appends `tails`, and folds the eight
/// groups so obtained.
fn assemble_v6(heads: Vec<u16>, tails: Vec<u16>) -> (r: u128)
    requires
        heads@.len() + tails@.len() <= 7,
    ensures
        r as nat == v6_fold(
            nats_of(heads@) + zero_groups((8 - heads@.len() - tails@.len()) as nat) + nats_of(
                tails@,
            ),
        ),
{
    let ghost h0 = heads@;
    let ghost n0 = (8 - heads@.len() - tails@.len()) as nat;
    let mut gs = heads;
    let pad: usize = 8 - gs.len() - tails.len();
    let mut k: usize = 0;
    while k < pad
        invariant
            0 <= k <= pad,
            pad as nat == n0,
            gs@.len() == h0.len() + k,
            nats_of(gs@) == nats_of(h0) + zero_groups(k as nat),
        decreases pad - k,
    {
        let ghost prev = gs@;
        gs.push(0u16);
        proof {
            let ghost target = nats_of(h0) + zero_groups((k + 1) as nat);
            assert forall|m: int| 0 <= m < gs@.len() implies nats_of(gs@)[m] == target[m] by {
                assert(gs@ == prev.push(0u16));
                if m < prev.len() {
                    assert(nats_of(prev)[m] == (nats_of(h0) + zero_groups(k as nat))[m]);
                }
            }
            assert(nats_of(gs@) =~= target);
        }
        k += 1;
    }
    let mut j: usize = 0;
    while j < tails.len()
        invariant
            0 <= j <= tails@.len(),
            gs@.len() == h0.len() + n0 + j,
            nats_of(gs@) == nats_of(h0) + zero_groups(n0) + nats_of(tails@.take(j as int)),
        decreases tails@.len() - j,
    {
        let g = tails[j];
        let ghost prev = gs@;
        gs.push(g);
        proof {
            let ghost target = nats_of(h0) + zero_groups(n0) + nats_of(tails@.take(j + 1));
            assert forall|m: int| 0 <= m < gs@.len() implies nats_of(gs@)[m] == target[m] by {
                assert(gs@ == prev.push(g));
                assert(nats_of(tails@.take(j + 1))[j as int] == g as nat);
                if m < prev.len() {
                    assert(nats_of(prev)[m] == (nats_of(h0) + zero_groups(n0) + nats_of(
                        tails@.take(j as int),
                    ))[m]);
                    if m >= h0.len() + n0 {
                        assert(nats_of(tails@.take(j as int))[m - h0.len() - n0] == nats_of(
                            tails@.take(j + 1),
                        )[m - h0.len() - n0]);
                    }
                }
            }
            assert(nats_of(gs@) =~= target);
        }
        j += 1;
    }
    proof {
        assert(tails@.take(tails@.len() as int) =~= tails@);
        assert(gs@.len() == 8);
    }
    fold_groups(&gs)
}

/// An interior gap can only sit at the first empty chunk.
proof fn lemma_gap_at_first_empty(ps: Seq<Seq<char>>, e: int, i: int)
    requires
        0 <= e < ps.len(),
        ps[e].len() == 0,
        forall|j: int| 0 <= j < e ==> #[trigger] ps[j].len() > 0,
        interior_gap(ps, i),
    ensures
        i == e,
{
    if i < e {
        assert(ps[i].len() > 0);
    } else if i > e {
        assert(ps.take(i)[e] == ps[e]);
        assert(is_group(ps.take(i)[e]));
    }
}

/// Reads a whole IPv6 address text.
pub fn scan_ipv6(s: &Vec<char>) -> (r: Option<u128>)
    ensures
        match r {
            Some(v) => parse_v6(s@) == Some(v as nat),
            None => parse_v6(s@) is None,
        },
{
    let parts = split_chars(s, ':');
    let l = parts.len();
    let ghost ps = views_of(parts@);
    // find the first empty chunk, if any
    let mut e: usize = 0;
    while e < l
        invariant
            0 <= e <= l,
            l == parts@.len(),
            ps == views_of(parts@),
            forall|j: int| 0 <= j < e ==> #[trigger] ps[j].len() > 0,
        ensures
            0 <= e <= l,
            l == parts@.len(),
            ps == views_of(parts@),
            forall|j: int| 0 <= j < e ==> #[trigger] ps[j].len() > 0,
            e < l ==> ps[e as int].len() == 0,
        decreases l - e,
    {
        if parts[e].len() == 0 {
            break;
        }
        e += 1;
    }
    proof {
        assert(forall|i: int| interior_gap(ps, i) ==> ps[i].len() == 0);
    }
    if e == l {
        // no empty chunk: only the eight-group form can apply
        if l != 8 {
            return None;
        }
        match parse_groups(&parts, 0, 8) {
            Some(v8) => {
                proof {
                    assert(ps.subrange(0, 8) =~= ps);
                }
                Some(fold_groups(&v8))
            },
            None => {
                proof {
                    assert(ps.subrange(0, 8) =~= ps);
                }
                None
            },
        }
    } else if e == 0 {
        // leading empty chunk: `::` forms only
        if l < 3 || parts[1].len() > 0 {
            proof {
                if l >= 3 {
                    assert(ps.take(l - 2)[0] == ps[0]);
                }
                assert forall|i: int| !interior_gap(ps, i) by {
                    if interior_gap(ps, i) {
                        assert(ps.take(i)[0] == ps[0]);
                        assert(is_group(ps.take(i)[0]));
                    }
                }
            }
            return None;
        }
        if l == 3 && parts[2].len() == 0 {
            return Some(0);
        }
        // `::g:...:g`
        match parse_groups(&parts, 2, l) {
            Some(tails) => {
                if l - 2 > 7 {
                    proof {
                        assert(ps.take(l - 2)[0] == ps[0]);
                        assert forall|i: int| !interior_gap(ps, i) by {
                            if interior_gap(ps, i) {
                                assert(ps.take(i)[0] == ps[0]);
                                assert(is_group(ps.take(i)[0]));
                            }
                        }
                    }
                    return None;
                }
                proof {
                    assert(ps.skip(2) =~= ps.subrange(2, l as int));
                    assert(group_vals(Seq::<Seq<char>>::empty()) =~= nats_of(
                        Seq::<u16>::empty(),
                    ));
                    assert(!is_group(ps[0]));
                }
                let r = assemble_v6(Vec::new(), tails);
                proof {
                    assert(ps.subrange(2, l as int)[0] == ps[2]);
                    assert(parse_v6(s@) == Some(v6_join(Seq::<Seq<char>>::empty(), ps.skip(2))));
                }
                Some(r)
            },
            None => {
                proof {
                    assert(ps.skip(2) =~= ps.subrange(2, l as int));
                    if l >= 3 {
                        assert(ps.take(l - 2)[0] == ps[0]);
                    }
                    assert forall|i: int| !interior_gap(ps, i) by {
                        if interior_gap(ps, i) {
                            assert(ps.take(i)[0] == ps[0]);
                            assert(is_group(ps.take(i)[0]));
                        }
                    }
                }
                None
            },
        }
    } else if e == l - 1 {
        // first empty chunk is the last chunk: no form fits
        proof {
            assert(!is_group(ps[e as int]));
            assert(l >= 2);
            assert(ps[l - 2].len() > 0);
            assert forall|i: int| !interior_gap(ps, i) by {
                if interior_gap(ps, i) {
                    lemma_gap_at_first_empty(ps, e as int, i);
                }
            }
        }
        None
    } else if parts[e + 1].len() == 0 {
        // two adjacent empty chunks: must be a trailing `::`
        if e + 1 != l - 1 {
            proof {
                assert(!is_group(ps[e as int]));
                assert(ps.take(l - 2)[e as int] == ps[e as int]);
                assert forall|i: int| !interior_gap(ps, i) by {
                    if interior_gap(ps, i) {
                        lemma_gap_at_first_empty(ps, e as int, i);
                        assert(ps.skip(i + 1)[0] == ps[e + 1]);
                        assert(is_group(ps.skip(i + 1)[0]));
                    }
                }
            }
            return None;
        }
        match parse_groups(&parts, 0, e) {
            Some(heads) => {
                if e > 7 {
                    proof {
                        assert(!is_group(ps[e as int]));
                        assert forall|i: int| !interior_gap(ps, i) by {
                            if interior_gap(ps, i) {
                                lemma_gap_at_first_empty(ps, e as int, i);
                            }
                        }
                    }
                    return None;
                }
                proof {
                    assert(ps.take(e as int) =~= ps.subrange(0, e as int));
                    assert(group_vals(Seq::<Seq<char>>::empty()) =~= nats_of(
                        Seq::<u16>::empty(),
                    ));
                    assert(!is_group(ps[e as int]));
                    assert(parse_v6(s@) == Some(v6_join(ps.take(l - 2), Seq::<Seq<char>>::empty())));
                }
                let r = assemble_v6(heads, Vec::new());
                Some(r)
            },
            None => {
                proof {
                    assert(ps.take(l - 2) =~= ps.subrange(0, e as int));
                    assert(!is_group(ps[e as int]));
                    assert forall|i: int| !interior_gap(ps, i) by {
                        if interior_gap(ps, i) {
                            lemma_gap_at_first_empty(ps, e as int, i);
                        }
                    }
                }
                None
            },
        }
    } else {
        // a single interior `::` with groups on both sides
        let heads = match parse_groups(&parts, 0, e) {
            Some(v) => v,
            None => {
                proof {
                    assert(ps.take(e as int) =~= ps.subrange(0, e as int));
                    assert(!is_group(ps[e as int]));
                    if e < l - 2 {
                        assert(ps.take(l - 2)[e as int] == ps[e as int]);
                    } else {
                        assert(ps[l - 1].len() > 0);
                    }
                    assert forall|i: int| !interior_gap(ps, i) by {
                        if interior_gap(ps, i) {
                            lemma_gap_at_first_empty(ps, e as int, i);
                        }
                    }
                }
                return None;
            },
        };
        let tails = match parse_groups(&parts, e + 1, l) {
            Some(v) => v,
            None => {
                proof {
                    assert(ps.skip(e + 1) =~= ps.subrange(e + 1, l as int));
                    assert(!is_group(ps[e as int]));
                    if e < l - 2 {
                        assert(ps.take(l - 2)[e as int] == ps[e as int]);
                    } else {
                        assert(ps[l - 1].len() > 0);
                    }
                    assert forall|i: int| !interior_gap(ps, i) by {
                        if interior_gap(ps, i) {
                            lemma_gap_at_first_empty(ps, e as int, i);
                        }
                    }
                }
                return None;
            },
        };
        if l > 8 {
            proof {
                assert(!is_group(ps[e as int]));
                if e < l - 2 {
                    assert(ps.take(l - 2)[e as int] == ps[e as int]);
                } else {
                    assert(ps[l - 1].len() > 0);
                }
                assert forall|i: int| !interior_gap(ps, i) by {
                    if interior_gap(ps, i) {
                        assert(ps.len() <= 8);
                    }
                }
            }
            return None;
        }
        proof {
            assert(ps.take(e as int) =~= ps.subrange(0, e as int));
            assert(ps.skip(e + 1) =~= ps.subrange(e + 1, l as int));
            assert(!is_group(ps[e as int]));
            if e < l - 2 {
                assert(ps.take(l - 2)[e as int] == ps[e as int]);
            } else {
                assert(ps[l - 1].len() > 0);
            }
            assert(interior_gap(ps, e as int));
            assert forall|i: int| interior_gap(ps, i) implies i == e as int by {
                lemma_gap_at_first_empty(ps, e as int, i);
            }
            assert(parse_v6(s@) == Some(v6_join(ps.take(e as int), ps.skip(e + 1))));
        }
        let r = assemble_v6(heads, tails);
        Some(r)
    }
}

} // verus!
