//! Membership of IP addresses in CIDR networks.
//!
//! The library parses dotted-decimal IPv4 and colon-hex IPv6 text, parses
//! CIDR network text of the form `address/prefix-length`, and decides
//! containment by masking both the network's base address and the candidate
//! address to the prefix length and comparing.  Malformed network text is an
//! error; malformed (or other-family) candidate text simply never matches.

pub mod addr;
pub mod net;
pub mod text;

use vstd::prelude::*;

verus! {

use crate::net::{subnet_check, net_of_text, iface_matches, parse_net, match_iface};
use crate::text::chars_of;

/// The single error kind: a network (CIDR) text failed to parse.
#[derive(Clone, Copy, Debug, PartialEq, Eq, Structural)]
pub struct NetworkParseError;

/// The views of a sequence of string slices.
pub open spec fn texts_of(ss: Seq<&str>) -> Seq<Seq<char>> {
    ss.map_values(|t: &str| t@)
}

/// Outcome over a list of networks, any-of: the first matching network
/// answers true; a malformed network text reached before a match is an
/// error; an exhausted list answers false.
pub open spec fn any_check(iface: Seq<char>, subnets: Seq<Seq<char>>) -> Option<bool>
    decreases subnets.len(),
{
    if subnets.len() == 0 {
        Some(false)
    } else {
        match subnet_check(iface, subnets[0]) {
            None => None,
            Some(true) => Some(true),
            Some(false) => any_check(iface, subnets.drop_first()),
        }
    }
}

/// Outcome over a list of networks, all-of: the first non-matching
/// network answers false; a malformed network text reached before that
/// is an error; an exhausted list answers true.
pub open spec fn all_check(iface: Seq<char>, subnets: Seq<Seq<char>>) -> Option<bool>
    decreases subnets.len(),
{
    if subnets.len() == 0 {
        Some(true)
    } else {
        match subnet_check(iface, subnets[0]) {
            None => None,
            Some(false) => Some(false),
            Some(true) => all_check(iface, subnets.drop_first()),
        }
    }
}

/// Outcome over both lists, network-major: the first network that some
/// candidate matches answers true; a malformed network text reached
/// before that is an error; an exhausted list answers false.
pub open spec fn cross_check(ifaces: Seq<Seq<char>>, subnets: Seq<Seq<char>>) -> Option<bool>
    decreases subnets.len(),
{
    if subnets.len() == 0 {
        Some(false)
    } else {
        match net_of_text(subnets[0]) {
            None => None,
            Some(net) => if exists|k: int|
                0 <= k < ifaces.len() && iface_matches(#[trigger] ifaces[k], net) {
                Some(true)
            } else {
                cross_check(ifaces, subnets.drop_first())
            },
        }
    }
}

/// Over an empty list, the any-of check answers false for every
/// candidate.
pub proof fn lemma_any_check_empty(iface: Seq<char>)
    ensures
        any_check(iface, Seq::empty()) == Some(false),
{
}

/// Over an empty list, the all-of check vacuously answers true for
/// every candidate.
pub proof fn lemma_all_check_empty(iface: Seq<char>)
    ensures
        all_check(iface, Seq::empty()) == Some(true),
{
}

/// The any-of walk fails exactly when a malformed network text stands
/// in the list before any network that matches the candidate.
#[verifier::rlimit(60)]
pub proof fn lemma_any_check_err(iface: Seq<char>, subnets: Seq<Seq<char>>)
    ensures
        any_check(iface, subnets) is None <==> exists|i: int|
            0 <= i < subnets.len() && net_of_text(#[trigger] subnets[i]) is None && (forall|
                j: int,
            |
                0 <= j < i ==> subnet_check(iface, #[trigger] subnets[j]) == Some(false)),
    decreases subnets.len(),
{
    if subnets.len() > 0 {
        let tail = subnets.drop_first();
        lemma_any_check_err(iface, tail);
        assert(forall|m: int| 0 <= m < tail.len() ==> tail[m] == subnets[m + 1]);
        match subnet_check(iface, subnets[0]) {
            None => {
                assert(net_of_text(subnets[0]) is None);
            },
            Some(true) => {
            },
            Some(false) => {
                if any_check(iface, subnets) is None {
                    let i = choose|i: int|
                        0 <= i < tail.len() && net_of_text(#[trigger] tail[i]) is None && (forall|
                            j: int,
                        |
                            0 <= j < i ==> subnet_check(iface, #[trigger] tail[j]) == Some(false));
                    assert(net_of_text(subnets[i + 1]) is None);
                    assert forall|j: int| 0 <= j < i + 1 implies subnet_check(
                        iface,
                        #[trigger] subnets[j],
                    ) == Some(false) by {
                        if j >= 1 {
                            assert(tail[j - 1] == subnets[j]);
                            assert(subnet_check(iface, tail[j - 1]) == Some(false));
                        }
                    }
                } else {
                    if exists|i: int|
                        0 <= i < subnets.len() && net_of_text(#[trigger] subnets[i]) is None && (
                        forall|j: int|
                            0 <= j < i ==> subnet_check(iface, #[trigger] subnets[j]) == Some(
                                false,
                            )) {
                        let i = choose|i: int|
                            0 <= i < subnets.len() && net_of_text(#[trigger] subnets[i]) is None
                                && (forall|j: int|
                                0 <= j < i ==> subnet_check(iface, #[trigger] subnets[j]) == Some(
                                    false,
                                ));
                        assert(i >= 1);
                        assert(net_of_text(tail[i - 1]) is None);
                        assert(forall|j: int|
                            0 <= j < i - 1 ==> subnet_check(iface, #[trigger] tail[j]) == Some(
                                false,
                            ));
                        assert(false);
                    }
                }
            },
        }
    }
}

/// The all-of walk fails exactly when a malformed network text stands
/// in the list before any network that rules the candidate out.
#[verifier::rlimit(60)]
pub proof fn lemma_all_check_err(iface: Seq<char>, subnets: Seq<Seq<char>>)
    ensures
        all_check(iface, subnets) is None <==> exists|i: int|
            0 <= i < subnets.len() && net_of_text(#[trigger] subnets[i]) is None && (forall|
                j: int,
            |
                0 <= j < i ==> subnet_check(iface, #[trigger] subnets[j]) == Some(true)),
    decreases subnets.len(),
{
    if subnets.len() > 0 {
        let tail = subnets.drop_first();
        lemma_all_check_err(iface, tail);
        assert(forall|m: int| 0 <= m < tail.len() ==> tail[m] == subnets[m + 1]);
        match subnet_check(iface, subnets[0]) {
            None => {
                assert(net_of_text(subnets[0]) is None);
            },
            Some(false) => {
            },
            Some(true) => {
                if all_check(iface, subnets) is None {
                    let i = choose|i: int|
                        0 <= i < tail.len() && net_of_text(#[trigger] tail[i]) is None && (forall|
                            j: int,
                        |
                            0 <= j < i ==> subnet_check(iface, #[trigger] tail[j]) == Some(true));
                    assert(net_of_text(subnets[i + 1]) is None);
                    assert forall|j: int| 0 <= j < i + 1 implies subnet_check(
                        iface,
                        #[trigger] subnets[j],
                    ) == Some(true) by {
                        if j >= 1 {
                            assert(tail[j - 1] == subnets[j]);
                            assert(subnet_check(iface, tail[j - 1]) == Some(true));
                        }
                    }
                } else {
                    if exists|i: int|
                        0 <= i < subnets.len() && net_of_text(#[trigger] subnets[i]) is None && (
                        forall|j: int|
                            0 <= j < i ==> subnet_check(iface, #[trigger] subnets[j]) == Some(
                                true,
                            )) {
                        let i = choose|i: int|
                            0 <= i < subnets.len() && net_of_text(#[trigger] subnets[i]) is None
                                && (forall|j: int|
                                0 <= j < i ==> subnet_check(iface, #[trigger] subnets[j]) == Some(
                                    true,
                                ));
                        assert(i >= 1);
                        assert(net_of_text(tail[i - 1]) is None);
                        assert(forall|j: int|
                            0 <= j < i - 1 ==> subnet_check(iface, #[trigger] tail[j]) == Some(
                                true,
                            ));
                        assert(false);
                    }
                }
            },
        }
    }
}

/// Whether some candidate of the list matches the network.
pub open spec fn some_iface_matches(ifaces: Seq<Seq<char>>, net: crate::net::IpNet) -> bool {
    exists|k: int| 0 <= k < ifaces.len() && iface_matches(#[trigger] ifaces[k], net)
}

/// The cross walk fails exactly when a malformed network text stands in
/// the list before any network that some candidate matches.
#[verifier::rlimit(60)]
pub proof fn lemma_cross_check_err(ifaces: Seq<Seq<char>>, subnets: Seq<Seq<char>>)
    ensures
        cross_check(ifaces, subnets) is None <==> exists|i: int|
            0 <= i < subnets.len() && net_of_text(#[trigger] subnets[i]) is None && (forall|
                j: int,
            |
                0 <= j < i ==> net_of_text(#[trigger] subnets[j]) is Some && !some_iface_matches(
                    ifaces,
                    net_of_text(subnets[j])->Some_0,
                )),
    decreases subnets.len(),
{
    if subnets.len() > 0 {
        let tail = subnets.drop_first();
        lemma_cross_check_err(ifaces, tail);
        assert(forall|m: int| 0 <= m < tail.len() ==> tail[m] == subnets[m + 1]);
        match net_of_text(subnets[0]) {
            None => {
                assert(net_of_text(subnets[0]) is None);
            },
            Some(net) => {
                if some_iface_matches(ifaces, net) {
                } else {
                    if cross_check(ifaces, subnets) is None {
                        let i = choose|i: int|
                            0 <= i < tail.len() && net_of_text(#[trigger] tail[i]) is None && (
                            forall|j: int|
                                0 <= j < i ==> net_of_text(#[trigger] tail[j]) is Some
                                    && !some_iface_matches(
                                    ifaces,
                                    net_of_text(tail[j])->Some_0,
                                ));
                        assert(net_of_text(subnets[i + 1]) is None);
                        assert forall|j: int| 0 <= j < i + 1 implies net_of_text(
                            #[trigger] subnets[j],
                        ) is Some && !some_iface_matches(
                            ifaces,
                            net_of_text(subnets[j])->Some_0,
                        ) by {
                            if j >= 1 {
                                assert(tail[j - 1] == subnets[j]);
                                assert(net_of_text(tail[j - 1]) is Some && !some_iface_matches(
                                    ifaces,
                                    net_of_text(tail[j - 1])->Some_0,
                                ));
                            }
                        }
                    } else {
                        if exists|i: int|
                            0 <= i < subnets.len() && net_of_text(#[trigger] subnets[i]) is None
                                && (forall|j: int|
                                0 <= j < i ==> net_of_text(#[trigger] subnets[j]) is Some
                                    && !some_iface_matches(
                                    ifaces,
                                    net_of_text(subnets[j])->Some_0,
                                )) {
                            let i = choose|i: int|
                                0 <= i < subnets.len() && net_of_text(
                                    #[trigger] subnets[i],
                                ) is None && (forall|j: int|
                                    0 <= j < i ==> net_of_text(#[trigger] subnets[j]) is Some
                                        && !some_iface_matches(
                                        ifaces,
                                        net_of_text(subnets[j])->Some_0,
                                    ));
                            assert(i >= 1);
                            assert(net_of_text(tail[i - 1]) is None);
                            assert(forall|j: int|
                                0 <= j < i - 1 ==> net_of_text(#[trigger] tail[j]) is Some
                                    && !some_iface_matches(
                                    ifaces,
                                    net_of_text(tail[j])->Some_0,
                                ));
                            assert(false);
                        }
                    }
                }
            },
        }
    }
}

/// Check that a subnet contains an interface.
///
/// The network text must be a well-formed CIDR of either family, else
/// the call fails.  The interface text matches when it parses in the
/// network's family and agrees with the base address on the prefix.
pub fn iface_in_subnet(iface: &str, subnet: &str) -> (res: Result<bool, NetworkParseError>)
    ensures
        match subnet_check(iface@, subnet@) {
            Some(b) => res == Ok::<bool, NetworkParseError>(b),
            None => res == Err::<bool, NetworkParseError>(NetworkParseError),
        },
{
    let sv = chars_of(subnet);
    match parse_net(&sv) {
        Some(net) => {
            let iv = chars_of(iface);
            Ok(match_iface(&iv, &net))
        },
        None => Err(NetworkParseError),
    }
}

/// Check that any subnet of the list contains the interface.
pub fn iface_in_any_subnet(iface: &str, subnets: &[&str]) -> (res: Result<
    bool,
    NetworkParseError,
>)
    ensures
        match any_check(iface@, texts_of(subnets@)) {
            Some(b) => res == Ok::<bool, NetworkParseError>(b),
            None => res == Err::<bool, NetworkParseError>(NetworkParseError),
        },
{
    let ghost all = texts_of(subnets@);
    let iv = chars_of(iface);
    proof {
        assert(all.skip(0) =~= all);
    }
    let mut i: usize = 0;
    while i < subnets.len()
        invariant
            0 <= i <= subnets@.len(),
            all == texts_of(subnets@),
            any_check(iv@, all) == any_check(iv@, all.skip(i as int)),
            iv@ == iface@,
        decreases subnets@.len() - i,
    {
        let st: &&str = vstd::slice::slice_index_get(subnets, i);
        let sv = chars_of(*st);
        proof {
            assert(all.skip(i as int)[0] == sv@);
            assert(all.skip(i as int).drop_first() =~= all.skip(i + 1));
        }
        match parse_net(&sv) {
            Some(net) => {
                if match_iface(&iv, &net) {
                    return Ok(true);
                }
            },
            None => {
                return Err(NetworkParseError);
            },
        }
        i += 1;
    }
    proof {
        assert(all.skip(subnets@.len() as int).len() == 0);
    }
    Ok(false)
}

/// Check that all subnets of the list contain the interface.
pub fn iface_in_all_subnets(iface: &str, subnets: &[&str]) -> (res: Result<
    bool,
    NetworkParseError,
>)
    ensures
        match all_check(iface@, texts_of(subnets@)) {
            Some(b) => res == Ok::<bool, NetworkParseError>(b),
            None => res == Err::<bool, NetworkParseError>(NetworkParseError),
        },
{
    let ghost all = texts_of(subnets@);
    let iv = chars_of(iface);
    proof {
        assert(all.skip(0) =~= all);
    }
    let mut i: usize = 0;
    while i < subnets.len()
        invariant
            0 <= i <= subnets@.len(),
            all == texts_of(subnets@),
            all_check(iv@, all) == all_check(iv@, all.skip(i as int)),
            iv@ == iface@,
        decreases subnets@.len() - i,
    {
        let st: &&str = vstd::slice::slice_index_get(subnets, i);
        let sv = chars_of(*st);
        proof {
            assert(all.skip(i as int)[0] == sv@);
            assert(all.skip(i as int).drop_first() =~= all.skip(i + 1));
        }
        match parse_net(&sv) {
            Some(net) => {
                if !match_iface(&iv, &net) {
                    return Ok(false);
                }
            },
            None => {
                return Err(NetworkParseError);
            },
        }
        i += 1;
    }
    proof {
        assert(all.skip(subnets@.len() as int).len() == 0);
    }
    Ok(true)
}

/// Check that any subnet of the list contains any interface of the
/// list, trying each network against every interface before moving on.
pub fn any_iface_in_any_subnet(ifaces: &[&str], subnets: &[&str]) -> (res: Result<
    bool,
    NetworkParseError,
>)
    ensures
        match cross_check(texts_of(ifaces@), texts_of(subnets@)) {
            Some(b) => res == Ok::<bool, NetworkParseError>(b),
            None => res == Err::<bool, NetworkParseError>(NetworkParseError),
        },
{
    let ghost all = texts_of(subnets@);
    let ghost cands = texts_of(ifaces@);
    proof {
        assert(all.skip(0) =~= all);
    }
    let mut i: usize = 0;
    while i < subnets.len()
        invariant
            0 <= i <= subnets@.len(),
            all == texts_of(subnets@),
            cands == texts_of(ifaces@),
            cross_check(cands, all) == cross_check(cands, all.skip(i as int)),
        decreases subnets@.len() - i,
    {
        let st: &&str = vstd::slice::slice_index_get(subnets, i);
        let sv = chars_of(*st);
        proof {
            assert(all.skip(i as int)[0] == sv@);
            assert(all.skip(i as int).drop_first() =~= all.skip(i + 1));
        }
        match parse_net(&sv) {
            Some(net) => {
                let mut k: usize = 0;
                while k < ifaces.len()
                    invariant
                        0 <= k <= ifaces@.len(),
                        0 <= i < subnets@.len(),
                        all == texts_of(subnets@),
                        cands == texts_of(ifaces@),
                        net.wf(),
                        net_of_text(sv@) == Some(net.model()),
                        all.skip(i as int)[0] == sv@,
                        cross_check(cands, all) == cross_check(cands, all.skip(i as int)),
                        forall|m: int|
                            0 <= m < k ==> !iface_matches(#[trigger] cands[m], net.model()),
                    decreases ifaces@.len() - k,
                {
                    let cand: &&str = vstd::slice::slice_index_get(ifaces, k);
                    let iv = chars_of(*cand);
                    proof {
                        assert(cands[k as int] == iv@);
                    }
                    if match_iface(&iv, &net) {
                        proof {
                            assert(iface_matches(cands[k as int], net.model()));
                            assert(net_of_text(all.skip(i as int)[0]) == Some(net.model()));
                            assert(cross_check(cands, all.skip(i as int)) == Some(true));
                        }
                        return Ok(true);
                    }
                    k += 1;
                }
            },
            None => {
                return Err(NetworkParseError);
            },
        }
        i += 1;
    }
    proof {
        assert(all.skip(subnets@.len() as int).len() == 0);
    }
    Ok(false)
}

} // verus!
