//! CIDR network text, and containment of an address in a network.
//!
//! A network text is `<address>/<prefix-length>`.  Containment masks the
//! network's base address and the candidate address down to the prefix
//! length — keeping that many leading bits — and compares.  A candidate
//! of the other family, or one that does not parse, never matches.

use vstd::prelude::*;

verus! {

use vstd::arithmetic::power2::pow2;
use crate::text::{
    all_dec_digits, dec_val, split_on, views_of, split_chars, parse_dec_bounded,
    lemma_split_on_no_sep, lemma_split_on_member,
};
use crate::addr::{
    is_ipv4_text, ipv4_value, is_octet, scan_ipv4,
    is_ipv6_text, ipv6_value, interior_gap, groups_all, scan_ipv6,
};

/// A parsed network: family, base address value, and prefix length.
pub enum IpNet {
    V4 { addr: nat, prefix: nat },
    V6 { addr: nat, prefix: nat },
}

/// A valid prefix-length text: a decimal numeral not over the width.
pub open spec fn is_prefix_text(p: Seq<char>, width: nat) -> bool {
    p.len() >= 1 && all_dec_digits(p) && dec_val(p) <= width
}

/// The network a CIDR text denotes, if it is well formed: an address of
/// either family, a slash, and an in-range prefix length.
pub open spec fn net_of_text(s: Seq<char>) -> Option<IpNet> {
    let ps = split_on(s, '/');
    if ps.len() == 2 {
        if is_ipv4_text(ps[0]) && is_prefix_text(ps[1], 32) {
            Some(IpNet::V4 { addr: ipv4_value(ps[0]), prefix: dec_val(ps[1]) })
        } else if is_ipv6_text(ps[0]) && is_prefix_text(ps[1], 128) {
            Some(IpNet::V6 { addr: ipv6_value(ps[0]), prefix: dec_val(ps[1]) })
        } else {
            None
        }
    } else {
        None
    }
}

/// The leading `prefix` bits of a `width`-bit address, as an integer.
pub open spec fn masked(addr: nat, prefix: nat, width: nat) -> nat
    recommends
        prefix <= width,
{
    addr / pow2((width - prefix) as nat)
}

/// Whether the candidate text names an address inside the network: it
/// must parse in the network's family, and agree with the base address
/// on the first `prefix` bits.
pub open spec fn iface_matches(iface: Seq<char>, net: IpNet) -> bool {
    match net {
        IpNet::V4 { addr, prefix } => is_ipv4_text(iface) && masked(ipv4_value(iface), prefix, 32)
            == masked(addr, prefix, 32),
        IpNet::V6 { addr, prefix } => is_ipv6_text(iface) && masked(ipv6_value(iface), prefix, 128)
            == masked(addr, prefix, 128),
    }
}

/// The outcome of one containment test: `None` when the network text is
/// malformed, otherwise the boolean answer.
pub open spec fn subnet_check(iface: Seq<char>, subnet: Seq<char>) -> Option<bool> {
    match net_of_text(subnet) {
        Some(net) => Some(iface_matches(iface, net)),
        None => None,
    }
}

/// No text is both an IPv4 address and an IPv6 address: a well-formed
/// IPv6 text contains a colon, and an IPv4 text is made of digits and
/// dots only.
pub proof fn lemma_families_disjoint(s: Seq<char>)
    ensures
        !(is_ipv4_text(s) && is_ipv6_text(s)),
{
    if is_ipv4_text(s) && is_ipv6_text(s) {
        // the v6 form splits on ':' into at least two chunks,
        // so s holds a ':' somewhere
        assert(split_on(s, ':').len() >= 2);
        assert(!(forall|p: int| 0 <= p < s.len() ==> s[p] != ':')) by {
            if forall|p: int| 0 <= p < s.len() ==> s[p] != ':' {
                lemma_split_on_no_sep(s, ':');
            }
        }
        let p = choose|p: int| 0 <= p < s.len() && s[p] == ':';
        // that ':' lands in one of the four octet chunks of the v4 form
        lemma_split_on_member(s, '.', p);
        let ps = split_on(s, '.');
        let i = choose|i: int| 0 <= i < ps.len() && #[trigger] ps[i].contains(s[p]);
        assert(is_octet(ps[i]));
        let j = choose|j: int| 0 <= j < ps[i].len() && ps[i][j] == s[p];
        assert(crate::text::is_dec_digit(ps[i][j]));
        assert(false);
    }
}

/// The prefix length a parsed network carries.
pub open spec fn net_prefix(net: IpNet) -> nat {
    match net {
        IpNet::V4 { addr, prefix } => prefix,
        IpNet::V6 { addr, prefix } => prefix,
    }
}

/// The base-address value a parsed network carries.
pub open spec fn net_addr(net: IpNet) -> nat {
    match net {
        IpNet::V4 { addr, prefix } => addr,
        IpNet::V6 { addr, prefix } => addr,
    }
}

/// The bit width of a parsed network's family.
pub open spec fn net_width(net: IpNet) -> nat {
    match net {
        IpNet::V4 { addr, prefix } => 32,
        IpNet::V6 { addr, prefix } => 128,
    }
}

/// Whether a candidate text is a well-formed address of the network's
/// own family.
pub open spec fn same_family(iface: Seq<char>, net: IpNet) -> bool {
    match net {
        IpNet::V4 { addr, prefix } => is_ipv4_text(iface),
        IpNet::V6 { addr, prefix } => is_ipv6_text(iface),
    }
}

/// The candidate's address value, read in the network's family.
pub open spec fn iface_value(iface: Seq<char>, net: IpNet) -> nat
    recommends
        same_family(iface, net),
{
    match net {
        IpNet::V4 { addr, prefix } => ipv4_value(iface),
        IpNet::V6 { addr, prefix } => ipv6_value(iface),
    }
}

/// An IPv4 text's value fits in 32 bits.
pub proof fn lemma_ipv4_value_bound(s: Seq<char>)
    requires
        is_ipv4_text(s),
    ensures
        ipv4_value(s) < 0x100000000,
{
}

/// A padded group sequence folds to less than `2^128`.
proof fn lemma_v6_join_bound(heads: Seq<Seq<char>>, tails: Seq<Seq<char>>)
    requires
        crate::addr::groups_all(heads),
        crate::addr::groups_all(tails),
        heads.len() + tails.len() <= 7,
    ensures
        crate::addr::v6_join(heads, tails) < pow2(128),
{
    let gs = crate::addr::group_vals(heads) + crate::addr::zero_groups(
        (8 - heads.len() - tails.len()) as nat,
    ) + crate::addr::group_vals(tails);
    assert forall|i: int| 0 <= i < gs.len() implies gs[i] < 0x10000 by {
        vstd::arithmetic::power2::lemma2_to64();
        if i < heads.len() {
            assert(gs[i] == crate::text::hex_val(heads[i]));
            crate::text::lemma_hex_val_bound(heads[i]);
            if heads[i].len() < 4 {
                vstd::arithmetic::power2::lemma_pow2_strictly_increases(4 * heads[i].len(), 16);
            }
        } else if i >= gs.len() - tails.len() {
            let m = i - (gs.len() - tails.len());
            assert(gs[i] == crate::text::hex_val(tails[m]));
            crate::text::lemma_hex_val_bound(tails[m]);
            if tails[m].len() < 4 {
                vstd::arithmetic::power2::lemma_pow2_strictly_increases(4 * tails[m].len(), 16);
            }
        } else {
            assert(gs[i] == 0);
        }
    }
    crate::addr::lemma_v6_fold_bound(gs);
    assert(gs.len() == 8);
}

/// An IPv6 text's value fits in 128 bits.
pub proof fn lemma_ipv6_value_bound(s: Seq<char>)
    requires
        is_ipv6_text(s),
    ensures
        ipv6_value(s) < pow2(128),
{
    vstd::arithmetic::power2::lemma_pow2_pos(128);
    let ps = split_on(s, ':');
    let l = ps.len() as int;
    if l == 8 && groups_all(ps) {
        assert forall|i: int| 0 <= i < crate::addr::group_vals(ps).len() implies crate::addr::group_vals(
            ps,
        )[i] < 0x10000 by {
            vstd::arithmetic::power2::lemma2_to64();
            crate::text::lemma_hex_val_bound(ps[i]);
            if ps[i].len() < 4 {
                vstd::arithmetic::power2::lemma_pow2_strictly_increases(4 * ps[i].len(), 16);
            }
        }
        crate::addr::lemma_v6_fold_bound(crate::addr::group_vals(ps));
    } else if l == 3 && ps[0].len() == 0 && ps[1].len() == 0 && ps[2].len() == 0 {
    } else if l >= 3 && ps[0].len() == 0 && ps[1].len() == 0 && groups_all(ps.skip(2)) && l - 2
        <= 7 {
        lemma_v6_join_bound(Seq::empty(), ps.skip(2));
    } else if l >= 3 && ps[l - 1].len() == 0 && ps[l - 2].len() == 0 && groups_all(ps.take(l - 2))
        && l - 2 <= 7 {
        lemma_v6_join_bound(ps.take(l - 2), Seq::empty());
    } else {
        let i = choose|i: int| interior_gap(ps, i);
        lemma_v6_join_bound(ps.take(i), ps.skip(i + 1));
    }
}

/// A prefix length of zero contains every well-formed address of the
/// network's family.
pub proof fn lemma_prefix_zero(iface: Seq<char>, subnet: Seq<char>)
    requires
        net_of_text(subnet) is Some,
        net_prefix(net_of_text(subnet)->Some_0) == 0,
        same_family(iface, net_of_text(subnet)->Some_0),
    ensures
        subnet_check(iface, subnet) == Some(true),
{
    let net = net_of_text(subnet)->Some_0;
    let ps = split_on(subnet, '/');
    vstd::arithmetic::power2::lemma2_to64();
    vstd::arithmetic::power2::lemma2_to64_rest();
    vstd::arithmetic::power2::lemma_pow2_adds(64, 64);
    match net {
        IpNet::V4 { addr, prefix } => {
            lemma_ipv4_value_bound(iface);
            lemma_ipv4_value_bound(ps[0]);
            vstd::arithmetic::div_mod::lemma_basic_div(
                ipv4_value(iface) as int,
                pow2(32) as int,
            );
            vstd::arithmetic::div_mod::lemma_basic_div(addr as int, pow2(32) as int);
        },
        IpNet::V6 { addr, prefix } => {
            lemma_ipv6_value_bound(iface);
            lemma_ipv6_value_bound(ps[0]);
            vstd::arithmetic::div_mod::lemma_basic_div(
                ipv6_value(iface) as int,
                pow2(128) as int,
            );
            vstd::arithmetic::div_mod::lemma_basic_div(addr as int, pow2(128) as int);
        },
    }
}

/// A full-width prefix contains exactly its own base address.
pub proof fn lemma_prefix_full(iface: Seq<char>, subnet: Seq<char>)
    requires
        net_of_text(subnet) is Some,
        net_prefix(net_of_text(subnet)->Some_0) == net_width(net_of_text(subnet)->Some_0),
        same_family(iface, net_of_text(subnet)->Some_0),
    ensures
        subnet_check(iface, subnet) == Some(
            iface_value(iface, net_of_text(subnet)->Some_0) == net_addr(
                net_of_text(subnet)->Some_0,
            ),
        ),
{
    let net = net_of_text(subnet)->Some_0;
    vstd::arithmetic::power2::lemma2_to64();
    match net {
        IpNet::V4 { addr, prefix } => {
            vstd::arithmetic::div_mod::lemma_div_basics(ipv4_value(iface) as int);
            vstd::arithmetic::div_mod::lemma_div_basics(addr as int);
        },
        IpNet::V6 { addr, prefix } => {
            vstd::arithmetic::div_mod::lemma_div_basics(ipv6_value(iface) as int);
            vstd::arithmetic::div_mod::lemma_div_basics(addr as int);
        },
    }
}

/// A well-formed candidate of the other family never matches, and is
/// never an error.
pub proof fn lemma_family_mismatch(iface: Seq<char>, subnet: Seq<char>)
    requires
        net_of_text(subnet) is Some,
        match net_of_text(subnet)->Some_0 {
            IpNet::V4 { addr, prefix } => is_ipv6_text(iface),
            IpNet::V6 { addr, prefix } => is_ipv4_text(iface),
        },
    ensures
        subnet_check(iface, subnet) == Some(false),
{
    lemma_families_disjoint(iface);
}

/// The parsed form a containment test works on.
pub(crate) enum NetRepr {
    V4 { addr: u32, prefix: u8 },
    V6 { addr: u128, prefix: u8 },
}

impl NetRepr {
    pub(crate) open spec fn wf(self) -> bool {
        match self {
            NetRepr::V4 { addr, prefix } => prefix <= 32,
            NetRepr::V6 { addr, prefix } => prefix <= 128,
        }
    }

    pub(crate) open spec fn model(self) -> IpNet {
        match self {
            NetRepr::V4 { addr, prefix } => IpNet::V4 {
                addr: addr as nat,
                prefix: prefix as nat,
            },
            NetRepr::V6 { addr, prefix } => IpNet::V6 {
                addr: addr as nat,
                prefix: prefix as nat,
            },
        }
    }
}

/// Reads a network text.
pub(crate) fn parse_net(s: &Vec<char>) -> (r: Option<NetRepr>)
    ensures
        match r {
            Some(n) => n.wf() && net_of_text(s@) == Some(n.model()),
            None => net_of_text(s@) is None,
        },
{
    let parts = split_chars(s, '/');
    if parts.len() != 2 {
        return None;
    }
    let ghost ps = views_of(parts@);
    match scan_ipv4(&parts[0]) {
        Some(a4) => {
            match parse_dec_bounded(&parts[1], 32) {
                Some(p) => Some(NetRepr::V4 { addr: a4, prefix: p as u8 }),
                None => {
                    proof {
                        lemma_families_disjoint(ps[0]);
                    }
                    None
                },
            }
        },
        None => {
            match scan_ipv6(&parts[0]) {
                Some(a6) => {
                    match parse_dec_bounded(&parts[1], 128) {
                        Some(p) => Some(NetRepr::V6 { addr: a6, prefix: p as u8 }),
                        None => None,
                    }
                },
                None => None,
            }
        },
    }
}

/// Compares the leading `prefix` bits of two 32-bit addresses.
fn v4_masked_eq(a: u32, b: u32, prefix: u8) -> (r: bool)
    requires
        prefix <= 32,
    ensures
        r == (masked(a as nat, prefix as nat, 32) == masked(b as nat, prefix as nat, 32)),
{
    if prefix == 0 {
        proof {
            vstd::arithmetic::power2::lemma2_to64();
            vstd::arithmetic::div_mod::lemma_basic_div(a as int, pow2(32) as int);
            vstd::arithmetic::div_mod::lemma_basic_div(b as int, pow2(32) as int);
        }
        true
    } else {
        let sh: u32 = 32 - (prefix as u32);
        proof {
            vstd::bits::lemma_u32_shr_is_div(a, sh);
            vstd::bits::lemma_u32_shr_is_div(b, sh);
        }
        (a >> sh) == (b >> sh)
    }
}

/// Compares the leading `prefix` bits of two 128-bit addresses.
fn v6_masked_eq(a: u128, b: u128, prefix: u8) -> (r: bool)
    requires
        prefix <= 128,
    ensures
        r == (masked(a as nat, prefix as nat, 128) == masked(b as nat, prefix as nat, 128)),
{
    if prefix == 0 {
        proof {
            vstd::arithmetic::power2::lemma2_to64();
            vstd::arithmetic::power2::lemma2_to64_rest();
            vstd::arithmetic::power2::lemma_pow2_adds(64, 64);
            vstd::arithmetic::div_mod::lemma_basic_div(a as int, pow2(128) as int);
            vstd::arithmetic::div_mod::lemma_basic_div(b as int, pow2(128) as int);
        }
        true
    } else {
        let sh: u128 = 128 - (prefix as u128);
        proof {
            vstd::bits::lemma_u128_shr_is_div(a, sh);
            vstd::bits::lemma_u128_shr_is_div(b, sh);
        }
        (a >> sh) == (b >> sh)
    }
}

/// Tests one candidate text against one parsed network.
pub(crate) fn match_iface(iface: &Vec<char>, net: &NetRepr) -> (r: bool)
    requires
        net.wf(),
    ensures
        r == iface_matches(iface@, net.model()),
{
    match net {
        NetRepr::V4 { addr, prefix } => {
            match scan_ipv4(iface) {
                Some(a) => v4_masked_eq(a, *addr, *prefix),
                None => false,
            }
        },
        NetRepr::V6 { addr, prefix } => {
            match scan_ipv6(iface) {
                Some(a) => v6_masked_eq(a, *addr, *prefix),
                None => false,
            }
        },
    }
}

} // verus!
