//! IP networks in CIDR notation: address parsing for both families and
//! the prefix containment test.

use vstd::prelude::*;

use vstd::arithmetic::div_mod::lemma_basic_div;
use vstd::arithmetic::power2::lemma2_to64;
use vstd::arithmetic::power2::lemma2_to64_rest;
use vstd::arithmetic::power2::lemma_pow2_adds;
use vstd::arithmetic::power2::pow2;
use vstd::bits::lemma_u128_shr_is_div;
use vstd::bits::lemma_u32_shr_is_div;

use crate::text::all_digits;
use crate::text::digits_val;
use crate::text::hex_digit_val;
use crate::text::is_digit;
use crate::text::is_hex_digit;
use crate::text::lemma_digits_val_mono;
use crate::text::parse_u8;
use crate::text::spec_parse_u8;
use crate::text::spec_split;
use crate::text::split_bytes;

verus! {

/// An IP address, held as the integer value of its bits. The two
/// families are distinct: an IPv4 address never equals an IPv6 one.
#[derive(Clone, Copy, PartialEq, Eq, Structural, Debug)]
pub enum IpAddress {
    V4(u32),
    V6(u128),
}

impl IpAddress {
    /// The family's bit width.
    pub open spec fn width(self) -> int {
        match self {
            IpAddress::V4(_) => 32,
            IpAddress::V6(_) => 128,
        }
    }
}

/// What a dotted-quad octet token denotes: one to three decimal digits,
/// no leading zero, value at most 255.
pub open spec fn spec_parse_octet(p: Seq<u8>) -> Option<u8> {
    match spec_parse_u8(p) {
        Some(v) => {
            if p.len() > 1 && p[0] == 48 {
                None
            } else {
                Some(v)
            }
        },
        None => None,
    }
}

/// Parse one octet of a dotted-quad address.
pub fn parse_octet(p: &[u8]) -> (r: Option<u8>)
    ensures
        r == spec_parse_octet(p@),
{
    match parse_u8(p) {
        Some(v) => {
            if p.len() > 1 && p[0] == 48 {
                None
            } else {
                Some(v)
            }
        },
        None => None,
    }
}

/// What an IPv4 literal denotes: four dot-separated octets, combined
/// into the 32-bit address value, high octet first.
pub open spec fn spec_parse_ipv4(s: Seq<u8>) -> Option<u32> {
    let ps = spec_split(s, 46);
    if ps.len() == 4 {
        match (spec_parse_octet(ps[0]), spec_parse_octet(ps[1]), spec_parse_octet(ps[2]), spec_parse_octet(ps[3])) {
            (Some(o0), Some(o1), Some(o2), Some(o3)) => Some(
                ((o0 as u32) << 24u32) | ((o1 as u32) << 16u32) | ((o2 as u32) << 8u32) | (o3 as u32),
            ),
            _ => None,
        }
    } else {
        None
    }
}

/// Parse an IPv4 literal in dotted-quad notation.
pub fn parse_ipv4(s: &[u8]) -> (r: Option<u32>)
    ensures
        r == spec_parse_ipv4(s@),
{
    let ps = split_bytes(s, 46);
    if ps.len() != 4 {
        return None;
    }
    proof {
        assert(ps.deep_view()[0] == ps@[0]@);
        assert(ps.deep_view()[1] == ps@[1]@);
        assert(ps.deep_view()[2] == ps@[2]@);
        assert(ps.deep_view()[3] == ps@[3]@);
    }
    let o0 = match parse_octet(ps[0].as_slice()) {
        Some(v) => v,
        None => { return None; },
    };
    let o1 = match parse_octet(ps[1].as_slice()) {
        Some(v) => v,
        None => { return None; },
    };
    let o2 = match parse_octet(ps[2].as_slice()) {
        Some(v) => v,
        None => { return None; },
    };
    let o3 = match parse_octet(ps[3].as_slice()) {
        Some(v) => v,
        None => { return None; },
    };
    Some(((o0 as u32) << 24u32) | ((o1 as u32) << 16u32) | ((o2 as u32) << 8u32) | (o3 as u32))
}

/// Whether every byte of `s` is a hexadecimal digit.
pub open spec fn all_hex(s: Seq<u8>) -> bool {
    forall|k: int| 0 <= k < s.len() ==> is_hex_digit(s[k])
}

/// The integer that a sequence of hexadecimal digits denotes.
pub open spec fn hex_seq_val(s: Seq<u8>) -> int
    decreases s.len(),
{
    if s.len() == 0 {
        0
    } else {
        hex_seq_val(s.drop_last()) * 16 + hex_digit_val(s.last())
    }
}

pub proof fn lemma_hex_val_take_step(s: Seq<u8>, i: int)
    requires
        0 <= i < s.len(),
    ensures
        hex_seq_val(s.take(i + 1)) == hex_seq_val(s.take(i)) * 16 + hex_digit_val(s[i]),
{
    assert(s.take(i + 1).drop_last() =~= s.take(i));
    assert(s.take(i + 1).last() == s[i]);
}

/// What one colon-separated group of an IPv6 literal denotes: one to
/// four hexadecimal digits of either case.
pub open spec fn spec_parse_group(p: Seq<u8>) -> Option<u16> {
    if 1 <= p.len() <= 4 && all_hex(p) {
        Some(hex_seq_val(p) as u16)
    } else {
        None
    }
}

/// Parse one 16-bit group of an IPv6 literal.
pub fn parse_group(p: &[u8]) -> (r: Option<u16>)
    ensures
        r == spec_parse_group(p@),
{
    if p.len() < 1 || p.len() > 4 {
        return None;
    }
    let mut acc: u16 = 0;
    let mut i: usize = 0;
    while i < p.len()
        invariant
            0 <= i <= p@.len() <= 4,
            forall|k: int| 0 <= k < i ==> is_hex_digit(p@[k]),
            acc == hex_seq_val(p@.take(i as int)),
            i == 0 ==> acc == 0,
            i <= 1 ==> acc <= 0xf,
            i <= 2 ==> acc <= 0xff,
            i <= 3 ==> acc <= 0xfff,
            acc <= 0xffff,
        decreases p@.len() - i,
    {
        let b = p[i];
        let d: u16;
        if 48 <= b && b <= 57 {
            d = (b - 48) as u16;
        } else if 97 <= b && b <= 102 {
            d = (b - 87) as u16;
        } else if 65 <= b && b <= 70 {
            d = (b - 55) as u16;
        } else {
            return None;
        }
        proof {
            lemma_hex_val_take_step(p@, i as int);
        }
        acc = acc * 16 + d;
        i = i + 1;
    }
    proof {
        assert(p@.take(i as int) =~= p@);
    }
    Some(acc)
}

/// Whether every piece is a valid 16-bit group.
pub open spec fn groups_ok(ps: Seq<Seq<u8>>) -> bool {
    forall|k: int| 0 <= k < ps.len() ==> spec_parse_group(ps[k]).is_some()
}

/// The group values of a sequence of valid group pieces.
pub open spec fn group_vals(ps: Seq<Seq<u8>>) -> Seq<u16> {
    Seq::new(ps.len(), |k: int| spec_parse_group(ps[k]).unwrap())
}

/// The pieces parsed as plain groups, or nothing.
pub open spec fn group_units_opt(ps: Seq<Seq<u8>>) -> Option<Seq<u16>> {
    if groups_ok(ps) {
        Some(group_vals(ps))
    } else {
        None
    }
}

/// The 16-bit units that the part of an IPv6 literal after any `::`
/// denotes: plain groups, or groups whose last piece is an embedded
/// dotted-quad IPv4 address contributing the final two units.
pub open spec fn tail_units(ps: Seq<Seq<u8>>) -> Option<Seq<u16>> {
    if groups_ok(ps) {
        Some(group_vals(ps))
    } else if ps.len() >= 1 && groups_ok(ps.drop_last()) && spec_parse_ipv4(ps.last()).is_some() {
        let v = spec_parse_ipv4(ps.last()).unwrap();
        Some(group_vals(ps.drop_last()) + seq![(v >> 16u32) as u16, (v & 0xffffu32) as u16])
    } else {
        None
    }
}

/// Index of the first empty piece, or `ps.len()` if none.
pub open spec fn first_empty(ps: Seq<Seq<u8>>) -> int
    decreases ps.len(),
{
    if ps.len() == 0 {
        0
    } else if ps[0].len() == 0 {
        0
    } else {
        1 + first_empty(ps.skip(1))
    }
}

pub proof fn lemma_first_empty(ps: Seq<Seq<u8>>)
    ensures
        0 <= first_empty(ps) <= ps.len(),
        first_empty(ps) < ps.len() ==> ps[first_empty(ps)].len() == 0,
        forall|k: int| 0 <= k < first_empty(ps) ==> ps[k].len() != 0,
    decreases ps.len(),
{
    if ps.len() == 0 {
    } else if ps[0].len() == 0 {
    } else {
        lemma_first_empty(ps.skip(1));
        assert forall|k: int| 0 <= k < first_empty(ps) implies ps[k].len() != 0 by {
            if k > 0 {
                assert(ps.skip(1)[k - 1] == ps[k]);
            }
        }
    }
}

pub proof fn lemma_first_empty_unique(ps: Seq<Seq<u8>>, i: int)
    requires
        0 <= i <= ps.len(),
        i < ps.len() ==> ps[i].len() == 0,
        forall|k: int| 0 <= k < i ==> ps[k].len() != 0,
    ensures
        i == first_empty(ps),
{
    lemma_first_empty(ps);
    let f = first_empty(ps);
    if i < f {
        assert(ps[i].len() != 0);
    } else if f < i {
        assert(ps[f].len() != 0);
    }
}

/// A run of all-zero 16-bit units, as `::` stands for.
pub open spec fn zero_units(k: int) -> Seq<u16> {
    Seq::new(k as nat, |j: int| 0u16)
}

/// The 128-bit value that eight 16-bit units denote, first unit highest.
pub open spec fn unit_val(us: Seq<u16>) -> u128
    decreases us.len(),
{
    if us.len() == 0 {
        0
    } else {
        (unit_val(us.drop_last()) << 16u128) | (us.last() as u128)
    }
}

/// A run of zero units denotes zero.
pub proof fn lemma_unit_val_zeros(k: int)
    requires
        k >= 0,
    ensures
        unit_val(zero_units(k)) == 0,
    decreases k,
{
    if k > 0 {
        assert(zero_units(k).drop_last() =~= zero_units(k - 1));
        assert(zero_units(k).last() == 0u16);
        lemma_unit_val_zeros(k - 1);
        assert((0u128 << 16u128) | (0u16 as u128) == 0u128) by (bit_vector);
    }
}

pub proof fn lemma_unit_val_take_step(us: Seq<u16>, i: int)
    requires
        0 <= i < us.len(),
    ensures
        unit_val(us.take(i + 1)) == (unit_val(us.take(i)) << 16u128) | (us[i] as u128),
{
    assert(us.take(i + 1).drop_last() =~= us.take(i));
    assert(us.take(i + 1).last() == us[i]);
}

/// The eight 16-bit units that an IPv6 literal denotes, or nothing: a
/// full list of groups, or two runs of groups around one `::` standing
/// for the missing zero units, the last group possibly an embedded
/// dotted-quad IPv4 address.
pub open spec fn spec_ipv6_units(s: Seq<u8>) -> Option<Seq<u16>> {
    let ps = spec_split(s, 58);
    let n = ps.len() as int;
    let e = first_empty(ps);
    if e == n {
        match tail_units(ps) {
            Some(u) => if u.len() == 8 {
                Some(u)
            } else {
                None
            },
            None => None,
        }
    } else if n >= 3 && ps[0].len() == 0 && ps[1].len() == 0 {
        if n == 3 && ps[2].len() == 0 {
            Some(zero_units(8))
        } else {
            match tail_units(ps.skip(2)) {
                Some(u) => if u.len() <= 7 {
                    Some(zero_units(8 - u.len()) + u)
                } else {
                    None
                },
                None => None,
            }
        }
    } else if n >= 3 && ps[n - 1].len() == 0 && ps[n - 2].len() == 0 {
        match group_units_opt(ps.take(n - 2)) {
            Some(u) => if u.len() <= 7 {
                Some(u + zero_units(8 - u.len()))
            } else {
                None
            },
            None => None,
        }
    } else if 1 <= e && e <= n - 2 {
        match (group_units_opt(ps.take(e)), tail_units(ps.skip(e + 1))) {
            (Some(h), Some(t)) => if h.len() + t.len() <= 7 {
                Some(h + zero_units(8 - h.len() - t.len()) + t)
            } else {
                None
            },
            _ => None,
        }
    } else {
        None
    }
}

/// What an IPv6 literal denotes as a 128-bit address value.
pub open spec fn spec_parse_ipv6(s: Seq<u8>) -> Option<u128> {
    match spec_ipv6_units(s) {
        Some(u) => Some(unit_val(u)),
        None => None,
    }
}

/// Parse the pieces as plain groups.
fn group_units_exec(parts: &[Vec<u8>]) -> (r: Option<Vec<u16>>)
    ensures
        r.deep_view() == group_units_opt(parts.deep_view()),
{
    let ghost dv = parts.deep_view();
    let mut units: Vec<u16> = Vec::new();
    let mut k: usize = 0;
    while k < parts.len()
        invariant
            0 <= k <= dv.len(),
            dv == parts.deep_view(),
            dv.len() == parts@.len(),
            forall|m: int| 0 <= m < k ==> spec_parse_group(dv[m]).is_some(),
            units@.len() == k,
            forall|m: int| 0 <= m < k ==> units@[m] == spec_parse_group(dv[m]).unwrap(),
        decreases parts@.len() - k,
    {
        proof {
            assert(dv[k as int] == parts@[k as int]@);
        }
        match parse_group(parts[k].as_slice()) {
            Some(v) => {
                units.push(v);
            },
            None => {
                proof {
                    assert(!groups_ok(dv));
                }
                return None;
            },
        }
        k = k + 1;
    }
    proof {
        assert(groups_ok(dv));
        assert(units@ =~= group_vals(dv));
    }
    Some(units)
}

/// Parse the pieces after any `::`: plain groups, the last piece
/// possibly an embedded IPv4 address.
fn tail_units_exec(parts: &[Vec<u8>]) -> (r: Option<Vec<u16>>)
    ensures
        r.deep_view() == tail_units(parts.deep_view()),
{
    let ghost dv = parts.deep_view();
    let n = parts.len();
    let mut units: Vec<u16> = Vec::new();
    let mut k: usize = 0;
    while k < n
        invariant
            0 <= k <= dv.len(),
            dv == parts.deep_view(),
            dv.len() == parts@.len(),
            n == parts@.len(),
            forall|m: int| 0 <= m < k ==> spec_parse_group(dv[m]).is_some(),
            units@.len() == k,
            forall|m: int| 0 <= m < k ==> units@[m] == spec_parse_group(dv[m]).unwrap(),
        decreases parts@.len() - k,
    {
        proof {
            assert(dv[k as int] == parts@[k as int]@);
        }
        match parse_group(parts[k].as_slice()) {
            Some(v) => {
                units.push(v);
            },
            None => {
                proof {
                    assert(!groups_ok(dv));
                }
                if k + 1 < n {
                    proof {
                        assert(dv.drop_last()[k as int] == dv[k as int]);
                        assert(!groups_ok(dv.drop_last()));
                    }
                    return None;
                }
                proof {
                    assert(k == n - 1);
                    assert(dv.last() == dv[k as int]);
                }
                match parse_ipv4(parts[k].as_slice()) {
                    Some(v) => {
                        proof {
                            assert(forall|m: int| 0 <= m < dv.drop_last().len()
                                ==> dv.drop_last()[m] == dv[m]);
                            assert(groups_ok(dv.drop_last()));
                            assert(units@ =~= group_vals(dv.drop_last()));
                        }
                        let hi: u16 = (v >> 16u32) as u16;
                        let lo: u16 = (v & 0xffffu32) as u16;
                        units.push(hi);
                        units.push(lo);
                        proof {
                            assert(units@ =~= group_vals(dv.drop_last()) + seq![
                                ((v >> 16u32) as u16),
                                ((v & 0xffffu32) as u16),
                            ]);
                        }
                        return Some(units);
                    },
                    None => {
                        return None;
                    },
                }
            },
        }
        k = k + 1;
    }
    proof {
        assert(groups_ok(dv));
        assert(units@ =~= group_vals(dv));
    }
    Some(units)
}

/// Combine eight 16-bit units into the address value.
fn combine_units(units: &Vec<u16>) -> (r: u128)
    requires
        units@.len() == 8,
    ensures
        r == unit_val(units@),
{
    let mut acc: u128 = 0;
    let mut i: usize = 0;
    proof {
        assert(units@.take(0int) =~= Seq::<u16>::empty());
    }
    while i < 8
        invariant
            0 <= i <= 8,
            units@.len() == 8,
            acc == unit_val(units@.take(i as int)),
        decreases 8 - i,
    {
        proof {
            lemma_unit_val_take_step(units@, i as int);
        }
        acc = (acc << 16u128) | (units[i] as u128);
        i = i + 1;
    }
    proof {
        assert(units@.take(8int) =~= units@);
    }
    acc
}

/// Parse an IPv6 literal.
pub fn parse_ipv6(s: &[u8]) -> (r: Option<u128>)
    ensures
        r == spec_parse_ipv6(s@),
{
    let psv = split_bytes(s, 58);
    let ps = psv.as_slice();
    let ghost dv = ps.deep_view();
    let n = ps.len();
    let mut e: usize = 0;
    while e < n && ps[e].len() > 0
        invariant
            0 <= e <= n,
            n == ps@.len(),
            dv == ps.deep_view(),
            dv.len() == n,
            forall|k: int| 0 <= k < e ==> dv[k].len() != 0,
        decreases n - e,
    {
        proof {
            assert(dv[e as int] == ps@[e as int]@);
        }
        e = e + 1;
    }
    proof {
        if e < n {
            assert(dv[e as int] == ps@[e as int]@);
        }
        lemma_first_empty_unique(dv, e as int);
    }
    if e == n {
        match tail_units_exec(ps) {
            Some(u) => {
                if u.len() == 8 {
                    proof {
                        assert(spec_ipv6_units(s@) == Some(u@));
                    }
                    Some(combine_units(&u))
                } else {
                    None
                }
            },
            None => None,
        }
    } else if n >= 3 && ps[0].len() == 0 && ps[1].len() == 0 {
        proof {
            assert(dv[0] == ps@[0]@);
            assert(dv[1] == ps@[1]@);
            assert(dv[2] == ps@[2]@);
        }
        if n == 3 && ps[2].len() == 0 {
            proof {
                lemma_unit_val_zeros(8);
            }
            Some(0)
        } else {
            let tp = vstd::slice::slice_subrange(ps, 2, n);
            proof {
                assert(tp.deep_view() =~~= dv.skip(2));
            }
            match tail_units_exec(tp) {
                Some(u) => {
                    if u.len() <= 7 {
                        let mut full: Vec<u16> = Vec::new();
                        let mut z: usize = 0;
                        let pad = 8 - u.len();
                        while z < pad
                            invariant
                                0 <= z <= pad,
                                full@.len() == z,
                                forall|j: int| 0 <= j < z ==> full@[j] == 0u16,
                            decreases pad - z,
                        {
                            full.push(0u16);
                            z = z + 1;
                        }
                        let mut m: usize = 0;
                        while m < u.len()
                            invariant
                                0 <= m <= u@.len(),
                                u@.len() <= 7,
                                full@.len() == 8 - u@.len() + m,
                                forall|j: int| 0 <= j < 8 - u@.len() ==> full@[j] == 0u16,
                                forall|j: int| 0 <= j < m ==> full@[8 - u@.len() + j] == u@[j],
                            decreases u@.len() - m,
                        {
                            full.push(u[m]);
                            m = m + 1;
                        }
                        proof {
                            assert(full@ =~= zero_units(8 - u@.len()) + u@);
                            assert(spec_ipv6_units(s@) == Some(full@));
                        }
                        Some(combine_units(&full))
                    } else {
                        None
                    }
                },
                None => None,
            }
        }
    } else if n >= 3 && ps[n - 1].len() == 0 && ps[n - 2].len() == 0 {
        proof {
            assert(dv[n - 1] == ps@[n - 1]@);
            assert(dv[n - 2] == ps@[n - 2]@);
        }
        let hp = vstd::slice::slice_subrange(ps, 0, n - 2);
        proof {
            assert(hp.deep_view() =~~= dv.take(n - 2));
        }
        match group_units_exec(hp) {
            Some(u) => {
                if u.len() <= 7 {
                    let mut full: Vec<u16> = Vec::new();
                    let mut m: usize = 0;
                    while m < u.len()
                        invariant
                            0 <= m <= u@.len(),
                            full@.len() == m,
                            forall|j: int| 0 <= j < m ==> full@[j] == u@[j],
                        decreases u@.len() - m,
                    {
                        full.push(u[m]);
                        m = m + 1;
                    }
                    while full.len() < 8
                        invariant
                            u@.len() <= full@.len() <= 8,
                            forall|j: int| 0 <= j < u@.len() ==> full@[j] == u@[j],
                            forall|j: int| u@.len() <= j < full@.len() ==> full@[j] == 0u16,
                        decreases 8 - full@.len(),
                    {
                        full.push(0u16);
                    }
                    proof {
                        assert(full@ =~= u@ + zero_units(8 - u@.len()));
                        assert(spec_ipv6_units(s@) == Some(full@));
                    }
                    Some(combine_units(&full))
                } else {
                    None
                }
            },
            None => None,
        }
    } else if 1 <= e && n >= 2 && e <= n - 2 {
        let hp = vstd::slice::slice_subrange(ps, 0, e);
        let tp = vstd::slice::slice_subrange(ps, e + 1, n);
        proof {
            assert(hp.deep_view() =~~= dv.take(e as int));
            assert(tp.deep_view() =~~= dv.skip(e + 1));
        }
        let hr = group_units_exec(hp);
        let tr = tail_units_exec(tp);
        match (hr, tr) {
            (Some(h), Some(t)) => {
                if h.len() + t.len() <= 7 {
                    let mut full: Vec<u16> = Vec::new();
                    let mut m: usize = 0;
                    while m < h.len()
                        invariant
                            0 <= m <= h@.len(),
                            full@.len() == m,
                            forall|j: int| 0 <= j < m ==> full@[j] == h@[j],
                        decreases h@.len() - m,
                    {
                        full.push(h[m]);
                        m = m + 1;
                    }
                    let pad = 8 - h.len() - t.len();
                    let mut z: usize = 0;
                    while z < pad
                        invariant
                            0 <= z <= pad,
                            full@.len() == h@.len() + z,
                            forall|j: int| 0 <= j < h@.len() ==> full@[j] == h@[j],
                            forall|j: int| h@.len() <= j < full@.len() ==> full@[j] == 0u16,
                        decreases pad - z,
                    {
                        full.push(0u16);
                        z = z + 1;
                    }
                    let mut m2: usize = 0;
                    while m2 < t.len()
                        invariant
                            0 <= m2 <= t@.len(),
                            h@.len() + t@.len() <= 7,
                            full@.len() == 8 - t@.len() + m2,
                            forall|j: int| 0 <= j < h@.len() ==> full@[j] == h@[j],
                            forall|j: int| h@.len() <= j < 8 - t@.len() ==> full@[j] == 0u16,
                            forall|j: int| 0 <= j < m2 ==> full@[8 - t@.len() + j] == t@[j],
                        decreases t@.len() - m2,
                    {
                        full.push(t[m2]);
                        m2 = m2 + 1;
                    }
                    proof {
                        assert(full@ =~= h@ + zero_units(8 - h@.len() - t@.len()) + t@);
                        assert(spec_ipv6_units(s@) == Some(full@));
                    }
                    Some(combine_units(&full))
                } else {
                    None
                }
            },
            _ => None,
        }
    } else {
        None
    }
}

/// An IP network: an address and a prefix length.
#[derive(Clone, Copy, PartialEq, Eq, Structural, Debug)]
pub struct Cidr {
    pub addr: IpAddress,
    pub prefix_len: u8,
}

/// What a CIDR text denotes: an address literal of either family and a
/// prefix length within the family's bit width, joined by one `/`.
pub open spec fn spec_parse_cidr(s: Seq<u8>) -> Option<Cidr> {
    let ps = spec_split(s, 47);
    if ps.len() != 2 {
        None
    } else {
        let addr = if spec_parse_ipv4(ps[0]).is_some() {
            Some(IpAddress::V4(spec_parse_ipv4(ps[0]).unwrap()))
        } else if spec_parse_ipv6(ps[0]).is_some() {
            Some(IpAddress::V6(spec_parse_ipv6(ps[0]).unwrap()))
        } else {
            None
        };
        match addr {
            Some(a) => match spec_parse_u8(ps[1]) {
                Some(l) => if l <= a.width() {
                    Some(Cidr { addr: a, prefix_len: l })
                } else {
                    None
                },
                None => None,
            },
            None => None,
        }
    }
}

impl Cidr {
    /// The prefix length does not exceed the family's bit width.
    pub open spec fn wf(self) -> bool {
        self.prefix_len <= self.addr.width()
    }

    /// Containment: the families match and the top `prefix_len` bits of
    /// the network address and of `a` agree; every address lies in a
    /// zero-length prefix of its family.
    pub open spec fn spec_contains(self, a: IpAddress) -> bool {
        match (self.addr, a) {
            (IpAddress::V4(x), IpAddress::V4(y)) => self.prefix_len == 0 || x >> ((32
                - self.prefix_len) as u32) == y >> ((32 - self.prefix_len) as u32),
            (IpAddress::V6(x), IpAddress::V6(y)) => self.prefix_len == 0 || x >> ((128
                - self.prefix_len) as u128) == y >> ((128 - self.prefix_len) as u128),
            _ => false,
        }
    }

    /// Parse a CIDR text, such as a dotted quad or an IPv6 literal
    /// followed by `/` and a prefix length.
    pub fn parse(s: &[u8]) -> (r: Option<Cidr>)
        ensures
            r == spec_parse_cidr(s@),
            r.is_some() ==> r.unwrap().wf(),
    {
        let ps = split_bytes(s, 47);
        if ps.len() != 2 {
            return None;
        }
        proof {
            assert(ps.deep_view()[0] == ps@[0]@);
            assert(ps.deep_view()[1] == ps@[1]@);
        }
        let addr: IpAddress;
        match parse_ipv4(ps[0].as_slice()) {
            Some(v) => {
                addr = IpAddress::V4(v);
            },
            None => {
                match parse_ipv6(ps[0].as_slice()) {
                    Some(v) => {
                        addr = IpAddress::V6(v);
                    },
                    None => {
                        return None;
                    },
                }
            },
        }
        let l = match parse_u8(ps[1].as_slice()) {
            Some(l) => l,
            None => {
                return None;
            },
        };
        let width: u8 = match addr {
            IpAddress::V4(_) => 32,
            IpAddress::V6(_) => 128,
        };
        if l <= width {
            Some(Cidr { addr, prefix_len: l })
        } else {
            None
        }
    }

    /// Decide whether an address lies inside this network.
    pub fn contains(&self, a: &IpAddress) -> (r: bool)
        requires
            self.wf(),
        ensures
            r == self.spec_contains(*a),
    {
        match (self.addr, *a) {
            (IpAddress::V4(x), IpAddress::V4(y)) => {
                if self.prefix_len == 0 {
                    true
                } else {
                    let sh: u32 = (32 - self.prefix_len) as u32;
                    x >> sh == y >> sh
                }
            },
            (IpAddress::V6(x), IpAddress::V6(y)) => {
                if self.prefix_len == 0 {
                    true
                } else {
                    let sh: u128 = (128 - self.prefix_len) as u128;
                    x >> sh == y >> sh
                }
            },
            (IpAddress::V4(_), IpAddress::V6(_)) => false,
            (IpAddress::V6(_), IpAddress::V4(_)) => false,
        }
    }
}

/// For IPv4, the containment test reads exactly the top `prefix_len`
/// bits: it compares the two addresses' quotients by
/// 2^(32 - prefix_len), the addresses with their low bits cut off.
pub proof fn lemma_contains_is_top_bits_v4(c: Cidr, x: u32, a: u32)
    requires
        c.wf(),
        c.addr == IpAddress::V4(x),
    ensures
        c.spec_contains(IpAddress::V4(a)) <==> x as nat / pow2((32 - c.prefix_len) as nat)
            == a as nat / pow2((32 - c.prefix_len) as nat),
{
    if c.prefix_len == 0 {
        lemma2_to64();
        lemma_basic_div(x as int, pow2(32) as int);
        lemma_basic_div(a as int, pow2(32) as int);
    } else {
        let sh: u32 = (32 - c.prefix_len) as u32;
        lemma_u32_shr_is_div(x, sh);
        lemma_u32_shr_is_div(a, sh);
    }
}

/// For IPv6, the containment test reads exactly the top `prefix_len`
/// bits, as the quotient by 2^(128 - prefix_len).
pub proof fn lemma_contains_is_top_bits_v6(c: Cidr, x: u128, a: u128)
    requires
        c.wf(),
        c.addr == IpAddress::V6(x),
    ensures
        c.spec_contains(IpAddress::V6(a)) <==> x as nat / pow2((128 - c.prefix_len) as nat)
            == a as nat / pow2((128 - c.prefix_len) as nat),
{
    if c.prefix_len == 0 {
        lemma2_to64();
        lemma2_to64_rest();
        lemma_pow2_adds(64, 64);
        lemma_basic_div(x as int, pow2(128) as int);
        lemma_basic_div(a as int, pow2(128) as int);
    } else {
        let sh: u128 = (128 - c.prefix_len) as u128;
        lemma_u128_shr_is_div(x, sh);
        lemma_u128_shr_is_div(a, sh);
    }
}

/// Containment never holds across address families.
pub proof fn lemma_contains_cross_family(c: Cidr, a: IpAddress)
    requires
        c.addr.width() != a.width(),
    ensures
        !c.spec_contains(a),
{
}

/// For IPv4, containment depends only on the top `prefix_len` bits of
/// the probed address: two addresses agreeing on those bits are
/// contained, or not, together.
pub proof fn lemma_contains_depends_on_prefix_v4(c: Cidr, a: u32, b: u32)
    requires
        c.wf(),
        c.addr is V4,
        c.prefix_len == 0 || a >> ((32 - c.prefix_len) as u32) == b >> ((32
            - c.prefix_len) as u32),
    ensures
        c.spec_contains(IpAddress::V4(a)) == c.spec_contains(IpAddress::V4(b)),
{
}

/// For IPv4, changing one bit below the prefix never changes
/// containment.
pub proof fn lemma_low_bit_irrelevant_v4(c: Cidr, a: u32, i: u32)
    requires
        c.wf(),
        c.addr is V4,
        i < 32 - c.prefix_len,
    ensures
        c.spec_contains(IpAddress::V4(a ^ (1u32 << i))) == c.spec_contains(IpAddress::V4(a)),
{
    if c.prefix_len != 0 {
        let sh: u32 = (32 - c.prefix_len) as u32;
        assert((a ^ (1u32 << i)) >> sh == a >> sh) by (bit_vector)
            requires
                i < sh < 32,
        ;
    }
}

/// For IPv6, containment depends only on the top `prefix_len` bits of
/// the probed address.
pub proof fn lemma_contains_depends_on_prefix_v6(c: Cidr, a: u128, b: u128)
    requires
        c.wf(),
        c.addr is V6,
        c.prefix_len == 0 || a >> ((128 - c.prefix_len) as u128) == b >> ((128
            - c.prefix_len) as u128),
    ensures
        c.spec_contains(IpAddress::V6(a)) == c.spec_contains(IpAddress::V6(b)),
{
}

/// For IPv6, changing one bit below the prefix never changes
/// containment.
pub proof fn lemma_low_bit_irrelevant_v6(c: Cidr, a: u128, i: u128)
    requires
        c.wf(),
        c.addr is V6,
        i < 128 - c.prefix_len,
    ensures
        c.spec_contains(IpAddress::V6(a ^ (1u128 << i))) == c.spec_contains(IpAddress::V6(a)),
{
    if c.prefix_len != 0 {
        let sh: u128 = (128 - c.prefix_len) as u128;
        assert((a ^ (1u128 << i)) >> sh == a >> sh) by (bit_vector)
            requires
                i < sh < 128,
        ;
    }
}

} // verus!
