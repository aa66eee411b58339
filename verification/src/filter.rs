//! The filter table: ordered allow/deny rules keyed by address range,
//! built from filter-definition text, and first-match resolution of an
//! address against them.

use vstd::prelude::*;

use crate::cidr::Cidr;
use crate::cidr::IpAddress;
use crate::cidr::spec_parse_cidr;
use crate::text::is_digit;
use crate::text::spec_parse_u8;
use crate::text::spec_split;
use crate::text::spec_tokens;
use crate::text::split_bytes;
use crate::text::tokenize;
use crate::text::parse_u8;

verus! {

/// One policy rule: permit or deny authorization for addresses inside a
/// network, with bounds on the acceptable maximum prefix length.
#[derive(Clone, Copy, PartialEq, Eq, Structural, Debug)]
pub struct FilterRule {
    pub network: Cidr,
    pub allow: bool,
    pub min_length: u8,
    pub max_length: u8,
}

impl FilterRule {
    pub open spec fn wf(self) -> bool {
        self.network.wf()
    }
}

/// Every rule of the table is well formed.
pub open spec fn rules_wf(rules: Seq<FilterRule>) -> bool {
    forall|k: int| 0 <= k < rules.len() ==> (#[trigger] rules[k]).wf()
}

/// The keyword `deny`.
pub open spec fn kw_deny() -> Seq<u8> {
    seq![100u8, 101u8, 110u8, 121u8]
}

/// The keyword `permit`.
pub open spec fn kw_permit() -> Seq<u8> {
    seq![112u8, 101u8, 114u8, 109u8, 105u8, 116u8]
}

/// Decide whether a token is the keyword `deny`.
fn is_kw_deny(t: &[u8]) -> (r: bool)
    ensures
        r == (t@ == kw_deny()),
{
    let r = t.len() == 4 && t[0] == 100 && t[1] == 101 && t[2] == 110 && t[3] == 121;
    proof {
        if r {
            assert(t@ =~= kw_deny());
        }
    }
    r
}

/// Decide whether a token is the keyword `permit`.
fn is_kw_permit(t: &[u8]) -> (r: bool)
    ensures
        r == (t@ == kw_permit()),
{
    let r = t.len() == 6 && t[0] == 112 && t[1] == 101 && t[2] == 114 && t[3] == 109 && t[4]
        == 105 && t[5] == 116;
    proof {
        if r {
            assert(t@ =~= kw_permit());
        }
    }
    r
}

/// What one filter-source line denotes, or nothing. A rule line starts
/// with a decimal digit and has at least six whitespace-separated
/// tokens: a sequence number, `permit` or `deny`, a network in CIDR
/// notation, and the two length bounds; further tokens are ignored. Any
/// line not of this shape denotes no rule.
pub open spec fn spec_parse_filter_line(line: Seq<u8>) -> Option<FilterRule> {
    if line.len() == 0 || !is_digit(line[0]) {
        None
    } else {
        let toks = spec_tokens(line);
        if toks.len() < 6 {
            None
        } else {
            let action = if toks[1] == kw_deny() {
                Some(false)
            } else if toks[1] == kw_permit() {
                Some(true)
            } else {
                None
            };
            match action {
                Some(allow) => match spec_parse_cidr(toks[2]) {
                    Some(network) => match (spec_parse_u8(toks[3]), spec_parse_u8(toks[4])) {
                        (Some(min), Some(max)) => Some(
                            FilterRule { network, allow, min_length: min, max_length: max },
                        ),
                        _ => None,
                    },
                    None => None,
                },
                None => None,
            }
        }
    }
}

/// Parse one filter-source line.
pub fn parse_filter_line(line: &[u8]) -> (r: Option<FilterRule>)
    ensures
        r == spec_parse_filter_line(line@),
        r.is_some() ==> r.unwrap().wf(),
{
    if line.len() == 0 {
        return None;
    }
    let b = line[0];
    if b < 48 || b > 57 {
        return None;
    }
    let toks = tokenize(line);
    if toks.len() < 6 {
        return None;
    }
    proof {
        assert(toks.deep_view()[1] == toks@[1]@);
        assert(toks.deep_view()[2] == toks@[2]@);
        assert(toks.deep_view()[3] == toks@[3]@);
        assert(toks.deep_view()[4] == toks@[4]@);
    }
    let allow: bool;
    if is_kw_deny(toks[1].as_slice()) {
        allow = false;
    } else if is_kw_permit(toks[1].as_slice()) {
        allow = true;
    } else {
        return None;
    }
    let network = match Cidr::parse(toks[2].as_slice()) {
        Some(c) => c,
        None => {
            return None;
        },
    };
    let min = match parse_u8(toks[3].as_slice()) {
        Some(v) => v,
        None => {
            return None;
        },
    };
    let max = match parse_u8(toks[4].as_slice()) {
        Some(v) => v,
        None => {
            return None;
        },
    };
    Some(FilterRule { network, allow, min_length: min, max_length: max })
}

/// The rules that a filter source denotes: one per line that parses as a
/// rule, in line order; other lines are skipped.
pub open spec fn rules_of_lines(lines: Seq<Seq<u8>>) -> Seq<FilterRule>
    decreases lines.len(),
{
    if lines.len() == 0 {
        Seq::empty()
    } else {
        rules_of_lines(lines.drop_last()) + match spec_parse_filter_line(lines.last()) {
            Some(rule) => seq![rule],
            None => Seq::empty(),
        }
    }
}

/// The rules that a filter source's full text denotes.
pub open spec fn spec_filter_rules(text: Seq<u8>) -> Seq<FilterRule> {
    rules_of_lines(spec_split(text, 10))
}

pub proof fn lemma_rules_of_lines_take_step(lines: Seq<Seq<u8>>, i: int)
    requires
        0 <= i < lines.len(),
    ensures
        rules_of_lines(lines.take(i + 1)) == rules_of_lines(lines.take(i)) + match spec_parse_filter_line(
            lines[i],
        ) {
            Some(rule) => seq![rule],
            None => Seq::<FilterRule>::empty(),
        },
{
    assert(lines.take(i + 1).drop_last() =~~= lines.take(i));
    assert(lines.take(i + 1).last() == lines[i]);
}

/// Rules denoted by a filter source are well formed.
pub proof fn lemma_rules_of_lines_wf(lines: Seq<Seq<u8>>)
    ensures
        rules_wf(rules_of_lines(lines)),
    decreases lines.len(),
{
    if lines.len() > 0 {
        lemma_rules_of_lines_wf(lines.drop_last());
    }
}

/// Append to the table the rules that one filter source's text denotes,
/// in line order, skipping every line that does not parse as a rule.
pub fn add_filter_rules(text: &[u8], rules: &mut Vec<FilterRule>)
    ensures
        final(rules)@ == old(rules)@ + spec_filter_rules(text@),
{
    let lines = split_bytes(text, 10);
    let ghost lv = lines.deep_view();
    let ghost initial = rules@;
    let mut i: usize = 0;
    proof {
        assert(lv.take(0int) =~~= Seq::<Seq<u8>>::empty());
        assert(rules@ =~= initial + rules_of_lines(lv.take(0int)));
    }
    while i < lines.len()
        invariant
            0 <= i <= lv.len(),
            lv == lines.deep_view(),
            lv.len() == lines@.len(),
            rules@ == initial + rules_of_lines(lv.take(i as int)),
        decreases lines@.len() - i,
    {
        proof {
            assert(lv[i as int] == lines@[i as int]@);
            lemma_rules_of_lines_take_step(lv, i as int);
        }
        match parse_filter_line(lines[i].as_slice()) {
            Some(rule) => {
                rules.push(rule);
                proof {
                    assert(rules@ =~= initial + rules_of_lines(lv.take(i + 1)));
                }
            },
            None => {
                proof {
                    assert(rules@ =~= initial + rules_of_lines(lv.take(i + 1)));
                }
            },
        }
        i = i + 1;
    }
    proof {
        assert(lv.take(lv.len() as int) =~~= lv);
    }
}

/// The outcome of resolving an address against the table.
#[derive(Clone, Copy, PartialEq, Eq, Structural, Debug)]
pub enum Resolution {
    /// The first matching rule permits the route; carries the rule's
    /// minimum and maximum length bounds.
    Allowed(u8, u8),
    /// The first matching rule denies the route: drop it silently.
    Excluded,
    /// No rule covers the address: an error for the record.
    Rejected,
}

/// Index of the first rule whose network contains the address, or
/// `rules.len()` if none does.
pub open spec fn first_match(rules: Seq<FilterRule>, a: IpAddress) -> int
    decreases rules.len(),
{
    if rules.len() == 0 {
        0
    } else if rules[0].network.spec_contains(a) {
        0
    } else {
        1 + first_match(rules.skip(1), a)
    }
}

pub proof fn lemma_first_match(rules: Seq<FilterRule>, a: IpAddress)
    ensures
        0 <= first_match(rules, a) <= rules.len(),
        first_match(rules, a) < rules.len() ==> rules[first_match(rules, a)].network.spec_contains(
            a,
        ),
        forall|k: int| 0 <= k < first_match(rules, a) ==> !rules[k].network.spec_contains(a),
    decreases rules.len(),
{
    if rules.len() == 0 {
    } else if rules[0].network.spec_contains(a) {
    } else {
        lemma_first_match(rules.skip(1), a);
        assert forall|k: int| 0 <= k < first_match(rules, a) implies !rules[k].network.spec_contains(
            a,
        ) by {
            if k > 0 {
                assert(rules.skip(1)[k - 1] == rules[k]);
            }
        }
    }
}

pub proof fn lemma_first_match_unique(rules: Seq<FilterRule>, a: IpAddress, i: int)
    requires
        0 <= i <= rules.len(),
        i < rules.len() ==> rules[i].network.spec_contains(a),
        forall|k: int| 0 <= k < i ==> !rules[k].network.spec_contains(a),
    ensures
        i == first_match(rules, a),
{
    lemma_first_match(rules, a);
    let f = first_match(rules, a);
    if i < f {
        assert(!rules[i].network.spec_contains(a));
    } else if f < i {
        assert(!rules[f].network.spec_contains(a));
    }
}

/// What resolving an address against the table yields: the verdict of
/// the first rule whose network contains the address, or `Rejected` when
/// none does.
pub open spec fn spec_resolve(rules: Seq<FilterRule>, a: IpAddress) -> Resolution {
    let i = first_match(rules, a);
    if i == rules.len() {
        Resolution::Rejected
    } else if rules[i].allow {
        Resolution::Allowed(rules[i].min_length, rules[i].max_length)
    } else {
        Resolution::Excluded
    }
}

/// Resolve an address against the table, scanning the rules in order and
/// letting the first match decide.
pub fn resolve(rules: &Vec<FilterRule>, a: &IpAddress) -> (r: Resolution)
    requires
        rules_wf(rules@),
    ensures
        r == spec_resolve(rules@, *a),
{
    let mut i: usize = 0;
    while i < rules.len()
        invariant
            0 <= i <= rules@.len(),
            rules_wf(rules@),
            forall|k: int| 0 <= k < i ==> !rules@[k].network.spec_contains(*a),
        decreases rules@.len() - i,
    {
        let rule = rules[i];
        if rule.network.contains(a) {
            proof {
                lemma_first_match_unique(rules@, *a, i as int);
            }
            if rule.allow {
                return Resolution::Allowed(rule.min_length, rule.max_length);
            } else {
                return Resolution::Excluded;
            }
        }
        i = i + 1;
    }
    proof {
        lemma_first_match_unique(rules@, *a, rules@.len() as int);
    }
    Resolution::Rejected
}

/// First match wins: when the rule at position `i` matches the address,
/// what any later position `j` holds — whatever its range, action or
/// bounds — never changes the resolution.
pub proof fn lemma_first_match_wins(
    rules: Seq<FilterRule>,
    a: IpAddress,
    i: int,
    j: int,
    other: FilterRule,
)
    requires
        0 <= i < j < rules.len(),
        rules[i].network.spec_contains(a),
    ensures
        spec_resolve(rules.update(j, other), a) == spec_resolve(rules, a),
{
    lemma_first_match(rules, a);
    let f = first_match(rules, a);
    if f > i {
        assert(!rules[i].network.spec_contains(a));
    }
    assert(f <= i < j);
    let updated = rules.update(j, other);
    assert(updated[f] == rules[f]);
    assert forall|k: int| 0 <= k < f implies !updated[k].network.spec_contains(a) by {
        assert(updated[k] == rules[k]);
    }
    lemma_first_match_unique(updated, a, f);
}

} // verus!
