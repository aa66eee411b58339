//! Reconciliation of a parsed route record against the filter table:
//! length clamping, the drop policy, and the authorization entries that
//! a surviving route yields.

use vstd::prelude::*;

use crate::filter::FilterRule;
use crate::filter::Resolution;
use crate::filter::resolve;
use crate::filter::rules_wf;
use crate::filter::spec_resolve;
use crate::record::RecordError;
use crate::record::RecordErrorV;
use crate::record::RouteRecord;
use crate::record::RouteRecordV;
use crate::record::parse_record;
use crate::record::spec_parse_record;

verus! {

/// The effective maximum length for a record, given the matched permit
/// rule's bounds `[min, max]` and the record's declared maximum length,
/// if any: a declared value is clamped into `[min, max]`; without one the
/// rule's `max` applies.
pub open spec fn spec_clamp_length(declared: Option<u8>, min: u8, max: u8) -> u8 {
    match declared {
        Some(d) => {
            if d > max {
                max
            } else if d < min {
                min
            } else {
                d
            }
        },
        None => max,
    }
}

/// Clamp a record's declared maximum length into the matched rule's bounds.
pub fn clamp_length(declared: Option<u8>, min: u8, max: u8) -> (r: u8)
    ensures
        r == spec_clamp_length(declared, min, max),
{
    match declared {
        Some(d) => {
            if d > max {
                max
            } else if d < min {
                min
            } else {
                d
            }
        },
        None => max,
    }
}

/// One authorization entry: a prefix in its original textual form, the
/// effective maximum length, and one origin ASN.
#[derive(Clone, Debug, PartialEq, Eq)]
pub struct Roa {
    pub prefix: Vec<u8>,
    pub max_length: u8,
    pub asn: Vec<u8>,
}

/// Mathematical image of `Roa`.
#[verifier::ext_equal]
pub struct RoaV {
    pub prefix: Seq<u8>,
    pub max_length: u8,
    pub asn: Seq<u8>,
}

impl View for Roa {
    type V = RoaV;

    open spec fn view(&self) -> RoaV {
        RoaV { prefix: self.prefix@, max_length: self.max_length, asn: self.asn@ }
    }
}

impl DeepView for Roa {
    type V = RoaV;

    open spec fn deep_view(&self) -> RoaV {
        self.view()
    }
}

/// One entry per origin ASN, in the record's order, all sharing the
/// record's prefix text and the effective maximum length.
pub open spec fn roas_of(asns: Seq<Seq<u8>>, prefix: Seq<u8>, max_length: u8) -> Seq<RoaV> {
    Seq::new(asns.len(), |k: int| RoaV { prefix, max_length, asn: asns[k] })
}

/// What reconciling a record against the table yields: nothing for a
/// denied route or one too specific for policy, an error naming the
/// prefix when no rule covers it, and otherwise one entry per origin
/// ASN, at the clamped effective maximum length.
pub open spec fn spec_reconcile(rec: RouteRecordV, rules: Seq<FilterRule>) -> Result<
    Seq<RoaV>,
    RecordErrorV,
> {
    match spec_resolve(rules, rec.network.addr) {
        Resolution::Excluded => Ok(Seq::empty()),
        Resolution::Rejected => Err(RecordErrorV::OutOfPolicyRange(rec.prefix_text)),
        Resolution::Allowed(min, max) => {
            let eff = spec_clamp_length(rec.declared_max, min, max);
            if rec.network.prefix_len > eff {
                Ok(Seq::empty())
            } else {
                Ok(roas_of(rec.asns, rec.prefix_text, eff))
            }
        },
    }
}

/// Reconcile one parsed record against the filter table.
pub fn reconcile(rec: &RouteRecord, rules: &Vec<FilterRule>) -> (r: Result<Vec<Roa>, RecordError>)
    requires
        rules_wf(rules@),
        rec.network.wf(),
    ensures
        match (r, spec_reconcile(rec@, rules@)) {
            (Ok(v), Ok(s)) => v.deep_view() =~~= s,
            (Err(e), Err(ev)) => e@ =~~= ev,
            _ => false,
        },
{
    match resolve(rules, &rec.network.addr) {
        Resolution::Excluded => {
            let out: Vec<Roa> = Vec::new();
            proof {
                assert(out.deep_view() =~~= Seq::<RoaV>::empty());
            }
            Ok(out)
        },
        Resolution::Rejected => Err(
            RecordError::OutOfPolicyRange(vstd::slice::slice_to_vec(rec.prefix_text.as_slice())),
        ),
        Resolution::Allowed(min, max) => {
            let eff = clamp_length(rec.declared_max, min, max);
            if rec.network.prefix_len > eff {
                let out: Vec<Roa> = Vec::new();
                proof {
                    assert(out.deep_view() =~~= Seq::<RoaV>::empty());
                }
                Ok(out)
            } else {
                let ghost target = roas_of(rec@.asns, rec@.prefix_text, eff);
                let mut out: Vec<Roa> = Vec::new();
                let mut k: usize = 0;
                while k < rec.asns.len()
                    invariant
                        0 <= k <= rec.asns@.len(),
                        target == roas_of(rec@.asns, rec@.prefix_text, eff),
                        rec@.asns.len() == rec.asns@.len(),
                        out@.len() == k,
                        forall|m: int| 0 <= m < k ==> out.deep_view()[m] =~~= target[m],
                    decreases rec.asns@.len() - k,
                {
                    proof {
                        assert(rec@.asns[k as int] == rec.asns@[k as int]@);
                    }
                    let entry = Roa {
                        prefix: vstd::slice::slice_to_vec(rec.prefix_text.as_slice()),
                        max_length: eff,
                        asn: vstd::slice::slice_to_vec(rec.asns[k].as_slice()),
                    };
                    out.push(entry);
                    k = k + 1;
                }
                proof {
                    assert(out.deep_view() =~~= target);
                }
                Ok(out)
            }
        },
    }
}

/// What processing one record's raw text against the table yields:
/// its parse, then its reconciliation.
pub open spec fn spec_process_record(text: Seq<u8>, rules: Seq<FilterRule>) -> Result<
    Seq<RoaV>,
    RecordErrorV,
> {
    match spec_parse_record(text) {
        Ok(rec) => spec_reconcile(rec, rules),
        Err(e) => Err(e),
    }
}

/// Process one record's raw text: parse it, then reconcile it against
/// the table.
pub fn process_record(text: &[u8], rules: &Vec<FilterRule>) -> (r: Result<Vec<Roa>, RecordError>)
    requires
        rules_wf(rules@),
    ensures
        match (r, spec_process_record(text@, rules@)) {
            (Ok(v), Ok(s)) => v.deep_view() =~~= s,
            (Err(e), Err(ev)) => e@ =~~= ev,
            _ => false,
        },
{
    match parse_record(text) {
        Ok(rec) => reconcile(&rec, rules),
        Err(e) => Err(e),
    }
}

/// Drop conditions: a denied route and a route more specific than the
/// effective maximum both yield no entries and no error, while a route
/// no rule covers yields the out-of-policy error naming its prefix.
pub proof fn lemma_drop_conditions(rec: RouteRecordV, rules: Seq<FilterRule>)
    ensures
        spec_resolve(rules, rec.network.addr) is Excluded ==> spec_reconcile(rec, rules) == Ok::<
            Seq<RoaV>,
            RecordErrorV,
        >(Seq::empty()),
        spec_resolve(rules, rec.network.addr) is Rejected ==> spec_reconcile(rec, rules) == Err::<
            Seq<RoaV>,
            RecordErrorV,
        >(RecordErrorV::OutOfPolicyRange(rec.prefix_text)),
        forall|min: u8, max: u8|
            spec_resolve(rules, rec.network.addr) == Resolution::Allowed(min, max)
                && rec.network.prefix_len > spec_clamp_length(rec.declared_max, min, max)
                ==> spec_reconcile(rec, rules) == Ok::<Seq<RoaV>, RecordErrorV>(Seq::empty()),
{
}

/// Multiplicity: a surviving route with `k` origin ASNs yields exactly
/// `k` entries, one per ASN in the record's order, all with the
/// record's prefix text and the effective maximum length.
pub proof fn lemma_multiplicity(rec: RouteRecordV, rules: Seq<FilterRule>, min: u8, max: u8)
    requires
        spec_resolve(rules, rec.network.addr) == Resolution::Allowed(min, max),
        rec.network.prefix_len <= spec_clamp_length(rec.declared_max, min, max),
    ensures
        (spec_reconcile(rec, rules) is Ok),
        spec_reconcile(rec, rules)->Ok_0.len() == rec.asns.len(),
        forall|k: int|
            0 <= k < rec.asns.len() ==> spec_reconcile(rec, rules)->Ok_0[k] == (RoaV {
                prefix: rec.prefix_text,
                max_length: spec_clamp_length(rec.declared_max, min, max),
                asn: rec.asns[k],
            }),
{
}

} // verus!
