//! The dataset assembler: every authorization entry from every record,
//! wrapped with a count and the generation and validity instants.

use vstd::prelude::*;

use crate::filter::FilterRule;
use crate::filter::add_filter_rules;
use crate::filter::lemma_rules_of_lines_wf;
use crate::filter::rules_wf;
use crate::filter::spec_filter_rules;
use crate::reconcile::Roa;
use crate::reconcile::RoaV;
use crate::reconcile::process_record;
use crate::reconcile::spec_process_record;
use crate::record::RecordError;
use crate::record::RecordErrorV;
use crate::text::spec_split;

verus! {

/// How long a dataset stays valid after its generation: seven days, in
/// seconds.
pub const WEEK_SECONDS: u64 = 604800;

/// Counts and instants describing one generated dataset.
#[derive(Clone, Copy, PartialEq, Eq, Structural, Debug)]
pub struct Metadata {
    pub counts: usize,
    pub generated: u64,
    pub valid: u64,
}

/// The final dataset: metadata plus the authorization entries, in
/// processing order.
#[derive(Clone, Debug)]
pub struct Dataset {
    pub metadata: Metadata,
    pub roas: Vec<Roa>,
}

/// Mathematical image of `Dataset`.
#[verifier::ext_equal]
pub struct DatasetV {
    pub metadata: Metadata,
    pub roas: Seq<RoaV>,
}

impl View for Dataset {
    type V = DatasetV;

    open spec fn view(&self) -> DatasetV {
        DatasetV { metadata: self.metadata, roas: self.roas.deep_view() }
    }
}

/// The entries that a batch of record texts yields, in record order; a
/// record that fails contributes none, and the batch never fails.
pub open spec fn entries_of(recs: Seq<Seq<u8>>, rules: Seq<FilterRule>) -> Seq<RoaV>
    decreases recs.len(),
{
    if recs.len() == 0 {
        Seq::empty()
    } else {
        entries_of(recs.drop_last(), rules) + match spec_process_record(recs.last(), rules) {
            Ok(es) => es,
            Err(_) => Seq::empty(),
        }
    }
}

/// The per-record errors that a batch of record texts yields, in record
/// order.
pub open spec fn issues_of(recs: Seq<Seq<u8>>, rules: Seq<FilterRule>) -> Seq<RecordErrorV>
    decreases recs.len(),
{
    if recs.len() == 0 {
        Seq::empty()
    } else {
        issues_of(recs.drop_last(), rules) + match spec_process_record(recs.last(), rules) {
            Ok(_) => Seq::empty(),
            Err(e) => seq![e],
        }
    }
}

pub proof fn lemma_entries_of_take_step(recs: Seq<Seq<u8>>, rules: Seq<FilterRule>, i: int)
    requires
        0 <= i < recs.len(),
    ensures
        entries_of(recs.take(i + 1), rules) == entries_of(recs.take(i), rules) + match spec_process_record(
            recs[i],
            rules,
        ) {
            Ok(es) => es,
            Err(_) => Seq::<RoaV>::empty(),
        },
        issues_of(recs.take(i + 1), rules) == issues_of(recs.take(i), rules) + match spec_process_record(
            recs[i],
            rules,
        ) {
            Ok(_) => Seq::<RecordErrorV>::empty(),
            Err(e) => seq![e],
        },
{
    assert(recs.take(i + 1).drop_last() =~~= recs.take(i));
    assert(recs.take(i + 1).last() == recs[i]);
}

/// Batches concatenate: processing two batches one after the other
/// yields the concatenation of what each yields alone.
pub proof fn lemma_batch_concat(a: Seq<Seq<u8>>, b: Seq<Seq<u8>>, rules: Seq<FilterRule>)
    ensures
        entries_of(a + b, rules) =~~= entries_of(a, rules) + entries_of(b, rules),
        issues_of(a + b, rules) =~~= issues_of(a, rules) + issues_of(b, rules),
    decreases b.len(),
{
    if b.len() == 0 {
        assert(a + b =~~= a);
    } else {
        assert((a + b).drop_last() =~~= a + b.drop_last());
        assert((a + b).last() == b.last());
        lemma_batch_concat(a, b.drop_last(), rules);
    }
}

/// A record that fails never stops the run: it contributes exactly its
/// error and no entries, and every record around it contributes as it
/// would without it.
pub proof fn lemma_failing_record_skipped(recs: Seq<Seq<u8>>, rules: Seq<FilterRule>, i: int)
    requires
        0 <= i < recs.len(),
        (spec_process_record(recs[i], rules) is Err),
    ensures
        entries_of(recs, rules) =~~= entries_of(recs.take(i), rules) + entries_of(
            recs.skip(i + 1),
            rules,
        ),
        issues_of(recs, rules) =~~= issues_of(recs.take(i), rules) + seq![
            spec_process_record(recs[i], rules)->Err_0,
        ] + issues_of(recs.skip(i + 1), rules),
{
    let one = seq![recs[i]];
    assert(recs =~~= recs.take(i) + one + recs.skip(i + 1));
    lemma_batch_concat(recs.take(i) + one, recs.skip(i + 1), rules);
    lemma_batch_concat(recs.take(i), one, rules);
    assert(one.drop_last() =~~= Seq::<Seq<u8>>::empty());
    assert(one.last() == recs[i]);
    assert(entries_of(Seq::<Seq<u8>>::empty(), rules) =~~= Seq::<RoaV>::empty());
    assert(issues_of(Seq::<Seq<u8>>::empty(), rules) =~~= Seq::<RecordErrorV>::empty());
    assert(entries_of(one, rules) =~~= Seq::<RoaV>::empty());
    assert(issues_of(one, rules) =~~= seq![spec_process_record(recs[i], rules)->Err_0]);
}

/// Process a batch of record texts against the table, appending each
/// record's entries and reporting each record's error, in record order.
pub fn process_batch(
    recs: &Vec<Vec<u8>>,
    rules: &Vec<FilterRule>,
    roas: &mut Vec<Roa>,
    issues: &mut Vec<RecordError>,
)
    requires
        rules_wf(rules@),
    ensures
        final(roas).deep_view() =~~= old(roas).deep_view() + entries_of(
            recs.deep_view(),
            rules@,
        ),
        final(issues).deep_view() =~~= old(issues).deep_view() + issues_of(
            recs.deep_view(),
            rules@,
        ),
{
    let ghost rv = recs.deep_view();
    let ghost roas0 = roas.deep_view();
    let ghost issues0 = issues.deep_view();
    let mut i: usize = 0;
    proof {
        assert(rv.take(0int) =~~= Seq::<Seq<u8>>::empty());
        assert(roas.deep_view() =~~= roas0 + entries_of(rv.take(0int), rules@));
        assert(issues.deep_view() =~~= issues0 + issues_of(rv.take(0int), rules@));
    }
    while i < recs.len()
        invariant
            0 <= i <= rv.len(),
            rv == recs.deep_view(),
            rv.len() == recs@.len(),
            rules_wf(rules@),
            roas.deep_view() =~~= roas0 + entries_of(rv.take(i as int), rules@),
            issues.deep_view() =~~= issues0 + issues_of(rv.take(i as int), rules@),
        decreases recs@.len() - i,
    {
        proof {
            assert(rv[i as int] == recs@[i as int]@);
            lemma_entries_of_take_step(rv, rules@, i as int);
        }
        let ghost roas_pre = roas.deep_view();
        let ghost issues_pre = issues.deep_view();
        match process_record(recs[i].as_slice(), rules) {
            Ok(mut es) => {
                let ghost esv = es.deep_view();
                roas.append(&mut es);
                proof {
                    assert(roas.deep_view() =~~= roas_pre + esv);
                    assert(roas.deep_view() =~~= roas0 + entries_of(rv.take(i + 1), rules@));
                    assert(issues.deep_view() =~~= issues0 + issues_of(rv.take(i + 1), rules@));
                }
            },
            Err(e) => {
                let ghost ev = e.deep_view();
                issues.push(e);
                proof {
                    assert(issues.deep_view() =~~= issues_pre.push(ev));
                    assert(roas.deep_view() =~~= roas0 + entries_of(rv.take(i + 1), rules@));
                    assert(issues.deep_view() =~~= issues0 + issues_of(rv.take(i + 1), rules@));
                }
            },
        }
        i = i + 1;
    }
    proof {
        assert(rv.take(rv.len() as int) =~~= rv);
    }
}

/// Wrap the collected entries with their count and the generation and
/// validity instants: the dataset is valid for a week from `now`.
pub fn assemble(roas: Vec<Roa>, now: u64) -> (d: Dataset)
    requires
        now + WEEK_SECONDS <= u64::MAX,
    ensures
        d.metadata.counts == d@.roas.len(),
        d.metadata.generated == now,
        d.metadata.valid == now + WEEK_SECONDS,
        d@.roas == roas.deep_view(),
{
    let counts = roas.len();
    Dataset { metadata: Metadata { counts, generated: now, valid: now + WEEK_SECONDS }, roas }
}

/// What one full run denotes: one table built from both filter sources
/// in order, both record batches processed against it in order, and the
/// metadata drawn from the entry count and the clock.
pub open spec fn spec_run(
    f4: Seq<u8>,
    f6: Seq<u8>,
    r4: Seq<Seq<u8>>,
    r6: Seq<Seq<u8>>,
    now: u64,
) -> DatasetV {
    let rules = spec_filter_rules(f4) + spec_filter_rules(f6);
    let entries = entries_of(r4, rules) + entries_of(r6, rules);
    DatasetV {
        metadata: Metadata {
            counts: entries.len() as usize,
            generated: now,
            valid: (now + WEEK_SECONDS) as u64,
        },
        roas: entries,
    }
}

/// The per-record errors that one full run reports, in processing
/// order. They depend on the snapshot alone, never on the clock.
pub open spec fn spec_run_issues(
    f4: Seq<u8>,
    f6: Seq<u8>,
    r4: Seq<Seq<u8>>,
    r6: Seq<Seq<u8>>,
) -> Seq<RecordErrorV> {
    let rules = spec_filter_rules(f4) + spec_filter_rules(f6);
    issues_of(r4, rules) + issues_of(r6, rules)
}

/// Run the whole computation on an already-captured snapshot: the two
/// filter sources' texts, the two batches of record texts, and the
/// clock's reading. Yields the dataset and the per-record errors.
pub fn build_dataset(
    filter4: &[u8],
    filter6: &[u8],
    records4: &Vec<Vec<u8>>,
    records6: &Vec<Vec<u8>>,
    now: u64,
) -> (out: (Dataset, Vec<RecordError>))
    requires
        now + WEEK_SECONDS <= u64::MAX,
    ensures
        out.0@ =~~= spec_run(filter4@, filter6@, records4.deep_view(), records6.deep_view(), now),
        out.1.deep_view() =~~= spec_run_issues(
            filter4@,
            filter6@,
            records4.deep_view(),
            records6.deep_view(),
        ),
{
    let mut rules: Vec<FilterRule> = Vec::new();
    add_filter_rules(filter4, &mut rules);
    add_filter_rules(filter6, &mut rules);
    proof {
        lemma_rules_of_lines_wf(spec_split(filter4@, 10));
        lemma_rules_of_lines_wf(spec_split(filter6@, 10));
        assert forall|k: int| 0 <= k < rules@.len() implies (#[trigger] rules@[k]).wf() by {
            if k < spec_filter_rules(filter4@).len() {
                assert(rules@[k] == spec_filter_rules(filter4@)[k]);
            } else {
                assert(rules@[k] == spec_filter_rules(filter6@)[k - spec_filter_rules(
                    filter4@,
                ).len()]);
            }
        }
    }
    let mut roas: Vec<Roa> = Vec::new();
    let mut issues: Vec<RecordError> = Vec::new();
    process_batch(records4, &rules, &mut roas, &mut issues);
    process_batch(records6, &rules, &mut roas, &mut issues);
    let d = assemble(roas, now);
    (d, issues)
}

/// With the snapshot fixed, two runs agree on the entries, their order
/// and the count, whatever the clock said; only the generation and
/// validity instants follow the clock, the latter a week after the
/// former. The reported errors do not depend on the clock at all.
pub proof fn lemma_runs_agree_up_to_clock(
    f4: Seq<u8>,
    f6: Seq<u8>,
    r4: Seq<Seq<u8>>,
    r6: Seq<Seq<u8>>,
    t1: u64,
    t2: u64,
)
    requires
        t1 + WEEK_SECONDS <= u64::MAX,
        t2 + WEEK_SECONDS <= u64::MAX,
    ensures
        spec_run(f4, f6, r4, r6, t1).roas == spec_run(f4, f6, r4, r6, t2).roas,
        spec_run(f4, f6, r4, r6, t1).metadata.counts == spec_run(
            f4,
            f6,
            r4,
            r6,
            t2,
        ).metadata.counts,
        spec_run(f4, f6, r4, r6, t1).metadata.generated == t1,
        spec_run(f4, f6, r4, r6, t1).metadata.valid == t1 + WEEK_SECONDS,
{
}

} // verus!
