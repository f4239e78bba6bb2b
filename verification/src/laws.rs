//! Laws of the tracker: properties of the window policy, the report
//! generator and the consistency check that hold for every ledger state.

use vstd::prelude::*;

use crate::authority::AuthorityId;
use crate::tracker::judged_online;
use crate::tracker::offline_indices;
use crate::tracker::record_active;
use crate::tracker::report_consistent;
use crate::tracker::updated_record;
use crate::tracker::Observed;
use crate::tracker::REPORT_TIME;

verus! {

/// A validator the ledger holds no entry for is judged online: absence of
/// data is not evidence of offline behaviour.
pub proof fn lemma_untracked_validator_online(m: Map<AuthorityId, Observed>, v: AuthorityId)
    requires
        !m.dom().contains(v),
    ensures
        judged_online(m, v),
{
}

/// A round scored as online leaves the validator's record active at once,
/// whatever the record held before.
pub proof fn lemma_online_round_makes_active(prev: Option<Observed>, now: u64)
    ensures
        record_active(updated_record(prev, true, now)),
{
}

/// A record created fresh at a round boundary is active, however the round
/// was scored: a validator that re-appears after being dropped starts over
/// with no offline history.
pub proof fn lemma_fresh_record_active(was_online: bool, now: u64)
    ensures
        record_active(updated_record(None, was_online, now)),
{
}

/// The record a validator holds after a run of rounds all scored offline, at
/// the given round-boundary timestamps.
pub open spec fn after_offline_rounds(o: Observed, times: Seq<u64>) -> Observed
    decreases times.len(),
{
    if times.len() == 0 {
        o
    } else {
        updated_record(Some(after_offline_rounds(o, times.drop_last())), false, times.last())
    }
}

/// Rounds scored offline never move the last-known-good timestamp, so the
/// inactivity window keeps growing from the same point.
pub proof fn lemma_offline_rounds_keep_offline_since(o: Observed, times: Seq<u64>)
    ensures
        after_offline_rounds(o, times).offline_since == o.offline_since,
    decreases times.len(),
{
    if times.len() > 0 {
        lemma_offline_rounds_keep_offline_since(o, times.drop_last());
    }
}

/// After a round scored as online at `t`, the validator stays active through
/// every later run of rounds scored offline whose boundary timestamps all lie
/// within [`REPORT_TIME`] of `t`.
pub proof fn lemma_recent_online_stays_active(prev: Option<Observed>, t: u64, times: Seq<u64>)
    requires
        forall|k: int| 0 <= k < times.len() ==> times[k] - t < REPORT_TIME,
    ensures
        forall|k: int|
            0 <= k <= times.len() ==> record_active(
                after_offline_rounds(updated_record(prev, true, t), #[trigger] times.take(k)),
            ),
{
    let o0 = updated_record(prev, true, t);
    assert forall|k: int| 0 <= k <= times.len() implies record_active(
        after_offline_rounds(o0, #[trigger] times.take(k)),
    ) by {
        lemma_offline_rounds_keep_offline_since(o0, times.take(k));
        if k > 0 {
            assert(times.take(k).last() == times[k - 1]);
        }
    }
}

/// An offline round whose boundary lies [`REPORT_TIME`] or more past the
/// last-known-good timestamp leaves the record inactive.
pub proof fn lemma_stale_offline_round_inactive(o: Observed, now: u64)
    requires
        now - o.offline_since >= REPORT_TIME,
    ensures
        !record_active(updated_record(Some(o), false, now)),
{
}

/// A tracked validator whose elapsed inactivity has reached the window length
/// is named in the generated report, at its position in the validator list.
pub proof fn lemma_stale_validator_reported(
    m: Map<AuthorityId, Observed>,
    vals: Seq<AuthorityId>,
    i: int,
)
    requires
        0 <= i < vals.len() <= u32::MAX,
        m.dom().contains(vals[i]),
        m[vals[i]].offline_since <= m[vals[i]].last_round_end,
        m[vals[i]].last_round_end - m[vals[i]].offline_since >= REPORT_TIME,
    ensures
        offline_indices(m, vals).contains(i as u32),
{
    lemma_offline_indices_members(m, vals);
}

/// Everything the report generator names is a position of the validator list
/// holding a validator judged offline, and every such position is named:
/// membership in the report characterises the tracker's judgement.
pub proof fn lemma_offline_indices_members(m: Map<AuthorityId, Observed>, vals: Seq<AuthorityId>)
    requires
        vals.len() <= u32::MAX,
    ensures
        forall|k: int|
            0 <= k < offline_indices(m, vals).len() ==> (#[trigger] offline_indices(m, vals)[k])
                < vals.len() && !judged_online(m, vals[offline_indices(m, vals)[k] as int]),
        forall|i: int|
            0 <= i < vals.len() ==> (!judged_online(m, vals[i]) <==> offline_indices(
                m,
                vals,
            ).contains(i as u32)),
    decreases vals.len(),
{
    if vals.len() > 0 {
        let out = offline_indices(m, vals);
        let sub = offline_indices(m, vals.drop_last());
        lemma_offline_indices_members(m, vals.drop_last());
        assert forall|k: int| 0 <= k < out.len() implies (#[trigger] out[k]) < vals.len()
            && !judged_online(m, vals[out[k] as int]) by {
            if k < sub.len() {
                assert(out[k] == sub[k]);
                assert(vals.drop_last()[sub[k] as int] == vals[sub[k] as int]);
            }
        }
        assert forall|i: int| 0 <= i < vals.len() implies (!judged_online(m, vals[i])
            <==> out.contains(i as u32)) by {
            if i < vals.len() - 1 {
                assert(vals.drop_last()[i] == vals[i]);
                if sub.contains(i as u32) {
                    let k = choose|k: int| 0 <= k < sub.len() && sub[k] == i as u32;
                    assert(out[k] == i as u32);
                    assert(out.contains(i as u32));
                }
                if out.contains(i as u32) {
                    let k = choose|k: int| 0 <= k < out.len() && out[k] == i as u32;
                    if k < sub.len() {
                        assert(sub[k] == i as u32);
                        assert(sub.contains(i as u32));
                    } else {
                        assert(out[k] == (vals.len() - 1) as u32);
                    }
                }
            } else {
                if !judged_online(m, vals[i]) {
                    assert(out[out.len() - 1] == i as u32);
                    assert(out.contains(i as u32));
                }
                if out.contains(i as u32) {
                    let k = choose|k: int| 0 <= k < out.len() && out[k] == i as u32;
                    if k < sub.len() {
                        assert(sub[k] < vals.drop_last().len());
                    }
                }
            }
        }
    }
}

/// The report generator's output is strictly increasing, and every index it
/// names lies below the length of the validator list.
pub proof fn lemma_report_indices_increasing(m: Map<AuthorityId, Observed>, vals: Seq<AuthorityId>)
    requires
        vals.len() <= u32::MAX,
    ensures
        forall|p: int, q: int|
            0 <= p < q < offline_indices(m, vals).len() ==> offline_indices(m, vals)[p]
                < offline_indices(m, vals)[q],
        forall|k: int|
            0 <= k < offline_indices(m, vals).len() ==> (#[trigger] offline_indices(m, vals)[k])
                < vals.len(),
    decreases vals.len(),
{
    lemma_offline_indices_members(m, vals);
    if vals.len() > 0 {
        let out = offline_indices(m, vals);
        let sub = offline_indices(m, vals.drop_last());
        lemma_report_indices_increasing(m, vals.drop_last());
        lemma_offline_indices_members(m, vals.drop_last());
        assert forall|p: int, q: int| 0 <= p < q < out.len() implies out[p] < out[q] by {
            if q < sub.len() {
                assert(out[p] == sub[p] && out[q] == sub[q]);
            } else if out.len() == sub.len() + 1 && q == sub.len() {
                assert(out[p] == sub[p]);
                assert(sub[p] < vals.drop_last().len());
                assert(out[q] == (vals.len() - 1) as u32);
            }
        }
    }
}

/// Dropping a validator from the tracked set removes its entry entirely:
/// nothing of its history survives a reset that leaves it out.
pub proof fn lemma_reset_forgets_dropped(
    m: Map<AuthorityId, Observed>,
    kept: Set<AuthorityId>,
    v: AuthorityId,
)
    requires
        !kept.contains(v),
    ensures
        !m.restrict(kept).dom().contains(v),
{
}

/// A reset keeps the records of the validators it retains unchanged.
pub proof fn lemma_reset_keeps_retained(
    m: Map<AuthorityId, Observed>,
    kept: Set<AuthorityId>,
    v: AuthorityId,
)
    requires
        kept.contains(v),
        m.dom().contains(v),
    ensures
        m.restrict(kept).dom().contains(v),
        m.restrict(kept)[v] == m[v],
{
}

/// A report naming an index outside the validator list is never consistent.
pub proof fn lemma_out_of_bounds_report_inconsistent(
    m: Map<AuthorityId, Observed>,
    vals: Seq<AuthorityId>,
    reported: Seq<u32>,
    j: int,
)
    requires
        0 <= j < reported.len(),
        reported[j] >= vals.len(),
    ensures
        !report_consistent(m, vals, reported),
{
}

/// A report is consistent exactly when every index it names also appears in
/// the locally generated report: soundness is required of it, completeness is
/// not.
pub proof fn lemma_consistent_iff_subset_of_reports(
    m: Map<AuthorityId, Observed>,
    vals: Seq<AuthorityId>,
    reported: Seq<u32>,
)
    requires
        vals.len() <= u32::MAX,
    ensures
        report_consistent(m, vals, reported) <==> (forall|j: int|
            0 <= j < reported.len() ==> offline_indices(m, vals).contains(#[trigger] reported[j])),
{
    lemma_offline_indices_members(m, vals);
    let out = offline_indices(m, vals);
    if report_consistent(m, vals, reported) {
        assert forall|j: int| 0 <= j < reported.len() implies out.contains(
            #[trigger] reported[j],
        ) by {
            assert(reported[j] < vals.len() && !judged_online(m, vals[reported[j] as int]));
            assert(out.contains((reported[j] as int) as u32));
            assert((reported[j] as int) as u32 == reported[j]);
        }
    }
    if forall|j: int| 0 <= j < reported.len() ==> out.contains(#[trigger] reported[j]) {
        assert forall|j: int| 0 <= j < reported.len() implies (#[trigger] reported[j]) < vals.len()
            && !judged_online(m, vals[reported[j] as int]) by {
            assert(out.contains(reported[j]));
            let k = choose|k: int| 0 <= k < out.len() && out[k] == reported[j];
            assert(out[k] < vals.len() && !judged_online(m, vals[out[k] as int]));
        }
    }
}

} // verus!
