//! The liveness ledger: per-validator observation records, the window policy,
//! report generation and the consistency check.

use vstd::prelude::*;

use crate::authority::AuthorityId;

verus! {

/// How long a validator may go without being seen online before it is
/// reported, in seconds (five minutes).
pub const REPORT_TIME: u64 = 300;

/// Per-validator observation record.
///
/// `offline_since` is not "when the validator went offline" but the most
/// recent round-boundary timestamp at which it was last seen online; the
/// window policy measures elapsed time from this point.
#[derive(Clone, Copy)]
pub struct Observed {
    /// Timestamp of the most recent round boundary this validator was scored at.
    pub last_round_end: u64,
    /// Timestamp of the most recent round boundary at which the validator was
    /// seen online.
    pub offline_since: u64,
}

/// The window policy, on one record: a validator is active when it was seen
/// online less than [`REPORT_TIME`] before the last round boundary.  A record
/// whose timestamps run backwards can only come from a non-monotonic clock and
/// fails open to active, so that clock skew never produces a liveness report.
pub open spec fn record_active(o: Observed) -> bool {
    o.offline_since > o.last_round_end || o.last_round_end - o.offline_since < REPORT_TIME
}

/// The record a validator holds after being scored at a round boundary:
/// `prev` is its entry before the round, `None` when it had none.  Both
/// timestamps of a fresh record start at `now`; an online round refreshes
/// `offline_since`, an offline round leaves it untouched.
pub open spec fn updated_record(prev: Option<Observed>, was_online: bool, now: u64) -> Observed {
    Observed {
        last_round_end: now,
        offline_since: if was_online {
            now
        } else {
            match prev {
                Some(o) => o.offline_since,
                None => now,
            }
        },
    }
}

/// The tracker's judgement of one validator under ledger `m`: a validator
/// without an entry is judged online by definition (absence of data is not
/// evidence of offline behaviour), one with an entry by the window policy.
pub open spec fn judged_online(m: Map<AuthorityId, Observed>, v: AuthorityId) -> bool {
    !m.dom().contains(v) || record_active(m[v])
}

/// The offline report for an ordered validator list under ledger `m`: the
/// positions, in order, of the validators judged offline.
pub open spec fn offline_indices(m: Map<AuthorityId, Observed>, vals: Seq<AuthorityId>) -> Seq<
    u32,
>
    decreases vals.len(),
{
    if vals.len() == 0 {
        Seq::empty()
    } else {
        let prefix = offline_indices(m, vals.drop_last());
        if judged_online(m, vals.last()) {
            prefix
        } else {
            prefix.push((vals.len() - 1) as u32)
        }
    }
}

/// Soundness of an externally supplied report against ledger `m`: every index
/// it names is in bounds and names a validator judged offline locally.
pub open spec fn report_consistent(
    m: Map<AuthorityId, Observed>,
    vals: Seq<AuthorityId>,
    reported: Seq<u32>,
) -> bool {
    forall|j: int|
        0 <= j < reported.len() ==> (#[trigger] reported[j]) < vals.len() && !judged_online(
            m,
            vals[reported[j] as int],
        )
}

impl Observed {
    /// A record created the first time a validator is scored: both timestamps
    /// start at `now`, so a newly observed validator starts active.
    pub fn new(now: u64) -> (o: Observed)
        ensures
            o == (Observed { last_round_end: now, offline_since: now }),
    {
        Observed { last_round_end: now, offline_since: now }
    }

    /// Scores the round that ended at `now`: the round boundary is always
    /// noted, the last-known-good timestamp only when the validator was online.
    pub fn note_round_end(&mut self, was_online: bool, now: u64)
        ensures
            *final(self) == updated_record(Some(*old(self)), was_online, now),
    {
        self.last_round_end = now;
        if was_online {
            self.offline_since = now;
        }
    }

    /// Applies the window policy to this record.
    pub fn is_active(&self) -> (r: bool)
        ensures
            r == record_active(*self),
    {
        // can happen if clocks are not monotonic
        if self.offline_since > self.last_round_end {
            return true;
        }
        self.last_round_end - self.offline_since < REPORT_TIME
    }
}

/// No two ledger entries share a key.
spec fn unique_keys(entries: Seq<(AuthorityId, Observed)>) -> bool {
    forall|p: int, q: int|
        0 <= p < q < entries.len() ==> (#[trigger] entries[p]).0 != (#[trigger] entries[q]).0
}

/// The mapping a list of ledger entries stands for.
spec fn ledger_map(entries: Seq<(AuthorityId, Observed)>) -> Map<AuthorityId, Observed>
    decreases entries.len(),
{
    if entries.len() == 0 {
        Map::empty()
    } else {
        ledger_map(entries.drop_last()).insert(entries.last().0, entries.last().1)
    }
}

proof fn lemma_ledger_map_absent(entries: Seq<(AuthorityId, Observed)>, v: AuthorityId)
    requires
        forall|i: int| 0 <= i < entries.len() ==> (#[trigger] entries[i]).0 != v,
    ensures
        !ledger_map(entries).dom().contains(v),
    decreases entries.len(),
{
    if entries.len() > 0 {
        assert(forall|i: int|
            0 <= i < entries.drop_last().len() ==> (#[trigger] entries.drop_last()[i]).0 != v);
        lemma_ledger_map_absent(entries.drop_last(), v);
    }
}

proof fn lemma_ledger_map_present(entries: Seq<(AuthorityId, Observed)>, i: int)
    requires
        unique_keys(entries),
        0 <= i < entries.len(),
    ensures
        ledger_map(entries).dom().contains(entries[i].0),
        ledger_map(entries)[entries[i].0] == entries[i].1,
    decreases entries.len(),
{
    if i < entries.len() - 1 {
        assert(unique_keys(entries.drop_last()));
        lemma_ledger_map_present(entries.drop_last(), i);
        assert(entries.drop_last()[i] == entries[i]);
        assert(entries[i].0 != entries.last().0);
    }
}

proof fn lemma_ledger_map_push(entries: Seq<(AuthorityId, Observed)>, e: (AuthorityId, Observed))
    ensures
        ledger_map(entries.push(e)) == ledger_map(entries).insert(e.0, e.1),
{
    assert(entries.push(e).drop_last() =~= entries);
    assert(entries.push(e).last() == e);
}

proof fn lemma_ledger_map_update(entries: Seq<(AuthorityId, Observed)>, i: int, e: (AuthorityId, Observed))
    requires
        unique_keys(entries),
        0 <= i < entries.len(),
        e.0 == entries[i].0,
    ensures
        ledger_map(entries.update(i, e)) == ledger_map(entries).insert(e.0, e.1),
    decreases entries.len(),
{
    if i == entries.len() - 1 {
        assert(entries.update(i, e).drop_last() =~= entries.drop_last());
        assert(entries.update(i, e).last() == e);
        assert(ledger_map(entries.drop_last()).insert(entries.last().0, entries.last().1).insert(
            e.0,
            e.1,
        ) =~= ledger_map(entries.drop_last()).insert(e.0, e.1));
    } else {
        assert(unique_keys(entries.drop_last()));
        assert(entries.update(i, e).drop_last() =~= entries.drop_last().update(i, e));
        assert(entries.update(i, e).last() == entries.last());
        lemma_ledger_map_update(entries.drop_last(), i, e);
        assert(entries[i].0 != entries.last().0);
        assert(ledger_map(entries.drop_last()).insert(e.0, e.1).insert(
            entries.last().0,
            entries.last().1,
        ) =~= ledger_map(entries.drop_last()).insert(entries.last().0, entries.last().1).insert(
            e.0,
            e.1,
        ));
    }
}

/// Finds the position of `id` among the entries, if it has one.
fn find_key(entries: &Vec<(AuthorityId, Observed)>, id: &AuthorityId) -> (r: Option<usize>)
    ensures
        match r {
            Some(i) => i < entries@.len() && entries@[i as int].0 == *id,
            None => forall|j: int| 0 <= j < entries@.len() ==> (#[trigger] entries@[j]).0 != *id,
        },
{
    let mut i: usize = 0;
    while i < entries.len()
        invariant
            i <= entries@.len(),
            forall|j: int| 0 <= j < i ==> (#[trigger] entries@[j]).0 != *id,
        decreases entries@.len() - i,
    {
        if entries[i].0 == *id {
            return Some(i);
        }
        i = i + 1;
    }
    None
}

/// Whether `id` occurs in the slice.
fn slice_contains(ids: &[AuthorityId], id: &AuthorityId) -> (r: bool)
    ensures
        r == ids@.contains(*id),
{
    let mut i: usize = 0;
    while i < ids.len()
        invariant
            i <= ids@.len(),
            forall|j: int| 0 <= j < i ==> ids@[j] != *id,
        decreases ids@.len() - i,
    {
        if ids[i] == *id {
            assert(ids@[i as int] == *id);
            return true;
        }
        i = i + 1;
    }
    false
}

/// Tracks offline validators and can issue a report for those offline.
///
/// Its view (`self@`) is the mapping from validator identity to observation
/// record that the ledger currently holds.
pub struct OfflineTracker {
    observed: Vec<(AuthorityId, Observed)>,
}

impl View for OfflineTracker {
    type V = Map<AuthorityId, Observed>;

    closed spec fn view(&self) -> Map<AuthorityId, Observed> {
        ledger_map(self.observed@)
    }
}

impl OfflineTracker {
    #[verifier::type_invariant]
    spec fn wf(&self) -> bool {
        unique_keys(self.observed@)
    }

    /// Create a new tracker.
    pub fn new() -> (t: OfflineTracker)
        ensures
            t@ == Map::<AuthorityId, Observed>::empty(),
    {
        OfflineTracker { observed: Vec::new() }
    }

    /// Note new consensus is starting with the given set of validators:
    /// entries for validators outside the set are dropped, entries for those
    /// inside it are kept unchanged.
    pub fn note_new_block(&mut self, validators: &[AuthorityId])
        ensures
            final(self)@ == old(self)@.restrict(validators@.to_set()),
    {
        proof {
            use_type_invariant(&*self);
        }
        let ghost keep = validators@.to_set();
        let mut v: Vec<(AuthorityId, Observed)> = Vec::new();
        std::mem::swap(&mut v, &mut self.observed);
        let ghost orig = v@;
        let mut kept: Vec<(AuthorityId, Observed)> = Vec::new();
        let n = v.len();
        let mut i: usize = 0;
        while i < n
            invariant
                keep == validators@.to_set(),
                n == orig.len(),
                v@ == orig,
                unique_keys(orig),
                i <= n,
                forall|k: int|
                    0 <= k < kept@.len() ==> exists|j: int|
                        0 <= j < i && orig[j] == (#[trigger] kept@[k]),
                unique_keys(kept@),
                ledger_map(kept@) == ledger_map(orig.take(i as int)).restrict(keep),
            decreases n - i,
        {
            let e = v[i];
            proof {
                assert(orig.take(i as int + 1) =~= orig.take(i as int).push(orig[i as int]));
                lemma_ledger_map_push(orig.take(i as int), orig[i as int]);
            }
            if slice_contains(validators, &e.0) {
                proof {
                    assert forall|k: int| 0 <= k < kept@.len() implies (#[trigger] kept@[k]).0
                        != e.0 by {
                        let j = choose|j: int| 0 <= j < i && orig[j] == kept@[k];
                        assert(orig[j].0 != orig[i as int].0);
                    }
                    assert(keep.contains(e.0));
                    assert(ledger_map(orig.take(i as int)).restrict(keep).insert(e.0, e.1)
                        =~= ledger_map(orig.take(i as int)).insert(e.0, e.1).restrict(keep));
                    lemma_ledger_map_push(kept@, e);
                }
                kept.push(e);
            } else {
                proof {
                    assert(!keep.contains(e.0));
                    assert(ledger_map(orig.take(i as int)).insert(e.0, e.1).restrict(keep)
                        =~= ledger_map(orig.take(i as int)).restrict(keep));
                }
            }
            i = i + 1;
        }
        proof {
            assert(orig.take(n as int) =~= orig);
        }
        self.observed = kept;
    }

    /// Note that a round ended at timestamp `now` and whether `validator` took
    /// part in it.  A validator without an entry gets one first, with both
    /// timestamps set to `now`.
    pub fn note_round_end(&mut self, validator: AuthorityId, was_online: bool, now: u64)
        ensures
            final(self)@ == old(self)@.insert(
                validator,
                updated_record(
                    if old(self)@.dom().contains(validator) {
                        Some(old(self)@[validator])
                    } else {
                        None
                    },
                    was_online,
                    now,
                ),
            ),
    {
        proof {
            use_type_invariant(&*self);
        }
        let mut v: Vec<(AuthorityId, Observed)> = Vec::new();
        std::mem::swap(&mut v, &mut self.observed);
        let ghost orig = v@;
        match find_key(&v, &validator) {
            Some(i) => {
                proof {
                    lemma_ledger_map_present(orig, i as int);
                }
                let mut rec = v[i].1;
                rec.note_round_end(was_online, now);
                v[i] = (validator, rec);
                proof {
                    lemma_ledger_map_update(orig, i as int, (validator, rec));
                    assert forall|p: int, q: int| 0 <= p < q < v@.len() implies (#[trigger] v@[p]).0
                        != (#[trigger] v@[q]).0 by {
                        assert(v@[p].0 == orig[p].0);
                        assert(v@[q].0 == orig[q].0);
                    }
                }
            },
            None => {
                proof {
                    lemma_ledger_map_absent(orig, validator);
                }
                let mut rec = Observed::new(now);
                rec.note_round_end(was_online, now);
                v.push((validator, rec));
                proof {
                    lemma_ledger_map_push(orig, (validator, rec));
                }
            },
        }
        self.observed = v;
    }

    /// Generate a vector of indices for offline validators: position `i` of
    /// `validators` is included exactly when the tracker judges that validator
    /// offline.
    pub fn reports(&self, validators: &[AuthorityId]) -> (r: Vec<u32>)
        requires
            validators@.len() <= u32::MAX,
        ensures
            r@ == offline_indices(self@, validators@),
    {
        let mut out: Vec<u32> = Vec::new();
        let n = validators.len();
        let mut i: usize = 0;
        while i < n
            invariant
                n == validators@.len() <= u32::MAX,
                i <= n,
                out@ == offline_indices(self@, validators@.take(i as int)),
            decreases n - i,
        {
            let ghost prefix = validators@.take(i as int);
            proof {
                assert(validators@.take(i as int + 1) =~= prefix.push(validators@[i as int]));
                assert(prefix.push(validators@[i as int]).drop_last() =~= prefix);
            }
            if !self.is_online(&validators[i]) {
                out.push(i as u32);
            }
            i = i + 1;
        }
        proof {
            assert(validators@.take(n as int) =~= validators@);
        }
        out
    }

    /// Whether reports on a validator set are consistent with our view of
    /// things: every reported index must be in bounds and name a validator we
    /// also judge offline.  Soundness only: a report may omit validators we
    /// believe offline and still pass.
    pub fn check_consistency(&self, validators: &[AuthorityId], reports: &[u32]) -> (r: bool)
        ensures
            r == report_consistent(self@, validators@, reports@),
    {
        let mut j: usize = 0;
        while j < reports.len()
            invariant
                j <= reports@.len(),
                forall|k: int|
                    0 <= k < j ==> (#[trigger] reports@[k]) < validators@.len() && !judged_online(
                        self@,
                        validators@[reports@[k] as int],
                    ),
            decreases reports@.len() - j,
        {
            let idx = reports[j];
            if idx as usize >= validators.len() {
                assert(!report_consistent(self@, validators@, reports@)) by {
                    assert(reports@[j as int] >= validators@.len());
                }
                return false;
            }
            // we must think all validators reported externally are offline.
            if self.is_online(&validators[idx as usize]) {
                assert(!report_consistent(self@, validators@, reports@)) by {
                    assert(judged_online(self@, validators@[reports@[j as int] as int]));
                }
                return false;
            }
            j = j + 1;
        }
        true
    }

    /// The tracker's judgement of one validator: active when it has no entry
    /// or its entry passes the window policy.
    pub fn is_online(&self, v: &AuthorityId) -> (r: bool)
        ensures
            r == judged_online(self@, *v),
    {
        proof {
            use_type_invariant(self);
        }
        match find_key(&self.observed, v) {
            Some(i) => {
                proof {
                    lemma_ledger_map_present(self.observed@, i as int);
                }
                self.observed[i].1.is_active()
            },
            None => {
                proof {
                    lemma_ledger_map_absent(self.observed@, *v);
                }
                true
            },
        }
    }
}

} // verus!
