//! What applying resources came to, one by one and as a whole.
use vstd::prelude::*;
use crate::converge::inventory::ResourceRef;
use crate::converge::outcome::OutcomeLattice;

verus! {

/// What changed in an update.
#[derive(Clone, Debug, PartialEq, Eq)]
pub struct ApplyDiff {
    pub fields_changed: u32,
    pub summary: String,
}

impl ApplyDiff {
    pub fn new(fields_changed: u32, summary: &str) -> (r: Self)
        ensures
            r.fields_changed == fields_changed,
            r.summary@ == summary@,
    {
        ApplyDiff { fields_changed, summary: summary.to_owned() }
    }
}

impl Default for ApplyDiff {
    fn default() -> (r: Self)
        ensures
            r.fields_changed == 0,
            r.summary@.len() == 0,
    {
        ApplyDiff { fields_changed: 0, summary: String::new() }
    }
}

/// What became of one resource.
#[derive(Clone, Debug, PartialEq, Eq)]
pub enum ApplyOutcome<T> {
    Created { payload: T },
    Updated { payload: T, diff: ApplyDiff },
    Unchanged { payload: T },
    Deleted { ref_: ResourceRef },
    /// Left for later.
    Skipped { reason: String },
    Failed { reason: String, error: String },
    /// Someone else owns some of the fields.
    Conflict { conflict_with: String, fields: Vec<String> },
}

/// The name of an outcome.
pub open spec fn outcome_kind<T>(o: ApplyOutcome<T>) -> Seq<char> {
    match o {
        ApplyOutcome::Created { .. } => "created"@,
        ApplyOutcome::Updated { .. } => "updated"@,
        ApplyOutcome::Unchanged { .. } => "unchanged"@,
        ApplyOutcome::Deleted { .. } => "deleted"@,
        ApplyOutcome::Skipped { .. } => "skipped"@,
        ApplyOutcome::Failed { .. } => "failed"@,
        ApplyOutcome::Conflict { .. } => "conflict"@,
    }
}

impl<T> ApplyOutcome<T> {
    /// The name of the outcome.
    pub fn kind(&self) -> (r: &'static str)
        ensures
            r@ == outcome_kind(*self),
    {
        match self {
            ApplyOutcome::Created { .. } => "created",
            ApplyOutcome::Updated { .. } => "updated",
            ApplyOutcome::Unchanged { .. } => "unchanged",
            ApplyOutcome::Deleted { .. } => "deleted",
            ApplyOutcome::Skipped { .. } => "skipped",
            ApplyOutcome::Failed { .. } => "failed",
            ApplyOutcome::Conflict { .. } => "conflict",
        }
    }

    /// Whether the resource is as it shall be.
    pub fn is_success(&self) -> (r: bool)
        ensures
            r == (self is Created || self is Updated || self is Unchanged || self is Deleted),
    {
        match self {
            ApplyOutcome::Created { .. } | ApplyOutcome::Updated { .. } | ApplyOutcome::Unchanged { .. }
            | ApplyOutcome::Deleted { .. } => true,
            _ => false,
        }
    }

    pub fn is_failed(&self) -> (r: bool)
        ensures
            r == (self is Failed || self is Conflict),
    {
        match self {
            ApplyOutcome::Failed { .. } | ApplyOutcome::Conflict { .. } => true,
            _ => false,
        }
    }

    pub fn is_skipped(&self) -> (r: bool)
        ensures
            r == (self is Skipped),
    {
        match self {
            ApplyOutcome::Skipped { .. } => true,
            _ => false,
        }
    }

    /// Whether anything was changed.
    pub fn changed_state(&self) -> (r: bool)
        ensures
            r == (self is Created || self is Updated || self is Deleted),
    {
        match self {
            ApplyOutcome::Created { .. } | ApplyOutcome::Updated { .. } | ApplyOutcome::Deleted { .. } => true,
            _ => false,
        }
    }
}

/// Every outcome is a success, a failure or left for later, and only one of
/// them; only a success changes anything.
pub proof fn law_outcomes_are_told_apart<T>(o: ApplyOutcome<T>)
    ensures
        ({
            let success = o is Created || o is Updated || o is Unchanged || o is Deleted;
            let failed = o is Failed || o is Conflict;
            let skipped = o is Skipped;
            let changed = o is Created || o is Updated || o is Deleted;
            &&& success || failed || skipped
            &&& !(success && failed) && !(success && skipped) && !(failed && skipped)
            &&& changed ==> success
        }),
{
}

/// How many outcomes there are of each kind.
#[derive(Clone, Copy, Debug, PartialEq, Eq, Structural)]
pub struct ApplyCounts {
    pub created: usize,
    pub updated: usize,
    pub unchanged: usize,
    pub deleted: usize,
    pub skipped: usize,
    pub failed: usize,
    pub conflict: usize,
}

impl Default for ApplyCounts {
    fn default() -> (r: Self)
        ensures
            r == (ApplyCounts {
                created: 0,
                updated: 0,
                unchanged: 0,
                deleted: 0,
                skipped: 0,
                failed: 0,
                conflict: 0,
            }),
    {
        ApplyCounts {
            created: 0,
            updated: 0,
            unchanged: 0,
            deleted: 0,
            skipped: 0,
            failed: 0,
            conflict: 0,
        }
    }
}

impl ApplyCounts {
    /// The sum of all counts.
    pub open spec fn sum(&self) -> int {
        self.created + self.updated + self.unchanged + self.deleted + self.skipped + self.failed
            + self.conflict
    }

    /// How many outcomes there are.
    pub fn total(&self) -> (r: usize)
        requires
            self.sum() <= usize::MAX,
        ensures
            r == self.sum(),
    {
        self.created + self.updated + self.unchanged + self.deleted + self.skipped + self.failed
            + self.conflict
    }

    pub fn success(&self) -> (r: usize)
        requires
            self.created + self.updated + self.unchanged + self.deleted <= usize::MAX,
        ensures
            r == self.created + self.updated + self.unchanged + self.deleted,
    {
        self.created + self.updated + self.unchanged + self.deleted
    }

    pub fn errors(&self) -> (r: usize)
        requires
            self.failed + self.conflict <= usize::MAX,
        ensures
            r == self.failed + self.conflict,
    {
        self.failed + self.conflict
    }

    pub fn changes(&self) -> (r: usize)
        requires
            self.created + self.updated + self.deleted <= usize::MAX,
        ensures
            r == self.created + self.updated + self.deleted,
    {
        self.created + self.updated + self.deleted
    }
}

/// What a report comes to as a whole.
#[derive(Clone, Copy, Debug, PartialEq, Eq, Structural)]
pub enum ApplyStatus {
    /// Nothing was done.
    Empty,
    AllSucceeded,
    /// Some were left for later.
    SucceededWithSkipped,
    Failed,
    Conflict,
}

/// The name of a status.
pub open spec fn apply_status_name(s: ApplyStatus) -> Seq<char> {
    match s {
        ApplyStatus::Empty => "empty"@,
        ApplyStatus::AllSucceeded => "all-succeeded"@,
        ApplyStatus::SucceededWithSkipped => "succeeded-with-skipped"@,
        ApplyStatus::Failed => "failed"@,
        ApplyStatus::Conflict => "conflict"@,
    }
}

impl ApplyStatus {
    /// The name of the status.
    pub fn name(self) -> (r: &'static str)
        ensures
            r@ == apply_status_name(self),
    {
        match self {
            ApplyStatus::Empty => "empty",
            ApplyStatus::AllSucceeded => "all-succeeded",
            ApplyStatus::SucceededWithSkipped => "succeeded-with-skipped",
            ApplyStatus::Failed => "failed",
            ApplyStatus::Conflict => "conflict",
        }
    }

    pub fn is_error(self) -> (r: bool)
        ensures
            r == (self == ApplyStatus::Failed || self == ApplyStatus::Conflict),
    {
        self == ApplyStatus::Failed || self == ApplyStatus::Conflict
    }
}

impl OutcomeLattice for ApplyStatus {
    type M = ApplyStatus;

    open spec fn model(&self) -> ApplyStatus {
        *self
    }

    open spec fn level(m: ApplyStatus) -> u32 {
        match m {
            ApplyStatus::Empty => 0,
            ApplyStatus::AllSucceeded => 0,
            ApplyStatus::SucceededWithSkipped => 1,
            ApplyStatus::Failed => 2,
            ApplyStatus::Conflict => 3,
        }
    }

    open spec fn base() -> ApplyStatus {
        ApplyStatus::Empty
    }

    proof fn base_is_best() {
    }

    fn severity(&self) -> (r: u32) {
        match self {
            ApplyStatus::Empty => 0,
            ApplyStatus::AllSucceeded => 0,
            ApplyStatus::SucceededWithSkipped => 1,
            ApplyStatus::Failed => 2,
            ApplyStatus::Conflict => 3,
        }
    }

    fn baseline() -> (r: Self) {
        ApplyStatus::Empty
    }

    fn again(&self) -> (r: Self) {
        *self
    }
}

/// How many outcomes are such.
pub open spec fn count_of<T>(os: Seq<ApplyOutcome<T>>, p: spec_fn(ApplyOutcome<T>) -> bool) -> nat
    decreases os.len(),
{
    if os.len() == 0 {
        0
    } else if p(os.last()) {
        count_of(os.drop_last(), p) + 1
    } else {
        count_of(os.drop_last(), p)
    }
}

/// The counts are those of the outcomes.
pub open spec fn tallied<T>(os: Seq<ApplyOutcome<T>>, c: ApplyCounts) -> bool {
    &&& c.created == count_of(os, |o: ApplyOutcome<T>| o is Created)
    &&& c.updated == count_of(os, |o: ApplyOutcome<T>| o is Updated)
    &&& c.unchanged == count_of(os, |o: ApplyOutcome<T>| o is Unchanged)
    &&& c.deleted == count_of(os, |o: ApplyOutcome<T>| o is Deleted)
    &&& c.skipped == count_of(os, |o: ApplyOutcome<T>| o is Skipped)
    &&& c.failed == count_of(os, |o: ApplyOutcome<T>| o is Failed)
    &&& c.conflict == count_of(os, |o: ApplyOutcome<T>| o is Conflict)
}

/// Some outcome is such.
pub open spec fn any<T>(os: Seq<ApplyOutcome<T>>, p: spec_fn(ApplyOutcome<T>) -> bool) -> bool {
    exists|i: int| 0 <= i < os.len() && p(#[trigger] os[i])
}

/// What outcomes come to as a whole: a conflict counts more than a failure,
/// a failure more than anything else, and outcomes that were all left for
/// later count as none.
pub open spec fn status_of<T>(os: Seq<ApplyOutcome<T>>) -> ApplyStatus {
    if any(os, |o: ApplyOutcome<T>| o is Conflict) {
        ApplyStatus::Conflict
    } else if any(os, |o: ApplyOutcome<T>| o is Failed) {
        ApplyStatus::Failed
    } else if !any(os, |o: ApplyOutcome<T>| !(o is Skipped)) {
        ApplyStatus::Empty
    } else if any(os, |o: ApplyOutcome<T>| o is Skipped) {
        ApplyStatus::SucceededWithSkipped
    } else {
        ApplyStatus::AllSucceeded
    }
}

/// What became of resources, in the order in which they were dealt with.
#[derive(Clone, Debug, PartialEq, Eq)]
pub struct ApplyReport<T = ResourceRef> {
    pub outcomes: Vec<ApplyOutcome<T>>,
}

impl<T> Default for ApplyReport<T> {
    fn default() -> (r: Self)
        ensures
            r.outcomes@ == Seq::<ApplyOutcome<T>>::empty(),
    {
        ApplyReport::new()
    }
}

impl<T> ApplyReport<T> {
    /// Nothing dealt with yet.
    pub fn new() -> (r: Self)
        ensures
            r.outcomes@ == Seq::<ApplyOutcome<T>>::empty(),
    {
        ApplyReport { outcomes: Vec::new() }
    }

    pub fn push(&mut self, outcome: ApplyOutcome<T>)
        ensures
            final(self).outcomes@ == old(self).outcomes@.push(outcome),
    {
        self.outcomes.push(outcome);
    }

    pub fn len(&self) -> (r: usize)
        ensures
            r == self.outcomes@.len(),
    {
        self.outcomes.len()
    }

    pub fn is_empty(&self) -> (r: bool)
        ensures
            r == (self.outcomes@.len() == 0),
    {
        self.outcomes.len() == 0
    }

    /// The outcomes, in their order.
    pub fn iter(&self) -> (r: &Vec<ApplyOutcome<T>>)
        ensures
            r@ == self.outcomes@,
    {
        &self.outcomes
    }

    /// How many outcomes there are of each kind.
    pub fn counts(&self) -> (r: ApplyCounts)
        ensures
            tallied(self.outcomes@, r),
            r.sum() == self.outcomes@.len(),
    {
        let ghost all = self.outcomes@;
        let mut c = ApplyCounts::default();
        let mut i: usize = 0;
        proof {
            assert(all.take(0) =~= Seq::empty());
        }
        while i < self.outcomes.len()
            invariant
                i <= self.outcomes@.len(),
                all == self.outcomes@,
                tallied(all.take(i as int), c),
                c.sum() == i,
            decreases self.outcomes.len() - i,
        {
            proof {
                assert(all.take(i + 1).drop_last() =~= all.take(i as int));
                assert(all.take(i + 1).last() == all[i as int]);
            }
            match &self.outcomes[i] {
                ApplyOutcome::Created { .. } => {
                    c.created += 1;
                },
                ApplyOutcome::Updated { .. } => {
                    c.updated += 1;
                },
                ApplyOutcome::Unchanged { .. } => {
                    c.unchanged += 1;
                },
                ApplyOutcome::Deleted { .. } => {
                    c.deleted += 1;
                },
                ApplyOutcome::Skipped { .. } => {
                    c.skipped += 1;
                },
                ApplyOutcome::Failed { .. } => {
                    c.failed += 1;
                },
                ApplyOutcome::Conflict { .. } => {
                    c.conflict += 1;
                },
            }
            i += 1;
        }
        proof {
            assert(all.take(all.len() as int) =~= all);
        }
        c
    }

    /// What the outcomes come to as a whole; see [`status_of`].
    pub fn overall_status(&self) -> (r: ApplyStatus)
        ensures
            r == status_of(self.outcomes@),
    {
        let c = self.counts();
        proof {
            let os = self.outcomes@;
            lemma_count_any(os, |o: ApplyOutcome<T>| o is Conflict);
            lemma_count_any(os, |o: ApplyOutcome<T>| o is Failed);
            lemma_count_any(os, |o: ApplyOutcome<T>| o is Skipped);
            lemma_count_any(os, |o: ApplyOutcome<T>| !(o is Skipped));
            lemma_count_rest(os);
        }
        if self.outcomes.len() == 0 {
            return ApplyStatus::Empty;
        }
        if c.conflict > 0 {
            return ApplyStatus::Conflict;
        }
        if c.failed > 0 {
            return ApplyStatus::Failed;
        }
        if c.success() == 0 && c.skipped > 0 {
            return ApplyStatus::Empty;
        }
        if c.skipped > 0 {
            return ApplyStatus::SucceededWithSkipped;
        }
        ApplyStatus::AllSucceeded
    }
}

/// Some outcome is such exactly when the count is not zero.
proof fn lemma_count_any<T>(os: Seq<ApplyOutcome<T>>, p: spec_fn(ApplyOutcome<T>) -> bool)
    ensures
        any(os, p) <==> count_of(os, p) > 0,
    decreases os.len(),
{
    if os.len() > 0 {
        let t = os.drop_last();
        lemma_count_any(t, p);
        if any(t, p) {
            let i = choose|i: int| 0 <= i < t.len() && p(#[trigger] t[i]);
            assert(os[i] == t[i]);
        }
        if p(os.last()) {
            assert(p(os[os.len() - 1]));
        }
        if any(os, p) && !p(os.last()) {
            let i = choose|i: int| 0 <= i < os.len() && p(#[trigger] os[i]);
            assert(t[i] == os[i]);
        }
    }
}

/// What is not left for later is everything else.
proof fn lemma_count_rest<T>(os: Seq<ApplyOutcome<T>>)
    ensures
        count_of(os, |o: ApplyOutcome<T>| !(o is Skipped)) + count_of(
            os,
            |o: ApplyOutcome<T>| o is Skipped,
        ) == os.len(),
    decreases os.len(),
{
    if os.len() > 0 {
        lemma_count_rest(os.drop_last());
    }
}

/// A conflict is the status whatever else happened, then a failure; what was
/// only skipped is empty, and success is complete where nothing was skipped.
pub proof fn law_worst_outcome_is_the_status<T>(os: Seq<ApplyOutcome<T>>)
    ensures
        status_of(os) is Conflict <==> exists|i: int|
            0 <= i < os.len() && (#[trigger] os[i]) is Conflict,
        status_of(os) is Failed <==> (exists|i: int| 0 <= i < os.len() && (#[trigger] os[i]) is Failed)
            && forall|i: int| 0 <= i < os.len() ==> !((#[trigger] os[i]) is Conflict),
        status_of(os) is Empty <==> forall|i: int|
            0 <= i < os.len() ==> (#[trigger] os[i]) is Skipped,
        status_of(os) is AllSucceeded <==> os.len() > 0 && forall|i: int|
            0 <= i < os.len() ==> {
                let o = #[trigger] os[i];
                o is Created || o is Updated || o is Unchanged || o is Deleted
            },
{
    let conflict = |o: ApplyOutcome<T>| o is Conflict;
    let failed = |o: ApplyOutcome<T>| o is Failed;
    let skipped = |o: ApplyOutcome<T>| o is Skipped;
    let other = |o: ApplyOutcome<T>| !(o is Skipped);
    assert forall|i: int| 0 <= i < os.len() implies conflict(#[trigger] os[i]) == os[i] is Conflict
        && failed(os[i]) == os[i] is Failed && skipped(os[i]) == os[i] is Skipped && other(os[i])
        == !(os[i] is Skipped) by {}
    if forall|i: int|
        0 <= i < os.len() ==> {
            let o = #[trigger] os[i];
            o is Created || o is Updated || o is Unchanged || o is Deleted
        } {
        if os.len() > 0 {
            assert(other(os[0]));
        }
    }
    if status_of(os) is AllSucceeded {
        assert(os.len() > 0);
    }
}

proof fn lemma_count_filter<T>(os: Seq<ApplyOutcome<T>>, p: spec_fn(ApplyOutcome<T>) -> bool)
    ensures
        count_of(os, p) == os.filter(p).len(),
    decreases os.len(),
{
    reveal(Seq::filter);
    if os.len() > 0 {
        lemma_count_filter(os.drop_last(), p);
    }
}

proof fn lemma_counts_add_up<T>(os: Seq<ApplyOutcome<T>>)
    ensures
        count_of(os, |o: ApplyOutcome<T>| o is Created) + count_of(
            os,
            |o: ApplyOutcome<T>| o is Updated,
        ) + count_of(os, |o: ApplyOutcome<T>| o is Unchanged) + count_of(
            os,
            |o: ApplyOutcome<T>| o is Deleted,
        ) + count_of(os, |o: ApplyOutcome<T>| o is Skipped) + count_of(
            os,
            |o: ApplyOutcome<T>| o is Failed,
        ) + count_of(os, |o: ApplyOutcome<T>| o is Conflict) == os.len(),
    decreases os.len(),
{
    if os.len() > 0 {
        lemma_counts_add_up(os.drop_last());
    }
}

/// The counts are how often each outcome occurs, and together they are all.
pub proof fn law_apply_counts<T>(os: Seq<ApplyOutcome<T>>, c: ApplyCounts)
    requires
        tallied(os, c),
    ensures
        c.created == os.filter(|o: ApplyOutcome<T>| o is Created).len(),
        c.updated == os.filter(|o: ApplyOutcome<T>| o is Updated).len(),
        c.unchanged == os.filter(|o: ApplyOutcome<T>| o is Unchanged).len(),
        c.deleted == os.filter(|o: ApplyOutcome<T>| o is Deleted).len(),
        c.skipped == os.filter(|o: ApplyOutcome<T>| o is Skipped).len(),
        c.failed == os.filter(|o: ApplyOutcome<T>| o is Failed).len(),
        c.conflict == os.filter(|o: ApplyOutcome<T>| o is Conflict).len(),
        c.sum() == os.len(),
{
    lemma_count_filter(os, |o: ApplyOutcome<T>| o is Created);
    lemma_count_filter(os, |o: ApplyOutcome<T>| o is Updated);
    lemma_count_filter(os, |o: ApplyOutcome<T>| o is Unchanged);
    lemma_count_filter(os, |o: ApplyOutcome<T>| o is Deleted);
    lemma_count_filter(os, |o: ApplyOutcome<T>| o is Skipped);
    lemma_count_filter(os, |o: ApplyOutcome<T>| o is Failed);
    lemma_count_filter(os, |o: ApplyOutcome<T>| o is Conflict);
    lemma_counts_add_up(os);
}

/// A conflict is worse than a failure, that is worse than success with
/// something skipped, and no success is worse than another.
pub proof fn law_apply_statuses_are_ranked()
    ensures
        ApplyStatus::level(ApplyStatus::Empty) == ApplyStatus::level(ApplyStatus::AllSucceeded),
        ApplyStatus::level(ApplyStatus::AllSucceeded) < ApplyStatus::level(
            ApplyStatus::SucceededWithSkipped,
        ) < ApplyStatus::level(ApplyStatus::Failed) < ApplyStatus::level(ApplyStatus::Conflict),
{
}

} // verus!
