//! Whether resources are ready.
use vstd::prelude::*;
use crate::converge::aggregator::Aggregator;
use crate::converge::inventory::ResourceRef;
use crate::converge::outcome::OutcomeLattice;

verus! {

/// How far a resource has come.
#[derive(Debug, PartialEq, Eq)]
pub enum ReadyState {
    /// It is as it shall be.
    Ready,
    /// It is on its way.
    InProgress { reason: String },
    /// It has failed for good.
    Failed { reason: String },
    /// Nothing can be said.
    Unknown,
}

/// What a [`ReadyState`] says.
#[verifier::ext_equal]
pub enum ReadyV {
    Ready,
    InProgress { reason: Seq<char> },
    Failed { reason: Seq<char> },
    Unknown,
}

impl View for ReadyState {
    type V = ReadyV;

    open spec fn view(&self) -> ReadyV {
        match self {
            ReadyState::Ready => ReadyV::Ready,
            ReadyState::InProgress { reason } => ReadyV::InProgress { reason: reason@ },
            ReadyState::Failed { reason } => ReadyV::Failed { reason: reason@ },
            ReadyState::Unknown => ReadyV::Unknown,
        }
    }
}

impl Clone for ReadyState {
    fn clone(&self) -> (r: Self)
        ensures
            r@ == self@,
    {
        match self {
            ReadyState::Ready => ReadyState::Ready,
            ReadyState::InProgress { reason } => ReadyState::InProgress { reason: reason.clone() },
            ReadyState::Failed { reason } => ReadyState::Failed { reason: reason.clone() },
            ReadyState::Unknown => ReadyState::Unknown,
        }
    }
}

/// The name of a state.
pub open spec fn state_name(s: ReadyV) -> Seq<char> {
    match s {
        ReadyV::Ready => "ready"@,
        ReadyV::InProgress { .. } => "in-progress"@,
        ReadyV::Failed { .. } => "failed"@,
        ReadyV::Unknown => "unknown"@,
    }
}

impl ReadyState {
    /// The name of the state.
    pub fn state(&self) -> (r: &'static str)
        ensures
            r@ == state_name(self@),
    {
        match self {
            ReadyState::Ready => "ready",
            ReadyState::InProgress { .. } => "in-progress",
            ReadyState::Failed { .. } => "failed",
            ReadyState::Unknown => "unknown",
        }
    }

    pub fn is_ready(&self) -> (r: bool)
        ensures
            r == (self@ is Ready),
    {
        match self {
            ReadyState::Ready => true,
            _ => false,
        }
    }

    pub fn is_in_progress(&self) -> (r: bool)
        ensures
            r == (self@ is InProgress),
    {
        match self {
            ReadyState::InProgress { .. } => true,
            _ => false,
        }
    }

    pub fn is_failed(&self) -> (r: bool)
        ensures
            r == (self@ is Failed),
    {
        match self {
            ReadyState::Failed { .. } => true,
            _ => false,
        }
    }

    pub fn is_unknown(&self) -> (r: bool)
        ensures
            r == (self@ is Unknown),
    {
        match self {
            ReadyState::Unknown => true,
            _ => false,
        }
    }
}

impl OutcomeLattice for ReadyState {
    type M = ReadyV;

    open spec fn model(&self) -> ReadyV {
        self@
    }

    open spec fn level(m: ReadyV) -> u32 {
        match m {
            ReadyV::Ready => 0,
            ReadyV::Unknown => 1,
            ReadyV::InProgress { .. } => 2,
            ReadyV::Failed { .. } => 3,
        }
    }

    open spec fn base() -> ReadyV {
        ReadyV::Ready
    }

    proof fn base_is_best() {
    }

    fn severity(&self) -> (r: u32) {
        match self {
            ReadyState::Ready => 0,
            ReadyState::Unknown => 1,
            ReadyState::InProgress { .. } => 2,
            ReadyState::Failed { .. } => 3,
        }
    }

    fn baseline() -> (r: Self) {
        ReadyState::Ready
    }

    fn again(&self) -> (r: Self) {
        self.clone()
    }
}

/// Decides whether a resource is ready.
pub trait HealthCheck<R> {
    /// The check can be run on the resource.
    spec fn accepts(&self, resource: &R) -> bool;

    /// The check may find this of the resource.
    spec fn finds(&self, resource: &R, found: ReadyV) -> bool;

    fn evaluate(&self, resource: &R) -> (r: ReadyState)
        requires
            self.accepts(resource),
        ensures
            self.finds(resource, r@),
    ;
}

/// Finds every resource ready.
#[derive(Clone, Copy, Debug, PartialEq, Eq, Structural)]
pub struct AlwaysReady;

impl Default for AlwaysReady {
    fn default() -> (r: Self)
        ensures
            r == AlwaysReady,
    {
        AlwaysReady
    }
}

impl<R> HealthCheck<R> for AlwaysReady {
    open spec fn accepts(&self, resource: &R) -> bool {
        true
    }

    open spec fn finds(&self, resource: &R, found: ReadyV) -> bool {
        found == ReadyV::Ready
    }

    fn evaluate(&self, resource: &R) -> (r: ReadyState) {
        ReadyState::Ready
    }
}

/// Finds every resource failed.
#[derive(Clone, Copy, Debug)]
pub struct NeverReady {
    pub reason: &'static str,
}

impl Default for NeverReady {
    fn default() -> (r: Self)
        ensures
            r.reason@ == ""@,
    {
        NeverReady { reason: "" }
    }
}

impl<R> HealthCheck<R> for NeverReady {
    open spec fn accepts(&self, resource: &R) -> bool {
        true
    }

    open spec fn finds(&self, resource: &R, found: ReadyV) -> bool {
        found == (ReadyV::Failed { reason: self.reason@ })
    }

    fn evaluate(&self, resource: &R) -> (r: ReadyState) {
        ReadyState::Failed { reason: self.reason.to_owned() }
    }
}

/// Finds what a function of the resource says.
pub struct ClosureCheck<F> {
    pub f: F,
}

impl<F> ClosureCheck<F> {
    pub fn new(f: F) -> (r: Self)
        ensures
            r.f == f,
    {
        ClosureCheck { f }
    }
}

impl<R, F: Fn(&R) -> ReadyState> HealthCheck<R> for ClosureCheck<F> {
    open spec fn accepts(&self, resource: &R) -> bool {
        self.f.requires((resource,))
    }

    open spec fn finds(&self, resource: &R, found: ReadyV) -> bool {
        exists|s: ReadyState| #[trigger] self.f.ensures((resource,), s) && s@ == found
    }

    fn evaluate(&self, resource: &R) -> (r: ReadyState) {
        (self.f)(resource)
    }
}

/// One of two kinds of check, so that one chain can hold both.
#[derive(Clone, Copy, Debug)]
pub enum EitherCheck<A, B> {
    First(A),
    Second(B),
}

impl<R, A: HealthCheck<R>, B: HealthCheck<R>> HealthCheck<R> for EitherCheck<A, B> {
    open spec fn accepts(&self, resource: &R) -> bool {
        match self {
            EitherCheck::First(a) => a.accepts(resource),
            EitherCheck::Second(b) => b.accepts(resource),
        }
    }

    open spec fn finds(&self, resource: &R, found: ReadyV) -> bool {
        match self {
            EitherCheck::First(a) => a.finds(resource, found),
            EitherCheck::Second(b) => b.finds(resource, found),
        }
    }

    fn evaluate(&self, resource: &R) -> (r: ReadyState) {
        match self {
            EitherCheck::First(a) => a.evaluate(resource),
            EitherCheck::Second(b) => b.evaluate(resource),
        }
    }
}

/// Checks that are run one after the other.
#[derive(Debug)]
pub struct ChainedHealthCheck<C> {
    pub checks: Vec<C>,
}

impl<C> Default for ChainedHealthCheck<C> {
    fn default() -> (r: Self)
        ensures
            r.checks@ == Seq::<C>::empty(),
    {
        ChainedHealthCheck { checks: Vec::new() }
    }
}

/// The checks, run one after the other, may find this: the first finding that
/// is not ready, else ready.
pub open spec fn first_unready<R, C: HealthCheck<R>>(
    checks: Seq<C>,
    resource: &R,
    found: ReadyV,
) -> bool
    decreases checks.len(),
{
    if checks.len() == 0 {
        found == ReadyV::Ready
    } else {
        ||| checks[0].finds(resource, ReadyV::Ready) && first_unready(
            checks.drop_first(),
            resource,
            found,
        )
        ||| !(found is Ready) && checks[0].finds(resource, found)
    }
}

/// Every check can be run on the resource.
pub open spec fn all_accept<R, C: HealthCheck<R>>(checks: Seq<C>, resource: &R) -> bool {
    forall|i: int| #![trigger checks[i]] 0 <= i < checks.len() ==> checks[i].accepts(resource)
}

impl<C> ChainedHealthCheck<C> {
    /// No checks.
    pub fn new() -> (r: Self)
        ensures
            r.checks@ == Seq::<C>::empty(),
    {
        ChainedHealthCheck { checks: Vec::new() }
    }

    /// One check more, at the end.
    pub fn with_check(self, check: C) -> (r: Self)
        ensures
            r.checks@ == self.checks@.push(check),
    {
        let mut r = self;
        r.checks.push(check);
        r
    }

    pub fn len(&self) -> (r: usize)
        ensures
            r == self.checks@.len(),
    {
        self.checks.len()
    }

    pub fn is_empty(&self) -> (r: bool)
        ensures
            r == (self.checks@.len() == 0),
    {
        self.checks.len() == 0
    }
}

/// Findings from the second part of a chain on, after ready ones.
proof fn lemma_first_unready<R, C: HealthCheck<R>>(
    checks: Seq<C>,
    resource: &R,
    found: ReadyV,
    n: int,
)
    requires
        0 <= n <= checks.len(),
        forall|i: int|
            #![trigger checks[i]]
            0 <= i < n ==> checks[i].finds(resource, ReadyV::Ready),
        first_unready(checks.skip(n), resource, found),
    ensures
        first_unready(checks, resource, found),
    decreases n,
{
    if n == 0 {
        assert(checks.skip(0) =~= checks);
    } else {
        let t = checks.drop_first();
        assert forall|i: int| #![trigger t[i]] 0 <= i < n - 1 implies t[i].finds(
            resource,
            ReadyV::Ready,
        ) by {
            assert(t[i] == checks[i + 1]);
        }
        assert(t.skip(n - 1) =~= checks.skip(n));
        lemma_first_unready(t, resource, found, n - 1);
        assert(checks[0].finds(resource, ReadyV::Ready));
    }
}

impl<R, C: HealthCheck<R>> HealthCheck<R> for ChainedHealthCheck<C> {
    open spec fn accepts(&self, resource: &R) -> bool {
        all_accept(self.checks@, resource)
    }

    open spec fn finds(&self, resource: &R, found: ReadyV) -> bool {
        first_unready(self.checks@, resource, found)
    }

    fn evaluate(&self, resource: &R) -> (r: ReadyState) {
        let mut i: usize = 0;
        while i < self.checks.len()
            invariant
                i <= self.checks@.len(),
                all_accept(self.checks@, resource),
                forall|j: int|
                    #![trigger self.checks@[j]]
                    0 <= j < i ==> self.checks@[j].finds(resource, ReadyV::Ready),
            decreases self.checks.len() - i,
        {
            proof {
                assert(self.checks@[i as int].accepts(resource));
            }
            let state = self.checks[i].evaluate(resource);
            if !state.is_ready() {
                proof {
                    assert(self.checks@.skip(i as int)[0] == self.checks@[i as int]);
                    lemma_first_unready(self.checks@, resource, state@, i as int);
                }
                return state;
            }
            i += 1;
        }
        proof {
            assert(self.checks@.skip(i as int).len() == 0);
            lemma_first_unready(self.checks@, resource, ReadyV::Ready, i as int);
        }
        ReadyState::Ready
    }
}

/// A chain can find a resource ready exactly when every check can.
pub proof fn law_chain_ready_iff_all_ready<R, C: HealthCheck<R>>(checks: Seq<C>, resource: &R)
    ensures
        first_unready(checks, resource, ReadyV::Ready) <==> forall|i: int|
            #![trigger checks[i]]
            0 <= i < checks.len() ==> checks[i].finds(resource, ReadyV::Ready),
    decreases checks.len(),
{
    if checks.len() > 0 {
        let t = checks.drop_first();
        law_chain_ready_iff_all_ready(t, resource);
        if first_unready(checks, resource, ReadyV::Ready) {
            assert forall|i: int| #![trigger checks[i]] 0 <= i < checks.len() implies checks[i].finds(
                resource,
                ReadyV::Ready,
            ) by {
                if i > 0 {
                    assert(t[i - 1] == checks[i]);
                }
            }
        }
        if forall|i: int|
            #![trigger checks[i]]
            0 <= i < checks.len() ==> checks[i].finds(resource, ReadyV::Ready) {
            assert forall|i: int| #![trigger t[i]] 0 <= i < t.len() implies t[i].finds(
                resource,
                ReadyV::Ready,
            ) by {
                assert(t[i] == checks[i + 1]);
            }
            assert(checks[0].finds(resource, ReadyV::Ready));
        }
    }
}

// ── Reports ────────────────────────────────────────────────────────

/// The states of resources.
pub type HealthReport = Aggregator<ResourceRef, ReadyState>;

/// How many resources are in each state.
#[derive(Clone, Copy, Debug, PartialEq, Eq, Structural)]
pub struct HealthCounts {
    pub ready: usize,
    pub in_progress: usize,
    pub failed: usize,
    pub unknown: usize,
}

impl Default for HealthCounts {
    fn default() -> (r: Self)
        ensures
            r == (HealthCounts { ready: 0, in_progress: 0, failed: 0, unknown: 0 }),
    {
        HealthCounts { ready: 0, in_progress: 0, failed: 0, unknown: 0 }
    }
}

impl HealthCounts {
    /// How many resources there are.
    pub fn total(&self) -> (r: usize)
        requires
            self.ready + self.in_progress + self.failed + self.unknown <= usize::MAX,
        ensures
            r == self.ready + self.in_progress + self.failed + self.unknown,
    {
        self.ready + self.in_progress + self.failed + self.unknown
    }
}

/// How many of the states are such.
pub open spec fn count_where(ss: Seq<ReadyV>, p: spec_fn(ReadyV) -> bool) -> nat
    decreases ss.len(),
{
    if ss.len() == 0 {
        0
    } else if p(ss.last()) {
        count_where(ss.drop_last(), p) + 1
    } else {
        count_where(ss.drop_last(), p)
    }
}

/// The counts of a report.
pub open spec fn counted(ss: Seq<ReadyV>, c: HealthCounts) -> bool {
    &&& c.ready == count_where(ss, |s: ReadyV| s is Ready)
    &&& c.in_progress == count_where(ss, |s: ReadyV| s is InProgress)
    &&& c.failed == count_where(ss, |s: ReadyV| s is Failed)
    &&& c.unknown == count_where(ss, |s: ReadyV| s is Unknown)
}

/// What a report can tell beyond its entries.
pub trait HealthReportExt {
    /// The states that are reported.
    spec fn states(&self) -> Seq<ReadyV>;

    /// How many resources are in each state.
    fn counts(&self) -> (r: HealthCounts)
        ensures
            counted(self.states(), r),
            r.ready + r.in_progress + r.failed + r.unknown == self.states().len(),
    ;
}

impl HealthReportExt for HealthReport {
    open spec fn states(&self) -> Seq<ReadyV> {
        self.outcomes()
    }

    fn counts(&self) -> (r: HealthCounts) {
        let entries = self.iter();
        let ghost all = self.outcomes();
        let mut c = HealthCounts { ready: 0, in_progress: 0, failed: 0, unknown: 0 };
        let mut i: usize = 0;
        proof {
            assert(all.take(0) =~= Seq::empty());
        }
        while i < entries.len()
            invariant
                i <= entries@.len(),
                entries@ == self.list(),
                all == self.outcomes(),
                counted(all.take(i as int), c),
                c.ready + c.in_progress + c.failed + c.unknown == i,
            decreases entries.len() - i,
        {
            proof {
                assert(all.take(i + 1).drop_last() =~= all.take(i as int));
                assert(all.take(i + 1).last() == entries@[i as int].1@);
            }
            match &entries[i].1 {
                ReadyState::Ready => {
                    c.ready += 1;
                },
                ReadyState::InProgress { .. } => {
                    c.in_progress += 1;
                },
                ReadyState::Failed { .. } => {
                    c.failed += 1;
                },
                ReadyState::Unknown => {
                    c.unknown += 1;
                },
            }
            i += 1;
        }
        proof {
            assert(all.take(all.len() as int) =~= all);
        }
        c
    }
}

/// A chain that is not ready finds what its first check that is not ready
/// finds.
pub proof fn law_chain_stops_at_the_first<R, C: HealthCheck<R>>(
    checks: Seq<C>,
    resource: &R,
    found: ReadyV,
)
    requires
        !(found is Ready),
    ensures
        first_unready(checks, resource, found) <==> exists|i: int|
            0 <= i < checks.len() && (#[trigger] checks[i]).finds(resource, found) && forall|j: int|
                0 <= j < i ==> (#[trigger] checks[j]).finds(resource, ReadyV::Ready),
    decreases checks.len(),
{
    if checks.len() > 0 {
        let t = checks.drop_first();
        law_chain_stops_at_the_first(t, resource, found);
        if first_unready(checks, resource, found) {
            if checks[0].finds(resource, found) {
                assert(checks[0].finds(resource, found));
            } else {
                let k = choose|k: int|
                    0 <= k < t.len() && (#[trigger] t[k]).finds(resource, found) && forall|j: int|
                        0 <= j < k ==> (#[trigger] t[j]).finds(resource, ReadyV::Ready);
                assert(checks[k + 1] == t[k]);
                assert forall|j: int| 0 <= j < k + 1 implies (#[trigger] checks[j]).finds(
                    resource,
                    ReadyV::Ready,
                ) by {
                    if j > 0 {
                        assert(t[j - 1].finds(resource, ReadyV::Ready));
                    }
                }
            }
        }
        if exists|i: int|
            0 <= i < checks.len() && (#[trigger] checks[i]).finds(resource, found) && forall|j: int|
                0 <= j < i ==> (#[trigger] checks[j]).finds(resource, ReadyV::Ready) {
            let i = choose|i: int|
                0 <= i < checks.len() && (#[trigger] checks[i]).finds(resource, found) && forall|
                    j: int,
                |
                    0 <= j < i ==> (#[trigger] checks[j]).finds(resource, ReadyV::Ready);
            if i > 0 {
                assert(checks[0].finds(resource, ReadyV::Ready));
                assert(t[i - 1] == checks[i]);
                assert forall|j: int| 0 <= j < i - 1 implies (#[trigger] t[j]).finds(
                    resource,
                    ReadyV::Ready,
                ) by {
                    assert(checks[j + 1].finds(resource, ReadyV::Ready));
                }
            }
        }
    }
}

proof fn lemma_count_filter(ss: Seq<ReadyV>, p: spec_fn(ReadyV) -> bool)
    ensures
        count_where(ss, p) == ss.filter(p).len(),
    decreases ss.len(),
{
    reveal(Seq::filter);
    if ss.len() > 0 {
        lemma_count_filter(ss.drop_last(), p);
    }
}

/// The counts are how many are ready, in progress, failed and unknown, and
/// together they are all.
pub proof fn law_health_counts(ss: Seq<ReadyV>, c: HealthCounts)
    requires
        counted(ss, c),
    ensures
        c.ready == ss.filter(|s: ReadyV| s is Ready).len(),
        c.in_progress == ss.filter(|s: ReadyV| s is InProgress).len(),
        c.failed == ss.filter(|s: ReadyV| s is Failed).len(),
        c.unknown == ss.filter(|s: ReadyV| s is Unknown).len(),
        c.ready + c.in_progress + c.failed + c.unknown == ss.len(),
{
    lemma_count_filter(ss, |s: ReadyV| s is Ready);
    lemma_count_filter(ss, |s: ReadyV| s is InProgress);
    lemma_count_filter(ss, |s: ReadyV| s is Failed);
    lemma_count_filter(ss, |s: ReadyV| s is Unknown);
    lemma_counts_add_up(ss);
}

proof fn lemma_counts_add_up(ss: Seq<ReadyV>)
    ensures
        count_where(ss, |s: ReadyV| s is Ready) + count_where(ss, |s: ReadyV| s is InProgress)
            + count_where(ss, |s: ReadyV| s is Failed) + count_where(ss, |s: ReadyV| s is Unknown)
            == ss.len(),
    decreases ss.len(),
{
    if ss.len() > 0 {
        lemma_counts_add_up(ss.drop_last());
    }
}

/// Failed is worse than in progress, that is worse than unknown, and unknown
/// worse than ready, whatever the reasons.
pub proof fn law_ready_states_are_ranked(a: Seq<char>, b: Seq<char>)
    ensures
        ReadyState::level(ReadyV::Ready) < ReadyState::level(ReadyV::Unknown) < ReadyState::level(
            ReadyV::InProgress { reason: a },
        ) < ReadyState::level(ReadyV::Failed { reason: b }),
{
}

} // verus!
