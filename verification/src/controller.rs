//! The whole loop: read, plan, decide, carry out, and write down where the
//! loop went.
use vstd::prelude::*;
use crate::converge::diff::{all_carried_out, Named};
use crate::converge::inmemory::{kv_changes, kv_prefix, law_kv_converges};
use crate::converge::{
    applied_view, detect_drift, drift_changes, effective, failed_view, law_noop_counts_nothing,
    plan_of, Action, ChangeV, Outcome, OutcomeV, Plan, PlanId, PlanV, Reconciler, ReconcilerError, error_text,
};
use crate::drift::{
    classify, decided, event_of, events_of, events_view, rules_view, summed_up, times,
    DriftDecision, DriftPolicy, DriftReport, RuleV,
};
use crate::json::{Json, JsonV};
use crate::ordmap::sorted;
use crate::text;
use crate::time::Timestamp;

verus! {

/// Why a loop did not come to an end.
#[derive(Debug)]
pub enum ControllerError {
    Reconciler(ReconcilerError),
    FsmTransition(String),
    Bundle(String),
}

impl ControllerError {
    /// What the error says.
    pub open spec fn said(&self) -> Seq<char> {
        match self {
            ControllerError::Reconciler(e) => "reconciler: "@ + error_text(e@),
            ControllerError::FsmTransition(m) => "fsm transition: "@ + m@,
            ControllerError::Bundle(m) => "bundle: "@ + m@,
        }
    }

    /// The error in words.
    pub fn message(&self) -> (r: String)
        ensures
            r@ == self.said(),
    {
        match self {
            ControllerError::Reconciler(e) => {
                let m = e.message();
                text::join2("reconciler: ", m.as_str())
            },
            ControllerError::FsmTransition(m) => text::join2("fsm transition: ", m.as_str()),
            ControllerError::Bundle(m) => text::join2("bundle: ", m.as_str()),
        }
    }
}

// ── Where a loop is ────────────────────────────────────────────────

/// Where a loop is.
#[derive(Clone, Copy, Debug, PartialEq, Eq, Structural)]
pub enum Phase {
    Idle,
    Planning,
    Approving,
    Applying,
    Verifying,
    Stable,
    Refused,
    Failed,
}

/// A step from one phase to the next.
#[derive(Debug)]
pub struct Transition {
    pub from: Phase,
    pub to: Phase,
    pub plan_id: Option<PlanId>,
    pub reason: String,
}

/// What a [`Transition`] holds.
#[verifier::ext_equal]
pub struct TransitionV {
    pub from: Phase,
    pub to: Phase,
    pub plan_id: Option<Seq<char>>,
    pub reason: Seq<char>,
}

impl View for Transition {
    type V = TransitionV;

    open spec fn view(&self) -> TransitionV {
        TransitionV {
            from: self.from,
            to: self.to,
            plan_id: match self.plan_id {
                Some(p) => Some(p.0@),
                None => None,
            },
            reason: self.reason@,
        }
    }
}

pub open spec fn history_view(ts: Seq<Transition>) -> Seq<TransitionV> {
    Seq::new(ts.len(), |i: int| ts[i]@)
}

/// Where a loop is, and how it got there.
#[derive(Debug)]
pub struct LifecycleState {
    pub current: Phase,
    pub history: Vec<Transition>,
}

impl Clone for Transition {
    fn clone(&self) -> (r: Self)
        ensures
            r@ == self@,
    {
        Transition {
            from: self.from,
            to: self.to,
            plan_id: match &self.plan_id {
                Some(p) => Some(p.clone()),
                None => None,
            },
            reason: self.reason.clone(),
        }
    }
}

impl Clone for LifecycleState {
    fn clone(&self) -> (r: Self)
        ensures
            r.current == self.current,
            history_view(r.history@) == history_view(self.history@),
    {
        let mut history: Vec<Transition> = Vec::new();
        let mut i: usize = 0;
        while i < self.history.len()
            invariant
                i <= self.history@.len(),
                history@.len() == i,
                forall|j: int| 0 <= j < i ==> (#[trigger] history@[j])@ == self.history@[j]@,
            decreases self.history.len() - i,
        {
            history.push(self.history[i].clone());
            i += 1;
        }
        proof {
            assert(history_view(history@) =~= history_view(self.history@));
        }
        LifecycleState { current: self.current, history }
    }
}

/// Each step begins where the one before it ended; the first begins idle,
/// and the last ends in the current phase.
pub open spec fn connected(history: Seq<TransitionV>, current: Phase) -> bool {
    &&& history.len() > 0 ==> history[0].from == Phase::Idle
    &&& forall|i: int, j: int|
        #![trigger history[i], history[j]]
        0 <= i < history.len() && j == i + 1 && j < history.len() ==> history[j].from
            == history[i].to
    &&& current == if history.len() == 0 {
        Phase::Idle
    } else {
        history.last().to
    }
}

impl LifecycleState {
    pub open spec fn wf(&self) -> bool {
        connected(history_view(self.history@), self.current)
    }

    /// Idle, with nothing behind.
    pub fn new() -> (r: Self)
        ensures
            r.current == Phase::Idle,
            r.history@.len() == 0,
            r.wf(),
    {
        LifecycleState { current: Phase::Idle, history: Vec::new() }
    }

    /// How many steps were taken.
    pub fn len(&self) -> (r: usize)
        ensures
            r == self.history@.len(),
    {
        self.history.len()
    }

    pub fn is_empty(&self) -> (r: bool)
        ensures
            r == (self.history@.len() == 0),
    {
        self.history.len() == 0
    }

    /// Take a step.
    pub fn transition(&mut self, to: Phase, plan_id: Option<PlanId>, reason: &str)
        ensures
            final(self).current == to,
            history_view(final(self).history@) == history_view(old(self).history@).push(
                TransitionV {
                    from: old(self).current,
                    to,
                    plan_id: match plan_id {
                        Some(p) => Some(p.0@),
                        None => None,
                    },
                    reason: reason@,
                },
            ),
            old(self).wf() ==> final(self).wf(),
    {
        let ghost before = history_view(self.history@);
        let t = Transition { from: self.current, to, plan_id, reason: reason.to_owned() };
        self.current = to;
        self.history.push(t);
        proof {
            let now = history_view(self.history@);
            assert(now =~= before.push(t@));
            if old(self).wf() {
                assert forall|i: int, j: int|
                    #![trigger now[i], now[j]]
                    0 <= i < now.len() && j == i + 1 && j < now.len() implies now[j].from
                    == now[i].to by {
                    assert(now[i] == before[i]);
                    if j < before.len() {
                        assert(now[j] == before[j]);
                    }
                }
            }
        }
    }
}

// ── What a loop came to ────────────────────────────────────────────

/// What became of a plan.
#[derive(Clone, Debug)]
pub enum ReconcileResult {
    /// The plan does nothing.
    NoChange { plan: Plan },
    /// The policy refuses some of it, so nothing was done.
    Refused { plan: Plan, report: DriftReport, refused: usize },
    /// The policy wants some of it approved, so nothing was done.
    HeldForApproval { plan: Plan, report: DriftReport, held: usize },
    /// All of it was carried out.
    Applied { plan: Plan, report: DriftReport, outcome: Outcome },
    /// Some of it could not be carried out.
    AppliedWithFailures { plan: Plan, report: DriftReport, outcome: Outcome },
}

/// Which of them it is, with its number.
pub enum Verdict {
    NoChange,
    Refused(nat),
    Held(nat),
    Applied,
    Failed(nat),
}

impl ReconcileResult {
    pub open spec fn verdict(&self) -> Verdict {
        match self {
            ReconcileResult::NoChange { .. } => Verdict::NoChange,
            ReconcileResult::Refused { refused, .. } => Verdict::Refused(*refused as nat),
            ReconcileResult::HeldForApproval { held, .. } => Verdict::Held(*held as nat),
            ReconcileResult::Applied { .. } => Verdict::Applied,
            ReconcileResult::AppliedWithFailures { outcome, .. } => Verdict::Failed(
                outcome.failed@.len(),
            ),
        }
    }

    /// The plan, by what it holds.
    pub open spec fn planning(&self) -> PlanV {
        match self {
            ReconcileResult::NoChange { plan } => plan@,
            ReconcileResult::Refused { plan, .. } => plan@,
            ReconcileResult::HeldForApproval { plan, .. } => plan@,
            ReconcileResult::Applied { plan, .. } => plan@,
            ReconcileResult::AppliedWithFailures { plan, .. } => plan@,
        }
    }

    /// What was decided about the plan, where anything was.
    pub open spec fn reported(&self) -> Option<DriftReport> {
        match self {
            ReconcileResult::NoChange { .. } => None,
            ReconcileResult::Refused { report, .. } => Some(*report),
            ReconcileResult::HeldForApproval { report, .. } => Some(*report),
            ReconcileResult::Applied { report, .. } => Some(*report),
            ReconcileResult::AppliedWithFailures { report, .. } => Some(*report),
        }
    }

    /// What carrying the plan out came to, where it was carried out.
    pub open spec fn carried(&self) -> Option<Outcome> {
        match self {
            ReconcileResult::Applied { outcome, .. } => Some(*outcome),
            ReconcileResult::AppliedWithFailures { outcome, .. } => Some(*outcome),
            _ => None,
        }
    }

    /// The plan.
    pub fn plan(&self) -> (r: &Plan)
        ensures
            r@ == self.planning(),
    {
        match self {
            ReconcileResult::NoChange { plan } => plan,
            ReconcileResult::Refused { plan, .. } => plan,
            ReconcileResult::HeldForApproval { plan, .. } => plan,
            ReconcileResult::Applied { plan, .. } => plan,
            ReconcileResult::AppliedWithFailures { plan, .. } => plan,
        }
    }

    /// The id of the plan.
    pub fn plan_id(&self) -> (r: &PlanId)
        ensures
            r.0@ == self.planning().id,
    {
        &self.plan().id
    }

    /// What was decided about the plan, where anything was.
    pub fn report(&self) -> (r: Option<&DriftReport>)
        ensures
            match r {
                Some(x) => self.reported() == Some(*x),
                None => self.reported() is None,
            },
    {
        match self {
            ReconcileResult::NoChange { .. } => None,
            ReconcileResult::Refused { report, .. } => Some(report),
            ReconcileResult::HeldForApproval { report, .. } => Some(report),
            ReconcileResult::Applied { report, .. } => Some(report),
            ReconcileResult::AppliedWithFailures { report, .. } => Some(report),
        }
    }

    /// What carrying the plan out came to, where it was carried out.
    pub fn outcome(&self) -> (r: Option<&Outcome>)
        ensures
            match r {
                Some(x) => self.carried() == Some(*x),
                None => self.carried() is None,
            },
    {
        match self {
            ReconcileResult::Applied { outcome, .. } => Some(outcome),
            ReconcileResult::AppliedWithFailures { outcome, .. } => Some(outcome),
            _ => None,
        }
    }
}

// ── Deciding ───────────────────────────────────────────────────────

/// How many of the changes get this decision.
pub open spec fn ruled(
    rules: Seq<RuleV>,
    fallback: DriftDecision,
    cs: Seq<ChangeV>,
    d: DriftDecision,
) -> nat
    decreases cs.len(),
{
    if cs.len() == 0 {
        0
    } else if decided(rules, fallback, cs.last()).0 == d {
        ruled(rules, fallback, cs.drop_last(), d) + 1
    } else {
        ruled(rules, fallback, cs.drop_last(), d)
    }
}

/// What a policy says of a plan as a whole.
pub enum Ruling {
    /// There is nothing to do.
    Nothing,
    /// So many changes are refused.
    Refuse(nat),
    /// None is refused, so many need approval.
    Hold(nat),
    /// Every change may be carried out.
    Go,
}

/// What a policy says of changes as a whole: one that is refused holds up
/// all, and so does one that needs approval.
pub open spec fn ruling(rules: Seq<RuleV>, fallback: DriftDecision, cs: Seq<ChangeV>) -> Ruling {
    let live = effective(cs);
    if live.len() == 0 {
        Ruling::Nothing
    } else if ruled(rules, fallback, live, DriftDecision::Refuse) > 0 {
        Ruling::Refuse(ruled(rules, fallback, live, DriftDecision::Refuse))
    } else if ruled(rules, fallback, live, DriftDecision::RequireApproval) > 0 {
        Ruling::Hold(ruled(rules, fallback, live, DriftDecision::RequireApproval))
    } else {
        Ruling::Go
    }
}

proof fn lemma_times(
    kind: Seq<char>,
    rules: Seq<RuleV>,
    fallback: DriftDecision,
    at: Timestamp,
    live: Seq<ChangeV>,
    d: DriftDecision,
)
    ensures
        times(live.map_values(|c: ChangeV| event_of(kind, rules, fallback, at, c)), d) == ruled(
            rules,
            fallback,
            live,
            d,
        ),
    decreases live.len(),
{
    if live.len() > 0 {
        let es = live.map_values(|c: ChangeV| event_of(kind, rules, fallback, at, c));
        lemma_times(kind, rules, fallback, at, live.drop_last(), d);
        assert(es.drop_last() =~= live.drop_last().map_values(
            |c: ChangeV| event_of(kind, rules, fallback, at, c),
        ));
        assert(es.last() == event_of(kind, rules, fallback, at, live.last()));
    }
}

/// The report was made of this plan under this policy.
pub open spec fn reports_on(report: DriftReport, plan: PlanV, policy: DriftPolicy) -> bool {
    &&& report.kind@ == plan.kind
    &&& report.plan_id.0@ == plan.id
    &&& exists|at: Timestamp|
        events_view(report.events@) == #[trigger] events_of(
            plan.kind,
            rules_view(policy.rules@),
            policy.fallback,
            at,
            plan.changes,
        )
    &&& summed_up(events_view(report.events@), report.summary)
}

proof fn lemma_report_counts(report: DriftReport, plan: PlanV, policy: DriftPolicy)
    requires
        reports_on(report, plan, policy),
    ensures
        report.summary.refused == ruled(
            rules_view(policy.rules@),
            policy.fallback,
            effective(plan.changes),
            DriftDecision::Refuse,
        ),
        report.summary.awaiting_approval == ruled(
            rules_view(policy.rules@),
            policy.fallback,
            effective(plan.changes),
            DriftDecision::RequireApproval,
        ),
{
    let rules = rules_view(policy.rules@);
    let live = effective(plan.changes);
    let at = choose|at: Timestamp|
        events_view(report.events@) == #[trigger] events_of(
            plan.kind,
            rules,
            policy.fallback,
            at,
            plan.changes,
        );
    lemma_times(plan.kind, rules, policy.fallback, at, live, DriftDecision::Refuse);
    lemma_times(plan.kind, rules, policy.fallback, at, live, DriftDecision::RequireApproval);
}

/// The result is what the ruling calls for, and only a plan that may be
/// carried out changed the reconciler.
pub open spec fn followed<R: Reconciler>(
    result: ReconcileResult,
    ruling: Ruling,
    before: R,
    after: R,
) -> bool {
    match ruling {
        Ruling::Nothing => result is NoChange && after == before,
        Ruling::Refuse(n) => result.verdict() == Verdict::Refused(n) && after == before,
        Ruling::Hold(n) => result.verdict() == Verdict::Held(n) && after == before,
        Ruling::Go => match result {
            ReconcileResult::Applied { plan, outcome, .. } => outcome.failed@.len() == 0
                && carried_through(plan@, outcome, before, after),
            ReconcileResult::AppliedWithFailures { plan, outcome, .. } => outcome.failed@.len() > 0
                && carried_through(plan@, outcome, before, after),
            _ => false,
        },
    }
}

/// The outcome is that of carrying out the plan.
pub open spec fn carried_through<R: Reconciler>(
    plan: PlanV,
    outcome: Outcome,
    before: R,
    after: R,
) -> bool {
    &&& outcome.plan_id.0@ == plan.id
    &&& outcome.kind@ == plan.kind
    &&& before.carries(
        plan.changes,
        after,
        applied_view(outcome.applied@),
        failed_view(outcome.failed@),
    )
}

/// What is to be done with a plan.
#[derive(Debug)]
pub enum Next {
    /// Nothing more: this is what it came to.
    Stop(ReconcileResult),
    /// Carry it out.
    Go { plan: Plan, report: DriftReport },
}

/// What a policy makes of a plan: it stops there where the plan does nothing,
/// where a change is refused or where one needs approval.
pub fn decide(plan: Plan, policy: &DriftPolicy) -> (r: Next)
    ensures
        match (r, ruling(rules_view(policy.rules@), policy.fallback, plan@.changes)) {
            (Next::Stop(result), Ruling::Nothing) => result is NoChange && result.planning()
                == plan@,
            (Next::Stop(result), Ruling::Refuse(n)) => result.verdict() == Verdict::Refused(n)
                && result.planning() == plan@ && (result.reported() matches Some(rep)
                && reports_on(rep, plan@, *policy)),
            (Next::Stop(result), Ruling::Hold(n)) => result.verdict() == Verdict::Held(n)
                && result.planning() == plan@ && (result.reported() matches Some(rep)
                && reports_on(rep, plan@, *policy)),
            (Next::Go { plan: p, report }, Ruling::Go) => p == plan && reports_on(
                report,
                plan@,
                *policy,
            ),
            _ => false,
        },
        r is Go <==> effective(plan@.changes).len() > 0 && forall|i: int|
            0 <= i < effective(plan@.changes).len() ==> {
                let d = decided(
                    rules_view(policy.rules@),
                    policy.fallback,
                    #[trigger] effective(plan@.changes)[i],
                ).0;
                d == DriftDecision::AutoCorrect || d == DriftDecision::AutoCorrectWithAlert
            },
{
    proof {
        law_noop_counts_nothing(plan@.changes);
        law_go_iff_all_automatic(rules_view(policy.rules@), policy.fallback, plan@.changes);
    }
    if plan.is_noop() {
        return Next::Stop(ReconcileResult::NoChange { plan });
    }
    let report = classify(&plan, policy);
    proof {
        assert(reports_on(report, plan@, *policy));
        lemma_report_counts(report, plan@, *policy);
    }
    let refused = report.summary.refused;
    let held = report.summary.awaiting_approval;
    if refused > 0 {
        return Next::Stop(ReconcileResult::Refused { plan, report, refused });
    }
    if held > 0 {
        return Next::Stop(ReconcileResult::HeldForApproval { plan, report, held });
    }
    Next::Go { plan, report }
}

/// What a plan that was carried out came to: whether anything failed tells.
pub fn settle(plan: Plan, report: DriftReport, outcome: Outcome) -> (r: ReconcileResult)
    ensures
        r == (if outcome.failed@.len() == 0 {
            (ReconcileResult::Applied { plan, report, outcome })
        } else {
            (ReconcileResult::AppliedWithFailures { plan, report, outcome })
        }),
{
    if outcome.fully_succeeded() {
        ReconcileResult::Applied { plan, report, outcome }
    } else {
        ReconcileResult::AppliedWithFailures { plan, report, outcome }
    }
}

/// Plan, decide, and carry out what may be carried out. The plan is carried
/// out only where no change is refused and none needs approval. Where the
/// state cannot be read, the plan cannot be made or it fails as a whole, the
/// error is the one met.
pub fn reconcile_with_policy<R: Reconciler>(
    reconciler: &mut R,
    config: &Json,
    policy: &DriftPolicy,
) -> (r: Result<ReconcileResult, ReconcilerError>)
    ensures
        match drift_changes(old(reconciler), config@) {
            Err(e) => r matches Err(f) && f@ == e && *final(reconciler) == *old(reconciler),
            Ok(cs) => match r {
                Ok(result) => {
                    &&& result.planning() == plan_of(
                        old(reconciler).label(),
                        cs,
                        result.planning().created_at,
                    )
                    &&& followed(
                        result,
                        ruling(rules_view(policy.rules@), policy.fallback, cs),
                        *old(reconciler),
                        *final(reconciler),
                    )
                    &&& result.reported() matches Some(rep) ==> reports_on(
                        rep,
                        result.planning(),
                        *policy,
                    )
                },
                Err(e) => ruling(rules_view(policy.rules@), policy.fallback, cs) is Go && old(
                    reconciler,
                ).fails(cs, *final(reconciler), e@),
            },
        },
        final(reconciler).label() == old(reconciler).label(),
        forall|i: int|
            drift_changes(old(reconciler), config@) is Ok && 0 <= i < effective(
                drift_changes(old(reconciler), config@)->Ok_0,
            ).len() && {
                let d = decided(
                    rules_view(policy.rules@),
                    policy.fallback,
                    #[trigger] effective(drift_changes(old(reconciler), config@)->Ok_0)[i],
                ).0;
                d == DriftDecision::Refuse || d == DriftDecision::RequireApproval
            } ==> *final(reconciler) == *old(reconciler) && r is Ok && (r->Ok_0 is Refused
                || r->Ok_0 is HeldForApproval),
{
    let plan = match detect_drift(reconciler, config) {
        Ok(p) => p,
        Err(e) => {
            return Err(e);
        },
    };
    match decide(plan, policy) {
        Next::Stop(result) => Ok(result),
        Next::Go { plan, report } => match reconciler.apply(&plan) {
            Err(e) => Err(e),
            Ok(outcome) => Ok(settle(plan, report, outcome)),
        },
    }
}

// ── Where a loop goes ──────────────────────────────────────────────

/// A step in the course of a plan.
pub open spec fn step(from: Phase, to: Phase, id: Seq<char>, reason: Seq<char>) -> TransitionV {
    TransitionV { from, to, plan_id: Some(id), reason }
}

/// The steps of a loop that came to this.
pub open spec fn journey(v: Verdict, id: Seq<char>) -> Seq<TransitionV> {
    let start = TransitionV {
        from: Phase::Idle,
        to: Phase::Planning,
        plan_id: None,
        reason: "controller: trigger"@,
    };
    match v {
        Verdict::NoChange => seq![start, step(Phase::Planning, Phase::Stable, id, "no changes"@)],
        Verdict::Refused(n) => seq![
            start,
            step(
                Phase::Planning,
                Phase::Refused,
                id,
                "policy refused "@ + text::decimal(n) + " change(s)"@,
            ),
        ],
        Verdict::Held(n) => seq![
            start,
            step(
                Phase::Planning,
                Phase::Approving,
                id,
                "policy requires approval on "@ + text::decimal(n) + " change(s)"@,
            ),
        ],
        Verdict::Applied => seq![
            start,
            step(Phase::Planning, Phase::Applying, id, "applying"@),
            step(Phase::Applying, Phase::Verifying, id, "applied"@),
            step(Phase::Verifying, Phase::Stable, id, "verified, no drift"@),
        ],
        Verdict::Failed(n) => seq![
            start,
            step(Phase::Planning, Phase::Applying, id, "applying"@),
            step(Phase::Applying, Phase::Verifying, id, "applied with failures"@),
            step(
                Phase::Verifying,
                Phase::Failed,
                id,
                text::decimal(n) + " resource(s) failed apply"@,
            ),
        ],
    }
}

/// The phase in which a loop that came to this ends.
pub open spec fn destination(v: Verdict) -> Phase {
    match v {
        Verdict::NoChange => Phase::Stable,
        Verdict::Refused(_) => Phase::Refused,
        Verdict::Held(_) => Phase::Approving,
        Verdict::Applied => Phase::Stable,
        Verdict::Failed(_) => Phase::Failed,
    }
}

/// Where a loop with this result goes.
pub fn lifecycle_of(result: &ReconcileResult) -> (r: LifecycleState)
    ensures
        history_view(r.history@) == journey(result.verdict(), result.planning().id),
        r.current == destination(result.verdict()),
        r.wf(),
{
    let mut lifecycle = LifecycleState::new();
    lifecycle.transition(Phase::Planning, None, "controller: trigger");
    let id = result.plan_id();
    match result {
        ReconcileResult::NoChange { .. } => {
            lifecycle.transition(Phase::Stable, Some(id.clone()), "no changes");
        },
        ReconcileResult::Refused { refused, .. } => {
            let n = text::decimal_text(*refused);
            let reason = text::join3("policy refused ", n.as_str(), " change(s)");
            lifecycle.transition(Phase::Refused, Some(id.clone()), reason.as_str());
        },
        ReconcileResult::HeldForApproval { held, .. } => {
            let n = text::decimal_text(*held);
            let reason = text::join3("policy requires approval on ", n.as_str(), " change(s)");
            lifecycle.transition(Phase::Approving, Some(id.clone()), reason.as_str());
        },
        ReconcileResult::Applied { .. } => {
            lifecycle.transition(Phase::Applying, Some(id.clone()), "applying");
            lifecycle.transition(Phase::Verifying, Some(id.clone()), "applied");
            lifecycle.transition(Phase::Stable, Some(id.clone()), "verified, no drift");
        },
        ReconcileResult::AppliedWithFailures { outcome, .. } => {
            lifecycle.transition(Phase::Applying, Some(id.clone()), "applying");
            lifecycle.transition(Phase::Verifying, Some(id.clone()), "applied with failures");
            let n = text::decimal_text(outcome.failed.len());
            let reason = text::join2(n.as_str(), " resource(s) failed apply");
            lifecycle.transition(Phase::Failed, Some(id.clone()), reason.as_str());
        },
    }
    proof {
        assert(history_view(lifecycle.history@) =~= journey(
            result.verdict(),
            result.planning().id,
        ));
    }
    lifecycle
}

/// The record of one run of the loop, for a bundle to be sealed from.
#[derive(Clone, Debug)]
pub struct Bundle {
    pub kind: String,
    pub workspace: String,
    pub plan: Plan,
    /// What carrying the plan out came to, where it was carried out.
    pub outcome: Option<Outcome>,
    /// What was decided about the plan; for a plan that does nothing, an
    /// empty report.
    pub drift: DriftReport,
    pub lifecycle: LifecycleState,
}

/// An outcome that may be missing, by what it holds.
pub open spec fn outcome_view(o: Option<Outcome>) -> Option<OutcomeV> {
    match o {
        Some(x) => Some(x@),
        None => None,
    }
}

/// Two reports say the same.
pub open spec fn same_report(a: DriftReport, b: DriftReport) -> bool {
    &&& a.kind@ == b.kind@
    &&& a.plan_id.0@ == b.plan_id.0@
    &&& events_view(a.events@) == events_view(b.events@)
    &&& a.summary == b.summary
}

/// The loop went where one with this result goes.
pub open spec fn went(l: LifecycleState, result: ReconcileResult) -> bool {
    &&& l.current == destination(result.verdict())
    &&& history_view(l.history@) == journey(result.verdict(), result.planning().id)
    &&& l.wf()
}

impl Bundle {
    /// The record is that of a run with this result.
    pub open spec fn records(
        &self,
        kind: Seq<char>,
        workspace: Seq<char>,
        result: ReconcileResult,
        policy: DriftPolicy,
    ) -> bool {
        &&& self.kind@ == kind
        &&& self.workspace@ == workspace
        &&& self.plan@ == result.planning()
        &&& outcome_view(self.outcome) == outcome_view(result.carried())
        &&& match result.reported() {
            Some(rep) => same_report(self.drift, rep),
            None => reports_on(self.drift, result.planning(), policy),
        }
        &&& went(self.lifecycle, result)
    }

    /// How many changes of the plan do something.
    pub fn change_count(&self) -> (r: usize)
        ensures
            r == effective(self.plan@.changes).len(),
    {
        self.plan.change_count()
    }
}

/// What one run of the loop came to.
#[derive(Clone, Debug)]
pub struct ControllerOutcome {
    pub result: ReconcileResult,
    pub bundle: Bundle,
    pub lifecycle: LifecycleState,
}

impl ControllerOutcome {
    /// Whether the loop ended in a stable state with everything in place.
    pub fn fully_succeeded(&self) -> (r: bool)
        ensures
            r == ((self.result is NoChange || self.result is Applied) && self.lifecycle.current
                == Phase::Stable),
    {
        (match &self.result {
            ReconcileResult::NoChange { .. } => true,
            ReconcileResult::Applied { .. } => true,
            _ => false,
        }) && self.lifecycle.current == Phase::Stable
    }

    /// The outcome is the one that follows from its result.
    pub open spec fn wf(&self, kind: Seq<char>, workspace: Seq<char>, policy: DriftPolicy) -> bool {
        &&& went(self.lifecycle, self.result)
        &&& self.bundle.records(kind, workspace, self.result, policy)
    }
}

/// What a result comes to, once the plan has been dealt with.
pub fn conclude(kind: &str, workspace: &str, result: ReconcileResult, policy: &DriftPolicy) -> (r:
    ControllerOutcome)
    ensures
        r.result == result,
        r.wf(kind@, workspace@, *policy),
{
    let lifecycle = lifecycle_of(&result);
    let drift = match result.report() {
        Some(rep) => rep.clone(),
        None => classify(result.plan(), policy),
    };
    let bundle = Bundle {
        kind: kind.to_owned(),
        workspace: workspace.to_owned(),
        plan: result.plan().clone(),
        outcome: match result.outcome() {
            Some(o) => Some(o.clone()),
            None => None,
        },
        drift,
        lifecycle: lifecycle.clone(),
    };
    ControllerOutcome { result, bundle, lifecycle }
}

/// A reconciler with a policy, and the name of what it looks after.
#[derive(Debug)]
pub struct ReconcileController<R> {
    pub reconciler: R,
    pub policy: DriftPolicy,
    pub workspace: String,
}

impl<R: Reconciler> ReconcileController<R> {
    pub fn new(reconciler: R, policy: DriftPolicy, workspace: &str) -> (r: Self)
        ensures
            r.reconciler == reconciler,
            r.policy == policy,
            r.workspace@ == workspace@,
    {
        ReconcileController { reconciler, policy, workspace: workspace.to_owned() }
    }

    /// The kind that the reconciler looks after.
    pub fn kind(&self) -> (r: &'static str)
        ensures
            r@ == self.reconciler.label(),
    {
        self.reconciler.kind()
    }

    /// Run the loop once.
    pub fn reconcile(&mut self, config: &Json) -> (r: Result<ControllerOutcome, ControllerError>)
        ensures
            final(self).policy == old(self).policy,
            final(self).workspace == old(self).workspace,
            match drift_changes(&old(self).reconciler, config@) {
                Err(e) => (r matches Err(ControllerError::Reconciler(f)) && f@ == e)
                    && final(self).reconciler == old(self).reconciler,
                Ok(cs) => match r {
                    Ok(o) => {
                        &&& o.result.planning() == plan_of(
                            old(self).reconciler.label(),
                            cs,
                            o.result.planning().created_at,
                        )
                        &&& followed(
                            o.result,
                            ruling(rules_view(old(self).policy.rules@), old(self).policy.fallback, cs),
                            old(self).reconciler,
                            final(self).reconciler,
                        )
                        &&& o.wf(
                            old(self).reconciler.label(),
                            old(self).workspace@,
                            old(self).policy,
                        )
                        &&& o.result.reported() matches Some(rep) ==> reports_on(
                            rep,
                            o.result.planning(),
                            old(self).policy,
                        )
                    },
                    Err(f) => f matches ControllerError::Reconciler(e) && ruling(
                        rules_view(old(self).policy.rules@),
                        old(self).policy.fallback,
                        cs,
                    ) is Go && old(self).reconciler.fails(cs, final(self).reconciler, e@),
                },
            },
    {
        match reconcile_with_policy(&mut self.reconciler, config, &self.policy) {
            Err(e) => Err(ControllerError::Reconciler(e)),
            Ok(result) => Ok(
                conclude(self.kind(), self.workspace.as_str(), result, &self.policy),
            ),
        }
    }
}

// ── Laws ───────────────────────────────────────────────────────────

/// A loop ends stable, refused, waiting for approval, or failed.
pub proof fn law_ends_in_a_decision(v: Verdict)
    ensures
        destination(v) == Phase::Stable || destination(v) == Phase::Refused || destination(v)
            == Phase::Approving || destination(v) == Phase::Failed,
{
}

/// A loop ends stable exactly where nothing was to be done or all of it was
/// done.
pub proof fn law_stable_iff_in_place(v: Verdict)
    ensures
        destination(v) == Phase::Stable <==> (v == Verdict::NoChange || v == Verdict::Applied),
{
}

/// Every loop begins by going from idle to planning, and its steps lead from
/// there to where it ends.
pub proof fn law_journeys_are_connected(v: Verdict, id: Seq<char>)
    ensures
        journey(v, id).len() >= 2,
        journey(v, id)[0].from == Phase::Idle,
        journey(v, id)[0].to == Phase::Planning,
        connected(journey(v, id), destination(v)),
{
}

/// A loop that carried its plan out goes through planning, applying,
/// verifying and ends stable.
pub proof fn law_applied_walks_through(id: Seq<char>)
    ensures
        ({
            let j = journey(Verdict::Applied, id);
            &&& j.len() == 4
            &&& j[0].to == Phase::Planning
            &&& j[1].to == Phase::Applying
            &&& j[2].to == Phase::Verifying
            &&& j[3].to == Phase::Stable
        }),
{
}

/// One change that is refused is enough for the whole plan to be refused.
pub proof fn law_refusal_comes_first(rules: Seq<RuleV>, fallback: DriftDecision, cs: Seq<ChangeV>, i: int)
    requires
        0 <= i < effective(cs).len(),
        decided(rules, fallback, effective(cs)[i]).0 == DriftDecision::Refuse,
    ensures
        ruling(rules, fallback, cs) is Refuse,
{
    lemma_ruled_some(rules, fallback, effective(cs), DriftDecision::Refuse, i);
}

/// As long as none is refused, one change that needs approval is enough for
/// the whole plan to be held.
pub proof fn law_approval_holds_all(
    rules: Seq<RuleV>,
    fallback: DriftDecision,
    cs: Seq<ChangeV>,
    i: int,
)
    requires
        0 <= i < effective(cs).len(),
        decided(rules, fallback, effective(cs)[i]).0 == DriftDecision::RequireApproval,
        forall|j: int|
            0 <= j < effective(cs).len() ==> decided(rules, fallback, #[trigger] effective(cs)[j]).0
                != DriftDecision::Refuse,
    ensures
        ruling(rules, fallback, cs) is Hold,
{
    lemma_ruled_some(rules, fallback, effective(cs), DriftDecision::RequireApproval, i);
    lemma_ruled_none(rules, fallback, effective(cs), DriftDecision::Refuse);
}

/// A plan may be carried out exactly where it does something and every change
/// in it that does may be carried out without asking.
pub proof fn law_go_iff_all_automatic(rules: Seq<RuleV>, fallback: DriftDecision, cs: Seq<ChangeV>)
    ensures
        ruling(rules, fallback, cs) is Go <==> effective(cs).len() > 0 && forall|i: int|
            0 <= i < effective(cs).len() ==> {
                let d = decided(rules, fallback, #[trigger] effective(cs)[i]).0;
                d == DriftDecision::AutoCorrect || d == DriftDecision::AutoCorrectWithAlert
            },
{
    let live = effective(cs);
    if ruling(rules, fallback, cs) is Go {
        assert forall|i: int| 0 <= i < live.len() implies {
            let d = decided(rules, fallback, #[trigger] live[i]).0;
            d == DriftDecision::AutoCorrect || d == DriftDecision::AutoCorrectWithAlert
        } by {
            let d = decided(rules, fallback, live[i]).0;
            if d == DriftDecision::Refuse || d == DriftDecision::RequireApproval {
                lemma_ruled_some(rules, fallback, live, d, i);
            }
        }
    } else if live.len() > 0 && forall|i: int|
        0 <= i < live.len() ==> {
            let d = decided(rules, fallback, #[trigger] live[i]).0;
            d == DriftDecision::AutoCorrect || d == DriftDecision::AutoCorrectWithAlert
        } {
        lemma_ruled_none(rules, fallback, live, DriftDecision::Refuse);
        lemma_ruled_none(rules, fallback, live, DriftDecision::RequireApproval);
    }
}

/// There is nothing to do exactly where no change of the plan does anything.
pub proof fn law_nothing_iff_idle(rules: Seq<RuleV>, fallback: DriftDecision, cs: Seq<ChangeV>)
    ensures
        ruling(rules, fallback, cs) is Nothing <==> forall|i: int|
            0 <= i < cs.len() ==> (#[trigger] cs[i]).action == Action::NoOp,
{
    law_noop_counts_nothing(cs);
}

/// A refusal and a hold say how many changes they are about: those that do
/// something and get that decision.
pub proof fn law_rulings_count(rules: Seq<RuleV>, fallback: DriftDecision, cs: Seq<ChangeV>)
    ensures
        match ruling(rules, fallback, cs) {
            Ruling::Refuse(n) => n == cs.filter(
                |c: ChangeV|
                    c.action != Action::NoOp && decided(rules, fallback, c).0
                        == DriftDecision::Refuse,
            ).len() && n > 0,
            Ruling::Hold(n) => n == cs.filter(
                |c: ChangeV|
                    c.action != Action::NoOp && decided(rules, fallback, c).0
                        == DriftDecision::RequireApproval,
            ).len() && n > 0,
            _ => true,
        },
{
    lemma_ruled_counts(rules, fallback, cs, DriftDecision::Refuse);
    lemma_ruled_counts(rules, fallback, cs, DriftDecision::RequireApproval);
}

proof fn lemma_ruled_counts(
    rules: Seq<RuleV>,
    fallback: DriftDecision,
    cs: Seq<ChangeV>,
    d: DriftDecision,
)
    ensures
        ruled(rules, fallback, effective(cs), d) == cs.filter(
            |c: ChangeV| c.action != Action::NoOp && decided(rules, fallback, c).0 == d,
        ).len(),
    decreases cs.len(),
{
    reveal(Seq::filter);
    if cs.len() > 0 {
        lemma_ruled_counts(rules, fallback, cs.drop_last(), d);
        let front = effective(cs.drop_last());
        if cs.last().action != Action::NoOp {
            assert(effective(cs) == front.push(cs.last()));
            assert(effective(cs).drop_last() =~= front);
        }
    }
}

/// Only a plan that may be carried out changes the reconciler: where one of
/// its changes is refused or needs approval, the result says so and the
/// reconciler is as it was.
pub proof fn law_held_up_changes_nothing<R: Reconciler>(
    rules: Seq<RuleV>,
    fallback: DriftDecision,
    cs: Seq<ChangeV>,
    i: int,
    result: ReconcileResult,
    before: R,
    after: R,
)
    requires
        followed(result, ruling(rules, fallback, cs), before, after),
        0 <= i < effective(cs).len(),
        decided(rules, fallback, effective(cs)[i]).0 == DriftDecision::Refuse || decided(
            rules,
            fallback,
            effective(cs)[i],
        ).0 == DriftDecision::RequireApproval,
    ensures
        after == before,
        result is Refused || result is HeldForApproval,
        result is Refused <==> exists|j: int|
            0 <= j < effective(cs).len() && decided(rules, fallback, #[trigger] effective(cs)[j]).0
                == DriftDecision::Refuse,
{
    let live = effective(cs);
    lemma_ruled_some(rules, fallback, live, decided(rules, fallback, live[i]).0, i);
    if exists|j: int|
        0 <= j < live.len() && decided(rules, fallback, #[trigger] live[j]).0
            == DriftDecision::Refuse {
        let j = choose|j: int|
            0 <= j < live.len() && decided(rules, fallback, #[trigger] live[j]).0
                == DriftDecision::Refuse;
        lemma_ruled_some(rules, fallback, live, DriftDecision::Refuse, j);
    } else {
        lemma_ruled_none(rules, fallback, live, DriftDecision::Refuse);
    }
}

/// A plan that is carried out has an outcome of its own, and the result tells
/// by what failed.
pub proof fn law_carried_out_tells_failures<R: Reconciler>(
    result: ReconcileResult,
    before: R,
    after: R,
)
    requires
        followed(result, Ruling::Go, before, after),
    ensures
        result.carried() matches Some(o) && o.plan_id.0@ == result.planning().id && before.carries(
            result.planning().changes,
            after,
            applied_view(o.applied@),
            failed_view(o.failed@),
        ) && (result is Applied <==> o.failed@.len() == 0) && (result is AppliedWithFailures <==>
            o.failed@.len() > 0),
{
}

proof fn lemma_ruled_none(
    rules: Seq<RuleV>,
    fallback: DriftDecision,
    cs: Seq<ChangeV>,
    d: DriftDecision,
)
    requires
        forall|j: int| 0 <= j < cs.len() ==> decided(rules, fallback, #[trigger] cs[j]).0 != d,
    ensures
        ruled(rules, fallback, cs, d) == 0,
    decreases cs.len(),
{
    if cs.len() > 0 {
        assert(decided(rules, fallback, cs[cs.len() - 1]).0 != d);
        assert forall|j: int| 0 <= j < cs.drop_last().len() implies decided(
            rules,
            fallback,
            #[trigger] cs.drop_last()[j],
        ).0 != d by {
            assert(cs.drop_last()[j] == cs[j]);
        }
        lemma_ruled_none(rules, fallback, cs.drop_last(), d);
    }
}

proof fn lemma_ruled_some(
    rules: Seq<RuleV>,
    fallback: DriftDecision,
    cs: Seq<ChangeV>,
    d: DriftDecision,
    i: int,
)
    requires
        0 <= i < cs.len(),
        decided(rules, fallback, cs[i]).0 == d,
    ensures
        ruled(rules, fallback, cs, d) > 0,
    decreases cs.len(),
{
    if i < cs.len() - 1 {
        assert(cs.drop_last()[i] == cs[i]);
        lemma_ruled_some(rules, fallback, cs.drop_last(), d, i);
    }
}

/// Running the loop twice over a map of values: the second time there is
/// nothing to do, or the policy holds the same changes up again.
pub proof fn law_second_run_is_settled(
    rules: Seq<RuleV>,
    fallback: DriftDecision,
    have: Named,
    want: Named,
)
    requires
        sorted(have),
        sorted(want),
    ensures
        ({
            let cs = kv_changes(JsonV::Object(want), JsonV::Object(have))->Ok_0;
            let first = ruling(rules, fallback, cs);
            let left = if first is Go {
                all_carried_out(kv_prefix(), have, cs)
            } else {
                have
            };
            let again = kv_changes(JsonV::Object(want), JsonV::Object(left))->Ok_0;
            let second = ruling(rules, fallback, again);
            second is Nothing || (!(first is Go) && second == first)
        }),
{
    let cs = kv_changes(JsonV::Object(want), JsonV::Object(have))->Ok_0;
    if ruling(rules, fallback, cs) is Go {
        law_kv_converges(have, want);
        law_noop_counts_nothing(Seq::empty());
        assert(effective(Seq::<ChangeV>::empty()).len() == 0);
    }
}

/// Every step but the first names the plan, and the last one says why a plan
/// was not carried out, with the number of changes.
pub proof fn law_steps_name_the_plan(v: Verdict, id: Seq<char>)
    ensures
        journey(v, id).len() >= 2,
        journey(v, id)[0].plan_id is None,
        forall|i: int|
            1 <= i < journey(v, id).len() ==> (#[trigger] journey(v, id)[i]).plan_id == Some(id),
        v matches Verdict::Refused(n) ==> journey(v, id).last().reason == "policy refused "@
            + text::decimal(n) + " change(s)"@,
        v matches Verdict::Held(n) ==> journey(v, id).last().reason
            == "policy requires approval on "@ + text::decimal(n) + " change(s)"@,
{
}

/// The phase in which a loop ends tells what became of the plan.
pub proof fn law_destinations(v: Verdict)
    ensures
        destination(v) == Phase::Stable <==> v is NoChange || v is Applied,
        destination(v) == Phase::Refused <==> v is Refused,
        destination(v) == Phase::Approving <==> v is Held,
        destination(v) == Phase::Failed <==> v is Failed,
{
}

/// A report is on its plan: it has an event for every change that does
/// something, in order, and counts them.
pub proof fn law_reports_are_on_their_plan(report: DriftReport, plan: PlanV, policy: DriftPolicy, i: int)
    requires
        reports_on(report, plan, policy),
        0 <= i < effective(plan.changes).len(),
    ensures
        report.kind@ == plan.kind,
        report.plan_id.0@ == plan.id,
        report.events@.len() == effective(plan.changes).len(),
        report.summary.total_changes == report.events@.len(),
        report.events@[i].address@ == effective(plan.changes)[i].address,
        report.events@[i].decision == decided(
            rules_view(policy.rules@),
            policy.fallback,
            effective(plan.changes)[i],
        ).0,
{
    let at = choose|at: Timestamp|
        events_view(report.events@) == #[trigger] events_of(
            plan.kind,
            rules_view(policy.rules@),
            policy.fallback,
            at,
            plan.changes,
        );
    let es = events_of(
        plan.kind,
        rules_view(policy.rules@),
        policy.fallback,
        at,
        plan.changes,
    );
    assert(es.len() == effective(plan.changes).len());
    assert(events_view(report.events@).len() == report.events@.len());
    assert(events_view(report.events@)[i] == report.events@[i]@);
    assert(es[i] == event_of(
        plan.kind,
        rules_view(policy.rules@),
        policy.fallback,
        at,
        effective(plan.changes)[i],
    ));
}

/// The record of a run holds the plan, what carrying it out came to, what was
/// decided about it, and where the loop went.
pub proof fn law_records_hold_the_run(
    b: Bundle,
    kind: Seq<char>,
    workspace: Seq<char>,
    result: ReconcileResult,
    policy: DriftPolicy,
)
    requires
        b.records(kind, workspace, result, policy),
    ensures
        b.kind@ == kind,
        b.workspace@ == workspace,
        b.plan@ == result.planning(),
        b.outcome is Some <==> result is Applied || result is AppliedWithFailures,
        result.carried() matches Some(o) ==> b.outcome->Some_0@ == o@,
        b.lifecycle.current == destination(result.verdict()),
        history_view(b.lifecycle.history@) == journey(result.verdict(), result.planning().id),
        result.reported() matches Some(rep) ==> b.drift.kind@ == rep.kind@ && b.drift.plan_id.0@
            == rep.plan_id.0@ && events_view(b.drift.events@) == events_view(rep.events@)
            && b.drift.summary == rep.summary,
        result is NoChange ==> reports_on(b.drift, result.planning(), policy),
{
}

/// Where there is nothing to do, nothing is done.
pub proof fn law_nothing_changes_nothing<R: Reconciler>(result: ReconcileResult, before: R, after: R)
    requires
        followed(result, Ruling::Nothing, before, after),
    ensures
        result is NoChange,
        after == before,
        result.carried() is None,
{
}

/// What was carried out is told of the plan and the kind that it was for.
pub proof fn law_outcomes_name_their_plan<R: Reconciler>(result: ReconcileResult, before: R, after: R)
    requires
        followed(result, Ruling::Go, before, after),
    ensures
        result.carried() matches Some(o) && o.plan_id.0@ == result.planning().id && o.kind@
            == result.planning().kind,
{
}

} // verus!
