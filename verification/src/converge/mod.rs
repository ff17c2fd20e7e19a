//! Plans, changes and outcomes, the shapes that every reconciler shares.
//!
//! A reconciler compares what is wanted with what is there, writes the
//! differences down as a [`Plan`], and carries the plan out.
use vstd::prelude::*;
use shigoto_types::converge::{
    Action as OutAction, Change as OutChange, ChangeSeverity as OutSeverity, Plan as OutPlan,
};
use crate::digest;
use crate::json;
use crate::json::{Json, JsonV};
use crate::text;
use crate::time::{self, Timestamp};

pub mod aggregator;
pub mod apply;
pub mod artifact;
pub mod backend_error;
pub mod blobstore;
pub mod condition;
pub mod decode;
pub mod diff;
pub mod dns;
pub mod drift;
pub mod engine;
pub mod github;
pub mod health;
pub mod helm;
pub mod inmemory;
pub mod inventory;
pub mod manifest;
pub mod meta;
pub mod outcome;
pub mod policy;
pub mod refspec;
pub mod selector;
pub mod store;
pub mod terraform;
pub mod validate;
pub mod vault;
pub mod webhook;

verus! {

// ── Errors ─────────────────────────────────────────────────────────

/// What can go wrong in a reconciler.
#[derive(Debug)]
pub enum ReconcilerError {
    ReadState(String),
    ComputePlan(String),
    Apply(String),
    Validation(String),
    Transient(String),
    Other(String),
}

/// What a [`ReconcilerError`] says.
#[verifier::ext_equal]
pub enum ReconcilerErrorV {
    ReadState(Seq<char>),
    ComputePlan(Seq<char>),
    Apply(Seq<char>),
    Validation(Seq<char>),
    Transient(Seq<char>),
    Other(Seq<char>),
}

impl View for ReconcilerError {
    type V = ReconcilerErrorV;

    open spec fn view(&self) -> ReconcilerErrorV {
        match self {
            ReconcilerError::ReadState(m) => ReconcilerErrorV::ReadState(m@),
            ReconcilerError::ComputePlan(m) => ReconcilerErrorV::ComputePlan(m@),
            ReconcilerError::Apply(m) => ReconcilerErrorV::Apply(m@),
            ReconcilerError::Validation(m) => ReconcilerErrorV::Validation(m@),
            ReconcilerError::Transient(m) => ReconcilerErrorV::Transient(m@),
            ReconcilerError::Other(m) => ReconcilerErrorV::Other(m@),
        }
    }
}

/// A reconciler error in words.
pub open spec fn error_text(e: ReconcilerErrorV) -> Seq<char> {
    match e {
        ReconcilerErrorV::ReadState(m) => "read state: "@ + m,
        ReconcilerErrorV::ComputePlan(m) => "compute plan: "@ + m,
        ReconcilerErrorV::Apply(m) => "apply: "@ + m,
        ReconcilerErrorV::Validation(m) => "validation: "@ + m,
        ReconcilerErrorV::Transient(m) => "transient: "@ + m,
        ReconcilerErrorV::Other(m) => "other: "@ + m,
    }
}

impl ReconcilerError {
    /// The error in words.
    pub fn message(&self) -> (r: String)
        ensures
            r@ == error_text(self@),
    {
        match self {
            ReconcilerError::ReadState(m) => text::join2("read state: ", m.as_str()),
            ReconcilerError::ComputePlan(m) => text::join2("compute plan: ", m.as_str()),
            ReconcilerError::Apply(m) => text::join2("apply: ", m.as_str()),
            ReconcilerError::Validation(m) => text::join2("validation: ", m.as_str()),
            ReconcilerError::Transient(m) => text::join2("transient: ", m.as_str()),
            ReconcilerError::Other(m) => text::join2("other: ", m.as_str()),
        }
    }
}

// ── Changes ────────────────────────────────────────────────────────

/// What a change does to a resource.
#[derive(Clone, Copy, Debug, PartialEq, Eq, Structural)]
pub enum Action {
    Create,
    Update,
    Delete,
    Replace,
    NoOp,
}

/// How much a change matters.
#[derive(Clone, Copy, Debug, PartialEq, Eq, Structural)]
pub enum ChangeSeverity {
    /// Tags, labels, descriptions.
    Cosmetic,
    /// Alters behaviour.
    Functional,
    /// Touches security, availability or data.
    Critical,
}

/// The name of an action in JSON.
pub open spec fn action_text(a: Action) -> Seq<char> {
    match a {
        Action::Create => "create"@,
        Action::Update => "update"@,
        Action::Delete => "delete"@,
        Action::Replace => "replace"@,
        Action::NoOp => "no_op"@,
    }
}

/// The name of a severity in JSON.
pub open spec fn severity_text(s: ChangeSeverity) -> Seq<char> {
    match s {
        ChangeSeverity::Cosmetic => "cosmetic"@,
        ChangeSeverity::Functional => "functional"@,
        ChangeSeverity::Critical => "critical"@,
    }
}

/// No two actions have the same name.
pub proof fn law_action_names_differ(a: Action, b: Action)
    ensures
        action_text(a) == action_text(b) <==> a == b,
{
    reveal_strlit("create");
    reveal_strlit("update");
    reveal_strlit("delete");
    reveal_strlit("replace");
    reveal_strlit("no_op");
    if action_text(a) == action_text(b) {
        assert("create"@[0] == 'c' && "update"@[0] == 'u' && "delete"@[0] == 'd');
        assert("replace"@[0] == 'r' && "no_op"@[0] == 'n');
    }
}

/// No two severities have the same name.
pub proof fn law_severity_names_differ(a: ChangeSeverity, b: ChangeSeverity)
    ensures
        severity_text(a) == severity_text(b) <==> a == b,
{
    reveal_strlit("cosmetic");
    reveal_strlit("functional");
    reveal_strlit("critical");
    if severity_text(a) == severity_text(b) {
        assert("cosmetic"@[1] == 'o' && "functional"@[1] == 'u' && "critical"@[1] == 'r');
    }
}

impl Action {
    /// The name of the action in JSON.
    pub fn name(self) -> (r: &'static str)
        ensures
            r@ == action_text(self),
    {
        match self {
            Action::Create => "create",
            Action::Update => "update",
            Action::Delete => "delete",
            Action::Replace => "replace",
            Action::NoOp => "no_op",
        }
    }
}

/// The severity that an action has where nothing else is known.
pub open spec fn usual_severity(a: Action) -> ChangeSeverity {
    match a {
        Action::Create => ChangeSeverity::Functional,
        Action::Update => ChangeSeverity::Functional,
        Action::Delete => ChangeSeverity::Critical,
        Action::Replace => ChangeSeverity::Critical,
        Action::NoOp => ChangeSeverity::Cosmetic,
    }
}

/// One difference between what is wanted and what is there.
#[derive(Debug)]
pub struct Change {
    pub address: String,
    pub action: Action,
    pub severity: ChangeSeverity,
    /// What was there; nothing for a creation.
    pub before: Option<Json>,
    /// What shall be there; nothing for a deletion.
    pub after: Option<Json>,
}

/// What a [`Change`] holds.
#[verifier::ext_equal]
pub struct ChangeV {
    pub address: Seq<char>,
    pub action: Action,
    pub severity: ChangeSeverity,
    pub before: Option<JsonV>,
    pub after: Option<JsonV>,
}

/// A value that may be missing, by what it holds.
pub open spec fn held(v: Option<Json>) -> Option<JsonV> {
    match v {
        Some(x) => Some(x@),
        None => None,
    }
}

impl View for Change {
    type V = ChangeV;

    open spec fn view(&self) -> ChangeV {
        ChangeV {
            address: self.address@,
            action: self.action,
            severity: self.severity,
            before: held(self.before),
            after: held(self.after),
        }
    }
}

/// A list of changes, by what they hold.
pub open spec fn changes_view(cs: Seq<Change>) -> Seq<ChangeV> {
    Seq::new(cs.len(), |i: int| cs[i]@)
}

/// A change with the usual severity of its action.
pub open spec fn usual_change(
    address: Seq<char>,
    action: Action,
    before: Option<JsonV>,
    after: Option<JsonV>,
) -> ChangeV {
    ChangeV { address, action, severity: usual_severity(action), before, after }
}

/// A change with the usual severity of its action.
pub fn change(address: &str, action: Action, before: Option<Json>, after: Option<Json>) -> (r: Change)
    ensures
        r@ == usual_change(address@, action, held(before), held(after)),
{
    let severity = match action {
        Action::Create => ChangeSeverity::Functional,
        Action::Update => ChangeSeverity::Functional,
        Action::Delete => ChangeSeverity::Critical,
        Action::Replace => ChangeSeverity::Critical,
        Action::NoOp => ChangeSeverity::Cosmetic,
    };
    change_with_severity(address, action, severity, before, after)
}

/// A change with a severity of its own.
pub fn change_with_severity(
    address: &str,
    action: Action,
    severity: ChangeSeverity,
    before: Option<Json>,
    after: Option<Json>,
) -> (r: Change)
    ensures
        r@ == (ChangeV {
            address: address@,
            action,
            severity,
            before: held(before),
            after: held(after),
        }),
{
    Change { address: address.to_owned(), action, severity, before, after }
}

/// A copy of a value that may be missing.
pub fn copied(v: &Option<Json>) -> (r: Option<Json>)
    ensures
        held(r) == held(*v),
{
    match v {
        Some(x) => Some(x.clone()),
        None => None,
    }
}

impl Clone for Change {
    fn clone(&self) -> (r: Self)
        ensures
            r@ == self@,
    {
        Change {
            address: self.address.clone(),
            action: self.action,
            severity: self.severity,
            before: copied(&self.before),
            after: copied(&self.after),
        }
    }
}

// ── Plans ──────────────────────────────────────────────────────────

/// A value that may be missing, as JSON.
pub open spec fn or_null(v: Option<JsonV>) -> JsonV {
    match v {
        Some(x) => x,
        None => JsonV::Null,
    }
}

/// A change as JSON, without the time.
pub open spec fn change_json(c: ChangeV) -> JsonV {
    JsonV::Object(
        seq![
            ("action"@, JsonV::String(action_text(c.action))),
            ("address"@, JsonV::String(c.address)),
            ("after"@, or_null(c.after)),
            ("before"@, or_null(c.before)),
            ("severity"@, JsonV::String(severity_text(c.severity))),
        ],
    )
}

/// What a plan's id is taken from.
pub open spec fn plan_json(kind: Seq<char>, changes: Seq<ChangeV>) -> JsonV {
    JsonV::Object(
        seq![
            ("changes"@, JsonV::Array(changes.map_values(|c: ChangeV| change_json(c)))),
            ("kind"@, JsonV::String(kind)),
        ],
    )
}

/// The id of a plan: the BLAKE3 digest of its JSON bytes, in hexadecimal.
pub open spec fn plan_id(kind: Seq<char>, changes: Seq<ChangeV>) -> Seq<char> {
    digest::hex_text(digest::blake3_digest(json::json_bytes(plan_json(kind, changes))))
}

/// `shigoto_types::converge::Plan::derive_id`: the kind and the changes are
/// written as one JSON object with `serde_json`, its bytes are hashed with
/// BLAKE3, and the digest of 32 bytes is written in hexadecimal.
#[verifier::external_body]
fn derived_id(kind: &str, changes: &Vec<Change>) -> (r: String)
    ensures
        r@ == plan_id(kind@, changes_view(changes@)),
        r@.len() == 64,
{
    let cs: Vec<OutChange> = changes.iter().map(|c| OutChange {
        address: c.address.clone(),
        action: [OutAction::Create, OutAction::Update, OutAction::Delete, OutAction::Replace,
            OutAction::NoOp][c.action as usize],
        severity: [OutSeverity::Cosmetic, OutSeverity::Functional, OutSeverity::Critical]
            [c.severity as usize],
        before: c.before.as_ref().map(json::outside_value),
        after: c.after.as_ref().map(json::outside_value),
    }).collect();
    OutPlan::derive_id(kind, &cs).0
}

/// The name of a plan, taken from what it says and not from when it was made.
#[derive(Debug)]
pub struct PlanId(pub String);

impl PlanId {
    /// The id of canonical bytes.
    pub fn of(bytes: &[u8]) -> (r: PlanId)
        ensures
            r.0@ == digest::hex_text(digest::blake3_digest(bytes@)),
    {
        PlanId(digest::to_hex(&digest::blake3_hash(bytes)))
    }
}

impl Clone for PlanId {
    fn clone(&self) -> (r: Self)
        ensures
            r.0@ == self.0@,
    {
        PlanId(self.0.clone())
    }
}

impl PartialEq for PlanId {
    fn eq(&self, other: &Self) -> (r: bool) {
        text::same(self.0.as_str(), other.0.as_str())
    }
}

impl vstd::std_specs::cmp::PartialEqSpecImpl for PlanId {
    open spec fn obeys_eq_spec() -> bool {
        true
    }

    open spec fn eq_spec(&self, other: &Self) -> bool {
        self.0@ == other.0@
    }
}

/// What a reconciler would do.
#[derive(Debug)]
pub struct Plan {
    pub id: PlanId,
    pub kind: String,
    pub created_at: Timestamp,
    pub changes: Vec<Change>,
}

/// What a [`Plan`] holds.
#[verifier::ext_equal]
pub struct PlanV {
    pub id: Seq<char>,
    pub kind: Seq<char>,
    pub created_at: Timestamp,
    pub changes: Seq<ChangeV>,
}

impl View for Plan {
    type V = PlanV;

    open spec fn view(&self) -> PlanV {
        PlanV {
            id: self.id.0@,
            kind: self.kind@,
            created_at: self.created_at,
            changes: changes_view(self.changes@),
        }
    }
}

impl Clone for Plan {
    fn clone(&self) -> (r: Self)
        ensures
            r@ == self@,
    {
        let mut changes: Vec<Change> = Vec::new();
        let mut i: usize = 0;
        while i < self.changes.len()
            invariant
                i <= self.changes@.len(),
                changes@.len() == i,
                forall|j: int| 0 <= j < i ==> (#[trigger] changes@[j])@ == self.changes@[j]@,
            decreases self.changes.len() - i,
        {
            changes.push(self.changes[i].clone());
            i += 1;
        }
        proof {
            assert(changes_view(changes@) =~= changes_view(self.changes@));
        }
        Plan {
            id: self.id.clone(),
            kind: self.kind.clone(),
            created_at: self.created_at,
            changes,
        }
    }
}

/// The plan of a kind with these changes, made at a given time.
pub open spec fn plan_of(kind: Seq<char>, changes: Seq<ChangeV>, at: Timestamp) -> PlanV {
    PlanV { id: plan_id(kind, changes), kind, created_at: at, changes }
}

/// The changes that do something.
pub open spec fn effective(changes: Seq<ChangeV>) -> Seq<ChangeV> {
    changes.filter(|c: ChangeV| c.action != Action::NoOp)
}

/// No change does anything.
pub open spec fn idle(changes: Seq<ChangeV>) -> bool {
    forall|i: int| 0 <= i < changes.len() ==> (#[trigger] changes[i]).action == Action::NoOp
}

impl Plan {
    /// The id of a plan with these changes.
    pub fn derive_id(kind: &str, changes: &Vec<Change>) -> (r: PlanId)
        ensures
            r.0@ == plan_id(kind@, changes_view(changes@)),
            r.0@.len() == 64,
    {
        PlanId(derived_id(kind, changes))
    }

    /// A plan made at a given time.
    pub fn made_at(kind: &str, changes: Vec<Change>, at: Timestamp) -> (r: Plan)
        ensures
            r@ == plan_of(kind@, changes_view(changes@), at),
            r.changes@ == changes@,
    {
        let id = Plan::derive_id(kind, &changes);
        Plan { id, kind: kind.to_owned(), created_at: at, changes }
    }

    /// A plan made now.
    pub fn new(kind: &str, changes: Vec<Change>) -> (r: Plan)
        ensures
            r@ == plan_of(kind@, changes_view(changes@), r.created_at),
            r.changes@ == changes@,
    {
        Plan::made_at(kind, changes, time::now())
    }

    /// Whether the plan does nothing.
    pub fn is_noop(&self) -> (r: bool)
        ensures
            r == idle(self@.changes),
    {
        let mut i: usize = 0;
        while i < self.changes.len()
            invariant
                i <= self.changes@.len(),
                forall|j: int| 0 <= j < i ==> (#[trigger] self@.changes[j]).action == Action::NoOp,
            decreases self.changes.len() - i,
        {
            if self.changes[i].action != Action::NoOp {
                proof {
                    assert(self@.changes[i as int].action != Action::NoOp);
                }
                return false;
            }
            i += 1;
        }
        true
    }

    /// How many changes do something.
    pub fn change_count(&self) -> (r: usize)
        ensures
            r == effective(self@.changes).len(),
    {
        let ghost all = self@.changes;
        let mut n: usize = 0;
        let mut i: usize = 0;
        proof {
            reveal(Seq::filter);
            assert(all.take(0) =~= Seq::empty());
        }
        while i < self.changes.len()
            invariant
                i <= self.changes@.len(),
                n <= i,
                all == self@.changes,
                n == effective(all.take(i as int)).len(),
            decreases self.changes.len() - i,
        {
            proof {
                reveal(Seq::filter);
                assert(all.take(i + 1).drop_last() =~= all.take(i as int));
                assert(all.take(i + 1).last() == self.changes@[i as int]@);
            }
            if self.changes[i].action != Action::NoOp {
                n += 1;
            }
            i += 1;
        }
        proof {
            assert(all.take(all.len() as int) =~= all);
        }
        n
    }
}

/// A plan does nothing exactly when no change counts.
pub proof fn law_noop_counts_nothing(changes: Seq<ChangeV>)
    ensures
        idle(changes) <==> effective(changes).len() == 0,
    decreases changes.len(),
{
    reveal(Seq::filter);
    if changes.len() > 0 {
        let t = changes.drop_last();
        law_noop_counts_nothing(t);
        if idle(t) && changes.last().action == Action::NoOp {
            assert forall|i: int| 0 <= i < changes.len() implies (#[trigger] changes[i]).action
                == Action::NoOp by {
                if i < t.len() {
                    assert(t[i] == changes[i]);
                }
            }
        } else if idle(changes) {
            assert forall|i: int| 0 <= i < t.len() implies (#[trigger] t[i]).action
                == Action::NoOp by {
                assert(changes[i].action == Action::NoOp);
            }
            assert(changes[changes.len() - 1].action == Action::NoOp);
        }
    }
}

/// What counts of a plan is what does something, in the order in which it
/// stands there.
pub proof fn law_effective_keeps_order(a: Seq<ChangeV>, c: ChangeV, b: Seq<ChangeV>)
    ensures
        effective(a + b) == effective(a) + effective(b),
        c.action != Action::NoOp ==> effective(a + seq![c] + b) == effective(a) + seq![c]
            + effective(b),
        c.action == Action::NoOp ==> effective(a + seq![c] + b) == effective(a) + effective(b),
        effective(Seq::<ChangeV>::empty()) == Seq::<ChangeV>::empty(),
{
    let f = |x: ChangeV| x.action != Action::NoOp;
    Seq::filter_distributes_over_add(a, b, f);
    Seq::filter_distributes_over_add(a + seq![c], b, f);
    Seq::filter_distributes_over_add(a, seq![c], f);
    reveal_with_fuel(Seq::filter, 2);
    assert(seq![c].drop_last() =~= Seq::<ChangeV>::empty());
    assert(seq![c].filter(f) =~= if f(c) { seq![c] } else { Seq::<ChangeV>::empty() });
}

/// Two plans with one kind and one list of changes have one id, whenever they
/// were made.
pub proof fn law_id_ignores_time(kind: Seq<char>, changes: Seq<ChangeV>, a: Timestamp, b: Timestamp)
    ensures
        plan_of(kind, changes, a).id == plan_of(kind, changes, b).id,
{
}

// ── Outcomes ───────────────────────────────────────────────────────

/// A change that was carried out.
#[derive(Debug)]
pub struct AppliedChange {
    pub address: String,
    pub action: Action,
}

/// A change that could not be carried out.
#[derive(Debug)]
pub struct FailedChange {
    pub address: String,
    pub action: Action,
    pub error: String,
}

/// What became of a change.
#[verifier::ext_equal]
pub enum ResultV {
    Applied(Seq<char>, Action),
    Failed(Seq<char>, Action, Seq<char>),
}

impl View for AppliedChange {
    type V = ResultV;

    open spec fn view(&self) -> ResultV {
        ResultV::Applied(self.address@, self.action)
    }
}

impl View for FailedChange {
    type V = ResultV;

    open spec fn view(&self) -> ResultV {
        ResultV::Failed(self.address@, self.action, self.error@)
    }
}

pub open spec fn applied_view(xs: Seq<AppliedChange>) -> Seq<ResultV> {
    Seq::new(xs.len(), |i: int| xs[i]@)
}

pub open spec fn failed_view(xs: Seq<FailedChange>) -> Seq<ResultV> {
    Seq::new(xs.len(), |i: int| xs[i]@)
}

/// What carrying out a plan came to.
#[derive(Debug)]
pub struct Outcome {
    pub plan_id: PlanId,
    pub kind: String,
    pub applied: Vec<AppliedChange>,
    pub failed: Vec<FailedChange>,
    pub started_at: Timestamp,
    pub finished_at: Timestamp,
}

/// What an [`Outcome`] holds.
#[verifier::ext_equal]
pub struct OutcomeV {
    pub plan_id: Seq<char>,
    pub kind: Seq<char>,
    pub applied: Seq<ResultV>,
    pub failed: Seq<ResultV>,
    pub started_at: Timestamp,
    pub finished_at: Timestamp,
}

impl View for Outcome {
    type V = OutcomeV;

    open spec fn view(&self) -> OutcomeV {
        OutcomeV {
            plan_id: self.plan_id.0@,
            kind: self.kind@,
            applied: applied_view(self.applied@),
            failed: failed_view(self.failed@),
            started_at: self.started_at,
            finished_at: self.finished_at,
        }
    }
}

impl Clone for AppliedChange {
    fn clone(&self) -> (r: Self)
        ensures
            r@ == self@,
    {
        AppliedChange { address: self.address.clone(), action: self.action }
    }
}

impl Clone for FailedChange {
    fn clone(&self) -> (r: Self)
        ensures
            r@ == self@,
    {
        FailedChange {
            address: self.address.clone(),
            action: self.action,
            error: self.error.clone(),
        }
    }
}

impl Clone for Outcome {
    fn clone(&self) -> (r: Self)
        ensures
            r@ == self@,
    {
        let mut applied: Vec<AppliedChange> = Vec::new();
        let mut i: usize = 0;
        while i < self.applied.len()
            invariant
                i <= self.applied@.len(),
                applied@.len() == i,
                forall|j: int| 0 <= j < i ==> (#[trigger] applied@[j])@ == self.applied@[j]@,
            decreases self.applied.len() - i,
        {
            applied.push(self.applied[i].clone());
            i += 1;
        }
        let mut failed: Vec<FailedChange> = Vec::new();
        let mut k: usize = 0;
        while k < self.failed.len()
            invariant
                k <= self.failed@.len(),
                failed@.len() == k,
                forall|j: int| 0 <= j < k ==> (#[trigger] failed@[j])@ == self.failed@[j]@,
            decreases self.failed.len() - k,
        {
            failed.push(self.failed[k].clone());
            k += 1;
        }
        proof {
            assert(applied_view(applied@) =~= applied_view(self.applied@));
            assert(failed_view(failed@) =~= failed_view(self.failed@));
        }
        Outcome {
            plan_id: self.plan_id.clone(),
            kind: self.kind.clone(),
            applied,
            failed,
            started_at: self.started_at,
            finished_at: self.finished_at,
        }
    }
}

impl Outcome {
    /// Whether nothing failed.
    pub fn fully_succeeded(&self) -> (r: bool)
        ensures
            r == (self.failed@.len() == 0),
    {
        self.failed.len() == 0
    }

    /// The outcome belongs to the plan and lists these results.
    pub open spec fn reports(
        &self,
        plan: PlanV,
        applied: Seq<ResultV>,
        failed: Seq<ResultV>,
        started_at: Timestamp,
    ) -> bool {
        &&& self.plan_id.0@ == plan.id
        &&& self.kind@ == plan.kind
        &&& applied_view(self.applied@) == applied
        &&& failed_view(self.failed@) == failed
        &&& self.started_at == started_at
    }
}

/// The outcome of a plan that was finished at a given time.
pub fn outcome_at(
    plan: &Plan,
    applied: Vec<AppliedChange>,
    failed: Vec<FailedChange>,
    started_at: Timestamp,
    finished_at: Timestamp,
) -> (r: Outcome)
    ensures
        r.reports(plan@, applied_view(applied@), failed_view(failed@), started_at),
        r.finished_at == finished_at,
{
    Outcome { plan_id: plan.id.clone(), kind: plan.kind.clone(), applied, failed, started_at, finished_at }
}

/// The outcome of a plan that is finished now.
pub fn build_outcome(
    plan: &Plan,
    applied: Vec<AppliedChange>,
    failed: Vec<FailedChange>,
    started_at: Timestamp,
) -> (r: Outcome)
    ensures
        r.reports(plan@, applied_view(applied@), failed_view(failed@), started_at),
{
    outcome_at(plan, applied, failed, started_at, time::now())
}

// ── Reconcilers ────────────────────────────────────────────────────

/// What reading the state gave, by what it holds.
pub open spec fn state_view(r: Result<Json, ReconcilerError>) -> Result<JsonV, ReconcilerErrorV> {
    match r {
        Ok(v) => Ok(v@),
        Err(e) => Err(e@),
    }
}

/// The plan is the one of this kind with the changes that were worked out,
/// or the error is the one that was met.
pub open spec fn planned(
    r: Result<Plan, ReconcilerError>,
    kind: Seq<char>,
    changes: Result<Seq<ChangeV>, ReconcilerErrorV>,
) -> bool {
    match r {
        Ok(p) => changes == Ok::<Seq<ChangeV>, ReconcilerErrorV>(p@.changes) && p@ == plan_of(
            kind,
            p@.changes,
            p.created_at,
        ),
        Err(e) => changes == Err::<Seq<ChangeV>, ReconcilerErrorV>(e@),
    }
}

/// Anything whose state can be read, compared with what is wanted, and
/// changed. What a reconciler plans depends on the configuration and the
/// state it is given, and on nothing else.
pub trait Reconciler: Sized {
    /// The kind of resource that this reconciler looks after.
    spec fn label(&self) -> Seq<char>;

    /// The state that it would read.
    spec fn observed(&self) -> Result<JsonV, ReconcilerErrorV>;

    /// The changes from a state to a configuration.
    spec fn changes(&self, config: JsonV, state: JsonV) -> Result<Seq<ChangeV>, ReconcilerErrorV>;

    /// Carrying changes out leaves the reconciler as `left`, with these
    /// results.
    spec fn carries(
        &self,
        changes: Seq<ChangeV>,
        left: Self,
        applied: Seq<ResultV>,
        failed: Seq<ResultV>,
    ) -> bool;

    /// Carrying changes out can fail as a whole with this error and leave the
    /// reconciler as `left`.
    spec fn fails(&self, changes: Seq<ChangeV>, left: Self, e: ReconcilerErrorV) -> bool;

    /// The kind of resource that this reconciler looks after.
    fn kind(&self) -> (r: &'static str)
        ensures
            r@ == self.label(),
    ;

    /// Read the current state.
    fn read_state(&self) -> (r: Result<Json, ReconcilerError>)
        ensures
            state_view(r) == self.observed(),
    ;

    /// Work out what brings the state to the configuration.
    fn compute_plan(&self, config: &Json, state: &Json) -> (r: Result<Plan, ReconcilerError>)
        ensures
            planned(r, self.label(), self.changes(config@, state@)),
    ;

    /// Carry a plan out.
    fn apply(&mut self, plan: &Plan) -> (r: Result<Outcome, ReconcilerError>)
        ensures
            final(self).label() == old(self).label(),
            r matches Ok(o) ==> o.plan_id.0@ == plan@.id && o.kind@ == plan@.kind && old(self).carries(
                plan@.changes,
                *final(self),
                applied_view(o.applied@),
                failed_view(o.failed@),
            ),
            r matches Err(e) ==> old(self).fails(plan@.changes, *final(self), e@),
    ;
}

/// One of two kinds of reconciler, so that one engine can hold both.
#[derive(Debug)]
pub enum EitherReconciler<A, B> {
    First(A),
    Second(B),
}

impl<A: Reconciler, B: Reconciler> Reconciler for EitherReconciler<A, B> {
    open spec fn label(&self) -> Seq<char> {
        match self {
            EitherReconciler::First(a) => a.label(),
            EitherReconciler::Second(b) => b.label(),
        }
    }

    open spec fn observed(&self) -> Result<JsonV, ReconcilerErrorV> {
        match self {
            EitherReconciler::First(a) => a.observed(),
            EitherReconciler::Second(b) => b.observed(),
        }
    }

    open spec fn changes(&self, config: JsonV, state: JsonV) -> Result<
        Seq<ChangeV>,
        ReconcilerErrorV,
    > {
        match self {
            EitherReconciler::First(a) => a.changes(config, state),
            EitherReconciler::Second(b) => b.changes(config, state),
        }
    }

    open spec fn carries(
        &self,
        changes: Seq<ChangeV>,
        left: Self,
        applied: Seq<ResultV>,
        failed: Seq<ResultV>,
    ) -> bool {
        match (self, left) {
            (EitherReconciler::First(a), EitherReconciler::First(l)) => a.carries(
                changes,
                l,
                applied,
                failed,
            ),
            (EitherReconciler::Second(b), EitherReconciler::Second(l)) => b.carries(
                changes,
                l,
                applied,
                failed,
            ),
            _ => false,
        }
    }

    open spec fn fails(&self, changes: Seq<ChangeV>, left: Self, e: ReconcilerErrorV) -> bool {
        match (self, left) {
            (EitherReconciler::First(a), EitherReconciler::First(l)) => a.fails(changes, l, e),
            (EitherReconciler::Second(b), EitherReconciler::Second(l)) => b.fails(changes, l, e),
            _ => false,
        }
    }

    fn kind(&self) -> (r: &'static str) {
        match self {
            EitherReconciler::First(a) => a.kind(),
            EitherReconciler::Second(b) => b.kind(),
        }
    }

    fn read_state(&self) -> (r: Result<Json, ReconcilerError>) {
        match self {
            EitherReconciler::First(a) => a.read_state(),
            EitherReconciler::Second(b) => b.read_state(),
        }
    }

    fn compute_plan(&self, config: &Json, state: &Json) -> (r: Result<Plan, ReconcilerError>) {
        match self {
            EitherReconciler::First(a) => a.compute_plan(config, state),
            EitherReconciler::Second(b) => b.compute_plan(config, state),
        }
    }

    fn apply(&mut self, plan: &Plan) -> (r: Result<Outcome, ReconcilerError>) {
        match self {
            EitherReconciler::First(a) => a.apply(plan),
            EitherReconciler::Second(b) => b.apply(plan),
        }
    }
}

/// What [`detect_drift`] works out.
pub open spec fn drift_changes<R: Reconciler>(r: &R, config: JsonV) -> Result<
    Seq<ChangeV>,
    ReconcilerErrorV,
> {
    match r.observed() {
        Ok(state) => r.changes(config, state),
        Err(e) => Err(e),
    }
}

/// The plan from the state that is there to the configuration.
pub fn detect_drift<R: Reconciler>(r: &R, config: &Json) -> (p: Result<Plan, ReconcilerError>)
    ensures
        planned(p, r.label(), drift_changes(r, config@)),
{
    match r.read_state() {
        Ok(state) => r.compute_plan(config, &state),
        Err(e) => Err(e),
    }
}

/// Two plans from one configuration and one state are the same but for the
/// time at which they were made.
pub proof fn law_plans_are_deterministic<R: Reconciler>(
    r: &R,
    config: JsonV,
    state: JsonV,
    a: Result<Plan, ReconcilerError>,
    b: Result<Plan, ReconcilerError>,
)
    requires
        planned(a, r.label(), r.changes(config, state)),
        planned(b, r.label(), r.changes(config, state)),
    ensures
        match (a, b) {
            (Ok(p), Ok(q)) => p@.id == q@.id && p@.kind == q@.kind && p@.changes == q@.changes,
            (Err(e), Err(f)) => e@ == f@,
            _ => false,
        },
{
}

/// What takes something away is critical, what adds or alters is functional,
/// and what does nothing is cosmetic.
pub proof fn law_usual_severities(
    address: Seq<char>,
    a: Action,
    before: Option<JsonV>,
    after: Option<JsonV>,
)
    ensures
        usual_change(address, a, before, after).severity == usual_severity(a),
        usual_change(address, a, before, after).address == address,
        usual_change(address, a, before, after).action == a,
        usual_change(address, a, before, after).before == before,
        usual_change(address, a, before, after).after == after,
        usual_severity(a) == ChangeSeverity::Critical <==> a == Action::Delete || a
            == Action::Replace,
        usual_severity(a) == ChangeSeverity::Cosmetic <==> a == Action::NoOp,
{
}

/// What a plan's id is taken from tells plans apart: it holds the kind and,
/// of every change in order, all that the change is.
pub proof fn law_plan_json_tells_plans(
    k1: Seq<char>,
    c1: Seq<ChangeV>,
    k2: Seq<char>,
    c2: Seq<ChangeV>,
)
    requires
        plan_json(k1, c1) == plan_json(k2, c2),
    ensures
        k1 == k2,
        c1.len() == c2.len(),
        forall|i: int|
            0 <= i < c1.len() ==> {
                let a = #[trigger] c1[i];
                let b = c2[i];
                &&& a.address == b.address
                &&& a.action == b.action
                &&& a.severity == b.severity
                &&& or_null(a.before) == or_null(b.before)
                &&& or_null(a.after) == or_null(b.after)
            },
{
    let a = plan_json(k1, c1)->Object_0;
    let b = plan_json(k2, c2)->Object_0;
    assert(a[0] == b[0] && a[1] == b[1]);
    let xs = a[0].1->Array_0;
    let ys = b[0].1->Array_0;
    assert(xs.len() == c1.len() && ys.len() == c2.len());
    assert forall|i: int| 0 <= i < c1.len() implies {
        let p = #[trigger] c1[i];
        let q = c2[i];
        &&& p.address == q.address
        &&& p.action == q.action
        &&& p.severity == q.severity
        &&& or_null(p.before) == or_null(q.before)
        &&& or_null(p.after) == or_null(q.after)
    } by {
        assert(xs[i] == change_json(c1[i]) && ys[i] == change_json(c2[i]));
        let m = change_json(c1[i])->Object_0;
        let n = change_json(c2[i])->Object_0;
        assert(m[0] == n[0] && m[1] == n[1] && m[2] == n[2] && m[3] == n[3] && m[4] == n[4]);
        law_action_names_differ(c1[i].action, c2[i].action);
        law_severity_names_differ(c1[i].severity, c2[i].severity);
    }
}

/// A plan has the changes that it was made with, and its id is the digest of
/// what it is, as text.
pub proof fn law_plans_hold_their_changes(kind: Seq<char>, changes: Seq<ChangeV>, at: Timestamp)
    ensures
        plan_of(kind, changes, at).changes == changes,
        plan_of(kind, changes, at).kind == kind,
        plan_of(kind, changes, at).created_at == at,
        plan_of(kind, changes, at).id == digest::hex_text(
            digest::blake3_digest(json::json_bytes(plan_json(kind, changes))),
        ),
{
}

/// What has drifted is what leads from the state that is read to the
/// configuration; where the state cannot be read, that is the error.
pub proof fn law_drift_reads_first<R: Reconciler>(r: &R, config: JsonV)
    ensures
        r.observed() matches Ok(state) ==> drift_changes(r, config) == r.changes(config, state),
        r.observed() matches Err(e) ==> drift_changes(r, config) == Err::<
            Seq<ChangeV>,
            ReconcilerErrorV,
        >(e),
{
}

/// A plan that was made has the changes that were worked out and the kind that
/// it is for; where they could not be, that is the error.
pub proof fn law_plans_are_what_was_worked_out(
    r: Result<Plan, ReconcilerError>,
    kind: Seq<char>,
    changes: Result<Seq<ChangeV>, ReconcilerErrorV>,
)
    requires
        planned(r, kind, changes),
    ensures
        changes matches Ok(cs) ==> r is Ok && r->Ok_0@.changes == cs && r->Ok_0@.kind == kind
            && r->Ok_0@.id == plan_id(kind, cs),
        changes matches Err(e) ==> r is Err && r->Err_0@ == e,
{
}

/// An outcome that reports a run has the results of that run, and names the
/// plan that was carried out.
pub proof fn law_outcomes_report_the_run(
    o: Outcome,
    plan: PlanV,
    applied: Seq<ResultV>,
    failed: Seq<ResultV>,
    started_at: Timestamp,
)
    requires
        o.reports(plan, applied, failed, started_at),
    ensures
        o.plan_id.0@ == plan.id,
        o.kind@ == plan.kind,
        o.applied@.len() == applied.len(),
        forall|i: int| 0 <= i < applied.len() ==> (#[trigger] o.applied@[i])@ == applied[i],
        o.failed@.len() == failed.len(),
        forall|i: int| 0 <= i < failed.len() ==> (#[trigger] o.failed@[i])@ == failed[i],
        o.started_at == started_at,
{
    assert forall|i: int| 0 <= i < applied.len() implies (#[trigger] o.applied@[i])@
        == applied[i] by {
        assert(applied_view(o.applied@)[i] == o.applied@[i]@);
    }
    assert forall|i: int| 0 <= i < failed.len() implies (#[trigger] o.failed@[i])@ == failed[i] by {
        assert(failed_view(o.failed@)[i] == o.failed@[i]@);
    }
}

} // verus!
