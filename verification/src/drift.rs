//! What to do about each change of a plan, by policy.
use vstd::prelude::*;
use crate::converge::{
    effective, held, law_action_names_differ, or_null, action_text, Action, Change, ChangeSeverity, ChangeV, Plan, PlanId,
};
use crate::digest;
use crate::json;
use crate::json::{Json, JsonV};
use crate::ordmap::{lemma_put_lookup, lemma_put_sorted, lookup, put, sorted, StrMap};
use crate::text;
use crate::time::{self, Delta, Timestamp};
use crate::types::opt_text;

verus! {

/// What to do about a change.
#[derive(Clone, Copy, Debug, PartialEq, Eq, Structural)]
pub enum DriftDecision {
    AutoCorrect,
    AutoCorrectWithAlert,
    RequireApproval,
    Refuse,
}

/// What was decided about a change.
#[derive(Debug)]
pub struct DriftEvent {
    pub kind: String,
    pub address: String,
    pub action: Action,
    pub severity: ChangeSeverity,
    pub decision: DriftDecision,
    pub matched_policy: Option<String>,
    pub observed_at: Timestamp,
    /// The same for every observation of the same change.
    pub fingerprint: String,
}

/// What a [`DriftEvent`] holds.
#[verifier::ext_equal]
pub struct EventV {
    pub kind: Seq<char>,
    pub address: Seq<char>,
    pub action: Action,
    pub severity: ChangeSeverity,
    pub decision: DriftDecision,
    pub matched_policy: Option<Seq<char>>,
    pub observed_at: Timestamp,
    pub fingerprint: Seq<char>,
}

impl View for DriftEvent {
    type V = EventV;

    open spec fn view(&self) -> EventV {
        EventV {
            kind: self.kind@,
            address: self.address@,
            action: self.action,
            severity: self.severity,
            decision: self.decision,
            matched_policy: opt_text(self.matched_policy),
            observed_at: self.observed_at,
            fingerprint: self.fingerprint@,
        }
    }
}

impl Clone for DriftEvent {
    fn clone(&self) -> (r: Self)
        ensures
            r@ == self@,
    {
        DriftEvent {
            kind: self.kind.clone(),
            address: self.address.clone(),
            action: self.action,
            severity: self.severity,
            decision: self.decision,
            matched_policy: match &self.matched_policy {
                Some(s) => Some(s.clone()),
                None => None,
            },
            observed_at: self.observed_at,
            fingerprint: self.fingerprint.clone(),
        }
    }
}

pub open spec fn events_view(es: Seq<DriftEvent>) -> Seq<EventV> {
    Seq::new(es.len(), |i: int| es[i]@)
}

/// What a fingerprint is taken from: the kind and the change, without its
/// severity.
pub open spec fn fingerprint_json(kind: Seq<char>, c: ChangeV) -> JsonV {
    JsonV::Object(
        seq![
            ("action"@, JsonV::String(action_text(c.action))),
            ("address"@, JsonV::String(c.address)),
            ("after"@, or_null(c.after)),
            ("before"@, or_null(c.before)),
            ("kind"@, JsonV::String(kind)),
        ],
    )
}

/// The fingerprint of a change: the BLAKE3 digest of its JSON bytes, in
/// hexadecimal.
pub open spec fn fingerprint(kind: Seq<char>, c: ChangeV) -> Seq<char> {
    digest::hex_text(digest::blake3_digest(json::json_bytes(fingerprint_json(kind, c))))
}

/// A value that may be missing, as JSON.
fn value_or_null(v: &Option<Json>) -> (r: Json)
    ensures
        r@ == or_null(held(*v)),
{
    match v {
        Some(x) => x.clone(),
        None => Json::Null,
    }
}

impl DriftEvent {
    /// The fingerprint of a change; see [`fingerprint`]. It has 64 characters,
    /// all of them lower-case hexadecimal digits.
    pub fn fingerprint_for(kind: &str, change: &Change) -> (r: String)
        ensures
            r@ == fingerprint(kind@, change@),
            r@.len() == 64,
            forall|i: int| 0 <= i < r@.len() ==> digest::is_hex(#[trigger] r@[i]),
    {
        let m = StrMap {
            entries: vec![
                ("action".to_owned(), Json::string(change.action.name())),
                ("address".to_owned(), Json::String(change.address.clone())),
                ("after".to_owned(), value_or_null(&change.after)),
                ("before".to_owned(), value_or_null(&change.before)),
                ("kind".to_owned(), Json::string(kind)),
            ],
        };
        proof {
            json::lemma_object_view(m);
            assert(json::object_view(m@) =~= fingerprint_json(kind@, change@)->Object_0);
        }
        let bytes = json::to_bytes(&Json::Object(m));
        let d = digest::blake3_hash(bytes.as_slice());
        proof {
            digest::lemma_hex_text(d@);
        }
        digest::to_hex(&d)
    }
}

// ── Policies ───────────────────────────────────────────────────────

/// A rule: where all that it asks for is so, its decision counts.
#[derive(Clone, Debug)]
pub struct PolicyRule {
    pub name: String,
    pub severity: Option<ChangeSeverity>,
    pub action: Option<Action>,
    pub address_prefix: Option<String>,
    pub decision: DriftDecision,
}

/// What a [`PolicyRule`] holds.
#[verifier::ext_equal]
pub struct RuleV {
    pub name: Seq<char>,
    pub severity: Option<ChangeSeverity>,
    pub action: Option<Action>,
    pub address_prefix: Option<Seq<char>>,
    pub decision: DriftDecision,
}

impl View for PolicyRule {
    type V = RuleV;

    open spec fn view(&self) -> RuleV {
        RuleV {
            name: self.name@,
            severity: self.severity,
            action: self.action,
            address_prefix: opt_text(self.address_prefix),
            decision: self.decision,
        }
    }
}

pub open spec fn rules_view(rs: Seq<PolicyRule>) -> Seq<RuleV> {
    Seq::new(rs.len(), |i: int| rs[i]@)
}

/// A rule speaks of a change.
pub open spec fn applies(r: RuleV, c: ChangeV) -> bool {
    &&& r.severity matches Some(s) ==> c.severity == s
    &&& r.action matches Some(a) ==> c.action == a
    &&& r.address_prefix matches Some(p) ==> text::stands_at(c.address, p, 0)
}

impl PolicyRule {
    /// Whether the rule speaks of a change; see [`applies`].
    pub fn matches(&self, change: &Change) -> (r: bool)
        ensures
            r == applies(self@, change@),
    {
        match self.severity {
            Some(s) => {
                if change.severity != s {
                    return false;
                }
            },
            None => {},
        }
        match self.action {
            Some(a) => {
                if change.action != a {
                    return false;
                }
            },
            None => {},
        }
        match &self.address_prefix {
            Some(p) => {
                if !text::starts_with(change.address.as_str(), p.as_str()) {
                    return false;
                }
            },
            None => {},
        }
        true
    }
}

/// Rules, and what to do where none speaks of a change.
#[derive(Clone, Debug)]
pub struct DriftPolicy {
    pub rules: Vec<PolicyRule>,
    pub fallback: DriftDecision,
}

/// What is decided about a change, and by which rule: the first one that
/// speaks of it.
pub open spec fn decided(rules: Seq<RuleV>, fallback: DriftDecision, c: ChangeV) -> (
    DriftDecision,
    Option<Seq<char>>,
)
    decreases rules.len(),
{
    if rules.len() == 0 {
        (fallback, None)
    } else if applies(rules[0], c) {
        (rules[0].decision, Some(rules[0].name))
    } else {
        decided(rules.drop_first(), fallback, c)
    }
}

/// The rule that goes by a severity alone.
pub open spec fn severity_rule(name: Seq<char>, s: ChangeSeverity, d: DriftDecision) -> RuleV {
    RuleV { name, severity: Some(s), action: None, address_prefix: None, decision: d }
}

/// Correct what is cosmetic, correct with an alert what is functional, ask
/// before touching what is critical.
pub open spec fn conservative_rules() -> Seq<RuleV> {
    seq![
        severity_rule("auto-fix-cosmetic"@, ChangeSeverity::Cosmetic, DriftDecision::AutoCorrect),
        severity_rule(
            "alert-on-functional"@,
            ChangeSeverity::Functional,
            DriftDecision::AutoCorrectWithAlert,
        ),
        severity_rule(
            "approval-required-for-critical"@,
            ChangeSeverity::Critical,
            DriftDecision::RequireApproval,
        ),
    ]
}

fn rule_by_severity(name: &str, severity: ChangeSeverity, decision: DriftDecision) -> (r: PolicyRule)
    ensures
        r@ == severity_rule(name@, severity, decision),
{
    PolicyRule {
        name: name.to_owned(),
        severity: Some(severity),
        action: None,
        address_prefix: None,
        decision,
    }
}

impl DriftPolicy {
    /// The policy of [`conservative_rules`].
    pub fn conservative_default() -> (r: Self)
        ensures
            rules_view(r.rules@) == conservative_rules(),
            r.fallback == DriftDecision::RequireApproval,
    {
        let r = DriftPolicy {
            rules: vec![
                rule_by_severity(
                    "auto-fix-cosmetic",
                    ChangeSeverity::Cosmetic,
                    DriftDecision::AutoCorrect,
                ),
                rule_by_severity(
                    "alert-on-functional",
                    ChangeSeverity::Functional,
                    DriftDecision::AutoCorrectWithAlert,
                ),
                rule_by_severity(
                    "approval-required-for-critical",
                    ChangeSeverity::Critical,
                    DriftDecision::RequireApproval,
                ),
            ],
            fallback: DriftDecision::RequireApproval,
        };
        proof {
            assert(rules_view(r.rules@) =~= conservative_rules());
        }
        r
    }

    /// What to do about a change, and which rule says so; see [`decided`].
    pub fn evaluate(&self, change: &Change) -> (r: (DriftDecision, Option<&str>))
        ensures
            decided(rules_view(self.rules@), self.fallback, change@) == (
                r.0,
                match r.1 {
                    Some(s) => Some(s@),
                    None => None,
                },
            ),
    {
        let ghost all = rules_view(self.rules@);
        let mut i: usize = 0;
        proof {
            assert(all.skip(0) =~= all);
        }
        while i < self.rules.len()
            invariant
                i <= self.rules@.len(),
                all == rules_view(self.rules@),
                decided(all, self.fallback, change@) == decided(
                    all.skip(i as int),
                    self.fallback,
                    change@,
                ),
            decreases self.rules.len() - i,
        {
            proof {
                assert(all.skip(i as int)[0] == self.rules@[i as int]@);
                assert(all.skip(i as int).drop_first() =~= all.skip(i + 1));
            }
            if self.rules[i].matches(change) {
                return (self.rules[i].decision, Some(self.rules[i].name.as_str()));
            }
            i += 1;
        }
        (self.fallback, None)
    }
}

// ── Reports ────────────────────────────────────────────────────────

/// What was decided about a plan.
#[derive(Debug)]
pub struct DriftReport {
    pub kind: String,
    pub plan_id: PlanId,
    pub events: Vec<DriftEvent>,
    pub summary: DriftSummary,
}

impl Clone for DriftReport {
    fn clone(&self) -> (r: Self)
        ensures
            r.kind@ == self.kind@,
            r.plan_id.0@ == self.plan_id.0@,
            events_view(r.events@) == events_view(self.events@),
            r.summary == self.summary,
    {
        let mut events: Vec<DriftEvent> = Vec::new();
        let mut i: usize = 0;
        while i < self.events.len()
            invariant
                i <= self.events@.len(),
                events@.len() == i,
                forall|j: int| 0 <= j < i ==> (#[trigger] events@[j])@ == self.events@[j]@,
            decreases self.events.len() - i,
        {
            events.push(self.events[i].clone());
            i += 1;
        }
        proof {
            assert(events_view(events@) =~= events_view(self.events@));
        }
        DriftReport {
            kind: self.kind.clone(),
            plan_id: self.plan_id.clone(),
            events,
            summary: self.summary,
        }
    }
}

/// How often each decision was taken.
#[derive(Clone, Copy, Debug, PartialEq, Eq, Structural)]
pub struct DriftSummary {
    pub total_changes: usize,
    pub auto_corrected: usize,
    pub auto_corrected_with_alert: usize,
    pub awaiting_approval: usize,
    pub refused: usize,
}

impl Default for DriftSummary {
    fn default() -> (r: Self)
        ensures
            r == (DriftSummary {
                total_changes: 0,
                auto_corrected: 0,
                auto_corrected_with_alert: 0,
                awaiting_approval: 0,
                refused: 0,
            }),
    {
        DriftSummary {
            total_changes: 0,
            auto_corrected: 0,
            auto_corrected_with_alert: 0,
            awaiting_approval: 0,
            refused: 0,
        }
    }
}

impl DriftSummary {
    /// The decisions add up to the changes.
    pub open spec fn adds_up(&self) -> bool {
        self.total_changes == self.auto_corrected + self.auto_corrected_with_alert
            + self.awaiting_approval + self.refused
    }

    fn tally(&mut self, decision: DriftDecision)
        requires
            old(self).adds_up(),
            old(self).total_changes < usize::MAX,
        ensures
            final(self).adds_up(),
            *final(self) == (DriftSummary {
                total_changes: (old(self).total_changes + 1) as usize,
                auto_corrected: (old(self).auto_corrected + (if decision
                    == DriftDecision::AutoCorrect { 1int } else { 0 })) as usize,
                auto_corrected_with_alert: (old(self).auto_corrected_with_alert + (if decision
                    == DriftDecision::AutoCorrectWithAlert { 1int } else { 0 })) as usize,
                awaiting_approval: (old(self).awaiting_approval + (if decision
                    == DriftDecision::RequireApproval { 1int } else { 0 })) as usize,
                refused: (old(self).refused + (if decision == DriftDecision::Refuse {
                    1int
                } else {
                    0
                })) as usize,
            }),
    {
        self.total_changes += 1;
        match decision {
            DriftDecision::AutoCorrect => {
                self.auto_corrected += 1;
            },
            DriftDecision::AutoCorrectWithAlert => {
                self.auto_corrected_with_alert += 1;
            },
            DriftDecision::RequireApproval => {
                self.awaiting_approval += 1;
            },
            DriftDecision::Refuse => {
                self.refused += 1;
            },
        }
    }
}

/// The event of a change.
pub open spec fn event_of(
    kind: Seq<char>,
    rules: Seq<RuleV>,
    fallback: DriftDecision,
    at: Timestamp,
    c: ChangeV,
) -> EventV {
    let (decision, matched_policy) = decided(rules, fallback, c);
    EventV {
        kind,
        address: c.address,
        action: c.action,
        severity: c.severity,
        decision,
        matched_policy,
        observed_at: at,
        fingerprint: fingerprint(kind, c),
    }
}

/// The events of a plan: one for each change that does something, in their
/// order.
pub open spec fn events_of(
    kind: Seq<char>,
    rules: Seq<RuleV>,
    fallback: DriftDecision,
    at: Timestamp,
    cs: Seq<ChangeV>,
) -> Seq<EventV> {
    effective(cs).map_values(|c: ChangeV| event_of(kind, rules, fallback, at, c))
}

/// How often a decision was taken.
pub open spec fn times(es: Seq<EventV>, d: DriftDecision) -> nat
    decreases es.len(),
{
    if es.len() == 0 {
        0
    } else if es.last().decision == d {
        times(es.drop_last(), d) + 1
    } else {
        times(es.drop_last(), d)
    }
}

/// The summary counts the events.
pub open spec fn summed_up(es: Seq<EventV>, s: DriftSummary) -> bool {
    &&& s.total_changes == es.len()
    &&& s.auto_corrected == times(es, DriftDecision::AutoCorrect)
    &&& s.auto_corrected_with_alert == times(es, DriftDecision::AutoCorrectWithAlert)
    &&& s.awaiting_approval == times(es, DriftDecision::RequireApproval)
    &&& s.refused == times(es, DriftDecision::Refuse)
}

/// What is decided about a plan at a given time.
pub fn classify_at(plan: &Plan, policy: &DriftPolicy, observed_at: Timestamp) -> (r: DriftReport)
    ensures
        r.kind@ == plan@.kind,
        r.plan_id.0@ == plan@.id,
        events_view(r.events@) == events_of(
            plan@.kind,
            rules_view(policy.rules@),
            policy.fallback,
            observed_at,
            plan@.changes,
        ),
        summed_up(events_view(r.events@), r.summary),
        r.summary.adds_up(),
{
    let ghost all = plan@.changes;
    let ghost rules = rules_view(policy.rules@);
    let mut events: Vec<DriftEvent> = Vec::new();
    let mut summary = DriftSummary::default();
    let mut i: usize = 0;
    proof {
        reveal(Seq::filter);
        assert(all.take(0) =~= Seq::empty());
        assert(events_view(events@) =~= events_of(
            plan@.kind,
            rules,
            policy.fallback,
            observed_at,
            all.take(0),
        ));
    }
    while i < plan.changes.len()
        invariant
            i <= plan.changes@.len(),
            all == plan@.changes,
            rules == rules_view(policy.rules@),
            events_view(events@) == events_of(
                plan@.kind,
                rules,
                policy.fallback,
                observed_at,
                all.take(i as int),
            ),
            summed_up(events_view(events@), summary),
            summary.adds_up(),
            events@.len() <= i,
        decreases plan.changes.len() - i,
    {
        let c = &plan.changes[i];
        let ghost before = events_view(events@);
        proof {
            reveal(Seq::filter);
            assert(all.take(i + 1).drop_last() =~= all.take(i as int));
            assert(all.take(i + 1).last() == c@);
        }
        if c.action == Action::NoOp {
            i += 1;
            continue ;
        }
        let (decision, matched) = policy.evaluate(c);
        summary.tally(decision);
        let e = DriftEvent {
            kind: plan.kind.clone(),
            address: c.address.clone(),
            action: c.action,
            severity: c.severity,
            decision,
            matched_policy: match matched {
                Some(s) => Some(s.to_owned()),
                None => None,
            },
            observed_at,
            fingerprint: DriftEvent::fingerprint_for(plan.kind.as_str(), c),
        };
        proof {
            assert(e@ == event_of(plan@.kind, rules, policy.fallback, observed_at, c@));
        }
        events.push(e);
        proof {
            let now = events_view(events@);
            assert(now =~= before.push(e@));
            assert(now.drop_last() =~= before);
            let done = effective(all.take(i as int));
            assert(effective(all.take(i + 1)) == done.push(c@));
            assert(events_of(plan@.kind, rules, policy.fallback, observed_at, all.take(i + 1))
                =~= before.push(e@));
        }
        i += 1;
    }
    proof {
        assert(all.take(all.len() as int) =~= all);
    }
    DriftReport { kind: plan.kind.clone(), plan_id: plan.id.clone(), events, summary }
}

/// What is decided about a plan, now.
pub fn classify(plan: &Plan, policy: &DriftPolicy) -> (r: DriftReport)
    ensures
        r.kind@ == plan@.kind,
        r.plan_id.0@ == plan@.id,
        exists|at: Timestamp|
            events_view(r.events@) == #[trigger] events_of(
                plan@.kind,
                rules_view(policy.rules@),
                policy.fallback,
                at,
                plan@.changes,
            ),
        summed_up(events_view(r.events@), r.summary),
        r.summary.adds_up(),
{
    classify_at(plan, policy, time::now())
}

/// Nothing that does nothing is among the events, and there are as many
/// events as changes that do something, in the same order.
pub proof fn law_events_are_the_effective_changes(
    kind: Seq<char>,
    rules: Seq<RuleV>,
    fallback: DriftDecision,
    at: Timestamp,
    cs: Seq<ChangeV>,
)
    ensures
        ({
            let es = events_of(kind, rules, fallback, at, cs);
            let live = effective(cs);
            &&& es.len() == live.len()
            &&& forall|i: int|
                0 <= i < es.len() ==> (#[trigger] es[i]).address == live[i].address && es[i].action
                    == live[i].action && es[i].action != Action::NoOp && es[i].kind == kind
        }),
{
    lemma_effective_acts(cs);
}

proof fn lemma_effective_acts(cs: Seq<ChangeV>)
    ensures
        forall|i: int| 0 <= i < effective(cs).len() ==> (#[trigger] effective(cs)[i]).action != Action::NoOp,
    decreases cs.len(),
{
    reveal(Seq::filter);
    if cs.len() > 0 {
        lemma_effective_acts(cs.drop_last());
        let t = effective(cs.drop_last());
        assert forall|i: int| 0 <= i < effective(cs).len() implies (#[trigger] effective(cs)[i]).action
            != Action::NoOp by {
            if i < t.len() {
                assert(effective(cs)[i] == t[i]);
            }
        }
    }
}

/// Under the conservative policy the severity alone decides.
pub proof fn law_conservative_goes_by_severity(c: ChangeV)
    ensures
        decided(conservative_rules(), DriftDecision::RequireApproval, c).0 == match c.severity {
            ChangeSeverity::Cosmetic => DriftDecision::AutoCorrect,
            ChangeSeverity::Functional => DriftDecision::AutoCorrectWithAlert,
            ChangeSeverity::Critical => DriftDecision::RequireApproval,
        },
        decided(conservative_rules(), DriftDecision::RequireApproval, c).1 is Some,
{
    reveal_with_fuel(decided, 4);
}

/// A rule that asks for a severity, an action or a beginning of the address
/// does not speak of a change that has another one.
pub proof fn law_every_demand_counts(r: RuleV, c: ChangeV)
    ensures
        (r.severity matches Some(s) && c.severity != s) ==> !applies(r, c),
        (r.action matches Some(a) && c.action != a) ==> !applies(r, c),
        (r.address_prefix matches Some(p) && (c.address.len() < p.len() || c.address.take(
            p.len() as int,
        ) != p)) ==> !applies(r, c),
{
    if let Some(p) = r.address_prefix {
        if text::stands_at(c.address, p, 0) {
            assert(c.address.take(p.len() as int) =~= p);
        }
    }
}

/// A rule speaks of a change that has all that it asks for; what it does not
/// ask for does not matter.
pub proof fn law_met_demands_suffice(r: RuleV, c: ChangeV)
    requires
        r.severity is None || r.severity == Some(c.severity),
        r.action is None || r.action == Some(c.action),
        r.address_prefix is None || exists|rest: Seq<char>|
            c.address == #[trigger] (r.address_prefix->Some_0 + rest),
    ensures
        applies(r, c),
{
    if let Some(p) = r.address_prefix {
        let rest = choose|rest: Seq<char>| c.address == #[trigger] (p + rest);
        assert(c.address.subrange(0, p.len() as int) =~= p);
    }
}

/// An event says of its change what the change is, and what is decided about
/// it and by which rule.
pub proof fn law_events_tell_the_decision(
    kind: Seq<char>,
    rules: Seq<RuleV>,
    fallback: DriftDecision,
    at: Timestamp,
    cs: Seq<ChangeV>,
    i: int,
)
    requires
        0 <= i < effective(cs).len(),
    ensures
        ({
            let e = events_of(kind, rules, fallback, at, cs)[i];
            let c = effective(cs)[i];
            &&& e.kind == kind
            &&& e.address == c.address
            &&& e.action == c.action
            &&& e.severity == c.severity
            &&& e.observed_at == at
            &&& e.decision == decided(rules, fallback, c).0
            &&& e.matched_policy == decided(rules, fallback, c).1
            &&& e.fingerprint == digest::hex_text(
                digest::blake3_digest(json::json_bytes(fingerprint_json(kind, c))),
            )
        }),
{
}

/// A summary counts the events with each decision, and all of them.
pub proof fn law_summaries_count(es: Seq<EventV>, s: DriftSummary)
    requires
        summed_up(es, s),
    ensures
        s.total_changes == es.len(),
        s.auto_corrected == es.filter(|e: EventV| e.decision == DriftDecision::AutoCorrect).len(),
        s.auto_corrected_with_alert == es.filter(
            |e: EventV| e.decision == DriftDecision::AutoCorrectWithAlert,
        ).len(),
        s.awaiting_approval == es.filter(
            |e: EventV| e.decision == DriftDecision::RequireApproval,
        ).len(),
        s.refused == es.filter(|e: EventV| e.decision == DriftDecision::Refuse).len(),
{
    lemma_times_filter(es, DriftDecision::AutoCorrect);
    lemma_times_filter(es, DriftDecision::AutoCorrectWithAlert);
    lemma_times_filter(es, DriftDecision::RequireApproval);
    lemma_times_filter(es, DriftDecision::Refuse);
}

proof fn lemma_times_filter(es: Seq<EventV>, d: DriftDecision)
    ensures
        times(es, d) == es.filter(|e: EventV| e.decision == d).len(),
    decreases es.len(),
{
    reveal(Seq::filter);
    if es.len() > 0 {
        lemma_times_filter(es.drop_last(), d);
    }
}

/// A fingerprint is taken from all that a change is, but for its severity:
/// two changes with the same kind, address, action and contents have the same
/// one, and what it is taken from tells any two others apart.
pub proof fn law_fingerprints_tell_changes(k1: Seq<char>, c1: ChangeV, k2: Seq<char>, c2: ChangeV)
    ensures
        fingerprint_json(k1, c1) == fingerprint_json(k2, c2) <==> k1 == k2 && c1.address
            == c2.address && action_text(c1.action) == action_text(c2.action) && or_null(c1.before)
            == or_null(c2.before) && or_null(c1.after) == or_null(c2.after),
        action_text(c1.action) == action_text(c2.action) <==> c1.action == c2.action,
{
    let a = fingerprint_json(k1, c1)->Object_0;
    let b = fingerprint_json(k2, c2)->Object_0;
    if a == b {
        assert(a[0] == b[0] && a[1] == b[1] && a[2] == b[2] && a[3] == b[3] && a[4] == b[4]);
    }
    law_action_names_differ(c1.action, c2.action);
}

/// A rule that speaks of a change decides it, if none before it does.
pub proof fn law_first_rule_decides(rules: Seq<RuleV>, fallback: DriftDecision, c: ChangeV, i: int)
    requires
        0 <= i < rules.len(),
        applies(rules[i], c),
        forall|j: int| 0 <= j < i ==> !applies(#[trigger] rules[j], c),
    ensures
        decided(rules, fallback, c) == (rules[i].decision, Some(rules[i].name)),
    decreases i,
{
    if i > 0 {
        assert(!applies(rules[0], c));
        let t = rules.drop_first();
        assert forall|j: int| 0 <= j < i - 1 implies !applies(#[trigger] t[j], c) by {
            assert(t[j] == rules[j + 1]);
        }
        law_first_rule_decides(t, fallback, c, i - 1);
    }
}

/// Where no rule speaks of a change, the fallback decides it.
pub proof fn law_fallback_decides_the_rest(rules: Seq<RuleV>, fallback: DriftDecision, c: ChangeV)
    requires
        forall|j: int| 0 <= j < rules.len() ==> !applies(#[trigger] rules[j], c),
    ensures
        decided(rules, fallback, c) == (fallback, None::<Seq<char>>),
    decreases rules.len(),
{
    if rules.len() > 0 {
        assert(!applies(rules[0], c));
        let t = rules.drop_first();
        assert forall|j: int| 0 <= j < t.len() implies !applies(#[trigger] t[j], c) by {
            assert(t[j] == rules[j + 1]);
        }
        law_fallback_decides_the_rest(t, fallback, c);
    }
}

// ── Seeing the same thing again ────────────────────────────────────

/// Fingerprints with the times at which they were last let through.
#[derive(Debug)]
pub struct DriftDeduplicator {
    seen: StrMap<Timestamp>,
}

impl Default for DriftDeduplicator {
    fn default() -> (r: Self)
        ensures
            r.log() == Seq::<(Seq<char>, Timestamp)>::empty(),
            r.wf(),
    {
        DriftDeduplicator::new()
    }
}

/// A fingerprint is held back: it was let through less than `min_age` ago.
pub open spec fn held_back(
    seen: Seq<(Seq<char>, Timestamp)>,
    fp: Seq<char>,
    min_age: Delta,
    now: Timestamp,
) -> bool {
    lookup(seen, fp) matches Some(prev) && now.total() - prev.total() < min_age.nanos
}

impl DriftDeduplicator {
    /// The fingerprints, with the times at which they were let through.
    pub closed spec fn log(&self) -> Seq<(Seq<char>, Timestamp)> {
        self.seen@
    }

    /// They are in order.
    pub open spec fn wf(&self) -> bool {
        sorted(self.log())
    }

    /// Nothing seen.
    pub fn new() -> (r: Self)
        ensures
            r.log() == Seq::<(Seq<char>, Timestamp)>::empty(),
            r.wf(),
    {
        DriftDeduplicator { seen: StrMap::new() }
    }

    /// Whether to let a fingerprint through that is seen at a given time. One
    /// that is let through is noted.
    pub fn observe_at(&mut self, fingerprint: &str, min_age: Delta, now: Timestamp) -> (r: bool)
        ensures
            r == !held_back(old(self).log(), fingerprint@, min_age, now),
            final(self).log() == if r {
                put(old(self).log(), fingerprint@, now)
            } else {
                old(self).log()
            },
            old(self).wf() ==> final(self).wf(),
    {
        proof {
            if self.wf() {
                lemma_put_sorted(self.log(), fingerprint@, now);
            }
        }
        match self.seen.get(fingerprint) {
            Some(prev) => {
                if now.total_nanos() - prev.total_nanos() < min_age.nanos {
                    return false;
                }
            },
            None => {},
        }
        self.seen.insert(fingerprint.to_owned(), now);
        true
    }

    /// Whether to let a fingerprint through that is seen now.
    pub fn observe(&mut self, fingerprint: &str, min_age: Delta) -> (r: bool)
        ensures
            exists|now: Timestamp|
                r == !#[trigger] held_back(old(self).log(), fingerprint@, min_age, now)
                    && final(self).log() == if r {
                    put(old(self).log(), fingerprint@, now)
                } else {
                    old(self).log()
                },
            old(self).wf() ==> final(self).wf(),
    {
        let now = time::now();
        let r = self.observe_at(fingerprint, min_age, now);
        proof {
            let b = held_back(old(self).log(), fingerprint@, min_age, now);
        }
        r
    }

    /// Whether a fingerprint was let through before.
    pub fn known(&self, fingerprint: &str) -> (r: bool)
        ensures
            r == (lookup(self.log(), fingerprint@) is Some),
    {
        self.seen.contains_key(fingerprint)
    }

    pub fn len(&self) -> (r: usize)
        ensures
            r == self.log().len(),
    {
        self.seen.len()
    }

    pub fn is_empty(&self) -> (r: bool)
        ensures
            r == (self.log().len() == 0),
    {
        self.seen.is_empty()
    }
}

/// What was just let through is held back until `min_age` has passed, and let
/// through again then.
pub proof fn law_repeats_are_held_back(
    log: Seq<(Seq<char>, Timestamp)>,
    fp: Seq<char>,
    min_age: Delta,
    first: Timestamp,
    second: Timestamp,
)
    requires
        sorted(log),
    ensures
        held_back(put(log, fp, first), fp, min_age, second) <==> second.total() - first.total()
            < min_age.nanos,
{
    lemma_put_lookup(log, fp, first, fp);
}

/// What has not been let through before is not held back, and what was let
/// through long enough ago is not either.
pub proof fn law_first_sight_passes(
    log: Seq<(Seq<char>, Timestamp)>,
    fp: Seq<char>,
    min_age: Delta,
    now: Timestamp,
)
    ensures
        (forall|i: int| 0 <= i < log.len() ==> (#[trigger] log[i]).0 != fp) ==> !held_back(
            log,
            fp,
            min_age,
            now,
        ),
        lookup(log, fp) matches Some(prev) ==> (held_back(log, fp, min_age, now) <==> now.total()
            < prev.total() + min_age.nanos),
{
    if forall|i: int| 0 <= i < log.len() ==> (#[trigger] log[i]).0 != fp {
        crate::ordmap::lemma_lookup_none(log, fp);
    }
}

} // verus!
