//! Helm releases.
use vstd::prelude::*;
use crate::converge::decode;
use crate::converge::decode::{find_record_fault, part, part_of, record_fault, Field, Shape};
use crate::converge::diff::{carried_out, name_in, name_of, update_action, Named};
use crate::converge::store::{
    all_tidy, came_to, clean, lemma_calls_keep, lemma_listing_converges, lemma_one_called,
    lemma_run_end, lemma_run_start, lemma_run_step, listed, map_changes, normal_members, on_course,
    plan_changes, record, run, single, single_step, step_view, stepped, values_of, wanted, Call,
    CallV, Items, Reply, Shaped, Step, StepV, Store, Verdict,
};
use crate::converge::{
    applied_view, build_outcome, failed_view, planned, Action, AppliedChange, Change, ChangeV,
    FailedChange, Outcome, Plan, Reconciler, ReconcilerError, ReconcilerErrorV, ResultV,
};
use crate::json::{Json, JsonV};
use crate::ordmap;
use crate::ordmap::{erase, lookup, put, sorted, StrMap};
use crate::text;
use crate::time;

verus! {

/// A release.
#[derive(Debug, PartialEq)]
pub struct ReleaseSpec {
    /// The chart, such as `ingress-nginx/ingress-nginx`.
    pub chart: String,
    /// The version of the chart.
    pub version: String,
    /// Where it is installed.
    pub namespace: String,
    /// The values; `null` where none are given.
    pub values: Json,
}

/// What a [`ReleaseSpec`] holds.
#[verifier::ext_equal]
pub struct ReleaseV {
    pub chart: Seq<char>,
    pub version: Seq<char>,
    pub namespace: Seq<char>,
    pub values: JsonV,
}

impl View for ReleaseSpec {
    type V = ReleaseV;

    open spec fn view(&self) -> ReleaseV {
        ReleaseV { chart: self.chart@, version: self.version@, namespace: self.namespace@, values: self.values@ }
    }
}

impl Clone for ReleaseSpec {
    fn clone(&self) -> (r: Self)
        ensures
            r@ == self@,
    {
        self.copy()
    }
}

/// The members of a release.
pub open spec fn release_fields() -> Seq<Field> {
    seq![
        Field { name: "chart", shape: Shape::Text, in_object: true, in_array: true },
        Field { name: "version", shape: Shape::Text, in_object: true, in_array: true },
        Field { name: "namespace", shape: Shape::Text, in_object: true, in_array: true },
        Field { name: "values", shape: Shape::Any, in_object: false, in_array: false },
    ]
}

fn release_field_list() -> (r: Vec<Field>)
    ensures
        r@ == release_fields(),
{
    let r = vec![
        Field { name: "chart", shape: Shape::Text, in_object: true, in_array: true },
        Field { name: "version", shape: Shape::Text, in_object: true, in_array: true },
        Field { name: "namespace", shape: Shape::Text, in_object: true, in_array: true },
        Field { name: "values", shape: Shape::Any, in_object: false, in_array: false },
    ];
    proof {
        assert(r@ =~= release_fields());
    }
    r
}

/// The release that JSON holds, or why it holds none.
pub open spec fn release_of(v: JsonV) -> Result<ReleaseV, Seq<char>> {
    match record_fault("ReleaseSpec"@, release_fields(), v) {
        Some(e) => Err(e),
        None => Ok(
            ReleaseV {
                chart: decode::text_value(part(release_fields(), v, 0)),
                version: decode::text_value(part(release_fields(), v, 1)),
                namespace: decode::text_value(part(release_fields(), v, 2)),
                values: decode::any_value(part(release_fields(), v, 3)),
            },
        ),
    }
}

/// A release as JSON.
pub open spec fn release_json(m: ReleaseV) -> JsonV {
    JsonV::Object(
        seq![
            ("chart"@, JsonV::String(m.chart)),
            ("namespace"@, JsonV::String(m.namespace)),
            ("values"@, m.values),
            ("version"@, JsonV::String(m.version)),
        ],
    )
}

impl Shaped for ReleaseSpec {
    type M = ReleaseV;

    open spec fn model(&self) -> ReleaseV {
        self@
    }

    open spec fn json_of(m: ReleaseV) -> JsonV {
        release_json(m)
    }

    open spec fn read_model(v: JsonV) -> Result<ReleaseV, Seq<char>> {
        release_of(v)
    }

    open spec fn tidy(m: ReleaseV) -> ReleaseV {
        m
    }

    proof fn reads_back(m: ReleaseV) {
        reveal_strlit("chart");
        reveal_strlit("version");
        reveal_strlit("namespace");
        reveal_strlit("values");
        let fs = release_fields();
        let o = release_json(m)->Object_0;
        assert("chart"@.len() != "version"@.len());
        assert("chart"@.len() != "namespace"@.len());
        assert("chart"@.len() != "values"@.len());
        assert("version"@.len() != "namespace"@.len());
        assert("version"@.len() != "values"@.len());
        assert("namespace"@.len() != "values"@.len());
        reveal_with_fuel(decode::shape_of, 5);
        reveal_with_fuel(decode::members_fault, 5);
        reveal_with_fuel(decode::missing, 5);
        reveal_with_fuel(lookup, 5);
        assert(lookup(o, "chart"@) == Some(o[0].1));
        assert(lookup(o, "namespace"@) == Some(o[1].1));
        assert(lookup(o, "values"@) == Some(o[2].1));
        assert(lookup(o, "version"@) == Some(o[3].1));
        assert(decode::member_fault(fs, o[0]) is None);
        assert(decode::member_fault(fs, o[1]) is None);
        assert(decode::member_fault(fs, o[2]) is None);
        assert(decode::member_fault(fs, o[3]) is None);
        assert(record_fault("ReleaseSpec"@, fs, release_json(m)) is None);
    }

    proof fn tidy_is_tidy(m: ReleaseV) {
    }

    fn from_json(v: &Json) -> (r: Result<Self, String>) {
        let fs = release_field_list();
        match find_record_fault("ReleaseSpec", &fs, v) {
            Some(e) => Err(e),
            None => Ok(
                ReleaseSpec {
                    chart: decode::take_text(part_of(&fs, v, 0)),
                    version: decode::take_text(part_of(&fs, v, 1)),
                    namespace: decode::take_text(part_of(&fs, v, 2)),
                    values: decode::take_any(part_of(&fs, v, 3)),
                },
            ),
        }
    }

    fn to_json(&self) -> (r: Json) {
        let m = StrMap {
            entries: vec![
                ("chart".to_owned(), Json::String(self.chart.clone())),
                ("namespace".to_owned(), Json::String(self.namespace.clone())),
                ("values".to_owned(), self.values.clone()),
                ("version".to_owned(), Json::String(self.version.clone())),
            ],
        };
        proof {
            crate::json::lemma_object_view(m);
            assert(crate::json::object_view(m@) =~= release_json(self@)->Object_0);
        }
        Json::Object(m)
    }

    fn tidied(&self) -> (r: Self) {
        self.copy()
    }

    fn copy(&self) -> (r: Self) {
        ReleaseSpec { chart: self.chart.clone(), version: self.version.clone(), namespace: self.namespace.clone(), values: self.values.clone() }
    }
}

// ── A client in memory ─────────────────────────────────────────────

/// The releases in memory.
#[derive(Debug)]
pub struct MockHelmClient {
    store: Store<ReleaseSpec>,
}

impl Default for MockHelmClient {
    fn default() -> (r: Self)
        ensures
            r.releases() == Seq::<(Seq<char>, ReleaseV)>::empty(),
            r.wf(),
    {
        MockHelmClient::new()
    }
}

impl MockHelmClient {
    /// The releases that are there.
    pub closed spec fn releases(&self) -> Items<ReleaseV> {
        self.store.items()
    }

    /// They are in the order of their names.
    pub open spec fn wf(&self) -> bool {
        sorted(self.releases()) && all_tidy::<ReleaseSpec>(self.releases())
    }

    /// Nothing there.
    pub fn new() -> (r: Self)
        ensures
            r.releases() == Seq::<(Seq<char>, ReleaseV)>::empty(),
            r.wf(),
    {
        MockHelmClient { store: Store::new() }
    }

    /// These releases.
    pub fn with_releases(given: &StrMap<ReleaseSpec>) -> (r: Self)
        ensures
            r.releases() == ordmap::map_vals(given@, |t: ReleaseSpec| t.model()),
            sorted(given@) ==> r.wf(),
    {
        let r = MockHelmClient { store: Store::of(given) };
        proof {
            assert(r.releases() =~= ordmap::map_vals(given@, |t: ReleaseSpec| t.model()));
        }
        r
    }

    /// A copy of the releases.
    pub fn snapshot(&self) -> (r: StrMap<ReleaseSpec>)
        ensures
            ordmap::map_vals(r@, |t: ReleaseSpec| t.model()) == self.releases(),
    {
        self.store.snapshot()
    }

    /// The releases, as a client lists them.
    pub fn list_releases(&self) -> (r: Result<StrMap<ReleaseSpec>, String>)
        ensures
            r matches Ok(m) && ordmap::map_vals(m@, |t: ReleaseSpec| t.model()) == self.releases(),
    {
        Ok(self.store.snapshot())
    }

    pub fn install(&mut self, name: &str, item: &ReleaseSpec) -> (r: Result<(), String>)
        ensures
            r is Ok,
            final(self).releases() == put(old(self).releases(), name@, item@),
            old(self).wf() ==> final(self).wf(),
    {
        self.store.write(name, item);
        Ok(())
    }

    pub fn upgrade(&mut self, name: &str, item: &ReleaseSpec) -> (r: Result<(), String>)
        ensures
            r is Ok,
            final(self).releases() == put(old(self).releases(), name@, item@),
            old(self).wf() ==> final(self).wf(),
    {
        self.store.write(name, item);
        Ok(())
    }

    pub fn uninstall(&mut self, name: &str) -> (r: Result<(), String>)
        ensures
            r is Ok,
            final(self).releases() == erase(old(self).releases(), name@),
            old(self).wf() ==> final(self).wf(),
    {
        self.store.erase(name);
        Ok(())
    }
}

// ── The reconciler ─────────────────────────────────────────────────

/// What the address of a release begins with.
pub open spec fn helm_prefix() -> Seq<char> {
    "helm_release."@
}

/// The call that a change with something to write ends in: `lacking` is the
/// message where there is nothing to write.
pub open spec fn helm_write(c: ChangeV, lacking: Seq<char>, before: Seq<CallV<ReleaseV>>) -> StepV<ReleaseV> {
    let name = name_in(helm_prefix(), c.address);
    match c.after {
        None => StepV { calls: before, fault: Some(lacking) },
        Some(v) => match release_of(v) {
            Err(e) => StepV { calls: before, fault: Some("decode after: "@ + e) },
            Ok(m) => StepV {
                calls: before.push(
                    if c.action == Action::Update {
                        CallV::Update(name, m)
                    } else {
                        CallV::Create(name, m)
                    },
                ),
                fault: None,
            },
        },
    }
}

/// How a change to a release is carried out. A replacement uninstalls first,
/// and only then looks at what is to be installed.
pub open spec fn helm_step(c: ChangeV) -> Option<StepV<ReleaseV>> {
    let name = name_in(helm_prefix(), c.address);
    match c.action {
        Action::NoOp => None,
        Action::Delete => Some(single(CallV::Delete(name))),
        Action::Create => Some(helm_write(c, "create without `after`"@, Seq::empty())),
        Action::Update => Some(helm_write(c, "update without `after`"@, Seq::empty())),
        Action::Replace => Some(
            helm_write(c, "replace without `after`"@, seq![CallV::Delete(name)]),
        ),
    }
}

/// Decide how a change to a release is carried out: `Create` installs,
/// `Update` upgrades, `Delete` uninstalls.
pub fn next_call(c: &Change) -> (r: Option<Step<ReleaseSpec>>)
    ensures
        step_view(r) == helm_step(c@),
{
    let name = name_of("helm_release.", c.address.as_str());
    let mut calls: Vec<Call<ReleaseSpec>> = Vec::new();
    let lacking = match c.action {
        Action::NoOp => {
            return None;
        },
        Action::Delete => {
            return Some(single_step(Call::Delete(name)));
        },
        Action::Create => "create without `after`",
        Action::Update => "update without `after`",
        Action::Replace => {
            calls.push(Call::Delete(name.clone()));
            "replace without `after`"
        },
    };
    let ghost before = crate::converge::store::calls_view(calls@);
    proof {
        if c.action == Action::Replace {
            assert(before =~= seq![CallV::Delete(name@)]);
        } else {
            assert(before =~= Seq::empty());
        }
    }
    let mut fault: Option<String> = None;
    match &c.after {
        None => {
            fault = Some(lacking.to_owned());
        },
        Some(v) => match ReleaseSpec::from_json(v) {
            Err(e) => {
                fault = Some(text::join2("decode after: ", e.as_str()));
            },
            Ok(spec) => {
                let call = if c.action == Action::Update {
                    Call::Update(name, spec)
                } else {
                    Call::Create(name, spec)
                };
                calls.push(call);
                proof {
                    assert(crate::converge::store::calls_view(calls@) =~= before.push(call.asked()));
                }
            },
        },
    }
    Some(Step { calls, fault })
}

/// A replacement uninstalls, and installs only where that succeeded. It
/// succeeds where both calls did, else it fails with the error of the one that
/// failed.
pub proof fn law_replacement_installs_last(c: ChangeV, uninstalled: Reply, installed: Reply)
    requires
        c.action == Action::Replace,
        c.after is Some,
        release_of(c.after->Some_0) is Ok,
    ensures
        ({
            let name = name_in(helm_prefix(), c.address);
            let install = CallV::Create(name, release_of(c.after->Some_0)->Ok_0);
            let step = helm_step(c)->Some_0;
            let replies = if uninstalled is Ok {
                seq![uninstalled, installed]
            } else {
                seq![uninstalled]
            };
            &&& helm_step(c) is Some
            &&& wanted(step, Seq::empty()) == Some(CallV::<ReleaseV>::Delete(name))
            &&& wanted(step, seq![uninstalled]) == if uninstalled is Ok {
                Some(install)
            } else {
                None
            }
            &&& wanted(step, replies) is None
            &&& came_to(step, replies) == if uninstalled is Ok {
                installed
            } else {
                uninstalled
            }
        }),
{
    let step = helm_step(c)->Some_0;
    assert(step.calls.len() == 2 && step.fault is None);
    assert(seq![uninstalled, installed].last() == installed);
    assert(seq![uninstalled].last() == uninstalled);
    if let Ok(done) = installed {
        assert(done == ());
    }
}

/// The rule by which the client in memory carries changes out.
pub open spec fn helm_rule() -> spec_fn(Items<ReleaseV>, ChangeV) -> (Items<ReleaseV>, Verdict) {
    |items: Items<ReleaseV>, c: ChangeV| stepped::<ReleaseSpec>(items, helm_step(c))
}

/// Reconciles releases.
#[derive(Debug)]
pub struct HelmReleaseReconciler<C> {
    client: C,
}

impl<C> HelmReleaseReconciler<C> {
    pub closed spec fn held_client(&self) -> C {
        self.client
    }

    pub fn new(client: C) -> (r: Self)
        ensures
            r.held_client() == client,
    {
        HelmReleaseReconciler { client }
    }

    pub fn client(&self) -> (r: &C)
        ensures
            *r == self.held_client(),
    {
        &self.client
    }
}

/// The plan that brings releases from a state to a configuration.
pub fn plan(config: &Json, state: &Json) -> (r: Result<Plan, ReconcilerError>)
    ensures
        planned(r, "helm_release"@, map_changes::<ReleaseSpec>(helm_prefix(), Some("chart"@), config@, state@)),
{
    match plan_changes::<ReleaseSpec>("helm_release.", Some("chart"), config, state) {
        Ok(changes) => Ok(Plan::new("helm_release", changes)),
        Err(e) => Err(e),
    }
}

impl Reconciler for HelmReleaseReconciler<MockHelmClient> {
    open spec fn label(&self) -> Seq<char> {
        "helm_release"@
    }

    open spec fn observed(&self) -> Result<JsonV, ReconcilerErrorV> {
        Ok(JsonV::Object(listed::<ReleaseSpec>(self.held_client().releases())))
    }

    open spec fn changes(&self, config: JsonV, state: JsonV) -> Result<Seq<ChangeV>, ReconcilerErrorV> {
        map_changes::<ReleaseSpec>(helm_prefix(), Some("chart"@), config, state)
    }

    open spec fn carries(
        &self,
        changes: Seq<ChangeV>,
        left: Self,
        applied: Seq<ResultV>,
        failed: Seq<ResultV>,
    ) -> bool {
        run(helm_rule(), self.held_client().releases(), changes) == (
            left.held_client().releases(),
            applied,
            failed,
        )
    }

    /// Never: a change that cannot be carried out is listed among the failed.
    open spec fn fails(&self, changes: Seq<ChangeV>, left: Self, e: ReconcilerErrorV) -> bool {
        false
    }

    fn kind(&self) -> (r: &'static str) {
        "helm_release"
    }

    fn read_state(&self) -> (r: Result<Json, ReconcilerError>) {
        Ok(self.client.store.listing())
    }

    fn compute_plan(&self, config: &Json, state: &Json) -> (r: Result<Plan, ReconcilerError>) {
        plan(config, state)
    }

    fn apply(&mut self, plan: &Plan) -> (r: Result<Outcome, ReconcilerError>)
        ensures
            r is Ok,
            old(self).held_client().wf() ==> final(self).held_client().wf(),
    {
        let started_at = time::now();
        let ghost orderly = self.client.wf();
        let ghost cs = plan@.changes;
        let ghost start = self.client.store.items();
        let mut applied: Vec<AppliedChange> = Vec::new();
        let mut failed: Vec<FailedChange> = Vec::new();
        let mut i: usize = 0;
        proof {
            lemma_run_start(helm_rule(), start, cs);
            assert(applied_view(applied@) =~= Seq::empty());
            assert(failed_view(failed@) =~= Seq::empty());
        }
        while i < plan.changes.len()
            invariant
                i <= plan.changes@.len(),
                cs == plan@.changes,
                on_course(
                    helm_rule(),
                    start,
                    cs,
                    i as int,
                    self.client.store.items(),
                    applied_view(applied@),
                    failed_view(failed@),
                ),
                orderly ==> self.client.wf(),
            decreases plan.changes.len() - i,
        {
            let c = &plan.changes[i];
            proof {
                assert(cs[i as int] == c@);
                lemma_run_step(
                    helm_rule(),
                    start,
                    cs,
                    i as int,
                    self.client.store.items(),
                    applied_view(applied@),
                    failed_view(failed@),
                );
            }
            match next_call(c) {
                None => {},
                Some(step) => {
                    let res = self.client.store.carry_out(step);
                    record(c, res, &mut applied, &mut failed);
                },
            }
            i += 1;
        }
        proof {
            lemma_run_end(
                helm_rule(),
                start,
                cs,
                self.client.store.items(),
                applied_view(applied@),
                failed_view(failed@),
            );
        }
        Ok(build_outcome(plan, applied, failed, started_at))
    }
}

/// Applying converges: the plan for a configuration, carried out, fails
/// nowhere and leaves releases for which the next plan is empty.
pub proof fn law_helm_converges(items: Items<ReleaseV>, config: Named)
    requires
        sorted(items),
        sorted(config),
        normal_members::<ReleaseSpec>(config) is Ok,
    ensures
        ({
            let cs = map_changes::<ReleaseSpec>(
                helm_prefix(),
                Some("chart"@),
                JsonV::Object(config),
                JsonV::Object(listed::<ReleaseSpec>(items)),
            );
            let (left, applied, failed) = run(helm_rule(), items, cs->Ok_0);
            cs is Ok && failed.len() == 0 && map_changes::<ReleaseSpec>(
                helm_prefix(),
                Some("chart"@),
                JsonV::Object(config),
                JsonV::Object(listed::<ReleaseSpec>(left)),
            ) == Ok::<Seq<ChangeV>, ReconcilerErrorV>(Seq::empty())
        }),
{
    let rule = helm_rule();
    assert forall|i: Items<ReleaseV>, c: ChangeV|
        #![trigger rule(i, c)]
        sorted(i) && clean::<ReleaseSpec>(c) implies sorted(rule(i, c).0) && values_of::<ReleaseSpec>(rule(i, c).0) == carried_out(
        helm_prefix(),
        values_of::<ReleaseSpec>(i),
        c,
    ) && !(rule(i, c).1 matches Some(Err(_))) by {
        lemma_helm_clean(i, c);
    }
    lemma_listing_converges::<ReleaseSpec>(helm_prefix(), Some("chart"@), rule, items, config);
}

/// A clean change does to the values what it says, and does not fail.
proof fn lemma_helm_clean(items: Items<ReleaseV>, c: ChangeV)
    requires
        clean::<ReleaseSpec>(c),
        sorted(items),
    ensures
        sorted(helm_rule()(items, c).0),
        values_of::<ReleaseSpec>(helm_rule()(items, c).0) == carried_out(
            helm_prefix(),
            values_of::<ReleaseSpec>(items),
            c,
        ),
        !(helm_rule()(items, c).1 matches Some(Err(_))),
{
    let name = name_in(helm_prefix(), c.address);
    let f = |m: ReleaseV| ReleaseSpec::json_of(m);
    let none: Seq<CallV<ReleaseV>> = Seq::empty();
    match helm_step(c) {
        Some(step) => lemma_calls_keep::<ReleaseSpec>(items, step.calls),
        None => {},
    }
    match c.action {
        Action::NoOp => {},
        Action::Delete => {
            lemma_one_called::<ReleaseSpec>(items, CallV::Delete(name));
            ordmap::lemma_map_vals_erase(items, f, name);
        },
        _ => {
            let m = release_of(c.after->Some_0)->Ok_0;
            let create: CallV<ReleaseV> = CallV::Create(name, m);
            let update: CallV<ReleaseV> = CallV::Update(name, m);
            let del: CallV<ReleaseV> = CallV::Delete(name);
            assert(none.push(create) =~= seq![create]);
            assert(none.push(update) =~= seq![update]);
            lemma_one_called::<ReleaseSpec>(items, create);
            lemma_one_called::<ReleaseSpec>(items, update);
            lemma_one_called::<ReleaseSpec>(items, del);
            assert(seq![del].push(create).drop_last() =~= seq![del]);
            ordmap::lemma_map_vals_put(items, f, name, m);
            lemma_put_after_erase(items, name, m);
        },
    }
}

/// Writing under a name that was just removed is writing over it.
proof fn lemma_put_after_erase(items: Items<ReleaseV>, name: Seq<char>, m: ReleaseV)
    requires
        sorted(items),
    ensures
        put(erase(items, name), name, m) == put(items, name, m),
{
    let left = erase(items, name);
    ordmap::lemma_erase_sorted(items, name);
    ordmap::lemma_put_sorted(left, name, m);
    ordmap::lemma_put_sorted(items, name, m);
    assert forall|k: Seq<char>| #[trigger] lookup(put(left, name, m), k) == lookup(
        put(items, name, m),
        k,
    ) by {
        ordmap::lemma_put_lookup(left, name, m, k);
        ordmap::lemma_put_lookup(items, name, m, k);
        ordmap::lemma_erase_lookup(items, name, k);
    }
    ordmap::lemma_canonical(put(left, name, m), put(items, name, m));
}

/// A release that gets another chart is replaced; one that keeps it is
/// updated.
pub proof fn law_chart_change_replaces(have: ReleaseV, want: ReleaseV)
    ensures
        update_action(Some("chart"@), release_json(have), release_json(want)) == (if have.chart
            == want.chart {
            Action::Update
        } else {
            Action::Replace
        }),
{
    let a = release_json(have)->Object_0;
    let b = release_json(want)->Object_0;
    assert(lookup(a, "chart"@) == Some(a[0].1));
    assert(lookup(b, "chart"@) == Some(b[0].1));
}

/// A release is uninstalled by one call, installed by one and upgraded by one;
/// it is replaced by uninstalling and installing it. Without a release to
/// install there is a fault instead of that call.
pub proof fn law_helm_steps(c: ChangeV)
    ensures
        ({
            let name = name_in(helm_prefix(), c.address);
            let step = helm_step(c)->Some_0;
            let readable = c.after is Some && release_of(c.after->Some_0) is Ok;
            let m = release_of(c.after->Some_0)->Ok_0;
            &&& helm_step(c) is None <==> c.action == Action::NoOp
            &&& c.action == Action::Delete ==> step.calls == seq![CallV::<ReleaseV>::Delete(name)]
                && step.fault is None
            &&& c.action == Action::Create ==> (readable ==> step.calls == seq![
                CallV::Create(name, m),
            ] && step.fault is None) && (!readable ==> step.calls.len() == 0 && step.fault is Some)
            &&& c.action == Action::Update ==> (readable ==> step.calls == seq![
                CallV::Update(name, m),
            ] && step.fault is None) && (!readable ==> step.calls.len() == 0 && step.fault is Some)
            &&& c.action == Action::Replace ==> (readable ==> step.calls == seq![
                CallV::Delete(name),
                CallV::Create(name, m),
            ] && step.fault is None) && (!readable ==> step.calls == seq![
                CallV::<ReleaseV>::Delete(name),
            ] && step.fault is Some)
        }),
{
    let name = name_in(helm_prefix(), c.address);
    if c.after is Some && release_of(c.after->Some_0) is Ok {
        let m = release_of(c.after->Some_0)->Ok_0;
        assert(Seq::<CallV<ReleaseV>>::empty().push(CallV::Create(name, m)) =~= seq![
            CallV::Create(name, m),
        ]);
        assert(Seq::<CallV<ReleaseV>>::empty().push(CallV::Update(name, m)) =~= seq![
            CallV::Update(name, m),
        ]);
        assert(seq![CallV::<ReleaseV>::Delete(name)].push(CallV::Create(name, m)) =~= seq![
            CallV::Delete(name),
            CallV::Create(name, m),
        ]);
    }
}

/// A release is read by the names of its members, and values that are not
/// there are null.
pub proof fn law_releases_by_name(m: Named)
    ensures
        release_of(JsonV::Object(m)) matches Ok(r) ==> {
            &&& lookup(m, "chart"@) == Some(JsonV::String(r.chart))
            &&& lookup(m, "version"@) == Some(JsonV::String(r.version))
            &&& lookup(m, "namespace"@) == Some(JsonV::String(r.namespace))
            &&& r.values == match lookup(m, "values"@) {
                Some(v) => v,
                None => JsonV::Null,
            }
        },
{
    let v = JsonV::Object(m);
    let fields = release_fields();
    reveal_strlit("chart");
    reveal_strlit("version");
    reveal_strlit("namespace");
    reveal_strlit("values");
    assert(fields[0].name@ == "chart"@);
    assert(fields[1].name@ == "version"@);
    assert(fields[2].name@ == "namespace"@);
    assert(fields[3].name@ == "values"@);
    decode::law_first_field_of_a_name(fields, 0, "chart"@);
    decode::law_first_field_of_a_name(fields, 1, "version"@);
    decode::law_first_field_of_a_name(fields, 2, "namespace"@);
    if record_fault("ReleaseSpec"@, release_fields(), v) is None {
        decode::lemma_part_shape("ReleaseSpec"@, release_fields(), v, 0);
        decode::lemma_part_shape("ReleaseSpec"@, release_fields(), v, 1);
        decode::lemma_part_shape("ReleaseSpec"@, release_fields(), v, 2);
    }
}

/// A release is what has a chart, a version and a namespace that are texts;
/// values need not be there.
pub proof fn law_what_is_a_release(m: Seq<(Seq<char>, JsonV)>)
    requires
        sorted(m),
    ensures
        release_of(JsonV::Object(m)) is Ok <==> {
            &&& lookup(m, "chart"@) is Some && lookup(m, "chart"@)->Some_0 is String
            &&& lookup(m, "version"@) is Some && lookup(m, "version"@)->Some_0 is String
            &&& lookup(m, "namespace"@) is Some && lookup(m, "namespace"@)->Some_0 is String
        },
{
    let fields = release_fields();
    reveal_strlit("chart");
    reveal_strlit("version");
    reveal_strlit("namespace");
    reveal_strlit("values");
    assert(fields[0].name@ == "chart"@);
    assert(fields[1].name@ == "version"@);
    assert(fields[2].name@ == "namespace"@);
    assert(fields[3].name@ == "values"@);
    decode::law_records_from_ordered_objects("ReleaseSpec"@, fields, m);
    assert(fields.len() == 4);
    let ok = record_fault("ReleaseSpec"@, fields, JsonV::Object(m)) is None;
    assert(ok ==> (match lookup(m, fields[0].name@) {
        Some(v) => decode::fault(v, fields[0].shape) is None,
        None => !fields[0].in_object,
    }) && (match lookup(m, fields[1].name@) {
        Some(v) => decode::fault(v, fields[1].shape) is None,
        None => !fields[1].in_object,
    }) && (match lookup(m, fields[2].name@) {
        Some(v) => decode::fault(v, fields[2].shape) is None,
        None => !fields[2].in_object,
    }) && (match lookup(m, fields[3].name@) {
        Some(v) => decode::fault(v, fields[3].shape) is None,
        None => !fields[3].in_object,
    }));
}

} // verus!
