//! Vault policies.
use vstd::prelude::*;
use crate::converge::decode;
use crate::converge::decode::{find_record_fault, part, part_of, record_fault, Field, Shape};
use crate::converge::diff::{carried_out, law_differences_are_effective, Named};
use crate::converge::store::{
    all_tidy, clean, lemma_listing_converges, lemma_run_end, lemma_run_start, lemma_run_step,
    lemma_write_rule_clean, listed, map_changes, next_step, normal_map, normal_members, on_course,
    plan_changes, record, run, step_view, stepped, values_of, write_step, Items, Shaped, Step,
    StepV, Store, Verdict,
};
use crate::converge::{
    applied_view, build_outcome, failed_view, planned, Action, AppliedChange, Change,
    ChangeSeverity, ChangeV, FailedChange, Outcome, Plan, Reconciler, ReconcilerError,
    ReconcilerErrorV, ResultV,
};
use crate::json::{Json, JsonV};
use crate::ordmap;
use crate::ordmap::{erase, lookup, put, sorted, StrMap};
use crate::time;

verus! {

/// A policy.
#[derive(Debug, PartialEq)]
pub struct PolicyBody {
    /// The version of the policy language.
    pub version: String,
    /// The policy document.
    pub rules: Json,
}

/// What a [`PolicyBody`] holds.
#[verifier::ext_equal]
pub struct PolicyV {
    pub version: Seq<char>,
    pub rules: JsonV,
}

impl View for PolicyBody {
    type V = PolicyV;

    open spec fn view(&self) -> PolicyV {
        PolicyV { version: self.version@, rules: self.rules@ }
    }
}

impl Clone for PolicyBody {
    fn clone(&self) -> (r: Self)
        ensures
            r@ == self@,
    {
        self.copy()
    }
}

/// The members of a policy.
pub open spec fn policy_fields() -> Seq<Field> {
    seq![
        Field { name: "version", shape: Shape::Text, in_object: true, in_array: true },
        Field { name: "rules", shape: Shape::Any, in_object: true, in_array: true },
    ]
}

fn policy_field_list() -> (r: Vec<Field>)
    ensures
        r@ == policy_fields(),
{
    let r = vec![
        Field { name: "version", shape: Shape::Text, in_object: true, in_array: true },
        Field { name: "rules", shape: Shape::Any, in_object: true, in_array: true },
    ];
    proof {
        assert(r@ =~= policy_fields());
    }
    r
}

/// The policy that JSON holds, or why it holds none.
pub open spec fn policy_of(v: JsonV) -> Result<PolicyV, Seq<char>> {
    match record_fault("PolicyBody"@, policy_fields(), v) {
        Some(e) => Err(e),
        None => Ok(
            PolicyV {
                version: decode::text_value(part(policy_fields(), v, 0)),
                rules: decode::any_value(part(policy_fields(), v, 1)),
            },
        ),
    }
}

/// A policy as JSON.
pub open spec fn policy_json(m: PolicyV) -> JsonV {
    JsonV::Object(
        seq![
            ("rules"@, m.rules),
            ("version"@, JsonV::String(m.version)),
        ],
    )
}

impl Shaped for PolicyBody {
    type M = PolicyV;

    open spec fn model(&self) -> PolicyV {
        self@
    }

    open spec fn json_of(m: PolicyV) -> JsonV {
        policy_json(m)
    }

    open spec fn read_model(v: JsonV) -> Result<PolicyV, Seq<char>> {
        policy_of(v)
    }

    open spec fn tidy(m: PolicyV) -> PolicyV {
        m
    }

    proof fn reads_back(m: PolicyV) {
        reveal_strlit("version");
        reveal_strlit("rules");
        let fs = policy_fields();
        let o = policy_json(m)->Object_0;
        assert("version"@.len() != "rules"@.len());
        reveal_with_fuel(decode::shape_of, 3);
        reveal_with_fuel(decode::members_fault, 3);
        reveal_with_fuel(decode::missing, 3);
        reveal_with_fuel(lookup, 3);
        assert(lookup(o, "rules"@) == Some(o[0].1));
        assert(lookup(o, "version"@) == Some(o[1].1));
        assert(decode::member_fault(fs, o[0]) is None);
        assert(decode::member_fault(fs, o[1]) is None);
        assert(record_fault("PolicyBody"@, fs, policy_json(m)) is None);
    }

    proof fn tidy_is_tidy(m: PolicyV) {
    }

    fn from_json(v: &Json) -> (r: Result<Self, String>) {
        let fs = policy_field_list();
        match find_record_fault("PolicyBody", &fs, v) {
            Some(e) => Err(e),
            None => Ok(
                PolicyBody {
                    version: decode::take_text(part_of(&fs, v, 0)),
                    rules: decode::take_any(part_of(&fs, v, 1)),
                },
            ),
        }
    }

    fn to_json(&self) -> (r: Json) {
        let m = StrMap {
            entries: vec![
                ("rules".to_owned(), self.rules.clone()),
                ("version".to_owned(), Json::String(self.version.clone())),
            ],
        };
        proof {
            crate::json::lemma_object_view(m);
            assert(crate::json::object_view(m@) =~= policy_json(self@)->Object_0);
        }
        Json::Object(m)
    }

    fn tidied(&self) -> (r: Self) {
        self.copy()
    }

    fn copy(&self) -> (r: Self) {
        PolicyBody { version: self.version.clone(), rules: self.rules.clone() }
    }
}

// ── A client in memory ─────────────────────────────────────────────

/// The policies in memory.
#[derive(Debug)]
pub struct MockVaultClient {
    store: Store<PolicyBody>,
}

impl Default for MockVaultClient {
    fn default() -> (r: Self)
        ensures
            r.policies() == Seq::<(Seq<char>, PolicyV)>::empty(),
            r.wf(),
    {
        MockVaultClient::new()
    }
}

impl MockVaultClient {
    /// The policies that are there.
    pub closed spec fn policies(&self) -> Items<PolicyV> {
        self.store.items()
    }

    /// They are in the order of their names.
    pub open spec fn wf(&self) -> bool {
        sorted(self.policies()) && all_tidy::<PolicyBody>(self.policies())
    }

    /// Nothing there.
    pub fn new() -> (r: Self)
        ensures
            r.policies() == Seq::<(Seq<char>, PolicyV)>::empty(),
            r.wf(),
    {
        MockVaultClient { store: Store::new() }
    }

    /// These policies.
    pub fn with_policies(given: &StrMap<PolicyBody>) -> (r: Self)
        ensures
            r.policies() == ordmap::map_vals(given@, |t: PolicyBody| t.model()),
            sorted(given@) ==> r.wf(),
    {
        let r = MockVaultClient { store: Store::of(given) };
        proof {
            assert(r.policies() =~= ordmap::map_vals(given@, |t: PolicyBody| t.model()));
        }
        r
    }

    /// A copy of the policies.
    pub fn snapshot(&self) -> (r: StrMap<PolicyBody>)
        ensures
            ordmap::map_vals(r@, |t: PolicyBody| t.model()) == self.policies(),
    {
        self.store.snapshot()
    }

    /// The policies, as a client lists them.
    pub fn list_policies(&self) -> (r: Result<StrMap<PolicyBody>, String>)
        ensures
            r matches Ok(m) && ordmap::map_vals(m@, |t: PolicyBody| t.model()) == self.policies(),
    {
        Ok(self.store.snapshot())
    }

    pub fn put_policy(&mut self, name: &str, item: &PolicyBody) -> (r: Result<(), String>)
        ensures
            r is Ok,
            final(self).policies() == put(old(self).policies(), name@, item@),
            old(self).wf() ==> final(self).wf(),
    {
        self.store.write(name, item);
        Ok(())
    }

    pub fn delete_policy(&mut self, name: &str) -> (r: Result<(), String>)
        ensures
            r is Ok,
            final(self).policies() == erase(old(self).policies(), name@),
            old(self).wf() ==> final(self).wf(),
    {
        self.store.erase(name);
        Ok(())
    }
}

// ── The reconciler ─────────────────────────────────────────────────

/// What the address of a policy begins with.
pub open spec fn vault_prefix() -> Seq<char> {
    "vault_policy."@
}

/// How a change to a policy is carried out.
pub open spec fn vault_step(c: ChangeV) -> Option<StepV<PolicyV>> {
    write_step::<PolicyBody>(vault_prefix(), "create/update without `after`"@, c)
}

/// Decide how a change to a policy is carried out. Creating and updating are
/// both done by putting the policy.
pub fn next_call(c: &Change) -> (r: Option<Step<PolicyBody>>)
    ensures
        step_view(r) == vault_step(c@),
{
    next_step("vault_policy.", "create/update without `after`", c)
}

/// The rule by which the client in memory carries changes out.
pub open spec fn vault_rule() -> spec_fn(Items<PolicyV>, ChangeV) -> (Items<PolicyV>, Verdict) {
    |items: Items<PolicyV>, c: ChangeV| stepped::<PolicyBody>(items, vault_step(c))
}

/// Reconciles policies.
#[derive(Debug)]
pub struct VaultPolicyReconciler<C> {
    client: C,
}

impl<C> VaultPolicyReconciler<C> {
    pub closed spec fn held_client(&self) -> C {
        self.client
    }

    pub fn new(client: C) -> (r: Self)
        ensures
            r.held_client() == client,
    {
        VaultPolicyReconciler { client }
    }

    pub fn client(&self) -> (r: &C)
        ensures
            *r == self.held_client(),
    {
        &self.client
    }
}

/// The plan that brings policies from a state to a configuration.
pub fn plan(config: &Json, state: &Json) -> (r: Result<Plan, ReconcilerError>)
    ensures
        planned(r, "vault_policy"@, map_changes::<PolicyBody>(vault_prefix(), None, config@, state@)),
{
    match plan_changes::<PolicyBody>("vault_policy.", None, config, state) {
        Ok(changes) => Ok(Plan::new("vault_policy", changes)),
        Err(e) => Err(e),
    }
}

impl Reconciler for VaultPolicyReconciler<MockVaultClient> {
    open spec fn label(&self) -> Seq<char> {
        "vault_policy"@
    }

    open spec fn observed(&self) -> Result<JsonV, ReconcilerErrorV> {
        Ok(JsonV::Object(listed::<PolicyBody>(self.held_client().policies())))
    }

    open spec fn changes(&self, config: JsonV, state: JsonV) -> Result<Seq<ChangeV>, ReconcilerErrorV> {
        map_changes::<PolicyBody>(vault_prefix(), None, config, state)
    }

    open spec fn carries(
        &self,
        changes: Seq<ChangeV>,
        left: Self,
        applied: Seq<ResultV>,
        failed: Seq<ResultV>,
    ) -> bool {
        run(vault_rule(), self.held_client().policies(), changes) == (
            left.held_client().policies(),
            applied,
            failed,
        )
    }

    /// Never: a change that cannot be carried out is listed among the failed.
    open spec fn fails(&self, changes: Seq<ChangeV>, left: Self, e: ReconcilerErrorV) -> bool {
        false
    }

    fn kind(&self) -> (r: &'static str) {
        "vault_policy"
    }

    fn read_state(&self) -> (r: Result<Json, ReconcilerError>) {
        Ok(self.client.store.listing())
    }

    fn compute_plan(&self, config: &Json, state: &Json) -> (r: Result<Plan, ReconcilerError>) {
        plan(config, state)
    }

    fn apply(&mut self, plan: &Plan) -> (r: Result<Outcome, ReconcilerError>)
        ensures
            r is Ok,
            old(self).held_client().wf() ==> final(self).held_client().wf(),
    {
        let started_at = time::now();
        let ghost orderly = self.client.wf();
        let ghost cs = plan@.changes;
        let ghost start = self.client.store.items();
        let mut applied: Vec<AppliedChange> = Vec::new();
        let mut failed: Vec<FailedChange> = Vec::new();
        let mut i: usize = 0;
        proof {
            lemma_run_start(vault_rule(), start, cs);
            assert(applied_view(applied@) =~= Seq::empty());
            assert(failed_view(failed@) =~= Seq::empty());
        }
        while i < plan.changes.len()
            invariant
                i <= plan.changes@.len(),
                cs == plan@.changes,
                on_course(
                    vault_rule(),
                    start,
                    cs,
                    i as int,
                    self.client.store.items(),
                    applied_view(applied@),
                    failed_view(failed@),
                ),
                orderly ==> self.client.wf(),
            decreases plan.changes.len() - i,
        {
            let c = &plan.changes[i];
            proof {
                assert(cs[i as int] == c@);
                lemma_run_step(
                    vault_rule(),
                    start,
                    cs,
                    i as int,
                    self.client.store.items(),
                    applied_view(applied@),
                    failed_view(failed@),
                );
            }
            match next_call(c) {
                None => {},
                Some(step) => {
                    let res = self.client.store.carry_out(step);
                    record(c, res, &mut applied, &mut failed);
                },
            }
            i += 1;
        }
        proof {
            lemma_run_end(
                vault_rule(),
                start,
                cs,
                self.client.store.items(),
                applied_view(applied@),
                failed_view(failed@),
            );
        }
        Ok(build_outcome(plan, applied, failed, started_at))
    }
}

/// Applying converges: the plan for a configuration, carried out, fails
/// nowhere and leaves policies for which the next plan is empty.
pub proof fn law_vault_converges(items: Items<PolicyV>, config: Named)
    requires
        sorted(items),
        sorted(config),
        normal_members::<PolicyBody>(config) is Ok,
    ensures
        ({
            let cs = map_changes::<PolicyBody>(
                vault_prefix(),
                None,
                JsonV::Object(config),
                JsonV::Object(listed::<PolicyBody>(items)),
            );
            let (left, applied, failed) = run(vault_rule(), items, cs->Ok_0);
            cs is Ok && failed.len() == 0 && map_changes::<PolicyBody>(
                vault_prefix(),
                None,
                JsonV::Object(config),
                JsonV::Object(listed::<PolicyBody>(left)),
            ) == Ok::<Seq<ChangeV>, ReconcilerErrorV>(Seq::empty())
        }),
{
    let rule = vault_rule();
    assert forall|i: Items<PolicyV>, c: ChangeV|
        #![trigger rule(i, c)]
        sorted(i) && clean::<PolicyBody>(c) implies sorted(rule(i, c).0) && values_of::<PolicyBody>(rule(i, c).0) == carried_out(
        vault_prefix(),
        values_of::<PolicyBody>(i),
        c,
    ) && !(rule(i, c).1 matches Some(Err(_))) by {
        lemma_write_rule_clean::<PolicyBody>(
            vault_prefix(),
            "create/update without `after`"@,
            i,
            c,
        );
    }
    lemma_listing_converges::<PolicyBody>(vault_prefix(), None, rule, items, config);
}

/// No change to a policy is a small matter, and removing one is critical.
pub proof fn law_policy_changes_matter(config: JsonV, state: JsonV)
    ensures
        map_changes::<PolicyBody>(vault_prefix(), None, config, state) matches Ok(cs) ==> forall|i: int|
            0 <= i < cs.len() ==> {
                &&& (#[trigger] cs[i]).severity != ChangeSeverity::Cosmetic
                &&& cs[i].action == Action::Delete ==> cs[i].severity == ChangeSeverity::Critical
            },
{
    if let (Ok(want), Ok(have)) = (normal_map::<PolicyBody>(config), normal_map::<PolicyBody>(state)) {
        law_differences_are_effective(vault_prefix(), None, have, want);
    }
}

/// A policy is read by the names of its members.
pub proof fn law_policies_by_name(m: Named)
    ensures
        policy_of(JsonV::Object(m)) matches Ok(p) ==> {
            &&& lookup(m, "version"@) == Some(JsonV::String(p.version))
            &&& lookup(m, "rules"@) == Some(p.rules)
        },
{
    let v = JsonV::Object(m);
    let fields = policy_fields();
    reveal_strlit("version");
    reveal_strlit("rules");
    assert(fields[0].name@ == "version"@);
    assert(fields[1].name@ == "rules"@);
    decode::law_first_field_of_a_name(fields, 0, "version"@);
    decode::law_first_field_of_a_name(fields, 1, "rules"@);
    if record_fault("PolicyBody"@, policy_fields(), v) is None {
        decode::lemma_part_shape("PolicyBody"@, policy_fields(), v, 0);
        decode::lemma_part_shape("PolicyBody"@, policy_fields(), v, 1);
    }
}

/// A policy is what has a version that is a text, and rules.
pub proof fn law_what_is_a_policy(m: Seq<(Seq<char>, JsonV)>)
    requires
        sorted(m),
    ensures
        policy_of(JsonV::Object(m)) is Ok <==> {
            &&& lookup(m, "version"@) is Some && lookup(m, "version"@)->Some_0 is String
            &&& lookup(m, "rules"@) is Some
        },
{
    let fields = policy_fields();
    reveal_strlit("version");
    reveal_strlit("rules");
    assert(fields[0].name@ == "version"@);
    assert(fields[1].name@ == "rules"@);
    decode::law_records_from_ordered_objects("PolicyBody"@, fields, m);
    assert(fields.len() == 2);
    let ok = record_fault("PolicyBody"@, fields, JsonV::Object(m)) is None;
    assert(ok ==> (match lookup(m, fields[0].name@) {
        Some(v) => decode::fault(v, fields[0].shape) is None,
        None => !fields[0].in_object,
    }) && (match lookup(m, fields[1].name@) {
        Some(v) => decode::fault(v, fields[1].shape) is None,
        None => !fields[1].in_object,
    }));
}

} // verus!
