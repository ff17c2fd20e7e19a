//! The settings of GitHub repositories.
use vstd::prelude::*;
use crate::converge::decode;
use crate::converge::decode::{
    find_record_fault, opt_text_view, part, part_of, record_fault, Field, Shape,
};
use crate::converge::diff::{carried_out, Named};
use crate::converge::store::{
    all_tidy, called, clean, lemma_calls_keep, lemma_listing_converges, lemma_run_end, lemma_run_start,
    lemma_run_step, lemma_write_rule_clean, listed, map_changes, next_step, normal_members, on_course,
    plan_changes, record, result_view, run, step_view, stepped, values_of, write_step, Call, Items,
    Shaped, Step, StepV, Store, Verdict,
};
use crate::converge::{
    applied_view, build_outcome, failed_view, planned, AppliedChange, Change, ChangeV, FailedChange,
    Outcome, Plan, Reconciler, ReconcilerError, ReconcilerErrorV, ResultV,
};
use crate::json::{Json, JsonV};
use crate::ordmap;
use crate::ordmap::{collect, keys_of, lookup, sorted, StrMap};
use crate::text;
use crate::text::texts;
use crate::time;

verus! {

/// The settings of a repository.
#[derive(Debug, PartialEq, Eq)]
pub struct RepoSettings {
    pub description: Option<String>,
    pub private: bool,
    pub default_branch: String,
    /// In order and without repetition in the normal form.
    pub topics: Vec<String>,
}

/// What [`RepoSettings`] hold.
#[verifier::ext_equal]
pub struct RepoV {
    pub description: Option<Seq<char>>,
    pub private: bool,
    pub default_branch: Seq<char>,
    pub topics: Seq<Seq<char>>,
}

impl View for RepoSettings {
    type V = RepoV;

    open spec fn view(&self) -> RepoV {
        RepoV {
            description: opt_text_view(self.description),
            private: self.private,
            default_branch: self.default_branch@,
            topics: texts(self.topics@),
        }
    }
}

impl Default for RepoSettings {
    fn default() -> (r: Self)
        ensures
            r@ == (RepoV {
                description: None,
                private: false,
                default_branch: Seq::empty(),
                topics: Seq::empty(),
            }),
    {
        let r = RepoSettings {
            description: None,
            private: false,
            default_branch: String::new(),
            topics: Vec::new(),
        };
        proof {
            assert(texts(r.topics@) =~= Seq::empty());
        }
        r
    }
}

impl Clone for RepoSettings {
    fn clone(&self) -> (r: Self)
        ensures
            r@ == self@,
    {
        self.copy()
    }
}

/// Topics as entries of a map.
pub open spec fn topic_entries(ts: Seq<Seq<char>>) -> Seq<(Seq<char>, ())> {
    ts.map_values(|t: Seq<char>| (t, ()))
}

/// Topics in order, each once.
pub open spec fn ordered_topics(ts: Seq<Seq<char>>) -> Seq<Seq<char>> {
    keys_of(collect(topic_entries(ts)))
}

/// Put topics in order and drop repetitions.
fn order_topics(ts: &Vec<String>) -> (r: Vec<String>)
    ensures
        texts(r@) == ordered_topics(texts(ts@)),
{
    let ghost all = topic_entries(texts(ts@));
    let mut m: StrMap<()> = StrMap::new();
    let mut i: usize = 0;
    proof {
        assert(all.take(0) =~= Seq::empty());
    }
    while i < ts.len()
        invariant
            i <= ts@.len(),
            all == topic_entries(texts(ts@)),
            m@ == collect(all.take(i as int)),
        decreases ts.len() - i,
    {
        proof {
            assert(all.take(i + 1).drop_last() =~= all.take(i as int));
            assert(all.take(i + 1).last() == (ts@[i as int]@, ()));
        }
        m.insert(ts[i].clone(), ());
        i += 1;
    }
    proof {
        assert(all.take(all.len() as int) =~= all);
    }
    let mut out: Vec<String> = Vec::new();
    let mut j: usize = 0;
    while j < m.entries.len()
        invariant
            j <= m.entries@.len(),
            out@.len() == j,
            forall|k: int| 0 <= k < j ==> (#[trigger] out@[k])@ == m.entries@[k].0@,
        decreases m.entries.len() - j,
    {
        out.push(m.entries[j].0.clone());
        j += 1;
    }
    proof {
        assert(texts(out@) =~= keys_of(m@));
    }
    out
}

/// The members of repository settings.
pub open spec fn repo_fields() -> Seq<Field> {
    seq![
        Field { name: "description", shape: Shape::OptionalText, in_object: false, in_array: true },
        Field { name: "private", shape: Shape::Flag, in_object: true, in_array: true },
        Field { name: "default_branch", shape: Shape::Text, in_object: true, in_array: true },
        Field { name: "topics", shape: Shape::Texts, in_object: true, in_array: true },
    ]
}

fn repo_field_list() -> (r: Vec<Field>)
    ensures
        r@ == repo_fields(),
{
    let r = vec![
        Field { name: "description", shape: Shape::OptionalText, in_object: false, in_array: true },
        Field { name: "private", shape: Shape::Flag, in_object: true, in_array: true },
        Field { name: "default_branch", shape: Shape::Text, in_object: true, in_array: true },
        Field { name: "topics", shape: Shape::Texts, in_object: true, in_array: true },
    ];
    proof {
        assert(r@ =~= repo_fields());
    }
    r
}

/// The settings that JSON holds, or why it holds none.
pub open spec fn repo_of(v: JsonV) -> Result<RepoV, Seq<char>> {
    match record_fault("RepoSettings"@, repo_fields(), v) {
        Some(e) => Err(e),
        None => Ok(
            RepoV {
                description: decode::optional_text_value(part(repo_fields(), v, 0)),
                private: decode::flag_value(part(repo_fields(), v, 1)),
                default_branch: decode::text_value(part(repo_fields(), v, 2)),
                topics: decode::texts_value(part(repo_fields(), v, 3)),
            },
        ),
    }
}

/// A text that may be missing, as JSON.
pub open spec fn optional_json(t: Option<Seq<char>>) -> JsonV {
    match t {
        Some(s) => JsonV::String(s),
        None => JsonV::Null,
    }
}

/// Settings as JSON.
pub open spec fn repo_json(m: RepoV) -> JsonV {
    JsonV::Object(
        seq![
            ("default_branch"@, JsonV::String(m.default_branch)),
            ("description"@, optional_json(m.description)),
            ("private"@, JsonV::Bool(m.private)),
            ("topics"@, decode::texts_json(m.topics)),
        ],
    )
}

impl Shaped for RepoSettings {
    type M = RepoV;

    open spec fn model(&self) -> RepoV {
        self@
    }

    open spec fn json_of(m: RepoV) -> JsonV {
        repo_json(m)
    }

    open spec fn read_model(v: JsonV) -> Result<RepoV, Seq<char>> {
        repo_of(v)
    }

    open spec fn tidy(m: RepoV) -> RepoV {
        RepoV { topics: ordered_topics(m.topics), ..m }
    }

    proof fn reads_back(m: RepoV) {
        reveal_strlit("description");
        reveal_strlit("private");
        reveal_strlit("default_branch");
        reveal_strlit("topics");
        let fs = repo_fields();
        let o = repo_json(m)->Object_0;
        decode::lemma_texts_json(m.topics);
        assert("description"@.len() == 11 && "private"@.len() == 7 && "default_branch"@.len() == 14
            && "topics"@.len() == 6);
        assert(fs[0].name@ != fs[1].name@ && fs[0].name@ != fs[2].name@ && fs[0].name@ != fs[3].name@);
        assert(fs[1].name@ != fs[2].name@ && fs[1].name@ != fs[3].name@ && fs[2].name@ != fs[3].name@);
        reveal_with_fuel(decode::shape_of, 5);
        reveal_with_fuel(decode::members_fault, 5);
        reveal_with_fuel(decode::missing, 5);
        reveal_with_fuel(lookup, 5);
        assert(lookup(o, "default_branch"@) == Some(o[0].1));
        assert(lookup(o, "description"@) == Some(o[1].1));
        assert(lookup(o, "private"@) == Some(o[2].1));
        assert(lookup(o, "topics"@) == Some(o[3].1));
        assert(decode::member_fault(fs, o[0]) is None);
        assert(decode::member_fault(fs, o[1]) is None);
        assert(decode::member_fault(fs, o[2]) is None);
        assert(decode::member_fault(fs, o[3]) is None);
        assert(record_fault("RepoSettings"@, fs, repo_json(m)) is None);
    }

    proof fn tidy_is_tidy(m: RepoV) {
        let es = topic_entries(m.topics);
        let c = collect(es);
        ordmap::lemma_collect_sorted(es);
        assert forall|i: int| 0 <= i < c.len() implies topic_entries(keys_of(c))[i] == c[i] by {
            assert(c[i].1 == ());
        }
        assert(topic_entries(keys_of(c)) =~= c);
        ordmap::lemma_collect_of_sorted(c);
    }

    fn from_json(v: &Json) -> (r: Result<Self, String>) {
        let fs = repo_field_list();
        match find_record_fault("RepoSettings", &fs, v) {
            Some(e) => Err(e),
            None => Ok(
                RepoSettings {
                    description: decode::take_optional_text(part_of(&fs, v, 0)),
                    private: decode::take_flag(part_of(&fs, v, 1)),
                    default_branch: decode::take_text(part_of(&fs, v, 2)),
                    topics: decode::take_texts(part_of(&fs, v, 3)),
                },
            ),
        }
    }

    fn to_json(&self) -> (r: Json) {
        let description = match &self.description {
            Some(d) => Json::String(d.clone()),
            None => Json::Null,
        };
        let m = StrMap {
            entries: vec![
                ("default_branch".to_owned(), Json::String(self.default_branch.clone())),
                ("description".to_owned(), description),
                ("private".to_owned(), Json::Bool(self.private)),
                ("topics".to_owned(), decode::texts_to_json(&self.topics)),
            ],
        };
        proof {
            crate::json::lemma_object_view(m);
            assert(crate::json::object_view(m@) =~= repo_json(self@)->Object_0);
        }
        Json::Object(m)
    }

    fn tidied(&self) -> (r: Self) {
        let mut r = self.copy();
        r.topics = order_topics(&self.topics);
        r
    }

    fn copy(&self) -> (r: Self) {
        let mut topics: Vec<String> = Vec::new();
        let mut i: usize = 0;
        while i < self.topics.len()
            invariant
                i <= self.topics@.len(),
                topics@.len() == i,
                forall|j: int| 0 <= j < i ==> (#[trigger] topics@[j])@ == self.topics@[j]@,
            decreases self.topics.len() - i,
        {
            topics.push(self.topics[i].clone());
            i += 1;
        }
        let description = match &self.description {
            Some(d) => Some(d.clone()),
            None => None,
        };
        let r = RepoSettings {
            description,
            private: self.private,
            default_branch: self.default_branch.clone(),
            topics,
        };
        proof {
            assert(texts(r.topics@) =~= texts(self.topics@));
        }
        r
    }
}

// ── A client in memory ─────────────────────────────────────────────

/// What a [`MockGithubClient`] holds.
#[verifier::ext_equal]
pub struct GithubV {
    pub repos: Items<RepoV>,
    /// The failure that the next change meets.
    pub failure: Option<Seq<char>>,
}

/// Repositories in memory.
#[derive(Debug)]
pub struct MockGithubClient {
    store: Store<RepoSettings>,
    next_failure: Option<String>,
}

impl Default for MockGithubClient {
    fn default() -> (r: Self)
        ensures
            r.state() == (GithubV { repos: Seq::empty(), failure: None }),
            r.wf(),
    {
        MockGithubClient::new()
    }
}

impl MockGithubClient {
    /// What the client holds.
    pub closed spec fn state(&self) -> GithubV {
        GithubV { repos: self.store.items(), failure: opt_text_view(self.next_failure) }
    }

    /// The repositories are in the order of their names, each with its topics
    /// in order.
    pub open spec fn wf(&self) -> bool {
        sorted(self.state().repos) && all_tidy::<RepoSettings>(self.state().repos)
    }

    /// No repositories.
    pub fn new() -> (r: Self)
        ensures
            r.state() == (GithubV { repos: Seq::empty(), failure: None }),
            r.wf(),
    {
        MockGithubClient { store: Store::new(), next_failure: None }
    }

    /// These repositories, with their topics in order.
    pub fn with_repos(repos: &StrMap<RepoSettings>) -> (r: Self)
        ensures
            r.state() == (GithubV {
                repos: ordmap::map_vals(repos@, |s: RepoSettings| RepoSettings::tidy(s.model())),
                failure: None,
            }),
            sorted(repos@) ==> r.wf(),
    {
        MockGithubClient { store: Store::of(repos), next_failure: None }
    }

    /// Let the next change fail.
    pub fn fail_next(&mut self, msg: &str)
        ensures
            final(self).state() == (GithubV { failure: Some(msg@), ..old(self).state() }),
    {
        self.next_failure = Some(msg.to_owned());
    }

    fn maybe_fail(&mut self) -> (r: Result<(), String>)
        ensures
            match old(self).state().failure {
                Some(e) => r matches Err(f) && f@ == e,
                None => r is Ok,
            },
            final(self).state() == (GithubV { failure: None, ..old(self).state() }),
    {
        match self.next_failure.take() {
            Some(msg) => Err(msg),
            None => Ok(()),
        }
    }

    /// A copy of the repositories.
    pub fn snapshot(&self) -> (r: StrMap<RepoSettings>)
        ensures
            ordmap::map_vals(r@, |s: RepoSettings| s.model()) == self.state().repos,
    {
        self.store.snapshot()
    }

    /// Make a change, unless it is to fail.
    fn change(&mut self, call: &Call<RepoSettings>) -> (r: Result<(), String>)
        ensures
            result_view(r) == match old(self).state().failure {
                Some(e) => Err(e),
                None => Ok(()),
            },
            final(self).state() == (GithubV {
                repos: if old(self).state().failure is Some {
                    old(self).state().repos
                } else {
                    called::<RepoSettings>(old(self).state().repos, call.asked())
                },
                failure: None,
            }),
            old(self).wf() ==> final(self).wf(),
    {
        match self.maybe_fail() {
            Err(e) => Err(e),
            Ok(_) => {
                self.store.perform(call);
                Ok(())
            },
        }
    }

    /// The repositories, as a client lists them.
    pub fn list_repos(&self) -> (r: Result<StrMap<RepoSettings>, String>)
        ensures
            r matches Ok(m) && ordmap::map_vals(m@, |s: RepoSettings| s.model()) == self.state().repos,
    {
        Ok(self.store.snapshot())
    }

    pub fn create_repo(&mut self, name: &str, settings: &RepoSettings) -> (r: Result<(), String>)
        ensures
            result_view(r) == match old(self).state().failure {
                Some(e) => Err(e),
                None => Ok(()),
            },
            final(self).state() == (GithubV {
                repos: if old(self).state().failure is Some {
                    old(self).state().repos
                } else {
                    ordmap::put(old(self).state().repos, name@, RepoSettings::tidy(settings@))
                },
                failure: None,
            }),
            old(self).wf() ==> final(self).wf(),
    {
        self.change(&Call::Create(name.to_owned(), settings.copy()))
    }

    pub fn update_repo(&mut self, name: &str, settings: &RepoSettings) -> (r: Result<(), String>)
        ensures
            result_view(r) == match old(self).state().failure {
                Some(e) => Err(e),
                None => Ok(()),
            },
            final(self).state() == (GithubV {
                repos: if old(self).state().failure is Some {
                    old(self).state().repos
                } else {
                    ordmap::put(old(self).state().repos, name@, RepoSettings::tidy(settings@))
                },
                failure: None,
            }),
            old(self).wf() ==> final(self).wf(),
    {
        self.change(&Call::Update(name.to_owned(), settings.copy()))
    }

    pub fn delete_repo(&mut self, name: &str) -> (r: Result<(), String>)
        ensures
            result_view(r) == match old(self).state().failure {
                Some(e) => Err(e),
                None => Ok(()),
            },
            final(self).state() == (GithubV {
                repos: if old(self).state().failure is Some {
                    old(self).state().repos
                } else {
                    ordmap::erase(old(self).state().repos, name@)
                },
                failure: None,
            }),
            old(self).wf() ==> final(self).wf(),
    {
        self.change(&Call::Delete(name.to_owned()))
    }
}

// ── The reconciler ─────────────────────────────────────────────────

/// What the address of a repository begins with.
pub open spec fn github_prefix() -> Seq<char> {
    "github_repo."@
}

/// How a change to a repository is carried out.
pub open spec fn github_step(c: ChangeV) -> Option<StepV<RepoV>> {
    write_step::<RepoSettings>(github_prefix(), "create/update without `after`"@, c)
}

/// Decide how a change to a repository is carried out.
pub fn next_call(c: &Change) -> (r: Option<Step<RepoSettings>>)
    ensures
        step_view(r) == github_step(c@),
{
    next_step("github_repo.", "create/update without `after`", c)
}

/// The rule by which the client in memory carries changes out.
pub open spec fn github_rule() -> spec_fn(GithubV, ChangeV) -> (GithubV, Verdict) {
    |s: GithubV, c: ChangeV|
        match github_step(c) {
            None => (s, None),
            Some(step) => match s.failure {
                Some(e) if step.calls.len() > 0 => (
                    GithubV { repos: s.repos, failure: None },
                    Some(Err(e)),
                ),
                _ => {
                    let (repos, verdict) = stepped::<RepoSettings>(s.repos, Some(step));
                    (GithubV { repos, failure: s.failure }, verdict)
                },
            },
        }
}

/// Reconciles repositories.
#[derive(Debug)]
pub struct GithubRepoReconciler<C> {
    client: C,
}

impl<C> GithubRepoReconciler<C> {
    pub closed spec fn held_client(&self) -> C {
        self.client
    }

    pub fn new(client: C) -> (r: Self)
        ensures
            r.held_client() == client,
    {
        GithubRepoReconciler { client }
    }

    pub fn client(&self) -> (r: &C)
        ensures
            *r == self.held_client(),
    {
        &self.client
    }

    pub fn client_mut(&mut self) -> (r: &mut C)
        ensures
            *r == old(self).held_client(),
            final(self).held_client() == *final(r),
    {
        &mut self.client
    }
}

/// The plan that brings repositories from a state to a configuration.
pub fn plan(config: &Json, state: &Json) -> (r: Result<Plan, ReconcilerError>)
    ensures
        planned(r, "github_repo"@, map_changes::<RepoSettings>(github_prefix(), None, config@, state@)),
{
    match plan_changes::<RepoSettings>("github_repo.", None, config, state) {
        Ok(changes) => Ok(Plan::new("github_repo", changes)),
        Err(e) => Err(e),
    }
}

impl Reconciler for GithubRepoReconciler<MockGithubClient> {
    open spec fn label(&self) -> Seq<char> {
        "github_repo"@
    }

    open spec fn observed(&self) -> Result<JsonV, ReconcilerErrorV> {
        Ok(JsonV::Object(listed::<RepoSettings>(self.held_client().state().repos)))
    }

    open spec fn changes(&self, config: JsonV, state: JsonV) -> Result<Seq<ChangeV>, ReconcilerErrorV> {
        map_changes::<RepoSettings>(github_prefix(), None, config, state)
    }

    open spec fn carries(
        &self,
        changes: Seq<ChangeV>,
        left: Self,
        applied: Seq<ResultV>,
        failed: Seq<ResultV>,
    ) -> bool {
        run(github_rule(), self.held_client().state(), changes) == (
            left.held_client().state(),
            applied,
            failed,
        )
    }

    /// Never: a change that cannot be carried out is listed among the failed.
    open spec fn fails(&self, changes: Seq<ChangeV>, left: Self, e: ReconcilerErrorV) -> bool {
        false
    }

    fn kind(&self) -> (r: &'static str) {
        "github_repo"
    }

    fn read_state(&self) -> (r: Result<Json, ReconcilerError>) {
        Ok(self.client.store.listing())
    }

    fn compute_plan(&self, config: &Json, state: &Json) -> (r: Result<Plan, ReconcilerError>) {
        plan(config, state)
    }

    fn apply(&mut self, plan: &Plan) -> (r: Result<Outcome, ReconcilerError>)
        ensures
            r is Ok,
            old(self).held_client().wf() ==> final(self).held_client().wf(),
    {
        let started_at = time::now();
        let ghost orderly = self.client.wf();
        let ghost cs = plan@.changes;
        let ghost start = self.client.state();
        let mut applied: Vec<AppliedChange> = Vec::new();
        let mut failed: Vec<FailedChange> = Vec::new();
        let mut i: usize = 0;
        proof {
            lemma_run_start(github_rule(), start, cs);
            assert(applied_view(applied@) =~= Seq::empty());
            assert(failed_view(failed@) =~= Seq::empty());
        }
        while i < plan.changes.len()
            invariant
                i <= plan.changes@.len(),
                cs == plan@.changes,
                on_course(
                    github_rule(),
                    start,
                    cs,
                    i as int,
                    self.client.state(),
                    applied_view(applied@),
                    failed_view(failed@),
                ),
                orderly ==> self.client.wf(),
            decreases plan.changes.len() - i,
        {
            let c = &plan.changes[i];
            let ghost now = self.client.state();
            proof {
                assert(cs[i as int] == c@);
                lemma_run_step(
                    github_rule(),
                    start,
                    cs,
                    i as int,
                    now,
                    applied_view(applied@),
                    failed_view(failed@),
                );
            }
            match next_call(c) {
                None => {},
                Some(step) => {
                    let res = self.client.carry_out(step);
                    record(c, res, &mut applied, &mut failed);
                },
            }
            i += 1;
        }
        proof {
            lemma_run_end(
                github_rule(),
                start,
                cs,
                self.client.state(),
                applied_view(applied@),
                failed_view(failed@),
            );
        }
        Ok(build_outcome(plan, applied, failed, started_at))
    }
}

impl MockGithubClient {
    /// Carry a step out, unless its first call is to fail.
    fn carry_out(&mut self, step: Step<RepoSettings>) -> (r: Result<(), String>)
        requires
            step.calls@.len() <= 1,
        ensures
            match old(self).state().failure {
                Some(e) if step.calls@.len() > 0 => result_view(r) == Err::<(), Seq<char>>(e)
                    && final(self).state() == (GithubV { failure: None, ..old(self).state() }),
                _ => result_view(r) == stepped::<RepoSettings>(
                    old(self).state().repos,
                    Some(step.asked()),
                ).1->Some_0 && final(self).state() == (GithubV {
                    repos: stepped::<RepoSettings>(old(self).state().repos, Some(step.asked())).0,
                    failure: old(self).state().failure,
                }),
            },
            old(self).wf() ==> final(self).wf(),
    {
        if step.calls.len() > 0 {
            match self.maybe_fail() {
                Err(e) => {
                    return Err(e);
                },
                Ok(_) => {},
            }
        }
        self.store.carry_out(step)
    }
}

/// Without a failure to come, the client carries changes out as a store does.
proof fn lemma_no_failure(repos: Items<RepoV>, cs: Seq<ChangeV>)
    ensures
        ({
            let rule = |i: Items<RepoV>, c: ChangeV| stepped::<RepoSettings>(i, github_step(c));
            let (left, applied, failed) = run(rule, repos, cs);
            run(github_rule(), GithubV { repos, failure: None }, cs) == (
                GithubV { repos: left, failure: None },
                applied,
                failed,
            )
        }),
    decreases cs.len(),
{
    let rule = |i: Items<RepoV>, c: ChangeV| stepped::<RepoSettings>(i, github_step(c));
    if cs.len() > 0 {
        let next = rule(repos, cs[0]).0;
        assert(github_rule()(GithubV { repos, failure: None }, cs[0]) == (
            GithubV { repos: next, failure: None },
            rule(repos, cs[0]).1,
        ));
        lemma_no_failure(next, cs.drop_first());
    }
}

/// Applying converges: the plan for a configuration, carried out by a client
/// that is not made to fail, fails nowhere and leaves repositories for which
/// the next plan is empty.
pub proof fn law_github_converges(repos: Items<RepoV>, config: Named)
    requires
        sorted(repos),
        all_tidy::<RepoSettings>(repos),
        sorted(config),
        normal_members::<RepoSettings>(config) is Ok,
    ensures
        ({
            let cs = map_changes::<RepoSettings>(
                github_prefix(),
                None,
                JsonV::Object(config),
                JsonV::Object(listed::<RepoSettings>(repos)),
            );
            let (left, applied, failed) = run(
                github_rule(),
                GithubV { repos, failure: None },
                cs->Ok_0,
            );
            cs is Ok && failed.len() == 0 && map_changes::<RepoSettings>(
                github_prefix(),
                None,
                JsonV::Object(config),
                JsonV::Object(listed::<RepoSettings>(left.repos)),
            ) == Ok::<Seq<ChangeV>, ReconcilerErrorV>(Seq::empty())
        }),
{
    let rule = |i: Items<RepoV>, c: ChangeV| stepped::<RepoSettings>(i, github_step(c));
    let cs = map_changes::<RepoSettings>(
        github_prefix(),
        None,
        JsonV::Object(config),
        JsonV::Object(listed::<RepoSettings>(repos)),
    );
    assert forall|i: Items<RepoV>, c: ChangeV|
        #![trigger rule(i, c)]
        sorted(i) && clean::<RepoSettings>(c) implies sorted(rule(i, c).0) && values_of::<RepoSettings>(rule(i, c).0) == carried_out(
        github_prefix(),
        values_of::<RepoSettings>(i),
        c,
    ) && !(rule(i, c).1 matches Some(Err(_))) by {
        lemma_write_rule_clean::<RepoSettings>(
            github_prefix(),
            "create/update without `after`"@,
            i,
            c,
        );
    }
    assert forall|i: Items<RepoV>, c: ChangeV|
        #![trigger rule(i, c)]
        all_tidy::<RepoSettings>(i) implies all_tidy::<RepoSettings>(rule(i, c).0) by {
        match github_step(c) {
            Some(step) => lemma_calls_keep::<RepoSettings>(i, step.calls),
            None => {},
        }
    }
    lemma_listing_converges::<RepoSettings>(github_prefix(), None, rule, repos, config);
    lemma_no_failure(repos, cs->Ok_0);
}

/// The order of the topics, and repetitions among them, make no difference.
pub proof fn law_topic_order_does_not_matter(a: RepoV, b: RepoV)
    requires
        a.description == b.description,
        a.private == b.private,
        a.default_branch == b.default_branch,
        forall|t: Seq<char>| a.topics.contains(t) <==> b.topics.contains(t),
    ensures
        RepoSettings::tidy(a) == RepoSettings::tidy(b),
{
    let p = topic_entries(a.topics);
    let q = topic_entries(b.topics);
    ordmap::lemma_collect_sorted(p);
    ordmap::lemma_collect_sorted(q);
    assert forall|k: Seq<char>| #[trigger] lookup(collect(p), k) == lookup(collect(q), k) by {
        lemma_collected(a.topics, k);
        lemma_collected(b.topics, k);
    }
    ordmap::lemma_canonical(collect(p), collect(q));
}

proof fn lemma_collected(ts: Seq<Seq<char>>, k: Seq<char>)
    ensures
        lookup(collect(topic_entries(ts)), k) == if ts.contains(k) {
            Some(())
        } else {
            None
        },
    decreases ts.len(),
{
    let es = topic_entries(ts);
    if ts.len() > 0 {
        let t = ts.drop_last();
        lemma_collected(t, k);
        assert(es.drop_last() =~= topic_entries(t));
        ordmap::lemma_collect_sorted(es.drop_last());
        ordmap::lemma_put_lookup(collect(es.drop_last()), es.last().0, es.last().1, k);
        if t.contains(k) {
            let i = choose|i: int| 0 <= i < t.len() && t[i] == k;
            assert(ts[i] == k);
        }
        if ts.contains(k) && k != ts.last() {
            let i = choose|i: int| 0 <= i < ts.len() && ts[i] == k;
            assert(t[i] == k);
        }
        if k == ts.last() {
            assert(ts[ts.len() - 1] == k);
        }
    } else {
        assert(es =~= Seq::empty());
    }
}

/// A repository is read by the names of its members.
pub proof fn law_repos_by_name(m: Named)
    ensures
        repo_of(JsonV::Object(m)) matches Ok(r) ==> {
            &&& lookup(m, "private"@) == Some(JsonV::Bool(r.private))
            &&& lookup(m, "default_branch"@) == Some(JsonV::String(r.default_branch))
            &&& r.description == match lookup(m, "description"@) {
                Some(JsonV::String(s)) => Some(s),
                _ => None,
            }
            &&& lookup(m, "topics"@) is Some
            &&& lookup(m, "topics"@)->Some_0 is Array
            &&& r.topics.len() == lookup(m, "topics"@)->Some_0->Array_0.len()
            &&& forall|i: int|
                0 <= i < r.topics.len() ==> lookup(m, "topics"@)->Some_0->Array_0[i]
                    == JsonV::String(#[trigger] r.topics[i])
        },
{
    let v = JsonV::Object(m);
    let fields = repo_fields();
    reveal_strlit("description");
    reveal_strlit("private");
    reveal_strlit("default_branch");
    reveal_strlit("topics");
    assert(fields[0].name@ == "description"@);
    assert(fields[1].name@ == "private"@);
    assert(fields[2].name@ == "default_branch"@);
    assert(fields[3].name@ == "topics"@);
    decode::law_first_field_of_a_name(fields, 1, "private"@);
    decode::law_first_field_of_a_name(fields, 2, "default_branch"@);
    decode::law_first_field_of_a_name(fields, 3, "topics"@);
    if record_fault("RepoSettings"@, repo_fields(), v) is None {
        decode::lemma_part_shape("RepoSettings"@, repo_fields(), v, 1);
        decode::lemma_part_shape("RepoSettings"@, repo_fields(), v, 2);
        decode::lemma_part_shape("RepoSettings"@, repo_fields(), v, 3);
        let topics = lookup(m, "topics"@)->Some_0;
        decode::law_shapes(topics);
    }
}

/// Tidy topics are the topics in ascending order, each once.
pub proof fn law_topics_are_ordered(ts: Seq<Seq<char>>, t: Seq<char>)
    ensures
        ordered_topics(ts).contains(t) <==> ts.contains(t),
        forall|i: int, j: int|
            #![trigger ordered_topics(ts)[i], ordered_topics(ts)[j]]
            0 <= i < j < ordered_topics(ts).len() ==> text::lex_lt(
                ordered_topics(ts)[i],
                ordered_topics(ts)[j],
            ),
{
    let ps = topic_entries(ts);
    let s = collect(ps);
    ordmap::lemma_collect_sorted(ps);
    ordmap::law_last_pair_stays(ps, t);
    let ks = ordered_topics(ts);
    assert forall|i: int, j: int| #![trigger ks[i], ks[j]] 0 <= i < j < ks.len() implies text::lex_lt(
        ks[i],
        ks[j],
    ) by {
        assert(s[i].0 == ks[i] && s[j].0 == ks[j]);
    }
    if ks.contains(t) {
        let i = choose|i: int| 0 <= i < ks.len() && ks[i] == t;
        ordmap::lemma_lookup_sorted(s, i);
        assert(lookup(s, t) is Some);
        if !ts.contains(t) {
            assert forall|k: int| 0 <= k < ps.len() implies (#[trigger] ps[k]).0 != t by {
                assert(ps[k].0 == ts[k]);
            }
        }
    }
    if ts.contains(t) {
        let k = choose|k: int| 0 <= k < ts.len() && ts[k] == t;
        assert(ps[k].0 == t);
        lemma_entry_stays(ps, t);
        let i = ordmap::lemma_lookup_index(s, t);
        assert(ks[i] == t);
    }
}

proof fn lemma_entry_stays(ps: Seq<(Seq<char>, ())>, t: Seq<char>)
    requires
        exists|k: int| 0 <= k < ps.len() && (#[trigger] ps[k]).0 == t,
    ensures
        lookup(collect(ps), t) is Some,
    decreases ps.len(),
{
    let front = ps.drop_last();
    ordmap::lemma_collect_sorted(front);
    ordmap::lemma_put_lookup(collect(front), ps.last().0, ps.last().1, t);
    if ps.last().0 != t {
        let k = choose|k: int| 0 <= k < ps.len() && (#[trigger] ps[k]).0 == t;
        assert(front[k].0 == t);
        lemma_entry_stays(front, t);
    }
}

/// A failure that was announced strikes the next call, once, and that call
/// changes nothing.
pub proof fn law_failure_strikes_once(s: GithubV, c: ChangeV, e: Seq<char>)
    requires
        s.failure == Some(e),
        github_step(c) is Some,
        github_step(c)->Some_0.calls.len() > 0,
    ensures
        (github_rule())(s, c).0 == (GithubV { repos: s.repos, failure: None }),
        (github_rule())(s, c).1 == Some(Err::<(), Seq<char>>(e)),
{
}

/// A repository is what says whether it is private, and has a default branch
/// that is a text and topics that are texts; a description may be left out.
pub proof fn law_what_is_a_repo(m: Seq<(Seq<char>, JsonV)>)
    requires
        sorted(m),
    ensures
        repo_of(JsonV::Object(m)) is Ok <==> {
            &&& lookup(m, "private"@) is Some && lookup(m, "private"@)->Some_0 is Bool
            &&& lookup(m, "default_branch"@) is Some && lookup(m, "default_branch"@)->Some_0 is String
            &&& lookup(m, "topics"@) is Some && lookup(m, "topics"@)->Some_0 is Array
            &&& forall|i: int|
                0 <= i < lookup(m, "topics"@)->Some_0->Array_0.len() ==> (#[trigger] lookup(
                    m,
                    "topics"@,
                )->Some_0->Array_0[i]) is String
            &&& lookup(m, "description"@) is None || lookup(m, "description"@)->Some_0 is String || lookup(
                m,
                "description"@,
            )->Some_0 is Null
        },
{
    let fields = repo_fields();
    reveal_strlit("description");
    reveal_strlit("private");
    reveal_strlit("default_branch");
    reveal_strlit("topics");
    assert(fields[0].name@ == "description"@);
    assert(fields[1].name@ == "private"@);
    assert(fields[2].name@ == "default_branch"@);
    assert(fields[3].name@ == "topics"@);
    decode::law_shapes(lookup(m, "topics"@)->Some_0);
    decode::law_records_from_ordered_objects("RepoSettings"@, fields, m);
    assert(fields.len() == 4);
    let ok = record_fault("RepoSettings"@, fields, JsonV::Object(m)) is None;
    assert(ok ==> (match lookup(m, fields[0].name@) {
        Some(v) => decode::fault(v, fields[0].shape) is None,
        None => !fields[0].in_object,
    }) && (match lookup(m, fields[1].name@) {
        Some(v) => decode::fault(v, fields[1].shape) is None,
        None => !fields[1].in_object,
    }) && (match lookup(m, fields[2].name@) {
        Some(v) => decode::fault(v, fields[2].shape) is None,
        None => !fields[2].in_object,
    }) && (match lookup(m, fields[3].name@) {
        Some(v) => decode::fault(v, fields[3].shape) is None,
        None => !fields[3].in_object,
    }));
}

} // verus!
