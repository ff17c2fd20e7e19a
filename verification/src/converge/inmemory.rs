//! A reconciler for a map of values that is kept in memory.
use vstd::prelude::*;
use crate::converge::decode::{clash, clash_text};
use crate::converge::diff::{
    all_carried_out, carried_out, differences, diff, law_apply_converges, law_idle_changes_nothing,
    name_of, Named,
};
use crate::converge::{
    applied_view, build_outcome, failed_view, idle, Action, AppliedChange, ChangeV, FailedChange,
    Outcome, Plan, Reconciler, ReconcilerError, ReconcilerErrorV, ResultV,
};
use crate::json::{clone_object, lemma_object_view, object_view, Json, JsonV};
use crate::ordmap::{
    lemma_erase_sorted, lemma_map_vals_erase, lemma_map_vals_put, lemma_put_sorted, sorted, StrMap,
};
use crate::text;
use crate::time;

verus! {

/// What every address of a value begins with.
pub open spec fn kv_prefix() -> Seq<char> {
    "kv."@
}

/// A map of values in memory.
#[derive(Debug)]
pub struct InMemoryKvReconciler {
    state: StrMap<Json>,
}

/// The changes between two maps; either may turn out to be none.
pub open spec fn kv_changes(config: JsonV, state: JsonV) -> Result<Seq<ChangeV>, ReconcilerErrorV> {
    match (config, state) {
        (JsonV::Object(want), JsonV::Object(have)) => Ok(
            differences(kv_prefix(), None, have, want),
        ),
        (JsonV::Object(_), _) => Err(
            ReconcilerErrorV::ComputePlan("state not a map: "@ + clash(state, "a map"@)),
        ),
        _ => Err(ReconcilerErrorV::ComputePlan("config not a map: "@ + clash(config, "a map"@))),
    }
}

/// The change is carried out: it removes, or it has something to write.
pub open spec fn kv_takes(c: ChangeV) -> bool {
    c.action == Action::Delete || (c.action != Action::NoOp && c.after is Some)
}

/// The results of carrying changes out, in their order.
pub open spec fn kv_results(cs: Seq<ChangeV>) -> Seq<ResultV>
    decreases cs.len(),
{
    if cs.len() == 0 {
        Seq::empty()
    } else {
        let done = kv_results(cs.drop_last());
        if kv_takes(cs.last()) {
            done.push(ResultV::Applied(cs.last().address, cs.last().action))
        } else {
            done
        }
    }
}

impl InMemoryKvReconciler {
    /// The values that are there.
    pub closed spec fn values(&self) -> Named {
        object_view(self.state@)
    }

    /// They are in the order of their names.
    pub open spec fn wf(&self) -> bool {
        sorted(self.values())
    }

    /// No values.
    pub fn new() -> (r: Self)
        ensures
            r.values() == Seq::<(Seq<char>, JsonV)>::empty(),
            r.wf(),
    {
        let r = InMemoryKvReconciler { state: StrMap::new() };
        proof {
            assert(r.values() =~= Seq::<(Seq<char>, JsonV)>::empty());
        }
        r
    }

    /// These values.
    pub fn with_state(state: StrMap<Json>) -> (r: Self)
        ensures
            r.values() == object_view(state@),
            sorted(object_view(state@)) ==> r.wf(),
    {
        InMemoryKvReconciler { state }
    }

    /// A copy of the values that are there.
    pub fn snapshot(&self) -> (r: StrMap<Json>)
        ensures
            object_view(r@) == self.values(),
    {
        clone_object(&self.state)
    }
}

impl Default for InMemoryKvReconciler {
    fn default() -> (r: Self)
        ensures
            r.values() == Seq::<(Seq<char>, JsonV)>::empty(),
            r.wf(),
    {
        InMemoryKvReconciler::new()
    }
}

impl Reconciler for InMemoryKvReconciler {
    open spec fn label(&self) -> Seq<char> {
        "inmemory_kv"@
    }

    open spec fn observed(&self) -> Result<JsonV, ReconcilerErrorV> {
        Ok(JsonV::Object(self.values()))
    }

    open spec fn changes(&self, config: JsonV, state: JsonV) -> Result<Seq<ChangeV>, ReconcilerErrorV> {
        kv_changes(config, state)
    }

    open spec fn carries(
        &self,
        changes: Seq<ChangeV>,
        left: Self,
        applied: Seq<ResultV>,
        failed: Seq<ResultV>,
    ) -> bool {
        &&& left.values() == all_carried_out(kv_prefix(), self.values(), changes)
        &&& applied == kv_results(changes)
        &&& failed.len() == 0
    }

    /// Never: a change that cannot be carried out is listed among the failed.
    open spec fn fails(&self, changes: Seq<ChangeV>, left: Self, e: ReconcilerErrorV) -> bool {
        false
    }

    fn kind(&self) -> (r: &'static str) {
        "inmemory_kv"
    }

    fn read_state(&self) -> (r: Result<Json, ReconcilerError>) {
        let m = self.snapshot();
        proof {
            lemma_object_view(m);
        }
        Ok(Json::Object(m))
    }

    fn compute_plan(&self, config: &Json, state: &Json) -> (r: Result<Plan, ReconcilerError>) {
        match config {
            Json::Object(want) => {
                match state {
                    Json::Object(have) => {
                        proof {
                            lemma_object_view(*want);
                            lemma_object_view(*have);
                        }
                        let changes = diff("kv.", None, have, want);
                        Ok(Plan::new(self.kind(), changes))
                    },
                    _ => Err(
                        ReconcilerError::ComputePlan(
                            text::join2("state not a map: ", clash_text(state, "a map").as_str()),
                        ),
                    ),
                }
            },
            _ => Err(
                ReconcilerError::ComputePlan(
                    text::join2("config not a map: ", clash_text(config, "a map").as_str()),
                ),
            ),
        }
    }

    fn apply(&mut self, plan: &Plan) -> (r: Result<Outcome, ReconcilerError>)
        ensures
            r is Ok,
            old(self).wf() ==> final(self).wf(),
    {
        let started_at = time::now();
        let ghost orderly = self.wf();
        let ghost cs = plan@.changes;
        let ghost start = self.values();
        let mut applied: Vec<AppliedChange> = Vec::new();
        let failed: Vec<FailedChange> = Vec::new();
        let mut i: usize = 0;
        proof {
            assert(cs.skip(0) =~= cs);
            assert(cs.take(0) =~= Seq::empty());
            assert(applied_view(applied@) =~= kv_results(cs.take(0)));
        }
        while i < plan.changes.len()
            invariant
                i <= plan.changes@.len(),
                cs == plan@.changes,
                applied_view(applied@) == kv_results(cs.take(i as int)),
                all_carried_out(kv_prefix(), self.values(), cs.skip(i as int)) == all_carried_out(
                    kv_prefix(),
                    start,
                    cs,
                ),
                orderly ==> self.wf(),
            decreases plan.changes.len() - i,
        {
            let c = &plan.changes[i];
            let ghost before = self.state@;
            let ghost results = applied_view(applied@);
            proof {
                assert(cs[i as int] == c@);
                assert(cs.skip(i as int)[0] == c@);
                assert(cs.skip(i as int).drop_first() =~= cs.skip(i + 1));
                assert(cs.take(i + 1).drop_last() =~= cs.take(i as int));
            }
            let key = name_of("kv.", c.address.as_str());
            let mut taken = false;
            match c.action {
                Action::Create | Action::Update | Action::Replace => match &c.after {
                    Some(after) => {
                        let v: Json = after.clone();
                        proof {
                            lemma_map_vals_put(before, |x: Json| x@, key@, v);
                            if self.wf() {
                                lemma_put_sorted(self.values(), key@, v@);
                            }
                        }
                        self.state.insert(key, v);
                        taken = true;
                    },
                    None => {},
                },
                Action::Delete => {
                    proof {
                        lemma_map_vals_erase(before, |x: Json| x@, key@);
                        if self.wf() {
                            lemma_erase_sorted(self.values(), key@);
                        }
                    }
                    self.state.remove(key.as_str());
                    taken = true;
                },
                Action::NoOp => {},
            }
            if taken {
                let a = AppliedChange { address: c.address.clone(), action: c.action };
                proof {
                    assert(a@ == ResultV::Applied(c@.address, c@.action));
                }
                applied.push(a);
                proof {
                    assert(applied_view(applied@) =~= results.push(a@));
                }
            }
            proof {
                assert(self.values() == carried_out(kv_prefix(), object_view(before), c@));
            }
            i += 1;
        }
        proof {
            assert(cs.take(cs.len() as int) =~= cs);
        }
        let o = build_outcome(plan, applied, failed, started_at);
        proof {
            assert(failed_view(o.failed@).len() == failed_view(failed@).len());
        }
        Ok(o)
    }
}

/// Applying a plan converges: with the values that the plan for a
/// configuration leaves, the next plan for it is empty.
pub proof fn law_kv_converges(have: Named, want: Named)
    requires
        sorted(have),
        sorted(want),
    ensures
        kv_changes(
            JsonV::Object(want),
            JsonV::Object(
                all_carried_out(
                    kv_prefix(),
                    have,
                    kv_changes(JsonV::Object(want), JsonV::Object(have))->Ok_0,
                ),
            ),
        ) == Ok::<Seq<ChangeV>, ReconcilerErrorV>(Seq::empty()),
{
    law_apply_converges(kv_prefix(), None, have, want);
    let left = all_carried_out(kv_prefix(), have, differences(kv_prefix(), None, have, want));
    assert(differences(kv_prefix(), None, left, want) =~= Seq::empty());
}

/// A plan that does nothing leaves the values as they are.
pub proof fn law_kv_noop_keeps_values(values: Named, cs: Seq<ChangeV>)
    requires
        idle(cs),
    ensures
        all_carried_out(kv_prefix(), values, cs) == values,
{
    law_idle_changes_nothing(kv_prefix(), values, cs);
}

/// Every change that writes or deletes is reported, in order, and no other.
pub proof fn law_kv_reports_what_it_does(cs: Seq<ChangeV>)
    ensures
        kv_results(cs) == cs.filter(
            |c: ChangeV|
                c.action == Action::Delete || (c.action != Action::NoOp && c.after is Some),
        ).map_values(|c: ChangeV| ResultV::Applied(c.address, c.action)),
    decreases cs.len(),
{
    let f = |c: ChangeV| c.action == Action::Delete || (c.action != Action::NoOp && c.after is Some);
    let g = |c: ChangeV| ResultV::Applied(c.address, c.action);
    reveal(Seq::filter);
    if cs.len() == 0 {
        assert(cs.filter(f).map_values(g) =~= Seq::<ResultV>::empty());
    } else {
        law_kv_reports_what_it_does(cs.drop_last());
        let rest = cs.drop_last().filter(f);
        assert(rest.push(cs.last()).map_values(g) =~= rest.map_values(g).push(g(cs.last())));
    }
}

/// A plan can be made exactly where what is wanted and what is there are both
/// maps.
pub proof fn law_kv_plans_maps(config: JsonV, state: JsonV)
    ensures
        kv_changes(config, state) is Ok <==> config is Object && state is Object,
        kv_changes(config, state) matches Ok(cs) ==> cs == differences(
            "kv."@,
            None,
            state->Object_0,
            config->Object_0,
        ),
{
}

} // verus!
