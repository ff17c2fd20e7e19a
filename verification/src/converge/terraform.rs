//! Plans of resources as plans of changes, and back.
use vstd::prelude::*;
use crate::config;
use crate::config::shape::config_fault;
use crate::config::Config;
use crate::converge::{
    applied_view, change, changes_view, copied, failed_view, held, outcome_at, usual_change, Action,
    AppliedChange, Change, ChangeV, FailedChange, Outcome, Plan, ReconcilerError, ReconcilerErrorV,
    ResultV,
};
use crate::json::{Json, JsonV};
use crate::text;
use crate::text::cut;
use crate::types::{root_address, AddressV, ResourceAction, ResourceAddress, ResourceChange, ResourceKind};

verus! {

/// The kind of resource that plans of resources are for.
pub fn kind() -> (r: &'static str)
    ensures
        r@ == "terraform"@,
{
    "terraform"
}

/// The action that stands for one on a resource: reading is doing nothing,
/// forgetting is deleting, and both ways of replacing are replacing.
pub open spec fn universal(a: ResourceAction) -> Action {
    match a {
        ResourceAction::Create => Action::Create,
        ResourceAction::Update => Action::Update,
        ResourceAction::Delete => Action::Delete,
        ResourceAction::Replace => Action::Replace,
        ResourceAction::NoOp => Action::NoOp,
        ResourceAction::Read => Action::NoOp,
        ResourceAction::Forget => Action::Delete,
        ResourceAction::CreateThenDelete => Action::Replace,
        ResourceAction::DeleteThenCreate => Action::Replace,
    }
}

/// The action that stands for one on a resource; see [`universal`].
pub fn magma_action_to_universal(a: ResourceAction) -> (r: Action)
    ensures
        r == universal(a),
{
    match a {
        ResourceAction::Create => Action::Create,
        ResourceAction::Update => Action::Update,
        ResourceAction::Delete => Action::Delete,
        ResourceAction::Replace => Action::Replace,
        ResourceAction::NoOp => Action::NoOp,
        ResourceAction::Read => Action::NoOp,
        ResourceAction::Forget => Action::Delete,
        ResourceAction::CreateThenDelete => Action::Replace,
        ResourceAction::DeleteThenCreate => Action::Replace,
    }
}

/// The action on a resource that an action comes to; none for doing nothing.
pub open spec fn resource_action(a: Action) -> Option<ResourceAction> {
    match a {
        Action::Create => Some(ResourceAction::Create),
        Action::Update => Some(ResourceAction::Update),
        Action::Delete => Some(ResourceAction::Delete),
        Action::Replace => Some(ResourceAction::Replace),
        Action::NoOp => None,
    }
}

/// Going from an action to one on a resource and back loses nothing.
pub proof fn law_actions_come_back(a: Action)
    ensures
        resource_action(a) matches Some(b) ==> universal(b) == a,
        resource_action(a) is None <==> a == Action::NoOp,
{
}

/// What a [`ResourceChange`] holds.
#[verifier::ext_equal]
pub struct ResourceChangeV {
    pub address: AddressV,
    pub action: ResourceAction,
    pub before: Option<JsonV>,
    pub after: Option<JsonV>,
}

impl View for ResourceChange {
    type V = ResourceChangeV;

    open spec fn view(&self) -> ResourceChangeV {
        ResourceChangeV {
            address: self.address@,
            action: self.action,
            before: held(self.before),
            after: held(self.after),
        }
    }
}

pub open spec fn resource_changes_view(cs: Seq<ResourceChange>) -> Seq<ResourceChangeV> {
    Seq::new(cs.len(), |i: int| cs[i]@)
}

/// `<type>.<name>`.
pub open spec fn short_address(a: AddressV) -> Seq<char> {
    a.type_id + "."@ + a.name
}

fn short_address_text(a: &ResourceAddress) -> (r: String)
    ensures
        r@ == short_address(a@),
{
    text::join3(a.type_id.0.as_str(), ".", a.name.as_str())
}

/// A change to a resource, as a change.
pub open spec fn universal_change(c: ResourceChangeV) -> ChangeV {
    usual_change(short_address(c.address), universal(c.action), c.before, c.after)
}

/// Changes to resources, as changes.
pub fn universal_changes(cs: &Vec<ResourceChange>) -> (r: Vec<Change>)
    ensures
        changes_view(r@) == resource_changes_view(cs@).map_values(
            |c: ResourceChangeV| universal_change(c),
        ),
{
    let mut out: Vec<Change> = Vec::new();
    let mut i: usize = 0;
    while i < cs.len()
        invariant
            i <= cs@.len(),
            out@.len() == i,
            forall|j: int| 0 <= j < i ==> (#[trigger] out@[j])@ == universal_change(cs@[j]@),
        decreases cs.len() - i,
    {
        let c = &cs[i];
        let address = short_address_text(&c.address);
        out.push(
            change(
                address.as_str(),
                magma_action_to_universal(c.action),
                copied(&c.before),
                copied(&c.after),
            ),
        );
        i += 1;
    }
    proof {
        assert(changes_view(out@) =~= resource_changes_view(cs@).map_values(
            |c: ResourceChangeV| universal_change(c),
        ));
    }
    out
}

/// The plan that stands for a plan of resources.
pub fn universal_plan(cs: &Vec<ResourceChange>) -> (r: Plan)
    ensures
        r@ == crate::converge::plan_of(
            "terraform"@,
            resource_changes_view(cs@).map_values(|c: ResourceChangeV| universal_change(c)),
            r.created_at,
        ),
{
    Plan::new(kind(), universal_changes(cs))
}

/// Read the configuration that a plan is made for.
pub fn read_config(config: Json) -> (r: Result<Config, ReconcilerError>)
    ensures
        match r {
            Ok(c) => config_fault(config@) is None && c@ == config::config_of(config@),
            Err(e) => config_fault(config@) matches Some(wrong) && e@
                == ReconcilerErrorV::ComputePlan(
                "magma_config: "@ + config::error_text(config::ConfigErrorV::Serde(wrong)),
            ),
        },
{
    match Config::from_json(config) {
        Ok(c) => Ok(c),
        Err(e) => Err(
            ReconcilerError::ComputePlan(text::join2("magma_config: ", e.message().as_str())),
        ),
    }
}

/// The change to a resource that a change comes to: none where it does
/// nothing or where its address is not `<type>.<name>`.
pub open spec fn resource_change(c: ChangeV) -> Option<ResourceChangeV> {
    match (resource_action(c.action), cut(c.address, '.')) {
        (Some(action), Some((type_id, name))) => Some(
            ResourceChangeV {
                address: root_address(ResourceKind::Managed, type_id, name),
                action,
                before: c.before,
                after: c.after,
            },
        ),
        _ => None,
    }
}

/// The changes to resources that changes come to, in their order.
pub open spec fn resource_changes(cs: Seq<ChangeV>) -> Seq<ResourceChangeV>
    decreases cs.len(),
{
    if cs.len() == 0 {
        Seq::empty()
    } else {
        match resource_change(cs.last()) {
            Some(c) => resource_changes(cs.drop_last()).push(c),
            None => resource_changes(cs.drop_last()),
        }
    }
}

/// The changes to resources that a plan comes to; see [`resource_changes`].
pub fn rebuild_changes(plan: &Plan) -> (r: Vec<ResourceChange>)
    ensures
        resource_changes_view(r@) == resource_changes(plan@.changes),
{
    let ghost all = plan@.changes;
    let mut out: Vec<ResourceChange> = Vec::new();
    let mut i: usize = 0;
    proof {
        assert(all.take(0) =~= Seq::empty());
        assert(resource_changes_view(out@) =~= Seq::empty());
    }
    while i < plan.changes.len()
        invariant
            i <= plan.changes@.len(),
            all == plan@.changes,
            resource_changes_view(out@) == resource_changes(all.take(i as int)),
        decreases plan.changes.len() - i,
    {
        let c = &plan.changes[i];
        proof {
            assert(all.take(i + 1).drop_last() =~= all.take(i as int));
            assert(all.take(i + 1).last() == c@);
        }
        let action = match c.action {
            Action::Create => Some(ResourceAction::Create),
            Action::Update => Some(ResourceAction::Update),
            Action::Delete => Some(ResourceAction::Delete),
            Action::Replace => Some(ResourceAction::Replace),
            Action::NoOp => None,
        };
        match (action, text::split_once(c.address.as_str(), '.')) {
            (Some(action), Some((type_id, name))) => {
                let ghost before = resource_changes_view(out@);
                let rc = ResourceChange {
                    address: ResourceAddress::root(ResourceKind::Managed, type_id, name),
                    action,
                    before: copied(&c.before),
                    after: copied(&c.after),
                };
                out.push(rc);
                proof {
                    assert(resource_changes_view(out@) =~= before.push(rc@));
                }
            },
            _ => {},
        }
        i += 1;
    }
    proof {
        assert(all.take(all.len() as int) =~= all);
    }
    out
}

/// The outcome of a plan, from what became of the resources: those that were
/// dealt with, and those that failed with their reasons.
pub fn reshape_outcome(
    plan: &Plan,
    applied: &Vec<(ResourceAddress, ResourceAction)>,
    failed: &Vec<(ResourceAddress, ResourceAction, String)>,
    started_at: crate::time::Timestamp,
    finished_at: crate::time::Timestamp,
) -> (r: Outcome)
    ensures
        r.reports(
            plan@,
            Seq::new(
                applied@.len(),
                |i: int| ResultV::Applied(short_address(applied@[i].0@), universal(applied@[i].1)),
            ),
            Seq::new(
                failed@.len(),
                |i: int|
                    ResultV::Failed(
                        short_address(failed@[i].0@),
                        universal(failed@[i].1),
                        failed@[i].2@,
                    ),
            ),
            started_at,
        ),
        r.finished_at == finished_at,
{
    let mut a: Vec<AppliedChange> = Vec::new();
    let mut i: usize = 0;
    while i < applied.len()
        invariant
            i <= applied@.len(),
            a@.len() == i,
            forall|j: int|
                0 <= j < i ==> (#[trigger] a@[j])@ == ResultV::Applied(
                    short_address(applied@[j].0@),
                    universal(applied@[j].1),
                ),
        decreases applied.len() - i,
    {
        let e = &applied[i];
        a.push(AppliedChange { address: short_address_text(&e.0), action: magma_action_to_universal(e.1) });
        i += 1;
    }
    let mut f: Vec<FailedChange> = Vec::new();
    let mut k: usize = 0;
    while k < failed.len()
        invariant
            k <= failed@.len(),
            f@.len() == k,
            forall|j: int|
                0 <= j < k ==> (#[trigger] f@[j])@ == ResultV::Failed(
                    short_address(failed@[j].0@),
                    universal(failed@[j].1),
                    failed@[j].2@,
                ),
        decreases failed.len() - k,
    {
        let e = &failed[k];
        f.push(
            FailedChange {
                address: short_address_text(&e.0),
                action: magma_action_to_universal(e.1),
                error: e.2.clone(),
            },
        );
        k += 1;
    }
    let r = outcome_at(plan, a, f, started_at, finished_at);
    proof {
        assert(applied_view(a@) =~= Seq::new(
            applied@.len(),
            |i: int| ResultV::Applied(short_address(applied@[i].0@), universal(applied@[i].1)),
        ));
        assert(failed_view(f@) =~= Seq::new(
            failed@.len(),
            |i: int|
                ResultV::Failed(
                    short_address(failed@[i].0@),
                    universal(failed@[i].1),
                    failed@[i].2@,
                ),
        ));
    }
    r
}

/// A change to a managed resource outside any module whose type has no dot,
/// and which does something, comes back from the change that stands for it
/// with the action that stands for its own.
pub proof fn law_resource_changes_come_back(c: ResourceChangeV)
    requires
        c.address == root_address(ResourceKind::Managed, c.address.type_id, c.address.name),
        !c.address.type_id.contains('.'),
        universal(c.action) != Action::NoOp,
    ensures
        resource_change(universal_change(c)) == Some(
            ResourceChangeV { action: resource_action(universal(c.action))->Some_0, ..c },
        ),
{
    reveal_strlit(".");
    let t = c.address.type_id;
    let s = short_address(c.address);
    assert forall|j: int| 0 <= j < t.len() implies s[j] != '.' by {
        assert(s[j] == t[j]);
        assert(t.contains(t[j]));
    }
    assert(s[t.len() as int] == '.');
    text::lemma_first_at(s, '.', t.len() as int);
    assert(s.take(t.len() as int) =~= t);
    assert(s.skip(t.len() as int + 1) =~= c.address.name);
}

/// Changes are taken over one by one and in order; one that does nothing, or
/// whose address has no dot, is left out.
pub proof fn law_changes_are_taken_over_in_order(a: Seq<ChangeV>, c: ChangeV, b: Seq<ChangeV>)
    ensures
        resource_changes(a + b) == resource_changes(a) + resource_changes(b),
        resource_changes(seq![c]).len() <= 1,
        resource_changes(seq![c]).len() == 0 <==> c.action == Action::NoOp || !c.address.contains(
            '.',
        ),
        resource_changes(seq![c]).len() == 1 ==> {
            let r = resource_changes(seq![c])[0];
            &&& r.before == c.before
            &&& r.after == c.after
            &&& r.address.kind == ResourceKind::Managed
            &&& r.address.type_id + seq!['.'] + r.address.name == c.address
            &&& !r.address.type_id.contains('.')
        },
    decreases b.len(),
{
    if b.len() == 0 {
        assert(a + b =~= a);
        assert(resource_changes(a) + resource_changes(b) =~= resource_changes(a));
    } else {
        law_changes_are_taken_over_in_order(a, c, b.drop_last());
        assert((a + b).drop_last() =~= a + b.drop_last());
        assert(resource_changes(a + b) =~= resource_changes(a) + resource_changes(b));
    }
    assert(seq![c].drop_last() =~= Seq::<ChangeV>::empty());
    assert(resource_changes(seq![c].drop_last()) =~= Seq::<ResourceChangeV>::empty());
    text::lemma_first_at_is(c.address, '.');
    let i = text::first_at(c.address, '.');
    if i < c.address.len() {
        assert(c.address.contains('.'));
        assert(c.address.take(i) + seq!['.'] + c.address.skip(i + 1) =~= c.address);
        assert(!c.address.take(i).contains('.')) by {
            if c.address.take(i).contains('.') {
                let j = choose|j: int| 0 <= j < i && c.address.take(i)[j] == '.';
                assert(c.address[j] == '.');
            }
        }
    }
}

/// Reading and doing nothing are no change, forgetting is a deletion, and
/// whatever creates and deletes is a replacement.
pub proof fn law_actions_by_effect(a: ResourceAction)
    ensures
        universal(a) == Action::NoOp <==> a == ResourceAction::NoOp || a == ResourceAction::Read,
        universal(a) == Action::Delete <==> a == ResourceAction::Delete || a
            == ResourceAction::Forget,
        universal(a) == Action::Replace <==> a == ResourceAction::Replace || a
            == ResourceAction::CreateThenDelete || a == ResourceAction::DeleteThenCreate,
        universal(a) == Action::Create <==> a == ResourceAction::Create,
        universal(a) == Action::Update <==> a == ResourceAction::Update,
{
}

/// A change of a resource is told under its type and name, with what was
/// there and what is wanted.
pub proof fn law_resource_changes_are_told(c: ResourceChangeV)
    ensures
        universal_change(c).address == c.address.type_id + "."@ + c.address.name,
        universal_change(c).before == c.before,
        universal_change(c).after == c.after,
        universal_change(c).action == universal(c.action),
{
}

} // verus!
