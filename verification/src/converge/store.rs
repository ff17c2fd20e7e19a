//! Named resources of one type: reading them out of JSON, comparing two maps
//! of them, and keeping them.
use vstd::prelude::*;
use crate::converge::decode::{clash, clash_text};
use crate::converge::diff::{
    all_carried_out, carried_out, diff, differences, law_apply_converges, name_in, name_of,
    name_view, Named,
};
use crate::converge::{
    applied_view, changes_view, failed_view, Action, AppliedChange, Change, ChangeV, FailedChange,
    ReconcilerError, ReconcilerErrorV, ResultV,
};
use crate::json::{lemma_object_view, object_view, Json, JsonV};
use crate::ordmap::{
    erase, lemma_map_vals_erase, lemma_map_vals_put, map_vals, put, sorted, Linear, StrMap,
};
use crate::text;

verus! {

/// A type of resource that JSON can hold.
pub trait Shaped: Sized {
    /// What a resource holds.
    type M;

    spec fn model(&self) -> Self::M;

    /// A resource as JSON.
    spec fn json_of(m: Self::M) -> JsonV;

    /// The resource that JSON holds, or why it holds none.
    spec fn read_model(v: JsonV) -> Result<Self::M, Seq<char>>;

    /// The normal form of a resource: two that mean the same have one.
    spec fn tidy(m: Self::M) -> Self::M;

    /// What was written is read back.
    proof fn reads_back(m: Self::M)
        ensures
            Self::read_model(Self::json_of(m)) == Ok::<Self::M, Seq<char>>(m),
    ;

    /// A normal form is its own normal form.
    proof fn tidy_is_tidy(m: Self::M)
        ensures
            Self::tidy(Self::tidy(m)) == Self::tidy(m),
    ;

    fn from_json(v: &Json) -> (r: Result<Self, String>)
        ensures
            match r {
                Ok(x) => Self::read_model(v@) == Ok::<Self::M, Seq<char>>(x.model()),
                Err(e) => Self::read_model(v@) == Err::<Self::M, Seq<char>>(e@),
            },
    ;

    fn to_json(&self) -> (r: Json)
        ensures
            r@ == Self::json_of(self.model()),
    ;

    /// The normal form.
    fn tidied(&self) -> (r: Self)
        ensures
            r.model() == Self::tidy(self.model()),
    ;

    fn copy(&self) -> (r: Self)
        ensures
            r.model() == self.model(),
    ;
}

/// JSON in normal form, or why it holds no resource.
pub open spec fn normal<T: Shaped>(v: JsonV) -> Result<JsonV, Seq<char>> {
    match T::read_model(v) {
        Ok(m) => Ok(T::json_of(T::tidy(m))),
        Err(e) => Err(e),
    }
}

/// Members in normal form, or the first fault among them.
pub open spec fn normal_members<T: Shaped>(m: Named) -> Result<Named, Seq<char>>
    decreases m.len(),
{
    if m.len() == 0 {
        Ok(Seq::empty())
    } else {
        match normal_members::<T>(m.drop_last()) {
            Err(e) => Err(e),
            Ok(done) => match normal::<T>(m.last().1) {
                Err(e) => Err(e),
                Ok(v) => Ok(done.push((m.last().0, v))),
            },
        }
    }
}

/// A map of resources in normal form, or why it is none.
pub open spec fn normal_map<T: Shaped>(v: JsonV) -> Result<Named, Seq<char>> {
    match v {
        JsonV::Object(m) => normal_members::<T>(m),
        _ => Err(clash(v, "a map"@)),
    }
}

/// The changes between two maps of resources.
pub open spec fn map_changes<T: Shaped>(
    prefix: Seq<char>,
    pivot: Option<Seq<char>>,
    config: JsonV,
    state: JsonV,
) -> Result<Seq<ChangeV>, ReconcilerErrorV> {
    match normal_map::<T>(config) {
        Err(e) => Err(ReconcilerErrorV::ComputePlan("config: "@ + e)),
        Ok(want) => match normal_map::<T>(state) {
            Err(e) => Err(ReconcilerErrorV::ComputePlan("state: "@ + e)),
            Ok(have) => Ok(differences(prefix, pivot, have, want)),
        },
    }
}

/// A fault among the first members is the fault of them all.
proof fn lemma_normal_members_error<T: Shaped>(m: Named, n: int)
    requires
        0 <= n <= m.len(),
        normal_members::<T>(m.take(n)) is Err,
    ensures
        normal_members::<T>(m) == normal_members::<T>(m.take(n)),
    decreases m.len() - n,
{
    if n == m.len() {
        assert(m.take(n) =~= m);
    } else {
        assert(m.take(n + 1).drop_last() =~= m.take(n));
        lemma_normal_members_error::<T>(m, n + 1);
    }
}

/// Read a map of resources and write them in normal form.
pub fn read_map<T: Shaped>(v: &Json) -> (r: Result<StrMap<Json>, String>)
    ensures
        match r {
            Ok(m) => normal_map::<T>(v@) == Ok::<Named, Seq<char>>(object_view(m@)),
            Err(e) => normal_map::<T>(v@) == Err::<Named, Seq<char>>(e@),
        },
{
    match v {
        Json::Object(m) => {
            let ghost all = object_view(m@);
            let mut out: Vec<(String, Json)> = Vec::new();
            let mut i: usize = 0;
            proof {
                lemma_object_view(*m);
                assert(all.take(0) =~= Seq::empty());
                assert(pairs_view(out@) =~= Seq::empty());
            }
            while i < m.entries.len()
                invariant
                    i <= m.entries@.len(),
                    all == object_view(m@),
                    normal_members::<T>(all.take(i as int)) == Ok::<Named, Seq<char>>(pairs_view(out@)),
                    v@ == JsonV::Object(all),
                decreases m.entries.len() - i,
            {
                let e = &m.entries[i];
                proof {
                    assert(all.take(i + 1).drop_last() =~= all.take(i as int));
                    assert(all.take(i + 1).last() == (e.0@, e.1@));
                }
                match T::from_json(&e.1) {
                    Ok(x) => {
                        let ghost before = pairs_view(out@);
                        let j = x.tidied().to_json();
                        out.push((e.0.clone(), j));
                        proof {
                            assert(pairs_view(out@) =~= before.push((e.0@, j@)));
                        }
                    },
                    Err(f) => {
                        proof {
                            lemma_normal_members_error::<T>(all, i + 1);
                        }
                        return Err(f);
                    },
                }
                i += 1;
            }
            let r = StrMap { entries: out };
            proof {
                assert(all.take(all.len() as int) =~= all);
                assert(object_view(r@) =~= pairs_view(out@));
            }
            Ok(r)
        },
        _ => Err(clash_text(v, "a map")),
    }
}

/// Entries by what they hold.
pub open spec fn pairs_view(v: Seq<(String, Json)>) -> Named {
    Seq::new(v.len(), |i: int| (v[i].0@, v[i].1@))
}

/// The changes between two maps of resources; see [`map_changes`].
pub fn plan_changes<T: Shaped>(
    prefix: &str,
    pivot: Option<&str>,
    config: &Json,
    state: &Json,
) -> (r: Result<Vec<Change>, ReconcilerError>)
    ensures
        match r {
            Ok(cs) => map_changes::<T>(prefix@, name_view(pivot), config@, state@) == Ok::<
                Seq<ChangeV>,
                ReconcilerErrorV,
            >(changes_view(cs@)),
            Err(e) => map_changes::<T>(prefix@, name_view(pivot), config@, state@) == Err::<
                Seq<ChangeV>,
                ReconcilerErrorV,
            >(e@),
        },
{
    match read_map::<T>(config) {
        Err(e) => Err(ReconcilerError::ComputePlan(text::join2("config: ", e.as_str()))),
        Ok(want) => match read_map::<T>(state) {
            Err(e) => Err(ReconcilerError::ComputePlan(text::join2("state: ", e.as_str()))),
            Ok(have) => Ok(diff(prefix, pivot, &have, &want)),
        },
    }
}

// ── Keeping resources ──────────────────────────────────────────────

/// Named resources, by what they hold.
pub type Items<M> = Seq<(Seq<char>, M)>;

/// Resources as JSON.
pub open spec fn values_of<T: Shaped>(items: Items<T::M>) -> Named {
    map_vals(items, |m: T::M| T::json_of(m))
}

/// Every resource is in normal form.
pub open spec fn all_tidy<T: Shaped>(items: Items<T::M>) -> bool {
    forall|i: int| #![trigger items[i]] 0 <= i < items.len() ==> T::tidy(items[i].1) == items[i].1
}

/// Resources kept under their names.
#[derive(Debug)]
pub struct Store<T> {
    pub entries: StrMap<T>,
}

impl<T: Shaped> Store<T> {
    /// What is kept.
    pub open spec fn items(&self) -> Items<T::M> {
        map_vals(self.entries@, |t: T| t.model())
    }

    /// The resources are in the order of their names, each in normal form.
    pub open spec fn wf(&self) -> bool {
        sorted(self.items()) && all_tidy::<T>(self.items())
    }

    /// Nothing kept.
    pub fn new() -> (r: Self)
        ensures
            r.items() == Seq::<(Seq<char>, T::M)>::empty(),
            r.wf(),
    {
        let r = Store { entries: StrMap::<T>::new() };
        proof {
            assert(r.items() =~= Seq::<(Seq<char>, T::M)>::empty());
        }
        r
    }

    /// These resources, in normal form.
    pub fn of(given: &StrMap<T>) -> (r: Self)
        ensures
            r.items() == map_vals(given@, |t: T| T::tidy(t.model())),
            sorted(given@) ==> r.wf(),
    {
        let mut out: Vec<(String, T)> = Vec::new();
        let mut i: usize = 0;
        while i < given.entries.len()
            invariant
                i <= given.entries@.len(),
                out@.len() == i,
                forall|j: int|
                    0 <= j < i ==> (#[trigger] out@[j]).0@ == given.entries@[j].0@
                        && out@[j].1.model() == T::tidy(given.entries@[j].1.model()),
            decreases given.entries.len() - i,
        {
            let e = &given.entries[i];
            out.push((e.0.clone(), e.1.tidied()));
            i += 1;
        }
        let r = Store { entries: StrMap { entries: out } };
        proof {
            assert(r.items() =~= map_vals(given@, |t: T| T::tidy(t.model())));
        }
        proof {
            assert forall|j: int| #![trigger r.items()[j]] 0 <= j < r.items().len() implies T::tidy(
                r.items()[j].1,
            ) == r.items()[j].1 by {
                T::tidy_is_tidy(given@[j].1.model());
            }
            if sorted(given@) {
                assert forall|a: int, b: int|
                    #![trigger r.items()[a], r.items()[b]]
                    0 <= a < b < r.items().len() implies r.items()[a].0.precedes(r.items()[b].0) by {
                    assert(given@[a].0.precedes(given@[b].0));
                }
            }
        }
        r
    }

    /// Keep a resource under a name, in normal form.
    pub fn write(&mut self, name: &str, item: &T)
        ensures
            final(self).items() == put(old(self).items(), name@, T::tidy(item.model())),
            old(self).wf() ==> final(self).wf(),
    {
        let x = item.tidied();
        proof {
            lemma_call_keeps::<T>(self.items(), CallV::Create(name@, item.model()));
            lemma_map_vals_put(self.entries@, |t: T| t.model(), name@, x);
        }
        self.entries.insert(name.to_owned(), x);
    }

    /// Keep nothing under a name.
    pub fn erase(&mut self, name: &str)
        ensures
            final(self).items() == erase(old(self).items(), name@),
            old(self).wf() ==> final(self).wf(),
    {
        proof {
            lemma_call_keeps::<T>(self.items(), CallV::Delete(name@));
            lemma_map_vals_erase(self.entries@, |t: T| t.model(), name@);
        }
        let _ = self.entries.remove(name);
    }

    /// A copy of what is kept.
    pub fn snapshot(&self) -> (r: StrMap<T>)
        ensures
            map_vals(r@, |t: T| t.model()) == self.items(),
    {
        let mut out: Vec<(String, T)> = Vec::new();
        let mut i: usize = 0;
        while i < self.entries.entries.len()
            invariant
                i <= self.entries.entries@.len(),
                out@.len() == i,
                forall|j: int|
                    0 <= j < i ==> (#[trigger] out@[j]).0@ == self.entries.entries@[j].0@
                        && out@[j].1.model() == self.entries.entries@[j].1.model(),
            decreases self.entries.entries.len() - i,
        {
            let e = &self.entries.entries[i];
            out.push((e.0.clone(), e.1.copy()));
            i += 1;
        }
        let r = StrMap { entries: out };
        proof {
            assert(map_vals(r@, |t: T| t.model()) =~= self.items());
        }
        r
    }

    /// What is kept, as a JSON object in normal form.
    pub fn listing(&self) -> (r: Json)
        ensures
            r@ == JsonV::Object(listed::<T>(self.items())),
    {
        let mut out: Vec<(String, Json)> = Vec::new();
        let mut i: usize = 0;
        while i < self.entries.entries.len()
            invariant
                i <= self.entries.entries@.len(),
                out@.len() == i,
                forall|j: int|
                    0 <= j < i ==> (#[trigger] out@[j]).0@ == self.entries.entries@[j].0@
                        && out@[j].1@ == T::json_of(T::tidy(self.entries.entries@[j].1.model())),
            decreases self.entries.entries.len() - i,
        {
            let e = &self.entries.entries[i];
            out.push((e.0.clone(), e.1.tidied().to_json()));
            i += 1;
        }
        let r = StrMap { entries: out };
        proof {
            lemma_object_view(r);
            assert(object_view(r@) =~= listed::<T>(self.items()));
        }
        Json::Object(r)
    }
}

/// Resources as JSON in normal form.
pub open spec fn listed<T: Shaped>(items: Items<T::M>) -> Named {
    map_vals(items, |m: T::M| T::json_of(T::tidy(m)))
}

// ── Carrying changes out ───────────────────────────────────────────

/// What one change came to: nothing was done, it was done, or it failed.
pub type Verdict = Option<Result<(), Seq<char>>>;

/// The results of carrying changes out one after the other under a rule, and
/// the state they leave.
pub open spec fn run<S>(rule: spec_fn(S, ChangeV) -> (S, Verdict), s: S, cs: Seq<ChangeV>) -> (
    S,
    Seq<ResultV>,
    Seq<ResultV>,
)
    decreases cs.len(),
{
    if cs.len() == 0 {
        (s, Seq::empty(), Seq::empty())
    } else {
        let (t, verdict) = rule(s, cs[0]);
        let (u, applied, failed) = run(rule, t, cs.drop_first());
        match verdict {
            None => (u, applied, failed),
            Some(Ok(_)) => (
                u,
                seq![ResultV::Applied(cs[0].address, cs[0].action)] + applied,
                failed,
            ),
            Some(Err(e)) => (
                u,
                applied,
                seq![ResultV::Failed(cs[0].address, cs[0].action, e)] + failed,
            ),
        }
    }
}

/// Note down what became of a change.
pub fn record(
    c: &Change,
    res: Result<(), String>,
    applied: &mut Vec<AppliedChange>,
    failed: &mut Vec<FailedChange>,
)
    ensures
        match res {
            Ok(_) => applied_view(final(applied)@) == applied_view(old(applied)@).push(
                ResultV::Applied(c@.address, c@.action),
            ) && final(failed)@ == old(failed)@,
            Err(e) => failed_view(final(failed)@) == failed_view(old(failed)@).push(
                ResultV::Failed(c@.address, c@.action, e@),
            ) && final(applied)@ == old(applied)@,
        },
{
    match res {
        Ok(_) => {
            let ghost before = applied_view(applied@);
            let a = AppliedChange { address: c.address.clone(), action: c.action };
            applied.push(a);
            proof {
                assert(applied_view(applied@) =~= before.push(a@));
            }
        },
        Err(e) => {
            let ghost before = failed_view(failed@);
            let f = FailedChange { address: c.address.clone(), action: c.action, error: e };
            failed.push(f);
            proof {
                assert(failed_view(failed@) =~= before.push(f@));
            }
        },
    }
}

/// What is still to come, added to what has been noted, is the whole.
pub open spec fn on_course<S>(
    rule: spec_fn(S, ChangeV) -> (S, Verdict),
    start: S,
    cs: Seq<ChangeV>,
    n: int,
    now: S,
    applied: Seq<ResultV>,
    failed: Seq<ResultV>,
) -> bool {
    let whole = run(rule, start, cs);
    let rest = run(rule, now, cs.skip(n));
    &&& whole.0 == rest.0
    &&& whole.1 == applied + rest.1
    &&& whole.2 == failed + rest.2
}

/// Noting nothing, before anything is done, is on course.
pub proof fn lemma_run_start<S>(rule: spec_fn(S, ChangeV) -> (S, Verdict), s: S, cs: Seq<ChangeV>)
    ensures
        on_course(rule, s, cs, 0, s, Seq::empty(), Seq::empty()),
{
    assert(cs.skip(0) =~= cs);
    assert(Seq::<ResultV>::empty() + run(rule, s, cs).1 =~= run(rule, s, cs).1);
    assert(Seq::<ResultV>::empty() + run(rule, s, cs).2 =~= run(rule, s, cs).2);
}

/// Carrying out the next change and noting its result stays on course.
pub proof fn lemma_run_step<S>(
    rule: spec_fn(S, ChangeV) -> (S, Verdict),
    start: S,
    cs: Seq<ChangeV>,
    n: int,
    now: S,
    applied: Seq<ResultV>,
    failed: Seq<ResultV>,
)
    requires
        0 <= n < cs.len(),
        on_course(rule, start, cs, n, now, applied, failed),
    ensures
        ({
            let (t, verdict) = rule(now, cs[n]);
            match verdict {
                None => on_course(rule, start, cs, n + 1, t, applied, failed),
                Some(Ok(_)) => on_course(
                    rule,
                    start,
                    cs,
                    n + 1,
                    t,
                    applied.push(ResultV::Applied(cs[n].address, cs[n].action)),
                    failed,
                ),
                Some(Err(e)) => on_course(
                    rule,
                    start,
                    cs,
                    n + 1,
                    t,
                    applied,
                    failed.push(ResultV::Failed(cs[n].address, cs[n].action, e)),
                ),
            }
        }),
{
    let (t, verdict) = rule(now, cs[n]);
    assert(cs.skip(n)[0] == cs[n]);
    assert(cs.skip(n).drop_first() =~= cs.skip(n + 1));
    let rest = run(rule, t, cs.skip(n + 1));
    let a = ResultV::Applied(cs[n].address, cs[n].action);
    assert(applied + (seq![a] + rest.1) =~= applied.push(a) + rest.1);
    match verdict {
        Some(Err(e)) => {
            let f = ResultV::Failed(cs[n].address, cs[n].action, e);
            assert(failed + (seq![f] + rest.2) =~= failed.push(f) + rest.2);
        },
        _ => {},
    }
}

/// At the end everything has been noted.
pub proof fn lemma_run_end<S>(
    rule: spec_fn(S, ChangeV) -> (S, Verdict),
    start: S,
    cs: Seq<ChangeV>,
    now: S,
    applied: Seq<ResultV>,
    failed: Seq<ResultV>,
)
    requires
        on_course(rule, start, cs, cs.len() as int, now, applied, failed),
    ensures
        run(rule, start, cs) == (now, applied, failed),
{
    assert(applied + Seq::<ResultV>::empty() =~= applied);
    assert(failed + Seq::<ResultV>::empty() =~= failed);
}

/// Every change that was carried out or failed is accounted for once.
pub proof fn law_run_accounts_for_all<S>(
    rule: spec_fn(S, ChangeV) -> (S, Verdict),
    s: S,
    cs: Seq<ChangeV>,
)
    requires
        forall|t: S, c: ChangeV| (#[trigger] rule(t, c)).1 is None <==> c.action == Action::NoOp,
    ensures
        run(rule, s, cs).1.len() + run(rule, s, cs).2.len() == crate::converge::effective(cs).len(),
    decreases cs.len(),
{
    reveal(Seq::filter);
    if cs.len() > 0 {
        let t = rule(s, cs[0]).0;
        law_run_accounts_for_all(rule, t, cs.drop_first());
        lemma_effective_front(cs);
    } else {
        assert(crate::converge::effective(cs).len() == 0);
    }
}

proof fn lemma_effective_front(cs: Seq<ChangeV>)
    requires
        cs.len() > 0,
    ensures
        crate::converge::effective(cs).len() == crate::converge::effective(cs.drop_first()).len() + if cs[0].action
            == Action::NoOp {
            0int
        } else {
            1int
        },
    decreases cs.len(),
{
    reveal(Seq::filter);
    if cs.len() == 1 {
        assert(cs.drop_first() =~= Seq::empty());
        assert(cs.drop_last() =~= Seq::empty());
        assert(crate::converge::effective(cs.drop_last()).len() == 0);
        assert(crate::converge::effective(cs.drop_first()).len() == 0);
    } else {
        lemma_effective_front(cs.drop_last());
        assert(cs.drop_last().drop_first() =~= cs.drop_first().drop_last());
        assert(cs.drop_first().last() == cs.last());
        assert(cs.drop_last()[0] == cs[0]);
    }
}

/// A call to whatever keeps the resources.
#[derive(Debug)]
pub enum Call<T> {
    Create(String, T),
    Update(String, T),
    Delete(String),
}

/// What a [`Call`] asks for.
#[verifier::ext_equal]
pub enum CallV<M> {
    Create(Seq<char>, M),
    Update(Seq<char>, M),
    Delete(Seq<char>),
}

/// How a change is carried out: the calls are made in order up to the first
/// that fails; if none does and there is a fault, the fault is the result.
#[derive(Debug)]
pub struct Step<T> {
    pub calls: Vec<Call<T>>,
    pub fault: Option<String>,
}

/// What a [`Step`] asks for.
#[verifier::ext_equal]
pub struct StepV<M> {
    pub calls: Seq<CallV<M>>,
    pub fault: Option<Seq<char>>,
}

impl<T: Shaped> Call<T> {
    pub open spec fn asked(&self) -> CallV<T::M> {
        match self {
            Call::Create(n, t) => CallV::Create(n@, t.model()),
            Call::Update(n, t) => CallV::Update(n@, t.model()),
            Call::Delete(n) => CallV::Delete(n@),
        }
    }
}

pub open spec fn calls_view<T: Shaped>(calls: Seq<Call<T>>) -> Seq<CallV<T::M>> {
    Seq::new(calls.len(), |i: int| calls[i].asked())
}

impl<T: Shaped> Step<T> {
    pub open spec fn asked(&self) -> StepV<T::M> {
        StepV {
            calls: calls_view(self.calls@),
            fault: match self.fault {
                Some(e) => Some(e@),
                None => None,
            },
        }
    }
}

/// A step with no call, which fails.
pub open spec fn faulty<M>(e: Seq<char>) -> StepV<M> {
    StepV { calls: Seq::empty(), fault: Some(e) }
}

/// A step with one call.
pub open spec fn single<M>(call: CallV<M>) -> StepV<M> {
    StepV { calls: seq![call], fault: None }
}

pub fn faulty_step<T: Shaped>(e: String) -> (r: Step<T>)
    ensures
        r.asked() == faulty::<T::M>(e@),
{
    let r = Step { calls: Vec::new(), fault: Some(e) };
    proof {
        assert(calls_view::<T>(r.calls@) =~= Seq::empty());
    }
    r
}

pub fn single_step<T: Shaped>(call: Call<T>) -> (r: Step<T>)
    ensures
        r.asked() == single(call.asked()),
{
    let r = Step { calls: vec![call], fault: None };
    proof {
        assert(calls_view::<T>(r.calls@) =~= seq![call.asked()]);
    }
    r
}

/// How a change is carried out where creation, update and replacement write:
/// `lacking` is the message for a change with nothing to write.
pub open spec fn write_step<T: Shaped>(prefix: Seq<char>, lacking: Seq<char>, c: ChangeV) -> Option<
    StepV<T::M>,
> {
    let name = name_in(prefix, c.address);
    match c.action {
        Action::NoOp => None,
        Action::Delete => Some(single(CallV::Delete(name))),
        _ => match c.after {
            None => Some(faulty(lacking)),
            Some(v) => match T::read_model(v) {
                Err(e) => Some(faulty("decode after: "@ + e)),
                Ok(m) => Some(
                    single(
                        if c.action == Action::Create {
                            CallV::Create(name, m)
                        } else {
                            CallV::Update(name, m)
                        },
                    ),
                ),
            },
        },
    }
}

/// What an optional step asks for.
pub open spec fn step_view<T: Shaped>(s: Option<Step<T>>) -> Option<StepV<T::M>> {
    match s {
        Some(x) => Some(x.asked()),
        None => None,
    }
}

/// Decide how a change is carried out; see [`write_step`].
pub fn next_step<T: Shaped>(prefix: &str, lacking: &str, c: &Change) -> (r: Option<Step<T>>)
    ensures
        step_view(r) == write_step::<T>(prefix@, lacking@, c@),
{
    let name = name_of(prefix, c.address.as_str());
    match c.action {
        Action::NoOp => None,
        Action::Delete => Some(single_step(Call::Delete(name))),
        _ => match &c.after {
            None => Some(faulty_step(lacking.to_owned())),
            Some(v) => match T::from_json(v) {
                Err(e) => Some(faulty_step(text::join2("decode after: ", e.as_str()))),
                Ok(x) => Some(
                    single_step(
                        if c.action == Action::Create {
                            Call::Create(name, x)
                        } else {
                            Call::Update(name, x)
                        },
                    ),
                ),
            },
        },
    }
}

/// What a call makes of the resources.
pub open spec fn called<T: Shaped>(items: Items<T::M>, call: CallV<T::M>) -> Items<T::M> {
    match call {
        CallV::Create(n, m) => put(items, n, T::tidy(m)),
        CallV::Update(n, m) => put(items, n, T::tidy(m)),
        CallV::Delete(n) => erase(items, n),
    }
}

/// What calls one after the other make of the resources.
pub open spec fn all_called<T: Shaped>(items: Items<T::M>, calls: Seq<CallV<T::M>>) -> Items<T::M>
    decreases calls.len(),
{
    if calls.len() == 0 {
        items
    } else {
        called::<T>(all_called::<T>(items, calls.drop_last()), calls.last())
    }
}

/// What carrying a step out makes of the resources, and what it comes to.
pub open spec fn stepped<T: Shaped>(items: Items<T::M>, step: Option<StepV<T::M>>) -> (
    Items<T::M>,
    Verdict,
) {
    match step {
        None => (items, None),
        Some(s) => (
            all_called::<T>(items, s.calls),
            match s.fault {
                Some(e) => Some(Err(e)),
                None => Some(Ok(())),
            },
        ),
    }
}

/// The rule for a store that writes on creation, update and replacement.
pub open spec fn write_rule<T: Shaped>(
    prefix: Seq<char>,
    lacking: Seq<char>,
    items: Items<T::M>,
    c: ChangeV,
) -> (Items<T::M>, Verdict) {
    stepped::<T>(items, write_step::<T>(prefix, lacking, c))
}

impl<T: Shaped> Store<T> {
    /// Carry out a call.
    pub fn perform(&mut self, call: &Call<T>)
        ensures
            final(self).items() == called::<T>(old(self).items(), call.asked()),
            old(self).wf() ==> final(self).wf(),
    {
        match call {
            Call::Create(n, t) => {
                self.write(n.as_str(), t);
            },
            Call::Update(n, t) => {
                self.write(n.as_str(), t);
            },
            Call::Delete(n) => {
                self.erase(n.as_str());
            },
        }
    }

    /// Carry out a step.
    pub fn carry_out(&mut self, step: Step<T>) -> (r: Result<(), String>)
        ensures
            final(self).items() == stepped::<T>(old(self).items(), Some(step.asked())).0,
            result_view(r) == stepped::<T>(old(self).items(), Some(step.asked())).1->Some_0,
            old(self).wf() ==> final(self).wf(),
    {
        let ghost start = self.items();
        let ghost orderly = self.wf();
        let ghost all = calls_view(step.calls@);
        let mut i: usize = 0;
        proof {
            assert(all.take(0) =~= Seq::empty());
        }
        while i < step.calls.len()
            invariant
                i <= step.calls@.len(),
                all == calls_view(step.calls@),
                self.items() == all_called::<T>(start, all.take(i as int)),
                orderly ==> self.wf(),
            decreases step.calls.len() - i,
        {
            proof {
                assert(all.take(i + 1).drop_last() =~= all.take(i as int));
                assert(all.take(i + 1).last() == step.calls@[i as int].asked());
            }
            self.perform(&step.calls[i]);
            i += 1;
        }
        proof {
            assert(all.take(all.len() as int) =~= all);
        }
        match step.fault {
            Some(e) => Err(e),
            None => Ok(()),
        }
    }
}

/// A result by what it says.
pub open spec fn result_view(r: Result<(), String>) -> Result<(), Seq<char>> {
    match r {
        Ok(_) => Ok(()),
        Err(e) => Err(e@),
    }
}

// ── Steps by outside calls ─────────────────────────────────────────

/// What a call came to.
pub type Reply = Result<(), Seq<char>>;

/// The last call failed.
pub open spec fn halted(replies: Seq<Reply>) -> bool {
    replies.len() > 0 && replies.last() is Err
}

/// The call that a step wants next: none once one failed or all are made.
pub open spec fn wanted<M>(step: StepV<M>, replies: Seq<Reply>) -> Option<CallV<M>> {
    if halted(replies) || replies.len() >= step.calls.len() {
        None
    } else {
        Some(step.calls[replies.len() as int])
    }
}

/// What a step comes to: the error of the call that failed, else the fault.
pub open spec fn came_to<M>(step: StepV<M>, replies: Seq<Reply>) -> Reply {
    if halted(replies) {
        replies.last()
    } else {
        match step.fault {
            Some(e) => Err(e),
            None => Ok(()),
        }
    }
}

/// A step on its way: its calls are made elsewhere, one after the other, and
/// the first that fails ends it.
#[derive(Debug)]
pub struct StepRun<T> {
    step: Step<T>,
    made: usize,
    failure: Option<String>,
}

impl<T> StepRun<T> {
    #[verifier::type_invariant]
    spec fn in_step(&self) -> bool {
        self.made <= self.step.calls@.len() && (self.failure is Some ==> self.made > 0)
    }
}

impl<T: Shaped> StepRun<T> {
    /// The step.
    pub closed spec fn asked(&self) -> StepV<T::M> {
        self.step.asked()
    }

    /// What the calls made so far came to.
    pub closed spec fn replies(&self) -> Seq<Reply> {
        Seq::new(
            self.made as nat,
            |i: int|
                match self.failure {
                    Some(e) => if i == self.made - 1 {
                        Err(e@)
                    } else {
                        Ok(())
                    },
                    None => Ok(()),
                },
        )
    }

    /// No call made yet.
    pub fn start(step: Step<T>) -> (r: Self)
        ensures
            r.asked() == step.asked(),
            r.replies() == Seq::<Reply>::empty(),
    {
        let r = StepRun { step, made: 0, failure: None };
        proof {
            assert(r.replies() =~= Seq::empty());
        }
        r
    }

    /// The call to make next; see [`wanted`].
    pub fn next(&self) -> (r: Option<&Call<T>>)
        ensures
            match r {
                Some(c) => wanted(self.asked(), self.replies()) == Some(c.asked()),
                None => wanted(self.asked(), self.replies()) is None,
            },
    {
        proof {
            use_type_invariant(self);
            assert(self.failure is Some ==> self.replies().last() is Err);
        }
        if self.failure.is_none() && self.made < self.step.calls.len() {
            Some(&self.step.calls[self.made])
        } else {
            None
        }
    }

    /// Note what the call that was wanted came to. Where none was, nothing
    /// changes.
    pub fn advance(self, res: Result<(), String>) -> (r: Self)
        ensures
            r.asked() == self.asked(),
            r.replies() == if wanted(self.asked(), self.replies()) is Some {
                self.replies().push(result_view(res))
            } else {
                self.replies()
            },
    {
        proof {
            use_type_invariant(&self);
            assert(self.failure is Some ==> self.replies().last() is Err);
        }
        if self.failure.is_some() || self.made >= self.step.calls.len() {
            return self;
        }
        let made = self.made + 1;
        let failure = match res {
            Ok(_) => None,
            Err(e) => Some(e),
        };
        let r = StepRun { step: self.step, made, failure };
        proof {
            assert(r.replies() =~= self.replies().push(result_view(res)));
        }
        r
    }

    /// What the step comes to; see [`came_to`].
    pub fn verdict(self) -> (r: Result<(), String>)
        ensures
            result_view(r) == came_to(self.asked(), self.replies()),
    {
        proof {
            use_type_invariant(&self);
            assert(self.failure is Some ==> self.replies().last() is Err);
        }
        match self.failure {
            Some(e) => Err(e),
            None => match self.step.fault {
                Some(e) => Err(e),
                None => Ok(()),
            },
        }
    }
}

/// One call and no other.
pub proof fn lemma_one_called<T: Shaped>(items: Items<T::M>, call: CallV<T::M>)
    ensures
        all_called::<T>(items, seq![call]) == called::<T>(items, call),
{
    assert(seq![call].drop_last() =~= Seq::empty());
    assert(all_called::<T>(items, seq![call].drop_last()) == items);
}

/// The change holds what it needs, in normal form.
pub open spec fn clean<T: Shaped>(c: ChangeV) -> bool {
    match c.action {
        Action::NoOp | Action::Delete => true,
        _ => c.after matches Some(v) && normal::<T>(v) == Ok::<JsonV, Seq<char>>(v),
    }
}

pub open spec fn all_clean<T: Shaped>(cs: Seq<ChangeV>) -> bool {
    forall|i: int| 0 <= i < cs.len() ==> clean::<T>(#[trigger] cs[i])
}

/// The differences to members in normal form are clean.
pub proof fn lemma_differences_clean<T: Shaped>(
    prefix: Seq<char>,
    pivot: Option<Seq<char>>,
    have: Named,
    want: Named,
)
    requires
        forall|i: int|
            #![trigger want[i]]
            0 <= i < want.len() ==> normal::<T>(want[i].1) == Ok::<JsonV, Seq<char>>(want[i].1),
    ensures
        all_clean::<T>(differences(prefix, pivot, have, want)),
    decreases have.len() + want.len(),
{
    let cs = differences(prefix, pivot, have, want);
    if want.len() > 0 {
        assert forall|i: int|
            #![trigger want.drop_first()[i]]
            0 <= i < want.drop_first().len() implies normal::<T>(want.drop_first()[i].1) == Ok::<
            JsonV,
            Seq<char>,
        >(want.drop_first()[i].1) by {
            assert(want.drop_first()[i] == want[i + 1]);
        }
        assert(normal::<T>(want[0].1) == Ok::<JsonV, Seq<char>>(want[0].1));
    }
    if have.len() == 0 && want.len() == 0 {
    } else if have.len() == 0 || (want.len() > 0 && want[0].0.precedes(have[0].0)) {
        lemma_differences_clean::<T>(prefix, pivot, have, want.drop_first());
        lemma_all_clean_push::<T>(cs[0], cs.drop_first(), cs);
        assert(cs.drop_first() =~= differences(prefix, pivot, have, want.drop_first()));
    } else if want.len() == 0 || have[0].0 != want[0].0 {
        lemma_differences_clean::<T>(prefix, pivot, have.drop_first(), want);
        assert(cs.drop_first() =~= differences(prefix, pivot, have.drop_first(), want));
        lemma_all_clean_push::<T>(cs[0], cs.drop_first(), cs);
    } else {
        let rest = differences(prefix, pivot, have.drop_first(), want.drop_first());
        lemma_differences_clean::<T>(prefix, pivot, have.drop_first(), want.drop_first());
        if !crate::json::json_same(have[0].1, want[0].1) {
            assert(cs.drop_first() =~= rest);
            lemma_all_clean_push::<T>(cs[0], rest, cs);
        }
    }
}

proof fn lemma_all_clean_push<T: Shaped>(c: ChangeV, rest: Seq<ChangeV>, cs: Seq<ChangeV>)
    requires
        cs.len() > 0,
        cs[0] == c,
        cs.drop_first() == rest,
    ensures
        clean::<T>(c) && all_clean::<T>(rest) ==> all_clean::<T>(cs),
{
    if clean::<T>(c) && all_clean::<T>(rest) {
        assert forall|i: int| 0 <= i < cs.len() implies clean::<T>(#[trigger] cs[i]) by {
            if i > 0 {
                assert(rest[i - 1] == cs[i]);
            }
        }
    }
}

/// Members in normal form are in normal form.
pub proof fn lemma_normal_members_fixed<T: Shaped>(m: Named)
    requires
        normal_members::<T>(m) is Ok,
    ensures
        normal_members::<T>(m)->Ok_0.len() == m.len(),
        forall|i: int|
            #![trigger normal_members::<T>(m)->Ok_0[i]]
            0 <= i < m.len() ==> normal::<T>(normal_members::<T>(m)->Ok_0[i].1) == Ok::<JsonV, Seq<char>>(
                normal_members::<T>(m)->Ok_0[i].1,
            ),
        forall|i: int|
            #![trigger normal_members::<T>(m)->Ok_0[i]]
            0 <= i < m.len() ==> normal_members::<T>(m)->Ok_0[i].0 == m[i].0,
    decreases m.len(),
{
    if m.len() > 0 {
        let t = m.drop_last();
        lemma_normal_members_fixed::<T>(t);
        let done = normal_members::<T>(t)->Ok_0;
        let all = normal_members::<T>(m)->Ok_0;
        let x = T::read_model(m.last().1)->Ok_0;
        T::reads_back(T::tidy(x));
        T::tidy_is_tidy(x);
        assert forall|i: int| #![trigger all[i]] 0 <= i < m.len() implies normal::<T>(all[i].1) == Ok::<
            JsonV,
            Seq<char>,
        >(all[i].1) && all[i].0 == m[i].0 by {
            if i < t.len() {
                assert(all[i] == done[i]);
                assert(t[i] == m[i]);
            }
        }
    }
}

/// Normalising keeps the order of the names.
pub proof fn lemma_normal_members_sorted<T: Shaped>(m: Named)
    requires
        sorted(m),
        normal_members::<T>(m) is Ok,
    ensures
        sorted(normal_members::<T>(m)->Ok_0),
{
    lemma_normal_members_fixed::<T>(m);
    let n = normal_members::<T>(m)->Ok_0;
    assert forall|i: int, j: int| #![trigger n[i], n[j]] 0 <= i < j < n.len() implies n[i].0.precedes(
        n[j].0,
    ) by {
        assert(n[i].0 == m[i].0 && n[j].0 == m[j].0);
    }
}

/// A clean change under the rule does to the values what it says, keeps them
/// in order, and does not fail.
pub proof fn lemma_write_rule_clean<T: Shaped>(
    prefix: Seq<char>,
    lacking: Seq<char>,
    items: Items<T::M>,
    c: ChangeV,
)
    requires
        clean::<T>(c),
        sorted(items),
    ensures
        sorted(write_rule::<T>(prefix, lacking, items, c).0),
        values_of::<T>(write_rule::<T>(prefix, lacking, items, c).0) == carried_out(
            prefix,
            values_of::<T>(items),
            c,
        ),
        !(write_rule::<T>(prefix, lacking, items, c).1 matches Some(Err(_))),
{
    let name = name_in(prefix, c.address);
    let f = |m: T::M| T::json_of(m);
    match write_step::<T>(prefix, lacking, c) {
        Some(step) => lemma_calls_keep::<T>(items, step.calls),
        None => {},
    }
    match c.action {
        Action::NoOp => {},
        Action::Delete => {
            lemma_one_called::<T>(items, CallV::Delete(name));
            lemma_map_vals_erase(items, f, name);
        },
        _ => {
            let v = c.after->Some_0;
            let m = T::read_model(v)->Ok_0;
            lemma_one_called::<T>(items, CallV::Create(name, m));
            lemma_one_called::<T>(items, CallV::Update(name, m));
            lemma_map_vals_put(items, f, name, T::tidy(m));
        },
    }
}

/// The listing of resources in normal form is their JSON.
pub proof fn lemma_listed_tidy<T: Shaped>(items: Items<T::M>)
    requires
        all_tidy::<T>(items),
    ensures
        listed::<T>(items) == values_of::<T>(items),
{
    assert(listed::<T>(items) =~= values_of::<T>(items));
}

/// A rule under which clean changes do to the values what they say, and keep
/// them in order.
pub open spec fn faithful<T: Shaped>(
    prefix: Seq<char>,
    rule: spec_fn(Items<T::M>, ChangeV) -> (Items<T::M>, Verdict),
) -> bool {
    forall|items: Items<T::M>, c: ChangeV|
        #![trigger rule(items, c)]
        sorted(items) && clean::<T>(c) ==> sorted(rule(items, c).0) && values_of::<T>(rule(items, c).0) == carried_out(
            prefix,
            values_of::<T>(items),
            c,
        ) && !(rule(items, c).1 matches Some(Err(_)))
}

/// Under a faithful rule clean changes do to the values what they say, and
/// none fails.
pub proof fn lemma_faithful_run<T: Shaped>(
    prefix: Seq<char>,
    rule: spec_fn(Items<T::M>, ChangeV) -> (Items<T::M>, Verdict),
    items: Items<T::M>,
    cs: Seq<ChangeV>,
)
    requires
        faithful::<T>(prefix, rule),
        sorted(items),
        all_clean::<T>(cs),
    ensures
        values_of::<T>(run(rule, items, cs).0) == all_carried_out(prefix, values_of::<T>(items), cs),
        run(rule, items, cs).2.len() == 0,
    decreases cs.len(),
{
    if cs.len() > 0 {
        assert(clean::<T>(cs[0]));
        let t = rule(items, cs[0]).0;
        assert forall|i: int| 0 <= i < cs.drop_first().len() implies clean::<T>(
            #[trigger] cs.drop_first()[i],
        ) by {
            assert(cs.drop_first()[i] == cs[i + 1]);
        }
        lemma_faithful_run::<T>(prefix, rule, t, cs.drop_first());
    }
}

/// Applying converges: carrying out the plan for a configuration under a
/// faithful rule fails nowhere and leaves resources for which the next plan
/// is empty.
pub proof fn lemma_converges<T: Shaped>(
    prefix: Seq<char>,
    pivot: Option<Seq<char>>,
    rule: spec_fn(Items<T::M>, ChangeV) -> (Items<T::M>, Verdict),
    items: Items<T::M>,
    config: Named,
)
    requires
        faithful::<T>(prefix, rule),
        sorted(items),
        sorted(config),
        normal_members::<T>(config) is Ok,
    ensures
        ({
            let want = normal_members::<T>(config)->Ok_0;
            let cs = differences(prefix, pivot, values_of::<T>(items), want);
            let left = values_of::<T>(run(rule, items, cs).0);
            run(rule, items, cs).2.len() == 0 && differences(prefix, pivot, left, want).len() == 0
        }),
{
    let want = normal_members::<T>(config)->Ok_0;
    let have = values_of::<T>(items);
    let cs = differences(prefix, pivot, have, want);
    lemma_normal_members_fixed::<T>(config);
    lemma_normal_members_sorted::<T>(config);
    assert forall|i: int, j: int| #![trigger have[i], have[j]] 0 <= i < j < have.len() implies have[i].0.precedes(
        have[j].0,
    ) by {
        assert(have[i].0 == items[i].0 && have[j].0 == items[j].0);
    }
    assert forall|i: int| #![trigger want[i]] 0 <= i < want.len() implies normal::<T>(want[i].1) == Ok::<
        JsonV,
        Seq<char>,
    >(want[i].1) by {
    }
    lemma_differences_clean::<T>(prefix, pivot, have, want);
    lemma_faithful_run::<T>(prefix, rule, items, cs);
    law_apply_converges(prefix, pivot, have, want);
}

/// Resources in normal form are listed as JSON that reads as itself.
pub proof fn lemma_values_normal<T: Shaped>(items: Items<T::M>)
    requires
        all_tidy::<T>(items),
    ensures
        normal_members::<T>(values_of::<T>(items)) == Ok::<Named, Seq<char>>(values_of::<T>(items)),
    decreases items.len(),
{
    let vs = values_of::<T>(items);
    if items.len() > 0 {
        let t = items.drop_last();
        assert forall|i: int| #![trigger t[i]] 0 <= i < t.len() implies T::tidy(t[i].1) == t[i].1 by {
            assert(t[i] == items[i]);
        }
        lemma_values_normal::<T>(t);
        assert(vs.drop_last() =~= values_of::<T>(t));
        let m = items.last().1;
        assert(T::tidy(items[items.len() - 1].1) == items[items.len() - 1].1);
        T::reads_back(m);
        assert(vs.last() == (items.last().0, T::json_of(m)));
        assert(vs.drop_last().push(vs.last()) =~= vs);
    } else {
        assert(vs =~= Seq::empty());
    }
}

/// Writing a resource in normal form keeps them all in normal form.
proof fn lemma_put_tidy<T: Shaped>(items: Items<T::M>, k: Seq<char>, m: T::M)
    requires
        all_tidy::<T>(items),
        T::tidy(m) == m,
    ensures
        all_tidy::<T>(put(items, k, m)),
    decreases items.len(),
{
    let r = put(items, k, m);
    if items.len() > 0 {
        let t = items.drop_first();
        assert forall|i: int| #![trigger t[i]] 0 <= i < t.len() implies T::tidy(t[i].1) == t[i].1 by {
            assert(t[i] == items[i + 1]);
        }
        lemma_put_tidy::<T>(t, k, m);
        assert forall|i: int| #![trigger r[i]] 0 <= i < r.len() implies T::tidy(r[i].1) == r[i].1 by {
            if items[0].0 == k {
                if i > 0 {
                    assert(r[i] == items[i]);
                }
            } else if items[0].0.precedes(k) {
                if i == 0 {
                    assert(r[0] == items[0]);
                } else {
                    assert(r[i] == put(t, k, m)[i - 1]);
                }
            } else if i > 0 {
                assert(r[i] == items[i - 1]);
            }
        }
    }
}

/// Removing a resource keeps the others in normal form.
proof fn lemma_erase_tidy<T: Shaped>(items: Items<T::M>, k: Seq<char>)
    requires
        all_tidy::<T>(items),
    ensures
        all_tidy::<T>(erase(items, k)),
{
    let r = erase(items, k);
    assert forall|i: int| #![trigger r[i]] 0 <= i < r.len() implies T::tidy(r[i].1) == r[i].1 by {
        let j = crate::ordmap::lemma_erase_subset(items, k, i);
        assert(r[i] == items[j]);
    }
}

/// A call keeps the resources in normal form, and in order.
proof fn lemma_call_keeps<T: Shaped>(items: Items<T::M>, call: CallV<T::M>)
    ensures
        all_tidy::<T>(items) ==> all_tidy::<T>(called::<T>(items, call)),
        sorted(items) ==> sorted(called::<T>(items, call)),
{
    lemma_one_called::<T>(items, call);
    lemma_calls_keep::<T>(items, seq![call]);
}

/// Calls keep the resources in normal form, and in order.
pub proof fn lemma_calls_keep<T: Shaped>(items: Items<T::M>, calls: Seq<CallV<T::M>>)
    ensures
        all_tidy::<T>(items) ==> all_tidy::<T>(all_called::<T>(items, calls)),
        sorted(items) ==> sorted(all_called::<T>(items, calls)),
    decreases calls.len(),
{
    if calls.len() > 0 {
        lemma_calls_keep::<T>(items, calls.drop_last());
        let before = all_called::<T>(items, calls.drop_last());
        match calls.last() {
            CallV::Create(n, m) | CallV::Update(n, m) => {
                T::tidy_is_tidy(m);
                if all_tidy::<T>(items) {
                    lemma_put_tidy::<T>(before, n, T::tidy(m));
                }
                if sorted(items) {
                    crate::ordmap::lemma_put_sorted(before, n, T::tidy(m));
                }
            },
            CallV::Delete(n) => {
                if all_tidy::<T>(items) {
                    lemma_erase_tidy::<T>(before, n);
                }
                if sorted(items) {
                    crate::ordmap::lemma_erase_sorted(before, n);
                }
            },
        }
    }
}

/// A rule that keeps resources in normal form does so over a whole run.
pub proof fn lemma_run_keeps_tidy<T: Shaped>(
    rule: spec_fn(Items<T::M>, ChangeV) -> (Items<T::M>, Verdict),
    items: Items<T::M>,
    cs: Seq<ChangeV>,
)
    requires
        all_tidy::<T>(items),
        forall|i: Items<T::M>, c: ChangeV|
            #![trigger rule(i, c)]
            all_tidy::<T>(i) ==> all_tidy::<T>(rule(i, c).0),
    ensures
        all_tidy::<T>(run(rule, items, cs).0),
    decreases cs.len(),
{
    if cs.len() > 0 {
        lemma_run_keeps_tidy::<T>(rule, rule(items, cs[0]).0, cs.drop_first());
    }
}

/// What [`lemma_converges`] says, of the plans that are made from listings.
pub proof fn lemma_listing_converges<T: Shaped>(
    prefix: Seq<char>,
    pivot: Option<Seq<char>>,
    rule: spec_fn(Items<T::M>, ChangeV) -> (Items<T::M>, Verdict),
    items: Items<T::M>,
    config: Named,
)
    requires
        faithful::<T>(prefix, rule),
        forall|i: Items<T::M>, c: ChangeV|
            #![trigger rule(i, c)]
            all_tidy::<T>(i) ==> all_tidy::<T>(rule(i, c).0),
        sorted(items),
        all_tidy::<T>(items),
        sorted(config),
        normal_members::<T>(config) is Ok,
    ensures
        ({
            let cs = map_changes::<T>(
                prefix,
                pivot,
                JsonV::Object(config),
                JsonV::Object(listed::<T>(items)),
            );
            let (left, applied, failed) = run(rule, items, cs->Ok_0);
            cs is Ok && failed.len() == 0 && map_changes::<T>(
                prefix,
                pivot,
                JsonV::Object(config),
                JsonV::Object(listed::<T>(left)),
            ) == Ok::<Seq<ChangeV>, ReconcilerErrorV>(Seq::empty())
        }),
{
    let want = normal_members::<T>(config)->Ok_0;
    lemma_listed_tidy::<T>(items);
    lemma_values_normal::<T>(items);
    let cs = differences(prefix, pivot, values_of::<T>(items), want);
    lemma_converges::<T>(prefix, pivot, rule, items, config);
    lemma_run_keeps_tidy::<T>(rule, items, cs);
    let left = run(rule, items, cs).0;
    lemma_listed_tidy::<T>(left);
    lemma_values_normal::<T>(left);
    assert(differences(prefix, pivot, values_of::<T>(left), want) =~= Seq::empty());
}

proof fn lemma_normal_gather<T: Shaped>(m: Named, n: int)
    requires
        0 <= n <= m.len(),
    ensures
        match normal_members::<T>(m.take(n)) {
            Ok(done) => done.len() == n && forall|i: int|
                0 <= i < n ==> (#[trigger] done[i]).0 == m[i].0 && normal::<T>(m[i].1) == Ok::<
                    JsonV,
                    Seq<char>,
                >(done[i].1),
            Err(e) => exists|i: int|
                0 <= i < n && normal::<T>((#[trigger] m[i]).1) == Err::<JsonV, Seq<char>>(e)
                    && forall|j: int| 0 <= j < i ==> normal::<T>((#[trigger] m[j]).1) is Ok,
        },
    decreases n,
{
    if n > 0 {
        lemma_normal_gather::<T>(m, n - 1);
        let b = m.take(n);
        assert(b.drop_last() =~= m.take(n - 1));
        assert(b.last() == m[n - 1]);
        if let Ok(done) = normal_members::<T>(m.take(n - 1)) {
            assert forall|j: int| 0 <= j < n - 1 implies normal::<T>((#[trigger] m[j]).1) is Ok by {
                assert(done[j].0 == m[j].0);
            }
            if let Err(e) = normal::<T>(m[n - 1].1) {
                assert(normal::<T>(m[n - 1].1) == Err::<JsonV, Seq<char>>(e));
            }
        }
    }
}

/// A map is brought to normal form member by member, under the same names; the
/// first member that cannot be read is the error of the whole.
pub proof fn law_normal_form_by_member<T: Shaped>(m: Named)
    ensures
        match normal_map::<T>(JsonV::Object(m)) {
            Ok(done) => done.len() == m.len() && forall|i: int|
                0 <= i < m.len() ==> (#[trigger] done[i]).0 == m[i].0 && normal::<T>(m[i].1) == Ok::<
                    JsonV,
                    Seq<char>,
                >(done[i].1),
            Err(e) => exists|i: int|
                0 <= i < m.len() && normal::<T>((#[trigger] m[i]).1) == Err::<JsonV, Seq<char>>(e)
                    && forall|j: int| 0 <= j < i ==> normal::<T>((#[trigger] m[j]).1) is Ok,
        },
        forall|v: JsonV| !(v is Object) ==> (#[trigger] normal_map::<T>(v)) is Err,
{
    lemma_normal_gather::<T>(m, m.len() as int);
    assert(m.take(m.len() as int) =~= m);
}

/// A plan is made of what is wanted and what is there, each in normal form;
/// where one of them cannot be read, there is no plan.
pub proof fn law_plans_compare_normal_forms<T: Shaped>(
    prefix: Seq<char>,
    pivot: Option<Seq<char>>,
    config: JsonV,
    state: JsonV,
)
    ensures
        map_changes::<T>(prefix, pivot, config, state) is Ok <==> normal_map::<T>(config) is Ok
            && normal_map::<T>(state) is Ok,
        map_changes::<T>(prefix, pivot, config, state) matches Ok(cs) ==> cs == differences(
            prefix,
            pivot,
            normal_map::<T>(state)->Ok_0,
            normal_map::<T>(config)->Ok_0,
        ),
        map_changes::<T>(prefix, pivot, config, state) matches Err(e) ==> e is ComputePlan,
{
}

/// Changes are carried out one after the other: those of a list in two parts
/// as the first part and then, from where it led, the second. A failure does
/// not stop what comes behind it.
pub proof fn law_runs_in_parts<S>(
    rule: spec_fn(S, ChangeV) -> (S, Verdict),
    s: S,
    a: Seq<ChangeV>,
    b: Seq<ChangeV>,
)
    ensures
        ({
            let first = run(rule, s, a);
            let second = run(rule, first.0, b);
            let whole = run(rule, s, a + b);
            &&& whole.0 == second.0
            &&& whole.1 == first.1 + second.1
            &&& whole.2 == first.2 + second.2
        }),
    decreases a.len(),
{
    if a.len() == 0 {
        assert(a + b =~= b);
        let second = run(rule, s, b);
        assert(run(rule, s, a).1 + second.1 =~= second.1);
        assert(run(rule, s, a).2 + second.2 =~= second.2);
    } else {
        let t = rule(s, a[0]).0;
        assert((a + b)[0] == a[0]);
        assert((a + b).drop_first() =~= a.drop_first() + b);
        law_runs_in_parts(rule, t, a.drop_first(), b);
        let first = run(rule, s, a);
        let second = run(rule, first.0, b);
        assert(run(rule, s, a + b).1 =~= first.1 + second.1);
        assert(run(rule, s, a + b).2 =~= first.2 + second.2);
    }
}

/// A single change is reported as what the rule makes of it: as applied, as
/// failed with the reason, or not at all.
pub proof fn law_one_change_is_reported<S>(
    rule: spec_fn(S, ChangeV) -> (S, Verdict),
    s: S,
    c: ChangeV,
)
    ensures
        run(rule, s, seq![c]).0 == rule(s, c).0,
        rule(s, c).1 is None ==> run(rule, s, seq![c]).1.len() == 0 && run(
            rule,
            s,
            seq![c],
        ).2.len() == 0,
        rule(s, c).1 matches Some(Ok(_)) ==> run(rule, s, seq![c]).1 == seq![
            ResultV::Applied(c.address, c.action),
        ] && run(rule, s, seq![c]).2.len() == 0,
        forall|e: Seq<char>|
            rule(s, c).1 == Some(Err::<(), Seq<char>>(e)) ==> run(rule, s, seq![c]).1.len() == 0
                && run(rule, s, seq![c]).2 == #[trigger] seq![
                ResultV::Failed(c.address, c.action, e),
            ],
{
    let t = rule(s, c).0;
    let cs = seq![c];
    assert(cs.drop_first() =~= Seq::<ChangeV>::empty());
    let rest = run(rule, t, cs.drop_first());
    assert(rest.1 =~= Seq::<ResultV>::empty());
    assert(rest.2 =~= Seq::<ResultV>::empty());
    let done = seq![ResultV::Applied(c.address, c.action)];
    assert(done + rest.1 =~= done);
    if let Some(Err(e)) = rule(s, c).1 {
        let bad = seq![ResultV::Failed(c.address, c.action, e)];
        assert(bad + rest.2 =~= bad);
    }
}

/// A change is carried out by one call that names what it is about: a
/// deletion deletes, a creation creates, and what alters or replaces updates.
/// Without a value to write there is no call but a fault.
pub proof fn law_steps_by_action<T: Shaped>(prefix: Seq<char>, lacking: Seq<char>, c: ChangeV)
    ensures
        c.action == Action::NoOp <==> write_step::<T>(prefix, lacking, c) is None,
        c.action == Action::Delete ==> write_step::<T>(prefix, lacking, c) == Some(
            StepV { calls: seq![CallV::<T::M>::Delete(name_in(prefix, c.address))], fault: None },
        ),
        c.action != Action::NoOp && c.action != Action::Delete && c.after is None ==> (write_step::<
            T,
        >(prefix, lacking, c) matches Some(s) && s.calls.len() == 0 && s.fault == Some(lacking)),
        c.action != Action::NoOp && c.action != Action::Delete && c.after is Some && T::read_model(
            c.after->Some_0,
        ) is Err ==> (write_step::<T>(prefix, lacking, c) matches Some(s) && s.calls.len() == 0
            && s.fault is Some),
        c.action == Action::Create && c.after is Some && T::read_model(c.after->Some_0) is Ok
            ==> write_step::<T>(prefix, lacking, c) == Some(
            StepV {
                calls: seq![
                    CallV::Create(
                        name_in(prefix, c.address),
                        T::read_model(c.after->Some_0)->Ok_0,
                    ),
                ],
                fault: None,
            },
        ),
        (c.action == Action::Update || c.action == Action::Replace) && c.after is Some
            && T::read_model(c.after->Some_0) is Ok ==> write_step::<T>(prefix, lacking, c) == Some(
            StepV {
                calls: seq![
                    CallV::Update(
                        name_in(prefix, c.address),
                        T::read_model(c.after->Some_0)->Ok_0,
                    ),
                ],
                fault: None,
            },
        ),
{
}

/// A call writes or takes away what it names, and touches nothing else.
pub proof fn law_calls_touch_one<T: Shaped>(
    items: Items<T::M>,
    name: Seq<char>,
    m: T::M,
    other: Seq<char>,
)
    requires
        sorted(items),
    ensures
        crate::ordmap::lookup(called::<T>(items, CallV::Create(name, m)), name) == Some(T::tidy(m)),
        crate::ordmap::lookup(called::<T>(items, CallV::Update(name, m)), name) == Some(T::tidy(m)),
        crate::ordmap::lookup(called::<T>(items, CallV::Delete(name)), name) is None,
        other != name ==> {
            let was = crate::ordmap::lookup(items, other);
            &&& crate::ordmap::lookup(called::<T>(items, CallV::Create(name, m)), other) == was
            &&& crate::ordmap::lookup(called::<T>(items, CallV::Update(name, m)), other) == was
            &&& crate::ordmap::lookup(called::<T>(items, CallV::Delete(name)), other) == was
        },
{
    crate::ordmap::lemma_put_lookup(items, name, T::tidy(m), name);
    crate::ordmap::lemma_put_lookup(items, name, T::tidy(m), other);
    crate::ordmap::lemma_erase_lookup(items, name, name);
    crate::ordmap::lemma_erase_lookup(items, name, other);
}

/// Calls are made one after the other; a change whose step has a fault has
/// failed, and one without has not.
pub proof fn law_calls_in_parts<T: Shaped>(
    items: Items<T::M>,
    a: Seq<CallV<T::M>>,
    b: Seq<CallV<T::M>>,
    fault: Option<Seq<char>>,
)
    ensures
        all_called::<T>(items, a + b) == all_called::<T>(all_called::<T>(items, a), b),
        stepped::<T>(items, Some(StepV { calls: a, fault })).0 == all_called::<T>(items, a),
        stepped::<T>(items, Some(StepV { calls: a, fault })).1 == Some(
            match fault {
                Some(e) => Err::<(), Seq<char>>(e),
                None => Ok(()),
            },
        ),
        stepped::<T>(items, None) == (items, None::<Result<(), Seq<char>>>),
    decreases b.len(),
{
    if b.len() == 0 {
        assert(a + b =~= a);
    } else {
        law_calls_in_parts::<T>(items, a, b.drop_last(), fault);
        assert((a + b).drop_last() =~= a + b.drop_last());
        assert((a + b).last() == b.last());
    }
}

/// The calls of a step are asked for in order, each once the one before it
/// succeeded. The first failure ends the step and is what it comes to; after
/// the last call it comes to its fault, if it has one.
pub proof fn law_calls_are_asked_in_order<M>(step: StepV<M>, replies: Seq<Reply>)
    ensures
        replies.len() > 0 && replies.last() is Err ==> wanted(step, replies) is None && came_to(
            step,
            replies,
        ) == replies.last(),
        (replies.len() == 0 || replies.last() is Ok) && replies.len() < step.calls.len() ==> wanted(
            step,
            replies,
        ) == Some(step.calls[replies.len() as int]),
        (replies.len() == 0 || replies.last() is Ok) && replies.len() >= step.calls.len() ==> wanted(
            step,
            replies,
        ) is None && came_to(step, replies) == match step.fault {
            Some(e) => Err::<(), Seq<char>>(e),
            None => Ok(()),
        },
{
}

} // verus!
