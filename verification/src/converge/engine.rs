//! A registry of reconcilers by the kind of resource they look after.
use vstd::prelude::*;
use crate::converge::{
    applied_view, failed_view, detect_drift, drift_changes, error_text, planned, ChangeV, Outcome,
    Plan, Reconciler, ReconcilerError, ReconcilerErrorV,
};
use crate::json::{Json, JsonV};
use crate::ordmap::{keys_of, lemma_put_lookup, lookup, put, sorted, StrMap};
use crate::text;
use crate::text::texts;

verus! {

/// What can go wrong in the engine.
#[derive(Debug)]
pub enum EngineError {
    /// No reconciler is registered for the kind.
    UnknownKind(String),
    /// The reconciler failed.
    Reconciler(ReconcilerError),
}

/// What an [`EngineError`] says.
#[verifier::ext_equal]
pub enum EngineErrorV {
    UnknownKind(Seq<char>),
    Reconciler(ReconcilerErrorV),
}

impl View for EngineError {
    type V = EngineErrorV;

    open spec fn view(&self) -> EngineErrorV {
        match self {
            EngineError::UnknownKind(k) => EngineErrorV::UnknownKind(k@),
            EngineError::Reconciler(e) => EngineErrorV::Reconciler(e@),
        }
    }
}

/// An engine error in words.
pub open spec fn engine_error_text(e: EngineErrorV) -> Seq<char> {
    match e {
        EngineErrorV::UnknownKind(k) => "unknown reconciler kind: "@ + k,
        EngineErrorV::Reconciler(r) => "reconciler error: "@ + error_text(r),
    }
}

impl EngineError {
    /// The error in words.
    pub fn message(&self) -> (r: String)
        ensures
            r@ == engine_error_text(self@),
    {
        match self {
            EngineError::UnknownKind(k) => text::join2("unknown reconciler kind: ", k.as_str()),
            EngineError::Reconciler(e) => text::join2("reconciler error: ", e.message().as_str()),
        }
    }
}

/// Reconcilers by kind.
#[derive(Debug)]
pub struct ConvergeEngine<R> {
    reconcilers: StrMap<R>,
}

/// The state that an engine reads for a kind.
pub open spec fn engine_state<R: Reconciler>(reg: Seq<(Seq<char>, R)>, kind: Seq<char>) -> Result<
    JsonV,
    EngineErrorV,
> {
    match lookup(reg, kind) {
        None => Err(EngineErrorV::UnknownKind(kind)),
        Some(r) => match r.observed() {
            Ok(v) => Ok(v),
            Err(e) => Err(EngineErrorV::Reconciler(e)),
        },
    }
}

/// The plan of an engine is the plan of the reconciler, or the error says
/// that there is none for the kind.
pub open spec fn engine_planned<R: Reconciler>(
    res: Result<Plan, EngineError>,
    reg: Seq<(Seq<char>, R)>,
    kind: Seq<char>,
    changes: spec_fn(R) -> Result<Seq<ChangeV>, ReconcilerErrorV>,
) -> bool {
    match lookup(reg, kind) {
        None => res matches Err(e) && e@ == EngineErrorV::UnknownKind(kind),
        Some(r) => match res {
            Ok(p) => planned(Ok(p), r.label(), changes(r)),
            Err(EngineError::Reconciler(e)) => planned(Err(e), r.label(), changes(r)),
            Err(EngineError::UnknownKind(_)) => false,
        },
    }
}

impl<R> Default for ConvergeEngine<R> {
    fn default() -> (r: Self)
        ensures
            r.registry() == Seq::<(Seq<char>, R)>::empty(),
            r.wf(),
    {
        ConvergeEngine::new()
    }
}

impl<R> ConvergeEngine<R> {
    /// The reconcilers, by kind.
    pub closed spec fn registry(&self) -> Seq<(Seq<char>, R)> {
        self.reconcilers@
    }

    /// Kinds are in order, each once.
    pub open spec fn wf(&self) -> bool {
        sorted(self.registry())
    }

    /// No reconcilers.
    pub fn new() -> (r: Self)
        ensures
            r.registry() == Seq::<(Seq<char>, R)>::empty(),
            r.wf(),
    {
        ConvergeEngine { reconcilers: StrMap::new() }
    }

    /// Register a reconciler under a kind; one that was there is replaced.
    /// The engine is handed back, so that calls can be chained.
    pub fn register_shared(&mut self, kind: &str, reconciler: R) -> (r: &mut Self)
        ensures
            r.registry() == put(old(self).registry(), kind@, reconciler),
            old(self).wf() ==> r.wf(),
            *final(self) == *final(r),
    {
        proof {
            if self.wf() {
                crate::ordmap::lemma_put_sorted(self.registry(), kind@, reconciler);
            }
        }
        self.reconcilers.insert(kind.to_owned(), reconciler);
        self
    }

    /// How many kinds there are.
    pub fn len(&self) -> (r: usize)
        ensures
            r == self.registry().len(),
    {
        self.reconcilers.len()
    }

    pub fn is_empty(&self) -> (r: bool)
        ensures
            r == (self.registry().len() == 0),
    {
        self.reconcilers.is_empty()
    }

    /// The reconciler for a kind.
    pub fn get(&self, kind: &str) -> (r: Option<&R>)
        ensures
            match r {
                Some(x) => lookup(self.registry(), kind@) == Some(*x),
                None => lookup(self.registry(), kind@) is None,
            },
    {
        self.reconcilers.get(kind)
    }

    /// The kinds, in order.
    pub fn kinds(&self) -> (r: Vec<String>)
        ensures
            texts(r@) == keys_of(self.registry()),
    {
        let mut out: Vec<String> = Vec::new();
        let mut i: usize = 0;
        while i < self.reconcilers.entries.len()
            invariant
                i <= self.reconcilers.entries@.len(),
                out@.len() == i,
                forall|j: int| 0 <= j < i ==> (#[trigger] out@[j])@ == self.reconcilers.entries@[j].0@,
            decreases self.reconcilers.entries.len() - i,
        {
            out.push(self.reconcilers.entries[i].0.clone());
            i += 1;
        }
        proof {
            assert(texts(out@) =~= keys_of(self.registry()));
        }
        out
    }
}

impl<R: Reconciler> ConvergeEngine<R> {
    /// Register a reconciler under its own kind. The engine is handed back, so
    /// that calls can be chained.
    pub fn register(&mut self, reconciler: R) -> (r: &mut Self)
        ensures
            r.registry() == put(old(self).registry(), reconciler.label(), reconciler),
            old(self).wf() ==> r.wf(),
            *final(self) == *final(r),
    {
        let kind = reconciler.kind();
        self.register_shared(kind, reconciler)
    }

    /// Read the state of a kind.
    pub fn read_state(&self, kind: &str) -> (r: Result<Json, EngineError>)
        ensures
            match r {
                Ok(v) => engine_state(self.registry(), kind@) == Ok::<JsonV, EngineErrorV>(v@),
                Err(e) => engine_state(self.registry(), kind@) == Err::<JsonV, EngineErrorV>(e@),
            },
    {
        match self.get(kind) {
            None => Err(EngineError::UnknownKind(kind.to_owned())),
            Some(r) => match r.read_state() {
                Ok(v) => Ok(v),
                Err(e) => Err(EngineError::Reconciler(e)),
            },
        }
    }

    /// Work out a plan for a kind.
    pub fn compute_plan(&self, kind: &str, config: &Json, state: &Json) -> (r: Result<Plan, EngineError>)
        ensures
            engine_planned(
                r,
                self.registry(),
                kind@,
                |x: R| x.changes(config@, state@),
            ),
    {
        match self.get(kind) {
            None => Err(EngineError::UnknownKind(kind.to_owned())),
            Some(r) => match r.compute_plan(config, state) {
                Ok(p) => Ok(p),
                Err(e) => Err(EngineError::Reconciler(e)),
            },
        }
    }

    /// Work out the plan from the state of a kind to a configuration.
    pub fn detect_drift(&self, kind: &str, config: &Json) -> (r: Result<Plan, EngineError>)
        ensures
            engine_planned(r, self.registry(), kind@, |x: R| drift_changes(&x, config@)),
    {
        match self.get(kind) {
            None => Err(EngineError::UnknownKind(kind.to_owned())),
            Some(r) => match detect_drift(r, config) {
                Ok(p) => Ok(p),
                Err(e) => Err(EngineError::Reconciler(e)),
            },
        }
    }

    /// Carry a plan out on a kind. Without a reconciler for the kind nothing
    /// changes; the reconcilers for other kinds never do.
    pub fn apply(&mut self, kind: &str, plan: &Plan) -> (r: Result<Outcome, EngineError>)
        ensures
            keys_of(final(self).registry()) == keys_of(old(self).registry()),
            forall|i: int|
                0 <= i < old(self).registry().len() && (#[trigger] old(self).registry()[i]).0 != kind@
                    ==> final(self).registry()[i] == old(self).registry()[i],
            match lookup(old(self).registry(), kind@) {
                None => (r matches Err(e) && e@ == EngineErrorV::UnknownKind(kind@))
                    && final(self).registry() == old(self).registry(),
                Some(x) => match r {
                    Ok(o) => o.plan_id.0@ == plan@.id && o.kind@ == plan@.kind && x.carries(
                        plan@.changes,
                        lookup(final(self).registry(), kind@)->Some_0,
                        applied_view(o.applied@),
                        failed_view(o.failed@),
                    ),
                    Err(e) => e matches EngineError::Reconciler(f) && x.fails(
                        plan@.changes,
                        lookup(final(self).registry(), kind@)->Some_0,
                        f@,
                    ),
                },
            },
    {
        match self.reconcilers.position(kind) {
            None => Err(EngineError::UnknownKind(kind.to_owned())),
            Some(i) => {
                let ghost before = self.registry();
                let res = self.reconcilers.entries[i].1.apply(plan);
                proof {
                    assert(keys_of(self.registry()) =~= keys_of(before));
                    assert forall|j: int| 0 <= j < i implies (#[trigger] self.registry()[j]).0 != kind@ by {
                        assert(before[j].0 == self.registry()[j].0);
                    }
                    assert(self.registry()[i as int].0 == before[i as int].0);
                    crate::ordmap::lemma_lookup_first(self.registry(), kind@, i as int);
                }
                match res {
                    Ok(o) => Ok(o),
                    Err(e) => Err(EngineError::Reconciler(e)),
                }
            },
        }
    }

    /// Work out the plans from the states of several kinds to their
    /// configurations: one result for each kind, in the order of the kinds.
    pub fn drift_sweep(&self, configs: &StrMap<Json>) -> (r: Vec<(String, Result<Plan, EngineError>)>)
        ensures
            r@.len() == configs@.len(),
            forall|i: int|
                0 <= i < r@.len() ==> (#[trigger] r@[i]).0@ == configs@[i].0 && engine_planned(
                    r@[i].1,
                    self.registry(),
                    configs@[i].0,
                    |x: R| drift_changes(&x, configs@[i].1@),
                ),
    {
        let mut out: Vec<(String, Result<Plan, EngineError>)> = Vec::new();
        let mut i: usize = 0;
        while i < configs.entries.len()
            invariant
                i <= configs.entries@.len(),
                out@.len() == i,
                forall|j: int|
                    0 <= j < i ==> (#[trigger] out@[j]).0@ == configs@[j].0 && engine_planned(
                        out@[j].1,
                        self.registry(),
                        configs@[j].0,
                        |x: R| drift_changes(&x, configs@[j].1@),
                    ),
            decreases configs.entries.len() - i,
        {
            let e = &configs.entries[i];
            let res = self.detect_drift(e.0.as_str(), &e.1);
            proof {
                assert(configs@[i as int] == (e.0@, e.1));
            }
            out.push((e.0.clone(), res));
            i += 1;
        }
        out
    }
}

/// The kinds are listed in order.
pub proof fn law_kinds_are_sorted<R>(reg: Seq<(Seq<char>, R)>)
    requires
        sorted(reg),
    ensures
        forall|i: int, j: int|
            #![trigger keys_of(reg)[i], keys_of(reg)[j]]
            0 <= i < j < keys_of(reg).len() ==> text::lex_lt(keys_of(reg)[i], keys_of(reg)[j]),
        keys_of(reg).len() == reg.len(),
{
    assert forall|i: int, j: int|
        #![trigger keys_of(reg)[i], keys_of(reg)[j]]
        0 <= i < j < keys_of(reg).len() implies text::lex_lt(keys_of(reg)[i], keys_of(reg)[j]) by {
        assert(crate::ordmap::Linear::precedes(reg[i].0, reg[j].0));
    }
}

/// A reconciler that was registered is the one that is found under its kind;
/// the other kinds are left alone.
pub proof fn law_registered_is_found<R>(reg: Seq<(Seq<char>, R)>, kind: Seq<char>, r: R, other: Seq<char>)
    requires
        sorted(reg),
    ensures
        lookup(put(reg, kind, r), kind) == Some(r),
        other != kind ==> lookup(put(reg, kind, r), other) == lookup(reg, other),
{
    lemma_put_lookup(reg, kind, r, kind);
    lemma_put_lookup(reg, kind, r, other);
}

/// An engine knows the kinds that were registered with it and no others; what
/// it finds is what the reconciler of the kind finds.
pub proof fn law_engine_asks_the_reconciler<R: Reconciler>(reg: Seq<(Seq<char>, R)>, kind: Seq<char>)
    ensures
        engine_state(reg, kind) == Err::<JsonV, EngineErrorV>(EngineErrorV::UnknownKind(kind))
            <==> lookup(reg, kind) is None,
        lookup(reg, kind) matches Some(r) ==> match r.observed() {
            Ok(v) => engine_state(reg, kind) == Ok::<JsonV, EngineErrorV>(v),
            Err(e) => engine_state(reg, kind) == Err::<JsonV, EngineErrorV>(
                EngineErrorV::Reconciler(e),
            ),
        },
{
}

/// A plan of an engine is that of the reconciler of the kind, with its label
/// and its changes, and its errors are those of that reconciler.
pub proof fn law_engine_plans_by_kind<R: Reconciler>(
    res: Result<Plan, EngineError>,
    reg: Seq<(Seq<char>, R)>,
    kind: Seq<char>,
    changes: spec_fn(R) -> Result<Seq<ChangeV>, ReconcilerErrorV>,
)
    requires
        engine_planned(res, reg, kind, changes),
    ensures
        lookup(reg, kind) is None ==> res is Err && res->Err_0@ == EngineErrorV::UnknownKind(kind),
        lookup(reg, kind) matches Some(r) ==> match changes(r) {
            Ok(cs) => res is Ok && res->Ok_0@.changes == cs && res->Ok_0@.kind == r.label(),
            Err(e) => res is Err && res->Err_0@ == EngineErrorV::Reconciler(e),
        },
{
}

} // verus!
