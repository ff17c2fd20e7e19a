//! Policies in layers, of which the innermost counts.
use vstd::prelude::*;

verus! {

/// A policy that another one can be laid over, field by field.
pub trait CascadePolicy: Sized {
    /// What a policy says.
    type M;

    spec fn model(&self) -> Self::M;

    /// What a policy says with another one laid over it.
    spec fn merged(a: Self::M, layer: Self::M) -> Self::M;

    /// Laying the same layer over twice is laying it over once.
    proof fn merge_is_idempotent(a: Self::M, layer: Self::M)
        ensures
            Self::merged(Self::merged(a, layer), layer) == Self::merged(a, layer),
    ;

    /// Laying two layers over is laying over the two of them merged.
    proof fn merge_is_associative(a: Self::M, b: Self::M, c: Self::M)
        ensures
            Self::merged(Self::merged(a, b), c) == Self::merged(a, Self::merged(b, c)),
    ;

    /// Lay a layer over.
    fn merge(&mut self, layer: &Self)
        ensures
            final(self).model() == Self::merged(old(self).model(), layer.model()),
    ;
}

/// The layers that are there.
pub open spec fn layer_models<P: CascadePolicy>(layers: Seq<Option<P>>) -> Seq<Option<P::M>> {
    Seq::new(
        layers.len(),
        |i: int|
            match layers[i] {
                Some(p) => Some(p.model()),
                None => None,
            },
    )
}

/// What a default says with layers laid over it in their order; layers that
/// are missing are passed over.
pub open spec fn resolved<P: CascadePolicy>(layers: Seq<Option<P::M>>, default: P::M) -> P::M
    decreases layers.len(),
{
    if layers.len() == 0 {
        default
    } else {
        let below = resolved::<P>(layers.drop_last(), default);
        match layers.last() {
            Some(m) => P::merged(below, m),
            None => below,
        }
    }
}

/// Lay layers over a default; see [`resolved`].
pub fn resolve<P: CascadePolicy>(layers: &Vec<Option<P>>, default: P) -> (r: P)
    ensures
        r.model() == resolved::<P>(layer_models(layers@), default.model()),
{
    let ghost all = layer_models(layers@);
    let ghost start = default.model();
    let mut r = default;
    let mut i: usize = 0;
    proof {
        assert(all.take(0) =~= Seq::empty());
    }
    while i < layers.len()
        invariant
            i <= layers@.len(),
            all == layer_models(layers@),
            r.model() == resolved::<P>(all.take(i as int), start),
        decreases layers.len() - i,
    {
        proof {
            assert(all.take(i + 1).drop_last() =~= all.take(i as int));
            assert(all.take(i + 1).last() == all[i as int]);
        }
        match &layers[i] {
            Some(p) => {
                r.merge(p);
            },
            None => {},
        }
        i += 1;
    }
    proof {
        assert(all.take(all.len() as int) =~= all);
    }
    r
}

/// The same layer twice in a row is the same as once.
pub proof fn law_layer_twice_is_once<P: CascadePolicy>(layers: Seq<Option<P::M>>, m: P::M, default: P::M)
    ensures
        resolved::<P>(layers.push(Some(m)).push(Some(m)), default) == resolved::<P>(
            layers.push(Some(m)),
            default,
        ),
{
    let one = layers.push(Some(m));
    assert(one.push(Some(m)).drop_last() =~= one);
    assert(one.drop_last() =~= layers);
    P::merge_is_idempotent(resolved::<P>(layers, default), m);
}

/// A layer that is missing changes nothing.
pub proof fn law_missing_layer<P: CascadePolicy>(layers: Seq<Option<P::M>>, default: P::M)
    ensures
        resolved::<P>(layers.push(None), default) == resolved::<P>(layers, default),
{
    assert(layers.push(None).drop_last() =~= layers);
}

/// Two layers one over the other are the same as the two of them merged.
pub proof fn law_layers_merge<P: CascadePolicy>(layers: Seq<Option<P::M>>, a: P::M, b: P::M, default: P::M)
    ensures
        resolved::<P>(layers.push(Some(a)).push(Some(b)), default) == resolved::<P>(
            layers.push(Some(P::merged(a, b))),
            default,
        ),
{
    let one = layers.push(Some(a));
    assert(one.push(Some(b)).drop_last() =~= one);
    assert(one.drop_last() =~= layers);
    assert(layers.push(Some(P::merged(a, b))).drop_last() =~= layers);
    let below = resolved::<P>(layers, default);
    assert(resolved::<P>(one, default) == P::merged(below, a));
    assert(resolved::<P>(one.push(Some(b)), default) == P::merged(P::merged(below, a), b));
    P::merge_is_associative(below, a, b);
}

// ── Reactive policies ──────────────────────────────────────────────

/// What to do after failures in a row.
#[derive(Clone, Debug, PartialEq, Eq)]
pub struct FailureEscalation {
    pub max_consecutive_failures: u32,
    pub action: String,
}

/// What to do where a phase takes too long.
#[derive(Clone, Debug, PartialEq, Eq)]
pub struct PhaseTimeoutPolicy {
    pub compiling: String,
    pub planning: String,
    pub applying: String,
    pub action: String,
}

/// What to do where a verified change stays blocked.
#[derive(Clone, Debug, PartialEq, Eq)]
pub struct VerifiedBlockedPolicy {
    pub timeout: String,
    pub action: String,
}

/// How to react to trouble.
#[derive(Clone, Debug, PartialEq, Eq)]
pub struct ReactivePolicy {
    pub failure_escalation: Option<FailureEscalation>,
    pub phase_timeout: Option<PhaseTimeoutPolicy>,
    pub verified_blocked: Option<VerifiedBlockedPolicy>,
}

#[verifier::ext_equal]
pub struct EscalationV {
    pub max_consecutive_failures: u32,
    pub action: Seq<char>,
}

#[verifier::ext_equal]
pub struct PhaseTimeoutV {
    pub compiling: Seq<char>,
    pub planning: Seq<char>,
    pub applying: Seq<char>,
    pub action: Seq<char>,
}

#[verifier::ext_equal]
pub struct BlockedV {
    pub timeout: Seq<char>,
    pub action: Seq<char>,
}

/// What a [`ReactivePolicy`] says.
#[verifier::ext_equal]
pub struct ReactiveV {
    pub failure_escalation: Option<EscalationV>,
    pub phase_timeout: Option<PhaseTimeoutV>,
    pub verified_blocked: Option<BlockedV>,
}

impl View for FailureEscalation {
    type V = EscalationV;

    open spec fn view(&self) -> EscalationV {
        EscalationV { max_consecutive_failures: self.max_consecutive_failures, action: self.action@ }
    }
}

impl View for PhaseTimeoutPolicy {
    type V = PhaseTimeoutV;

    open spec fn view(&self) -> PhaseTimeoutV {
        PhaseTimeoutV {
            compiling: self.compiling@,
            planning: self.planning@,
            applying: self.applying@,
            action: self.action@,
        }
    }
}

impl View for VerifiedBlockedPolicy {
    type V = BlockedV;

    open spec fn view(&self) -> BlockedV {
        BlockedV { timeout: self.timeout@, action: self.action@ }
    }
}

impl View for ReactivePolicy {
    type V = ReactiveV;

    open spec fn view(&self) -> ReactiveV {
        ReactiveV {
            failure_escalation: match self.failure_escalation {
                Some(x) => Some(x@),
                None => None,
            },
            phase_timeout: match self.phase_timeout {
                Some(x) => Some(x@),
                None => None,
            },
            verified_blocked: match self.verified_blocked {
                Some(x) => Some(x@),
                None => None,
            },
        }
    }
}

impl Default for ReactivePolicy {
    fn default() -> (r: Self)
        ensures
            r@ == (ReactiveV { failure_escalation: None, phase_timeout: None, verified_blocked: None }),
    {
        ReactivePolicy { failure_escalation: None, phase_timeout: None, verified_blocked: None }
    }
}

/// The upper one where it is there, else the lower one.
pub open spec fn over<T>(lower: Option<T>, upper: Option<T>) -> Option<T> {
    match upper {
        Some(x) => Some(x),
        None => lower,
    }
}

impl CascadePolicy for ReactivePolicy {
    type M = ReactiveV;

    open spec fn model(&self) -> ReactiveV {
        self@
    }

    open spec fn merged(a: ReactiveV, layer: ReactiveV) -> ReactiveV {
        ReactiveV {
            failure_escalation: over(a.failure_escalation, layer.failure_escalation),
            phase_timeout: over(a.phase_timeout, layer.phase_timeout),
            verified_blocked: over(a.verified_blocked, layer.verified_blocked),
        }
    }

    proof fn merge_is_idempotent(a: ReactiveV, layer: ReactiveV) {
    }

    proof fn merge_is_associative(a: ReactiveV, b: ReactiveV, c: ReactiveV) {
    }

    fn merge(&mut self, layer: &Self) {
        match &layer.failure_escalation {
            Some(v) => {
                self.failure_escalation = Some(
                    FailureEscalation {
                        max_consecutive_failures: v.max_consecutive_failures,
                        action: v.action.clone(),
                    },
                );
            },
            None => {},
        }
        match &layer.phase_timeout {
            Some(v) => {
                self.phase_timeout = Some(
                    PhaseTimeoutPolicy {
                        compiling: v.compiling.clone(),
                        planning: v.planning.clone(),
                        applying: v.applying.clone(),
                        action: v.action.clone(),
                    },
                );
            },
            None => {},
        }
        match &layer.verified_blocked {
            Some(v) => {
                self.verified_blocked = Some(
                    VerifiedBlockedPolicy { timeout: v.timeout.clone(), action: v.action.clone() },
                );
            },
            None => {},
        }
    }
}

/// The innermost layer counts, field by field: what it sets is what holds,
/// and what it leaves open is as the layers outside it have it.
pub proof fn law_innermost_wins(layers: Seq<Option<ReactiveV>>, m: ReactiveV, default: ReactiveV)
    ensures
        ({
            let outer = resolved::<ReactivePolicy>(layers, default);
            let all = resolved::<ReactivePolicy>(layers.push(Some(m)), default);
            &&& all.failure_escalation == over(outer.failure_escalation, m.failure_escalation)
            &&& all.phase_timeout == over(outer.phase_timeout, m.phase_timeout)
            &&& all.verified_blocked == over(outer.verified_blocked, m.verified_blocked)
        }),
{
    assert(layers.push(Some(m)).drop_last() =~= layers);
}

/// Where the upper layer says something it counts, else the lower one; without
/// layers the default does.
pub proof fn law_upper_layer_counts<T>(lower: Option<T>, x: T, default: ReactiveV)
    ensures
        over(lower, Some(x)) == Some(x),
        over(lower, None) == lower,
        resolved::<ReactivePolicy>(Seq::empty(), default) == default,
{
}

} // verus!
