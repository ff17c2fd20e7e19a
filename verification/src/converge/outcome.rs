//! Outcomes ordered by severity, and how several of them combine.
use vstd::prelude::*;

verus! {

/// An outcome with a severity: the higher, the worse.
pub trait OutcomeLattice: Sized {
    /// What an outcome says.
    type M;

    spec fn model(&self) -> Self::M;

    /// The severity of an outcome.
    spec fn level(m: Self::M) -> u32;

    /// The best outcome.
    spec fn base() -> Self::M;

    /// The best outcome has severity zero.
    proof fn base_is_best()
        ensures
            Self::level(Self::base()) == 0,
    ;

    /// The severity: the higher, the worse.
    fn severity(&self) -> (r: u32)
        ensures
            r == Self::level(self.model()),
    ;

    /// The best outcome.
    fn baseline() -> (r: Self)
        ensures
            r.model() == Self::base(),
    ;

    /// The same outcome once more.
    fn again(&self) -> (r: Self)
        ensures
            r.model() == self.model(),
    ;

    /// The worse of two outcomes; this one where both are as bad.
    fn worst(&self, other: &Self) -> (r: Self)
        ensures
            r.model() == if Self::level(self.model()) >= Self::level(other.model()) {
                self.model()
            } else {
                other.model()
            },
    {
        if self.severity() >= other.severity() {
            self.again()
        } else {
            other.again()
        }
    }

    /// The better of two outcomes; this one where both are as good.
    fn best(&self, other: &Self) -> (r: Self)
        ensures
            r.model() == if Self::level(self.model()) <= Self::level(other.model()) {
                self.model()
            } else {
                other.model()
            },
    {
        if self.severity() <= other.severity() {
            self.again()
        } else {
            other.again()
        }
    }

    /// The greatest lower bound: the better of the two.
    fn meet(&self, other: &Self) -> (r: Self)
        ensures
            r.model() == if Self::level(self.model()) <= Self::level(other.model()) {
                self.model()
            } else {
                other.model()
            },
    {
        self.best(other)
    }

    /// The least upper bound: the worse of the two.
    fn join(&self, other: &Self) -> (r: Self)
        ensures
            r.model() == if Self::level(self.model()) >= Self::level(other.model()) {
                self.model()
            } else {
                other.model()
            },
    {
        self.worst(other)
    }

    /// Whether nothing is wrong.
    fn is_baseline(&self) -> (r: bool)
        ensures
            r == (Self::level(self.model()) == 0),
    {
        self.severity() == 0
    }
}

/// The worse of two outcomes; the first where both are as bad.
pub open spec fn worse<O: OutcomeLattice>(a: O::M, b: O::M) -> O::M {
    if O::level(a) >= O::level(b) {
        a
    } else {
        b
    }
}

/// The better of two outcomes; the first where both are as good.
pub open spec fn better<O: OutcomeLattice>(a: O::M, b: O::M) -> O::M {
    if O::level(a) <= O::level(b) {
        a
    } else {
        b
    }
}

/// What outcomes say.
pub open spec fn models<O: OutcomeLattice>(xs: Seq<O>) -> Seq<O::M> {
    Seq::new(xs.len(), |i: int| xs[i].model())
}

/// The worst of outcomes, starting from the best there is.
pub open spec fn worst_among<O: OutcomeLattice>(xs: Seq<O::M>) -> O::M
    decreases xs.len(),
{
    if xs.len() == 0 {
        O::base()
    } else {
        worse::<O>(worst_among::<O>(xs.drop_last()), xs.last())
    }
}

/// The best of outcomes, if there are any.
pub open spec fn best_among<O: OutcomeLattice>(xs: Seq<O::M>) -> Option<O::M>
    decreases xs.len(),
{
    if xs.len() == 0 {
        None
    } else {
        match best_among::<O>(xs.drop_last()) {
            None => Some(xs.last()),
            Some(m) => Some(better::<O>(m, xs.last())),
        }
    }
}

/// The worst of outcomes; the best there is where there are none.
pub fn worst_of<O: OutcomeLattice>(xs: &Vec<O>) -> (r: O)
    ensures
        r.model() == worst_among::<O>(models(xs@)),
{
    let ghost all = models(xs@);
    let mut acc = O::baseline();
    let mut i: usize = 0;
    proof {
        assert(all.take(0) =~= Seq::empty());
    }
    while i < xs.len()
        invariant
            i <= xs@.len(),
            all == models(xs@),
            acc.model() == worst_among::<O>(all.take(i as int)),
        decreases xs.len() - i,
    {
        proof {
            assert(all.take(i + 1).drop_last() =~= all.take(i as int));
            assert(all.take(i + 1).last() == xs@[i as int].model());
        }
        acc = acc.worst(&xs[i]);
        i += 1;
    }
    proof {
        assert(all.take(all.len() as int) =~= all);
    }
    acc
}

/// The best of outcomes, if there are any.
pub fn best_of<O: OutcomeLattice>(xs: &Vec<O>) -> (r: Option<O>)
    ensures
        match r {
            Some(x) => best_among::<O>(models(xs@)) == Some(x.model()),
            None => best_among::<O>(models(xs@)) is None,
        },
{
    let ghost all = models(xs@);
    if xs.len() == 0 {
        return None;
    }
    let mut acc = xs[0].again();
    let mut i: usize = 1;
    proof {
        assert(all.take(1).drop_last() =~= Seq::empty());
        assert(all.take(1).last() == xs@[0].model());
        assert(best_among::<O>(all.take(1).drop_last()) is None);
    }
    while i < xs.len()
        invariant
            1 <= i <= xs@.len(),
            all == models(xs@),
            best_among::<O>(all.take(i as int)) == Some(acc.model()),
        decreases xs.len() - i,
    {
        proof {
            assert(all.take(i + 1).drop_last() =~= all.take(i as int));
            assert(all.take(i + 1).last() == xs@[i as int].model());
        }
        acc = acc.best(&xs[i]);
        i += 1;
    }
    proof {
        assert(all.take(all.len() as int) =~= all);
    }
    Some(acc)
}

/// An outcome combined with itself is itself.
pub proof fn law_idempotent<O: OutcomeLattice>(a: O::M)
    ensures
        worse::<O>(a, a) == a,
        better::<O>(a, a) == a,
{
}

/// The order of two outcomes makes no difference, unless they are different
/// outcomes of one severity; it never makes one to the severity.
pub proof fn law_commutative<O: OutcomeLattice>(a: O::M, b: O::M)
    ensures
        O::level(a) != O::level(b) || a == b ==> worse::<O>(a, b) == worse::<O>(b, a),
        O::level(a) != O::level(b) || a == b ==> better::<O>(a, b) == better::<O>(b, a),
        O::level(worse::<O>(a, b)) == O::level(worse::<O>(b, a)),
        O::level(better::<O>(a, b)) == O::level(better::<O>(b, a)),
{
}

/// The grouping of three outcomes makes no difference.
pub proof fn law_associative<O: OutcomeLattice>(a: O::M, b: O::M, c: O::M)
    ensures
        worse::<O>(worse::<O>(a, b), c) == worse::<O>(a, worse::<O>(b, c)),
        better::<O>(better::<O>(a, b), c) == better::<O>(a, better::<O>(b, c)),
{
}

/// The best outcome adds nothing to a worst case, and settles a best case as
/// far as the severity goes.
pub proof fn law_baseline<O: OutcomeLattice>(a: O::M)
    ensures
        worse::<O>(a, O::base()) == a,
        O::level(worse::<O>(O::base(), a)) == O::level(a),
        O::level(better::<O>(a, O::base())) == 0,
{
    O::base_is_best();
}

/// The worst of outcomes is at least as bad as each of them, and is one of
/// them or the best there is.
pub proof fn law_worst_is_worst<O: OutcomeLattice>(xs: Seq<O::M>)
    ensures
        forall|i: int| #![trigger xs[i]] 0 <= i < xs.len() ==> O::level(xs[i]) <= O::level(worst_among::<O>(xs)),
        worst_among::<O>(xs) == O::base() || xs.contains(worst_among::<O>(xs)),
    decreases xs.len(),
{
    if xs.len() > 0 {
        let t = xs.drop_last();
        law_worst_is_worst::<O>(t);
        assert forall|i: int| #![trigger xs[i]] 0 <= i < xs.len() implies O::level(xs[i]) <= O::level(
            worst_among::<O>(xs),
        ) by {
            if i < t.len() {
                assert(t[i] == xs[i]);
            }
        }
        if worst_among::<O>(xs) == xs.last() {
            assert(xs[xs.len() - 1] == xs.last());
        } else if t.contains(worst_among::<O>(t)) {
            let i = choose|i: int| 0 <= i < t.len() && t[i] == worst_among::<O>(t);
            assert(xs[i] == t[i]);
        }
    }
}

/// The best of outcomes is at least as good as each of them, and is one of
/// them.
pub proof fn law_best_is_best<O: OutcomeLattice>(xs: Seq<O::M>)
    requires
        xs.len() > 0,
    ensures
        best_among::<O>(xs) is Some,
        forall|i: int|
            #![trigger xs[i]]
            0 <= i < xs.len() ==> O::level(best_among::<O>(xs)->Some_0) <= O::level(xs[i]),
        xs.contains(best_among::<O>(xs)->Some_0),
    decreases xs.len(),
{
    let t = xs.drop_last();
    assert(xs[xs.len() - 1] == xs.last());
    if t.len() > 0 {
        law_best_is_best::<O>(t);
        assert forall|i: int| #![trigger xs[i]] 0 <= i < xs.len() implies O::level(
            best_among::<O>(xs)->Some_0,
        ) <= O::level(xs[i]) by {
            if i < t.len() {
                assert(t[i] == xs[i]);
            }
        }
        let m = best_among::<O>(t)->Some_0;
        let i = choose|i: int| 0 <= i < t.len() && t[i] == m;
        assert(xs[i] == m);
    } else {
        assert(best_among::<O>(t) is None);
    }
}

/// Of two that are equally good or bad the first one stays.
pub proof fn law_ties_keep_the_first<O: OutcomeLattice>(a: O::M, b: O::M)
    requires
        O::level(a) == O::level(b),
    ensures
        worse::<O>(a, b) == a,
        better::<O>(a, b) == a,
{
}

} // verus!
