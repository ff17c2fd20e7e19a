//! Results taken together, and members found by name.
use vstd::prelude::*;

verus! {

/// All of `n` results together: where each is there, what they hold, in
/// order; else the first error among them.
pub open spec fn gathered<T, E>(
    r: Result<Seq<T>, E>,
    n: int,
    each: spec_fn(int) -> Result<T, E>,
) -> bool {
    match r {
        Ok(xs) => xs.len() == n && forall|i: int|
            0 <= i < n ==> each(i) == Ok::<T, E>(#[trigger] xs[i]),
        Err(e) => exists|i: int|
            0 <= i < n && #[trigger] each(i) == Err::<T, E>(e) && forall|j: int|
                0 <= j < i ==> #[trigger] each(j) is Ok,
    }
}

/// The member `key` stands at `j`, and none of that name before it.
pub open spec fn first_under<V>(m: Seq<(Seq<char>, V)>, key: Seq<char>, j: int) -> bool {
    0 <= j < m.len() && m[j].0 == key && forall|k: int|
        0 <= k < j ==> (#[trigger] m[k]).0 != key
}

/// There is no member `key`.
pub open spec fn none_under<V>(m: Seq<(Seq<char>, V)>, key: Seq<char>) -> bool {
    forall|k: int| 0 <= k < m.len() ==> (#[trigger] m[k]).0 != key
}

/// One result more: it is added where all before it are there.
pub proof fn lemma_gathered_push<T, E>(
    prev: Result<Seq<T>, E>,
    r: Result<Seq<T>, E>,
    n: int,
    each: spec_fn(int) -> Result<T, E>,
)
    requires
        0 <= n,
        gathered(prev, n, each),
        r == match prev {
            Ok(xs) => match each(n) {
                Ok(x) => Ok(xs.push(x)),
                Err(e) => Err(e),
            },
            Err(e) => Err(e),
        },
    ensures
        gathered(r, n + 1, each),
{
    if let Ok(xs) = prev {
        assert forall|j: int| 0 <= j < n implies #[trigger] each(j) is Ok by {
            assert(each(j) == Ok::<T, E>(xs[j]));
        }
    }
}

} // verus!
