//! Comparing two maps of named values, and what carrying the differences out
//! does to the first of them.
use vstd::prelude::*;
use crate::converge::{
    change, changes_view, idle, usual_change, usual_severity, Action, Change, ChangeV,
};
use crate::json::{json_same, lemma_json_same_refl, member, object_view, Json, JsonV};
use crate::ordmap::{
    erase, lemma_asymmetric, lemma_erase_at, lemma_lookup_early, lemma_put_at, lemma_rest_sorted, lookup,
    put, sorted, Linear, StrMap,
};
use crate::text;

verus! {

/// Named values in the order of their names.
pub type Named = Seq<(Seq<char>, JsonV)>;

/// Two members that may be missing are the same.
pub open spec fn same_member(a: Option<JsonV>, b: Option<JsonV>) -> bool {
    match (a, b) {
        (Some(x), Some(y)) => json_same(x, y),
        (None, None) => true,
        _ => false,
    }
}

/// How a value is brought from `have` to `want`: replaced where they differ
/// in the member `pivot`, else updated.
pub open spec fn update_action(pivot: Option<Seq<char>>, have: JsonV, want: JsonV) -> Action {
    match pivot {
        Some(p) => if same_member(member(have, p), member(want, p)) {
            Action::Update
        } else {
            Action::Replace
        },
        None => Action::Update,
    }
}

/// The change that makes a value that is not there.
pub open spec fn creation(prefix: Seq<char>, e: (Seq<char>, JsonV)) -> ChangeV {
    usual_change(prefix + e.0, Action::Create, None, Some(e.1))
}

/// The change that removes a value.
pub open spec fn deletion(prefix: Seq<char>, e: (Seq<char>, JsonV)) -> ChangeV {
    usual_change(prefix + e.0, Action::Delete, Some(e.1), None)
}

/// The change that brings a value from `have` to `want`.
pub open spec fn alteration(
    prefix: Seq<char>,
    pivot: Option<Seq<char>>,
    name: Seq<char>,
    have: JsonV,
    want: JsonV,
) -> ChangeV {
    usual_change(prefix + name, update_action(pivot, have, want), Some(have), Some(want))
}

/// The differences between what is there and what is wanted, name by name in
/// the order of the names: a creation for a name that is only wanted, a
/// deletion for one that is only there, an alteration for one whose values
/// differ.
pub open spec fn differences(
    prefix: Seq<char>,
    pivot: Option<Seq<char>>,
    have: Named,
    want: Named,
) -> Seq<ChangeV>
    decreases have.len() + want.len(),
{
    if have.len() == 0 && want.len() == 0 {
        Seq::empty()
    } else if have.len() == 0 || (want.len() > 0 && want[0].0.precedes(have[0].0)) {
        seq![creation(prefix, want[0])] + differences(prefix, pivot, have, want.drop_first())
    } else if want.len() == 0 || have[0].0 != want[0].0 {
        seq![deletion(prefix, have[0])] + differences(prefix, pivot, have.drop_first(), want)
    } else {
        let rest = differences(prefix, pivot, have.drop_first(), want.drop_first());
        if json_same(have[0].1, want[0].1) {
            rest
        } else {
            seq![alteration(prefix, pivot, have[0].0, have[0].1, want[0].1)] + rest
        }
    }
}

/// The view of a member name that may be missing.
pub open spec fn name_view(p: Option<&str>) -> Option<Seq<char>> {
    match p {
        Some(s) => Some(s@),
        None => None,
    }
}

/// Decide how to bring a value from `have` to `want`.
fn action_for(pivot: Option<&str>, have: &Json, want: &Json) -> (r: Action)
    ensures
        r == update_action(name_view(pivot), have@, want@),
{
    match pivot {
        Some(p) => match (have.get(p), want.get(p)) {
            (Some(x), Some(y)) => if x.same_as(y) {
                Action::Update
            } else {
                Action::Replace
            },
            (None, None) => Action::Update,
            _ => Action::Replace,
        },
        None => Action::Update,
    }
}

/// The differences between two maps, as changes at addresses that begin with
/// `prefix`; see [`differences`].
pub fn diff(
    prefix: &str,
    pivot: Option<&str>,
    current: &StrMap<Json>,
    desired: &StrMap<Json>,
) -> (r: Vec<Change>)
    ensures
        changes_view(r@) == differences(
            prefix@,
            name_view(pivot),
            object_view(current@),
            object_view(desired@),
        ),
{
    let ghost h = object_view(current@);
    let ghost w = object_view(desired@);
    let ghost p = name_view(pivot);
    let mut out: Vec<Change> = Vec::new();
    let mut i: usize = 0;
    let mut j: usize = 0;
    proof {
        assert(h.skip(0) =~= h);
        assert(w.skip(0) =~= w);
        assert(changes_view(out@) + differences(prefix@, p, h, w) =~= differences(prefix@, p, h, w));
    }
    while i < current.entries.len() || j < desired.entries.len()
        invariant
            i <= current.entries@.len(),
            j <= desired.entries@.len(),
            h == object_view(current@),
            w == object_view(desired@),
            p == name_view(pivot),
            changes_view(out@) + differences(prefix@, p, h.skip(i as int), w.skip(j as int))
                == differences(prefix@, p, h, w),
        decreases current.entries.len() - i + desired.entries.len() - j,
    {
        let ghost hs = h.skip(i as int);
        let ghost ws = w.skip(j as int);
        let ghost done = changes_view(out@);
        proof {
            if i < h.len() {
                assert(hs[0] == (current.entries@[i as int].0@, current.entries@[i as int].1@));
                assert(hs.drop_first() =~= h.skip(i + 1));
            }
            if j < w.len() {
                assert(ws[0] == (desired.entries@[j as int].0@, desired.entries@[j as int].1@));
                assert(ws.drop_first() =~= w.skip(j + 1));
            }
        }
        if i == current.entries.len() || (j < desired.entries.len() && text::before(
            desired.entries[j].0.as_str(),
            current.entries[i].0.as_str(),
        )) {
            let e = &desired.entries[j];
            let address = text::join2(prefix, e.0.as_str());
            let c = change(address.as_str(), Action::Create, None, Some(e.1.clone()));
            proof {
                assert(c@ == creation(prefix@, ws[0]));
                let rest = differences(prefix@, p, hs, ws.drop_first());
                assert(done.push(c@) + rest =~= done + (seq![c@] + rest));
            }
            out.push(c);
            proof {
                assert(changes_view(out@) =~= done.push(c@));
            }
            j += 1;
        } else if j == desired.entries.len() || !text::same(
            current.entries[i].0.as_str(),
            desired.entries[j].0.as_str(),
        ) {
            let e = &current.entries[i];
            let address = text::join2(prefix, e.0.as_str());
            let c = change(address.as_str(), Action::Delete, Some(e.1.clone()), None);
            proof {
                assert(c@ == deletion(prefix@, hs[0]));
                let rest = differences(prefix@, p, hs.drop_first(), ws);
                assert(done.push(c@) + rest =~= done + (seq![c@] + rest));
            }
            out.push(c);
            proof {
                assert(changes_view(out@) =~= done.push(c@));
            }
            i += 1;
        } else {
            let a = &current.entries[i];
            let b = &desired.entries[j];
            if !a.1.same_as(&b.1) {
                let address = text::join2(prefix, a.0.as_str());
                let action = action_for(pivot, &a.1, &b.1);
                let c = change(address.as_str(), action, Some(a.1.clone()), Some(b.1.clone()));
                proof {
                    assert(c@ == alteration(prefix@, p, hs[0].0, hs[0].1, ws[0].1));
                    let rest = differences(prefix@, p, hs.drop_first(), ws.drop_first());
                    assert(done.push(c@) + rest =~= done + (seq![c@] + rest));
                }
                out.push(c);
                proof {
                    assert(changes_view(out@) =~= done.push(c@));
                }
            }
            i += 1;
            j += 1;
        }
    }
    proof {
        assert(changes_view(out@) + differences(prefix@, p, h.skip(i as int), w.skip(j as int))
            =~= changes_view(out@));
    }
    out
}

// ── Carrying the differences out ───────────────────────────────────

/// The name that an address speaks of: without the prefix where it has it.
pub open spec fn name_in(prefix: Seq<char>, address: Seq<char>) -> Seq<char> {
    if text::stands_at(address, prefix, 0) {
        address.skip(prefix.len() as int)
    } else {
        address
    }
}

/// The name that an address speaks of.
pub fn name_of(prefix: &str, address: &str) -> (r: String)
    ensures
        r@ == name_in(prefix@, address@),
{
    match text::strip_prefix(address, prefix) {
        Some(s) => s,
        None => address.to_owned(),
    }
}

/// A name comes back out of the address made for it.
pub proof fn lemma_name_in(prefix: Seq<char>, name: Seq<char>)
    ensures
        name_in(prefix, prefix + name) == name,
{
    assert((prefix + name).subrange(0, prefix.len() as int) =~= prefix);
    assert((prefix + name).skip(prefix.len() as int) =~= name);
}

/// What one change makes of the values that are there. A change that writes
/// but holds nothing to write changes nothing.
pub open spec fn carried_out(prefix: Seq<char>, state: Named, c: ChangeV) -> Named {
    let name = name_in(prefix, c.address);
    match c.action {
        Action::Delete => erase(state, name),
        Action::NoOp => state,
        _ => match c.after {
            Some(v) => put(state, name, v),
            None => state,
        },
    }
}

/// What a list of changes makes of the values that are there.
pub open spec fn all_carried_out(prefix: Seq<char>, state: Named, cs: Seq<ChangeV>) -> Named
    decreases cs.len(),
{
    if cs.len() == 0 {
        state
    } else {
        all_carried_out(prefix, carried_out(prefix, state, cs[0]), cs.drop_first())
    }
}

/// The wanted values, each with the one that was there where the two are the
/// same.
pub open spec fn settled(have: Named, want: Named) -> Named
    decreases have.len() + want.len(),
{
    if have.len() == 0 && want.len() == 0 {
        Seq::empty()
    } else if have.len() == 0 || (want.len() > 0 && want[0].0.precedes(have[0].0)) {
        seq![want[0]] + settled(have, want.drop_first())
    } else if want.len() == 0 || have[0].0 != want[0].0 {
        settled(have.drop_first(), want)
    } else if json_same(have[0].1, want[0].1) {
        seq![have[0]] + settled(have.drop_first(), want.drop_first())
    } else {
        seq![want[0]] + settled(have.drop_first(), want.drop_first())
    }
}

/// The same names with the same values.
pub open spec fn agree(a: Named, b: Named) -> bool {
    a.len() == b.len() && forall|i: int|
        #![trigger a[i]]
        0 <= i < a.len() ==> a[i].0 == b[i].0 && json_same(a[i].1, b[i].1)
}

proof fn lemma_settled_agrees(have: Named, want: Named)
    ensures
        agree(settled(have, want), want),
    decreases have.len() + want.len(),
{
    let t = settled(have, want);
    if have.len() == 0 && want.len() == 0 {
    } else if have.len() == 0 || (want.len() > 0 && want[0].0.precedes(have[0].0)) {
        lemma_settled_agrees(have, want.drop_first());
        let s = settled(have, want.drop_first());
        lemma_json_same_refl(want[0].1);
        assert forall|i: int| #![trigger t[i]] 0 <= i < t.len() implies t[i].0 == want[i].0 && json_same(
            t[i].1,
            want[i].1,
        ) by {
            if i > 0 {
                assert(t[i] == s[i - 1]);
                assert(want.drop_first()[i - 1] == want[i]);
            }
        }
    } else if want.len() == 0 || have[0].0 != want[0].0 {
        lemma_settled_agrees(have.drop_first(), want);
    } else {
        lemma_settled_agrees(have.drop_first(), want.drop_first());
        let s = settled(have.drop_first(), want.drop_first());
        lemma_json_same_refl(want[0].1);
        assert forall|i: int| #![trigger t[i]] 0 <= i < t.len() implies t[i].0 == want[i].0 && json_same(
            t[i].1,
            want[i].1,
        ) by {
            if i > 0 {
                assert(t[i] == s[i - 1]);
                assert(want.drop_first()[i - 1] == want[i]);
            }
        }
    }
}

/// Between two maps there are no differences exactly when they agree.
pub proof fn law_no_difference_iff_agree(
    prefix: Seq<char>,
    pivot: Option<Seq<char>>,
    have: Named,
    want: Named,
)
    ensures
        differences(prefix, pivot, have, want).len() == 0 <==> agree(have, want),
    decreases have.len() + want.len(),
{
    if have.len() == 0 && want.len() == 0 {
    } else if have.len() == 0 || (want.len() > 0 && want[0].0.precedes(have[0].0)) {
        if have.len() > 0 {
            Linear::irreflexive(have[0].0);
            assert(agree(have, want) ==> have[0].0 == want[0].0);
        }
    } else if want.len() == 0 || have[0].0 != want[0].0 {
        assert(agree(have, want) ==> have[0].0 == want[0].0);
    } else {
        let a = have.drop_first();
        let b = want.drop_first();
        law_no_difference_iff_agree(prefix, pivot, a, b);
        if agree(have, want) {
            assert(json_same(have[0].1, want[0].1));
            assert forall|i: int| #![trigger a[i]] 0 <= i < a.len() implies a[i].0 == b[i].0 && json_same(
                a[i].1,
                b[i].1,
            ) by {
                assert(a[i] == have[i + 1]);
            }
        } else if json_same(have[0].1, want[0].1) && agree(a, b) {
            assert forall|i: int| #![trigger have[i]] 0 <= i < have.len() implies have[i].0 == want[i].0
                && json_same(have[i].1, want[i].1) by {
                if i > 0 {
                    assert(a[i - 1] == have[i]);
                    assert(b[i - 1] == want[i]);
                }
            }
        }
    }
}

/// The entries of two sequences in order stay in order when the head of the
/// second moves to the end of the first.
proof fn lemma_shift<V>(done: Seq<(Seq<char>, V)>, rest: Seq<(Seq<char>, V)>)
    requires
        rest.len() > 0,
    ensures
        done.push(rest[0]) + rest.drop_first() == done + rest,
{
    assert(done.push(rest[0]) + rest.drop_first() =~= done + rest);
}

/// Leaving out the head of the second sequence keeps the order.
proof fn lemma_skip_sorted(done: Named, rest: Named)
    requires
        sorted(done + rest),
        rest.len() > 0,
    ensures
        sorted(done + rest.drop_first()),
{
    let a = done + rest;
    let b = done + rest.drop_first();
    assert forall|i: int, j: int| #![trigger b[i], b[j]] 0 <= i < j < b.len() implies b[i].0.precedes(
        b[j].0,
    ) by {
        let ai = if i < done.len() {
            i
        } else {
            i + 1
        };
        let aj = if j < done.len() {
            j
        } else {
            j + 1
        };
        assert(b[i] == a[ai] && b[j] == a[aj]);
    }
}

/// An entry set between two parts keeps the order where its key is above the
/// first and below the second.
proof fn lemma_between_sorted(done: Named, e: (Seq<char>, JsonV), rest: Named)
    requires
        sorted(done.push(e)),
        sorted(done + rest),
        rest.len() > 0 ==> e.0.precedes(rest[0].0),
    ensures
        sorted(done.push(e) + rest),
{
    let a = done + rest;
    let d = done.push(e);
    let b = d + rest;
    assert forall|i: int, j: int| #![trigger b[i], b[j]] 0 <= i < j < b.len() implies b[i].0.precedes(
        b[j].0,
    ) by {
        if j <= done.len() {
            assert(b[i] == d[i] && b[j] == d[j]);
        } else {
            assert(b[j] == a[j - 1]);
            if i < done.len() {
                assert(b[i] == a[i]);
            } else if i == done.len() {
                assert(b[i] == e);
                assert(a[done.len() as int] == rest[0]);
                if j - 1 > done.len() {
                    assert(a[done.len() as int].0.precedes(a[j - 1].0));
                    Linear::transitive(e.0, rest[0].0, a[j - 1].0);
                }
            } else {
                assert(b[i] == a[i - 1]);
            }
        }
    }
}

/// A prefix of a sorted sequence is sorted.
proof fn lemma_front_sorted(a: Named, n: int)
    requires
        sorted(a),
        0 <= n <= a.len(),
    ensures
        sorted(a.take(n)),
{
    let t = a.take(n);
    assert forall|i: int, j: int| #![trigger t[i], t[j]] 0 <= i < j < t.len() implies t[i].0.precedes(
        t[j].0,
    ) by {
        assert(t[i] == a[i] && t[j] == a[j]);
    }
}

/// In `done + rest` every key of `done` is below the first of `rest`.
proof fn lemma_all_below(done: Named, rest: Named, k: Seq<char>)
    requires
        sorted(done + rest),
        rest.len() > 0,
        rest[0].0 == k,
    ensures
        forall|j: int| 0 <= j < done.len() ==> (#[trigger] (done + rest)[j]).0.precedes(k),
        forall|j: int| 0 <= j < done.len() ==> (#[trigger] done[j]).0.precedes(k),
{
    let a = done + rest;
    assert(a[done.len() as int] == rest[0]);
    assert forall|j: int| 0 <= j < done.len() implies (#[trigger] a[j]).0.precedes(k) by {
    }
    assert forall|j: int| 0 <= j < done.len() implies (#[trigger] done[j]).0.precedes(k) by {
        assert(a[j] == done[j]);
    }
}

/// Carrying the differences out from a point on settles what comes behind it.
#[verifier::spinoff_prover]
#[verifier::rlimit(40)]
proof fn lemma_carried_out(
    prefix: Seq<char>,
    pivot: Option<Seq<char>>,
    done: Named,
    have: Named,
    want: Named,
)
    requires
        sorted(done + have),
        sorted(done + want),
    ensures
        all_carried_out(prefix, done + have, differences(prefix, pivot, have, want)) == done + settled(
            have,
            want,
        ),
    decreases have.len() + want.len(),
{
    let cs = differences(prefix, pivot, have, want);
    let n = done.len() as int;
    if have.len() == 0 && want.len() == 0 {
        assert(done + have =~= done);
        assert(done + settled(have, want) =~= done);
    } else if have.len() == 0 || (want.len() > 0 && want[0].0.precedes(have[0].0)) {
        let e = want[0];
        let rest = differences(prefix, pivot, have, want.drop_first());
        assert(cs.drop_first() =~= rest);
        lemma_name_in(prefix, e.0);
        lemma_all_below(done, want, e.0);
        let s = done + have;
        assert forall|j: int| 0 <= j < n implies (#[trigger] s[j]).0.precedes(e.0) by {
            assert(s[j] == done[j]);
        }
        if have.len() > 0 {
            assert(s[n] == have[0]);
            lemma_asymmetric(e.0, have[0].0);
        }
        lemma_put_at(s, e.0, e.1, n);
        assert(s.insert(n, e) =~= done.push(e) + have);
        lemma_shift(done, want);
        lemma_front_sorted(done + want, n + 1);
        assert((done + want).take(n + 1) =~= done.push(e));
        lemma_between_sorted(done, e, have);
        lemma_carried_out(prefix, pivot, done.push(e), have, want.drop_first());
        assert(done.push(e) + settled(have, want.drop_first()) =~= done + (seq![e] + settled(
            have,
            want.drop_first(),
        )));
    } else if want.len() == 0 || have[0].0 != want[0].0 {
        let e = have[0];
        let rest = differences(prefix, pivot, have.drop_first(), want);
        assert(cs.drop_first() =~= rest);
        lemma_name_in(prefix, e.0);
        lemma_all_below(done, have, e.0);
        let s = done + have;
        assert(s[n] == e);
        assert forall|j: int| 0 <= j < n implies (#[trigger] s[j]).0 != e.0 by {
            Linear::irreflexive(e.0);
        }
        lemma_erase_at(s, e.0, n);
        assert(s.remove(n) =~= done + have.drop_first());
        lemma_skip_sorted(done, have);
        lemma_carried_out(prefix, pivot, done, have.drop_first(), want);
    } else {
        let a = have[0];
        let b = want[0];
        let rest = differences(prefix, pivot, have.drop_first(), want.drop_first());
        let s = done + have;
        let tail = settled(have.drop_first(), want.drop_first());
        lemma_shift(done, have);
        lemma_shift(done, want);
        if json_same(a.1, b.1) {
            let p = done.push(a);
            lemma_same_keys_sorted(done, a, b, want.drop_first());
            lemma_carried_out(prefix, pivot, p, have.drop_first(), want.drop_first());
            assert(p + tail =~= done + (seq![a] + tail));
        } else {
            assert(cs.drop_first() =~= rest);
            lemma_name_in(prefix, a.0);
            lemma_all_below(done, have, a.0);
            assert(s[n] == a);
            Linear::irreflexive(a.0);
            lemma_put_at(s, a.0, b.1, n);
            let p = done.push(b);
            assert(s.update(n, b) =~= p + have.drop_first());
            lemma_same_keys_sorted(done, b, a, have.drop_first());
            lemma_carried_out(prefix, pivot, p, have.drop_first(), want.drop_first());
            assert(p + tail =~= done + (seq![b] + tail));
        }
    }
}

/// The order rests on the keys alone.
proof fn lemma_same_keys_sorted(done: Named, a: (Seq<char>, JsonV), b: (Seq<char>, JsonV), rest: Named)
    requires
        sorted(done.push(b) + rest),
        a.0 == b.0,
    ensures
        sorted(done.push(a) + rest),
{
    let s = done.push(b) + rest;
    let t = done.push(a) + rest;
    assert forall|i: int, j: int| #![trigger t[i], t[j]] 0 <= i < j < t.len() implies t[i].0.precedes(
        t[j].0,
    ) by {
        assert(t[i].0 == s[i].0 && t[j].0 == s[j].0);
    }
}

/// Carrying out the differences leaves values that agree with the wanted
/// ones.
pub proof fn law_differences_settle(
    prefix: Seq<char>,
    pivot: Option<Seq<char>>,
    have: Named,
    want: Named,
)
    requires
        sorted(have),
        sorted(want),
    ensures
        agree(all_carried_out(prefix, have, differences(prefix, pivot, have, want)), want),
{
    let none: Named = Seq::empty();
    assert(none + have =~= have);
    assert(none + want =~= want);
    lemma_carried_out(prefix, pivot, none, have, want);
    assert(none + settled(have, want) =~= settled(have, want));
    lemma_settled_agrees(have, want);
}

/// Applying converges: once the differences are carried out, there are none
/// left.
pub proof fn law_apply_converges(
    prefix: Seq<char>,
    pivot: Option<Seq<char>>,
    have: Named,
    want: Named,
)
    requires
        sorted(have),
        sorted(want),
    ensures
        differences(
            prefix,
            pivot,
            all_carried_out(prefix, have, differences(prefix, pivot, have, want)),
            want,
        ).len() == 0,
{
    law_differences_settle(prefix, pivot, have, want);
    law_no_difference_iff_agree(
        prefix,
        pivot,
        all_carried_out(prefix, have, differences(prefix, pivot, have, want)),
        want,
    );
}

/// Changes that do nothing leave the values as they are.
pub proof fn law_idle_changes_nothing(prefix: Seq<char>, state: Named, cs: Seq<ChangeV>)
    requires
        idle(cs),
    ensures
        all_carried_out(prefix, state, cs) == state,
    decreases cs.len(),
{
    if cs.len() > 0 {
        assert(cs[0].action == Action::NoOp);
        assert forall|i: int| 0 <= i < cs.drop_first().len() implies (#[trigger] cs.drop_first()[i]).action
            == Action::NoOp by {
            assert(cs.drop_first()[i] == cs[i + 1]);
        }
        law_idle_changes_nothing(prefix, state, cs.drop_first());
    }
}

/// Every difference does something, with the usual severity of what it does.
pub proof fn law_differences_are_effective(
    prefix: Seq<char>,
    pivot: Option<Seq<char>>,
    have: Named,
    want: Named,
)
    ensures
        forall|i: int|
            0 <= i < differences(prefix, pivot, have, want).len() ==> (#[trigger] differences(
                prefix,
                pivot,
                have,
                want,
            )[i]).action != Action::NoOp,
        forall|i: int|
            0 <= i < differences(prefix, pivot, have, want).len() ==> (#[trigger] differences(
                prefix,
                pivot,
                have,
                want,
            )[i]).severity == usual_severity(differences(prefix, pivot, have, want)[i].action),
    decreases have.len() + want.len(),
{
    if have.len() == 0 && want.len() == 0 {
    } else if have.len() == 0 || (want.len() > 0 && want[0].0.precedes(have[0].0)) {
        law_differences_are_effective(prefix, pivot, have, want.drop_first());
    } else if want.len() == 0 || have[0].0 != want[0].0 {
        law_differences_are_effective(prefix, pivot, have.drop_first(), want);
    } else {
        law_differences_are_effective(prefix, pivot, have.drop_first(), want.drop_first());
    }
}

// ── The differences, name by name ──────────────────────────────────

/// What becomes of one name: it is created where it is only wanted, deleted
/// where it is only there, altered where the values differ, and else left
/// alone.
pub open spec fn difference_at(
    prefix: Seq<char>,
    pivot: Option<Seq<char>>,
    have: Named,
    want: Named,
    name: Seq<char>,
) -> Option<ChangeV> {
    match (lookup(have, name), lookup(want, name)) {
        (None, None) => None,
        (None, Some(w)) => Some(creation(prefix, (name, w))),
        (Some(h), None) => Some(deletion(prefix, (name, h))),
        (Some(h), Some(w)) => if json_same(h, w) {
            None
        } else {
            Some(alteration(prefix, pivot, name, h, w))
        },
    }
}

/// The differences are what becomes of the names, and nothing else.
pub proof fn law_differences_by_name(
    prefix: Seq<char>,
    pivot: Option<Seq<char>>,
    have: Named,
    want: Named,
    c: ChangeV,
)
    requires
        sorted(have),
        sorted(want),
    ensures
        differences(prefix, pivot, have, want).contains(c) <==> exists|n: Seq<char>| #[trigger]
            difference_at(prefix, pivot, have, want, n) == Some(c),
    decreases have.len() + want.len(),
{
    let at = |n: Seq<char>| difference_at(prefix, pivot, have, want, n);
    let all = differences(prefix, pivot, have, want);
    if have.len() == 0 && want.len() == 0 {
    } else {
        let making = have.len() == 0 || (want.len() > 0 && want[0].0.precedes(have[0].0));
        let ending = !making && (want.len() == 0 || have[0].0 != want[0].0);
        let a = if making {
            have
        } else {
            have.drop_first()
        };
        let b = if ending {
            want
        } else {
            want.drop_first()
        };
        let first = if making {
            want[0].0
        } else {
            have[0].0
        };
        let rest = differences(prefix, pivot, a, b);
        if !making && !ending {
            assert(have[0].0 == want[0].0);
        }
        if ending && want.len() > 0 {
            Linear::total(have[0].0, want[0].0);
        }
        lemma_rest_sorted(have, a, first);
        lemma_rest_sorted(want, b, first);
        lemma_lookup_early(a, first);
        lemma_lookup_early(b, first);
        law_differences_by_name(prefix, pivot, a, b, c);
        assert forall|n: Seq<char>| n != first implies #[trigger] difference_at(
            prefix,
            pivot,
            a,
            b,
            n,
        ) == at(n) by {}
        assert(difference_at(prefix, pivot, a, b, first) is None);
        match at(first) {
            Some(x) => {
                assert(all =~= seq![x] + rest);
                lemma_contains_first(x, rest, c);
            },
            None => {
                assert(all == rest);
            },
        }
        if rest.contains(c) {
            let n = choose|n: Seq<char>| #[trigger]
                difference_at(prefix, pivot, a, b, n) == Some(c);
            assert(difference_at(prefix, pivot, have, want, n) == Some(c));
        }
        if exists|n: Seq<char>| #[trigger] difference_at(prefix, pivot, have, want, n) == Some(c) {
            let n = choose|n: Seq<char>| #[trigger]
                difference_at(prefix, pivot, have, want, n) == Some(c);
            if n != first {
                assert(difference_at(prefix, pivot, a, b, n) == Some(c));
            }
        }
    }
}

/// What a sequence with one more in front holds.
pub proof fn lemma_contains_first(x: ChangeV, rest: Seq<ChangeV>, c: ChangeV)
    ensures
        (seq![x] + rest).contains(c) <==> c == x || rest.contains(c),
{
    let all = seq![x] + rest;
    if all.contains(c) {
        let i = choose|i: int| 0 <= i < all.len() && all[i] == c;
        if i > 0 {
            assert(rest[i - 1] == c);
        }
    }
    if c == x {
        assert(all[0] == c);
    }
    if rest.contains(c) {
        let i = choose|i: int| 0 <= i < rest.len() && rest[i] == c;
        assert(all[i + 1] == c);
    }
}

/// What is only wanted is created, what is only there is deleted, and what is
/// otherwise there is altered; the change tells what was there and what is
/// wanted.
pub proof fn law_changes_tell_before_and_after(
    prefix: Seq<char>,
    pivot: Option<Seq<char>>,
    name: Seq<char>,
    have: JsonV,
    want: JsonV,
)
    ensures
        creation(prefix, (name, want)).action == Action::Create,
        creation(prefix, (name, want)).before is None,
        creation(prefix, (name, want)).after == Some(want),
        creation(prefix, (name, want)).address == prefix + name,
        deletion(prefix, (name, have)).action == Action::Delete,
        deletion(prefix, (name, have)).before == Some(have),
        deletion(prefix, (name, have)).after is None,
        deletion(prefix, (name, have)).address == prefix + name,
        alteration(prefix, pivot, name, have, want).before == Some(have),
        alteration(prefix, pivot, name, have, want).after == Some(want),
        alteration(prefix, pivot, name, have, want).address == prefix + name,
{
}

/// What is altered is replaced exactly where the kind has a pivot and the two
/// values do not have the same under it; else it is updated in place.
pub proof fn law_pivot_replaces(pivot: Option<Seq<char>>, have: JsonV, want: JsonV)
    ensures
        update_action(pivot, have, want) == Action::Update || update_action(pivot, have, want)
            == Action::Replace,
        update_action(pivot, have, want) == Action::Replace <==> pivot is Some && !(match (
            member(have, pivot->Some_0),
            member(want, pivot->Some_0),
        ) {
            (Some(x), Some(y)) => json_same(x, y),
            (None, None) => true,
            _ => false,
        }),
{
}

/// Carrying a change out sets what it names to what is wanted, or takes it
/// away, and touches nothing else.
pub proof fn law_carrying_out_touches_one(
    prefix: Seq<char>,
    state: Named,
    c: ChangeV,
    name: Seq<char>,
    other: Seq<char>,
)
    requires
        sorted(state),
        c.address == prefix + name,
    ensures
        sorted(carried_out(prefix, state, c)),
        c.action == Action::Delete ==> lookup(carried_out(prefix, state, c), name) is None,
        c.action == Action::NoOp ==> carried_out(prefix, state, c) == state,
        c.action != Action::Delete && c.action != Action::NoOp && c.after is Some ==> lookup(
            carried_out(prefix, state, c),
            name,
        ) == c.after,
        other != name ==> lookup(carried_out(prefix, state, c), other) == lookup(state, other),
{
    assert(c.address.subrange(0, prefix.len() as int) =~= prefix);
    assert(c.address.skip(prefix.len() as int) =~= name);
    crate::ordmap::lemma_erase_sorted(state, name);
    crate::ordmap::lemma_erase_lookup(state, name, name);
    crate::ordmap::lemma_erase_lookup(state, name, other);
    if let Some(v) = c.after {
        crate::ordmap::lemma_put_sorted(state, name, v);
        crate::ordmap::lemma_put_lookup(state, name, v, name);
        crate::ordmap::lemma_put_lookup(state, name, v, other);
    }
}

proof fn lemma_prefixed_order(prefix: Seq<char>, a: Seq<char>, b: Seq<char>)
    ensures
        text::lex_lt(prefix + a, prefix + b) == text::lex_lt(a, b),
    decreases prefix.len(),
{
    if prefix.len() == 0 {
        assert(prefix + a =~= a);
        assert(prefix + b =~= b);
    } else {
        lemma_prefixed_order(prefix.drop_first(), a, b);
        assert((prefix + a).drop_first() =~= prefix.drop_first() + a);
        assert((prefix + b).drop_first() =~= prefix.drop_first() + b);
    }
}

spec fn all_behind(prefix: Seq<char>, cs: Seq<ChangeV>, name: Seq<char>) -> bool {
    forall|i: int| 0 <= i < cs.len() ==> text::lex_lt(prefix + name, (#[trigger] cs[i]).address)
}

proof fn lemma_differences_behind(
    prefix: Seq<char>,
    pivot: Option<Seq<char>>,
    have: Named,
    want: Named,
    name: Seq<char>,
)
    requires
        sorted(have),
        sorted(want),
        have.len() > 0 ==> name.precedes(have[0].0),
        want.len() > 0 ==> name.precedes(want[0].0),
    ensures
        all_behind(prefix, differences(prefix, pivot, have, want), name),
    decreases have.len() + want.len(),
{
    let cs = differences(prefix, pivot, have, want);
    if have.len() == 0 && want.len() == 0 {
    } else if have.len() == 0 || (want.len() > 0 && want[0].0.precedes(have[0].0)) {
        let t = want.drop_first();
        crate::ordmap::lemma_tail_sorted(want);
        if t.len() > 0 {
            assert(want[0].0.precedes(want[1].0));
            Linear::transitive(name, want[0].0, t[0].0);
        }
        lemma_differences_behind(prefix, pivot, have, t, name);
        lemma_prefixed_order(prefix, name, want[0].0);
        let rest = differences(prefix, pivot, have, t);
        assert forall|i: int| 0 <= i < cs.len() implies text::lex_lt(
            prefix + name,
            (#[trigger] cs[i]).address,
        ) by {
            if i > 0 {
                assert(cs[i] == rest[i - 1]);
            }
        }
    } else if want.len() == 0 || have[0].0 != want[0].0 {
        let t = have.drop_first();
        crate::ordmap::lemma_tail_sorted(have);
        if t.len() > 0 {
            assert(have[0].0.precedes(have[1].0));
            Linear::transitive(name, have[0].0, t[0].0);
        }
        lemma_differences_behind(prefix, pivot, t, want, name);
        lemma_prefixed_order(prefix, name, have[0].0);
        let rest = differences(prefix, pivot, t, want);
        assert forall|i: int| 0 <= i < cs.len() implies text::lex_lt(
            prefix + name,
            (#[trigger] cs[i]).address,
        ) by {
            if i > 0 {
                assert(cs[i] == rest[i - 1]);
            }
        }
    } else {
        let th = have.drop_first();
        let tw = want.drop_first();
        crate::ordmap::lemma_tail_sorted(have);
        crate::ordmap::lemma_tail_sorted(want);
        if th.len() > 0 {
            assert(have[0].0.precedes(have[1].0));
            Linear::transitive(name, have[0].0, th[0].0);
        }
        if tw.len() > 0 {
            assert(want[0].0.precedes(want[1].0));
            Linear::transitive(name, want[0].0, tw[0].0);
        }
        lemma_differences_behind(prefix, pivot, th, tw, name);
        lemma_prefixed_order(prefix, name, have[0].0);
        let rest = differences(prefix, pivot, th, tw);
        assert forall|i: int| 0 <= i < cs.len() implies text::lex_lt(
            prefix + name,
            (#[trigger] cs[i]).address,
        ) by {
            if cs.len() > rest.len() && i > 0 {
                assert(cs[i] == rest[i - 1]);
            } else if cs.len() == rest.len() {
                assert(cs[i] == rest[i]);
            }
        }
    }
}

/// The changes of a plan stand in the order of their addresses, no address
/// twice.
pub proof fn law_differences_in_order(
    prefix: Seq<char>,
    pivot: Option<Seq<char>>,
    have: Named,
    want: Named,
)
    requires
        sorted(have),
        sorted(want),
    ensures
        forall|i: int, j: int|
            #![trigger differences(prefix, pivot, have, want)[i], differences(
                prefix,
                pivot,
                have,
                want,
            )[j]]
            0 <= i < j < differences(prefix, pivot, have, want).len() ==> text::lex_lt(
                differences(prefix, pivot, have, want)[i].address,
                differences(prefix, pivot, have, want)[j].address,
            ),
    decreases have.len() + want.len(),
{
    let cs = differences(prefix, pivot, have, want);
    if have.len() == 0 && want.len() == 0 {
    } else if have.len() == 0 || (want.len() > 0 && want[0].0.precedes(have[0].0)) {
        let t = want.drop_first();
        crate::ordmap::lemma_tail_sorted(want);
        if t.len() > 0 {
            assert(want[0].0.precedes(want[1].0));
        }
        law_differences_in_order(prefix, pivot, have, t);
        lemma_differences_behind(prefix, pivot, have, t, want[0].0);
        let rest = differences(prefix, pivot, have, t);
        lemma_ordered_push_front(prefix, cs, rest, want[0].0);
    } else if want.len() == 0 || have[0].0 != want[0].0 {
        let t = have.drop_first();
        crate::ordmap::lemma_tail_sorted(have);
        if t.len() > 0 {
            assert(have[0].0.precedes(have[1].0));
        }
        if want.len() > 0 {
            Linear::total(have[0].0, want[0].0);
        }
        law_differences_in_order(prefix, pivot, t, want);
        lemma_differences_behind(prefix, pivot, t, want, have[0].0);
        let rest = differences(prefix, pivot, t, want);
        lemma_ordered_push_front(prefix, cs, rest, have[0].0);
    } else {
        let th = have.drop_first();
        let tw = want.drop_first();
        crate::ordmap::lemma_tail_sorted(have);
        crate::ordmap::lemma_tail_sorted(want);
        if th.len() > 0 {
            assert(have[0].0.precedes(have[1].0));
        }
        if tw.len() > 0 {
            assert(want[0].0.precedes(want[1].0));
        }
        law_differences_in_order(prefix, pivot, th, tw);
        if !json_same(have[0].1, want[0].1) {
            lemma_differences_behind(prefix, pivot, th, tw, have[0].0);
            let rest = differences(prefix, pivot, th, tw);
            lemma_ordered_push_front(prefix, cs, rest, have[0].0);
        }
    }
}

proof fn lemma_ordered_push_front(
    prefix: Seq<char>,
    cs: Seq<ChangeV>,
    rest: Seq<ChangeV>,
    name: Seq<char>,
)
    requires
        cs.len() == rest.len() + 1,
        cs[0].address == prefix + name,
        forall|i: int| 0 <= i < rest.len() ==> cs[i + 1] == #[trigger] rest[i],
        all_behind(prefix, rest, name),
        forall|i: int, j: int|
            #![trigger rest[i], rest[j]]
            0 <= i < j < rest.len() ==> text::lex_lt(rest[i].address, rest[j].address),
    ensures
        forall|i: int, j: int|
            #![trigger cs[i], cs[j]]
            0 <= i < j < cs.len() ==> text::lex_lt(cs[i].address, cs[j].address),
{
    assert forall|i: int, j: int|
        #![trigger cs[i], cs[j]]
        0 <= i < j < cs.len() implies text::lex_lt(cs[i].address, cs[j].address) by {
        assert(cs[j] == rest[j - 1]);
        if i > 0 {
            assert(cs[i] == rest[i - 1]);
        }
    }
}

} // verus!
