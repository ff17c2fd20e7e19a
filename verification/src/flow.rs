//! Flows across workspaces: the order in which they run, and the outputs
//! that travel along the edges between them.
use vstd::prelude::*;
use vstd::string::*;
use crate::config::{Config, OutputDeclV};
use crate::digest;
use crate::json;
use crate::json::{Json, JsonV};
use crate::ordmap;
use crate::ordmap::StrMap;
use crate::text;
use crate::text::same;

verus! {

// ── The flow ───────────────────────────────────────────────────────

#[derive(Debug)]
pub enum FlowError {
    /// A name that is not among the workspaces.
    UnknownWorkspace(String),
    /// The workspaces that no order can reach.
    Cycle(Vec<String>),
    /// A step of one workspace that failed.
    WorkspaceStep { workspace: String, stage: &'static str, message: String },
}

/// A list of texts, each in quotes.
pub open spec fn quoted_list(xs: Seq<Seq<char>>) -> Seq<char>
    decreases xs.len(),
{
    if xs.len() == 0 {
        Seq::empty()
    } else if xs.len() == 1 {
        text::str_debug(xs[0])
    } else {
        quoted_list(xs.drop_last()) + ", "@ + text::str_debug(xs.last())
    }
}

impl FlowError {
    /// What the error says.
    pub open spec fn said(&self) -> Seq<char> {
        match self {
            FlowError::UnknownWorkspace(n) => "flow references unknown workspace: "@ + n@,
            FlowError::Cycle(ns) => "flow has a cycle (involving: ["@ + quoted_list(
                text::texts(ns@),
            ) + "])"@,
            FlowError::WorkspaceStep { workspace, stage, message } => "workspace "@ + workspace@
                + ": "@ + stage@ + ": "@ + message@,
        }
    }

    /// The error in words.
    pub fn message(&self) -> (r: String)
        ensures
            r@ == self.said(),
    {
        match self {
            FlowError::UnknownWorkspace(n) => text::join2(
                "flow references unknown workspace: ",
                n.as_str(),
            ),
            FlowError::Cycle(ns) => {
                let list = quote_all(ns);
                text::join3("flow has a cycle (involving: [", list.as_str(), "])")
            },
            FlowError::WorkspaceStep { workspace, stage, message } => {
                let head = text::join4("workspace ", workspace.as_str(), ": ", stage);
                text::join3(head.as_str(), ": ", message.as_str())
            },
        }
    }
}

/// A list of texts, each in quotes.
fn quote_all(xs: &Vec<String>) -> (r: String)
    ensures
        r@ == quoted_list(text::texts(xs@)),
{
    let ghost all = text::texts(xs@);
    if xs.len() == 0 {
        let r = String::new();
        proof {
            assert(r@ =~= quoted_list(all));
        }
        return r;
    }
    let mut out = text::debug_text(xs[0].as_str());
    let mut i: usize = 1;
    proof {
        assert(all.take(1)[0] == xs@[0]@);
    }
    while i < xs.len()
        invariant
            1 <= i <= xs@.len(),
            all == text::texts(xs@),
            out@ == quoted_list(all.take(i as int)),
        decreases xs.len() - i,
    {
        proof {
            assert(all.take(i + 1).drop_last() =~= all.take(i as int));
            assert(all.take(i + 1).last() == xs@[i as int]@);
        }
        let q = text::debug_text(xs[i].as_str());
        out = text::join3(out.as_str(), ", ", q.as_str());
        i += 1;
    }
    proof {
        assert(all.take(all.len() as int) =~= all);
    }
    out
}

/// A workspace: a name and the directory that holds it.
#[derive(Clone, Debug)]
pub struct FlowWorkspace {
    pub name: String,
    pub dir: String,
}

/// `from.{from_output}` flows to `to.{to_input}`.
#[derive(Clone, Debug)]
pub struct FlowEdge {
    pub from: String,
    pub from_output: String,
    pub to: String,
    pub to_input: String,
}

/// Hints for the scheduler.
#[derive(Clone, Debug)]
pub struct OptimizationHints {
    pub strategy: Option<String>,
    pub max_concurrency: Option<usize>,
    pub retries: Option<OptimizationRetries>,
    pub timeout_ms: Option<u64>,
}

#[derive(Clone, Debug)]
pub struct OptimizationRetries {
    pub max: Option<u32>,
    pub backoff_ms: Option<u64>,
}

impl Default for OptimizationRetries {
    fn default() -> (r: Self)
        ensures
            r.max is None,
            r.backoff_ms is None,
    {
        OptimizationRetries { max: None, backoff_ms: None }
    }
}

impl Default for OptimizationHints {
    fn default() -> (r: Self)
        ensures
            r.strategy is None,
            r.max_concurrency is None,
            r.retries is None,
            r.timeout_ms is None,
    {
        OptimizationHints { strategy: None, max_concurrency: None, retries: None, timeout_ms: None }
    }
}

/// Workspaces, the edges between them, and hints.
#[derive(Clone, Debug)]
pub struct FlowFile {
    pub workspaces: Vec<FlowWorkspace>,
    pub edges: Vec<FlowEdge>,
    pub optimization: Option<OptimizationHints>,
}

impl Default for FlowFile {
    fn default() -> (r: Self)
        ensures
            r.workspaces@ == Seq::<FlowWorkspace>::empty(),
            r.edges@ == Seq::<FlowEdge>::empty(),
            r.optimization is None,
    {
        FlowFile { workspaces: Vec::new(), edges: Vec::new(), optimization: None }
    }
}

/// The names of the workspaces, in the order of their declaration.
pub open spec fn names_of(ws: Seq<FlowWorkspace>) -> Seq<Seq<char>> {
    Seq::new(ws.len(), |i: int| ws[i].name@)
}

/// The ends of the edges, in the order of their declaration.
pub open spec fn ends_of(es: Seq<FlowEdge>) -> Seq<(Seq<char>, Seq<char>)> {
    Seq::new(es.len(), |i: int| (es[i].from@, es[i].to@))
}

// ── The order ──────────────────────────────────────────────────────

/// The first end of an edge that is no workspace; of one edge the start
/// before the end.
pub open spec fn unknown_end(names: Seq<Seq<char>>, edges: Seq<(Seq<char>, Seq<char>)>) -> Option<
    Seq<char>,
>
    decreases edges.len(),
{
    if edges.len() == 0 {
        None
    } else {
        match unknown_end(names, edges.drop_last()) {
            Some(n) => Some(n),
            None => if !names.contains(edges.last().0) {
                Some(edges.last().0)
            } else if !names.contains(edges.last().1) {
                Some(edges.last().1)
            } else {
                None
            },
        }
    }
}

/// Some edge leads to `t`.
pub open spec fn has_edge_to(edges: Seq<(Seq<char>, Seq<char>)>, t: Seq<char>) -> bool {
    exists|k: int| 0 <= k < edges.len() && (#[trigger] edges[k]).1 == t
}

/// The names that no edge leads to.
pub open spec fn roots(names: Seq<Seq<char>>, edges: Seq<(Seq<char>, Seq<char>)>) -> Seq<Seq<char>>
    decreases names.len(),
{
    if names.len() == 0 {
        Seq::empty()
    } else {
        let front = roots(names.drop_last(), edges);
        if has_edge_to(edges, names.last()) {
            front
        } else {
            front.push(names.last())
        }
    }
}

/// After the edges out of the last name in `order` have been followed up to
/// and including edge `j`, edge `k` into `t` has not been followed yet.
pub open spec fn open_edge(
    edges: Seq<(Seq<char>, Seq<char>)>,
    order: Seq<Seq<char>>,
    j: int,
    t: Seq<char>,
    k: int,
) -> bool {
    edges[k].1 == t && (!order.contains(edges[k].0) || (edges[k].0 == order.last() && k > j))
}

/// Some edge into `t` has not been followed yet.
pub open spec fn waits(
    edges: Seq<(Seq<char>, Seq<char>)>,
    order: Seq<Seq<char>>,
    j: int,
    t: Seq<char>,
) -> bool {
    exists|k: int| 0 <= k < edges.len() && #[trigger] open_edge(edges, order, j, t, k)
}

/// What becomes ready as the first `n` edges out of the last name in `order`
/// are followed: each name as the last edge into it is.
pub open spec fn released(
    edges: Seq<(Seq<char>, Seq<char>)>,
    order: Seq<Seq<char>>,
    n: nat,
) -> Seq<Seq<char>>
    decreases n,
{
    if n == 0 {
        Seq::empty()
    } else {
        let front = released(edges, order, (n - 1) as nat);
        let e = edges[n - 1];
        if e.0 == order.last() && !waits(edges, order, n - 1, e.1) {
            front.push(e.1)
        } else {
            front
        }
    }
}

/// The names in the order in which they become ready. `queue` holds those
/// that are ready, `order` those that have had their turn; `steps` bounds the
/// number of turns.
pub open spec fn turns(
    edges: Seq<(Seq<char>, Seq<char>)>,
    queue: Seq<Seq<char>>,
    order: Seq<Seq<char>>,
    steps: nat,
) -> Seq<Seq<char>>
    decreases steps,
{
    if steps == 0 || queue.len() == 0 {
        order
    } else if order.contains(queue[0]) {
        turns(edges, queue.skip(1), order, (steps - 1) as nat)
    } else {
        let next = order.push(queue[0]);
        turns(
            edges,
            queue.skip(1) + released(edges, next, edges.len()),
            next,
            (steps - 1) as nat,
        )
    }
}

/// The names in the order in which they become ready: first those that no
/// edge leads to, in the order of their declaration, then each name as the
/// last edge into it is followed.
pub open spec fn ready_order(names: Seq<Seq<char>>, edges: Seq<(Seq<char>, Seq<char>)>) -> Seq<
    Seq<char>,
> {
    turns(edges, roots(names, edges), Seq::empty(), names.len() + edges.len())
}

/// The names that are not in `order`, each once.
pub open spec fn stuck_names(names: Seq<Seq<char>>, order: Seq<Seq<char>>) -> Seq<Seq<char>>
    decreases names.len(),
{
    if names.len() == 0 {
        Seq::empty()
    } else {
        let front = stuck_names(names.drop_last(), order);
        if order.contains(names.last()) || front.contains(names.last()) {
            front
        } else {
            front.push(names.last())
        }
    }
}

// ── Facts about the order ──────────────────────────────────────────

/// The edges out of names that have not had their turn.
spec fn unfollowed(
    edges: Seq<(Seq<char>, Seq<char>)>,
    order: Seq<Seq<char>>,
    n: nat,
) -> nat
    decreases n,
{
    if n == 0 {
        0
    } else {
        unfollowed(edges, order, (n - 1) as nat) + if order.contains(edges[n - 1].0) {
            0nat
        } else {
            1nat
        }
    }
}

proof fn lemma_contains_push(s: Seq<Seq<char>>, x: Seq<char>, y: Seq<char>)
    ensures
        s.push(x).contains(y) <==> s.contains(y) || x == y,
{
    if s.contains(y) {
        let i = choose|i: int| 0 <= i < s.len() && s[i] == y;
        assert(s.push(x)[i] == y);
    }
    if x == y {
        assert(s.push(x)[s.len() as int] == y);
    }
    if s.push(x).contains(y) {
        let i = choose|i: int| 0 <= i < s.push(x).len() && s.push(x)[i] == y;
        if i < s.len() {
            assert(s[i] == y);
        }
    }
}

/// Following the edges of one name releases no more names than it has edges.
proof fn lemma_released_count(
    edges: Seq<(Seq<char>, Seq<char>)>,
    order: Seq<Seq<char>>,
    x: Seq<char>,
    n: nat,
)
    requires
        !order.contains(x),
        n <= edges.len(),
    ensures
        unfollowed(edges, order.push(x), n) + released(edges, order.push(x), n).len() <= unfollowed(
            edges,
            order,
            n,
        ),
    decreases n,
{
    if n > 0 {
        lemma_released_count(edges, order, x, (n - 1) as nat);
        lemma_contains_push(order, x, edges[n - 1].0);
    }
}

proof fn lemma_unfollowed_bound(
    edges: Seq<(Seq<char>, Seq<char>)>,
    order: Seq<Seq<char>>,
    n: nat,
)
    ensures
        unfollowed(edges, order, n) <= n,
    decreases n,
{
    if n > 0 {
        lemma_unfollowed_bound(edges, order, (n - 1) as nat);
    }
}

/// What is released is the end of an edge, and waits for nothing.
proof fn lemma_released_ready(
    edges: Seq<(Seq<char>, Seq<char>)>,
    order: Seq<Seq<char>>,
    n: nat,
    i: int,
) -> (k: int)
    requires
        order.len() > 0,
        n <= edges.len(),
        0 <= i < released(edges, order, n).len(),
    ensures
        0 <= k < edges.len(),
        edges[k].1 == released(edges, order, n)[i],
        forall|j: int|
            0 <= j < edges.len() && (#[trigger] edges[j]).1 == edges[k].1 ==> order.contains(
                edges[j].0,
            ),
    decreases n,
{
    let front = released(edges, order, (n - 1) as nat);
    if i < front.len() {
        lemma_released_ready(edges, order, (n - 1) as nat, i)
    } else {
        let k = n - 1;
        assert forall|j: int| 0 <= j < edges.len() && (#[trigger] edges[j]).1 == edges[k].1
            implies order.contains(edges[j].0) by {
            if !order.contains(edges[j].0) {
                assert(open_edge(edges, order, n - 1, edges[k].1, j));
            }
        }
        k
    }
}

/// A name that an edge out of the last one leads to, and that waits for no
/// other, is released.
proof fn lemma_released_all(
    edges: Seq<(Seq<char>, Seq<char>)>,
    order: Seq<Seq<char>>,
    t: Seq<char>,
    k: int,
    n: nat,
)
    requires
        order.len() > 0,
        n <= edges.len(),
        0 <= k < n,
        edges[k] == (order.last(), t),
        forall|j: int|
            0 <= j < edges.len() && (#[trigger] edges[j]).1 == t ==> order.contains(edges[j].0),
        forall|j: int| n <= j < edges.len() ==> (#[trigger] edges[j]) != (order.last(), t),
    ensures
        released(edges, order, n).contains(t),
    decreases n,
{
    let front = released(edges, order, (n - 1) as nat);
    let e = edges[n - 1];
    if e == (order.last(), t) {
        assert(!waits(edges, order, n - 1, t)) by {
            if waits(edges, order, n - 1, t) {
                let j = choose|j: int|
                    0 <= j < edges.len() && #[trigger] open_edge(edges, order, n - 1, t, j);
                assert(edges[j].1 == t);
                assert(edges[j] == (order.last(), t));
            }
        }
        lemma_contains_push(front, t, t);
    } else {
        lemma_released_all(edges, order, t, k, (n - 1) as nat);
        lemma_contains_push(front, e.1, t);
    }
}

/// Every edge into the name at place `p` starts at an earlier place.
spec fn placed(edges: Seq<(Seq<char>, Seq<char>)>, order: Seq<Seq<char>>, p: int) -> bool {
    forall|k: int|
        #![trigger edges[k]]
        0 <= k < edges.len() && edges[k].1 == order[p] ==> order.take(p).contains(edges[k].0)
}

/// Every edge into `t` starts at a name in `order`.
spec fn ready(edges: Seq<(Seq<char>, Seq<char>)>, order: Seq<Seq<char>>, t: Seq<char>) -> bool {
    forall|k: int|
        #![trigger edges[k]]
        0 <= k < edges.len() && edges[k].1 == t ==> order.contains(edges[k].0)
}

/// What holds between two turns.
spec fn turn_inv(
    names: Seq<Seq<char>>,
    edges: Seq<(Seq<char>, Seq<char>)>,
    queue: Seq<Seq<char>>,
    order: Seq<Seq<char>>,
) -> bool {
    &&& order.no_duplicates()
    &&& forall|p: int|
        #![trigger order[p]]
        0 <= p < order.len() ==> names.contains(order[p]) && placed(edges, order, p)
    &&& forall|i: int|
        #![trigger queue[i]]
        0 <= i < queue.len() ==> names.contains(queue[i]) && ready(edges, order, queue[i])
    &&& forall|t: Seq<char>|
        #![trigger names.contains(t)]
        names.contains(t) && ready(edges, order, t) ==> order.contains(t) || queue.contains(t)
}

proof fn lemma_turns(
    names: Seq<Seq<char>>,
    edges: Seq<(Seq<char>, Seq<char>)>,
    queue: Seq<Seq<char>>,
    order: Seq<Seq<char>>,
    steps: nat,
)
    requires
        turn_inv(names, edges, queue, order),
        unknown_end(names, edges) is None,
        queue.len() + unfollowed(edges, order, edges.len()) <= steps,
    ensures
        turn_inv(names, edges, Seq::empty(), turns(edges, queue, order, steps)),
    decreases steps,
{
    if queue.len() == 0 {
        assert(queue =~= Seq::empty());
    } else {
        let x = queue[0];
        let rest = queue.skip(1);
        assert forall|t: Seq<char>| queue.contains(t) && t != x implies rest.contains(t) by {
            let i = choose|i: int| 0 <= i < queue.len() && queue[i] == t;
            assert(rest[i - 1] == t);
        }
        assert forall|i: int| #![trigger rest[i]] 0 <= i < rest.len() implies names.contains(
            rest[i],
        ) && ready(edges, order, rest[i]) by {
            assert(rest[i] == queue[i + 1]);
        }
        if order.contains(x) {
            lemma_turns(names, edges, rest, order, (steps - 1) as nat);
        } else {
            let next = order.push(x);
            let new = released(edges, next, edges.len());
            let queue2 = rest + new;
            lemma_released_count(edges, order, x, edges.len());
            assert forall|y: Seq<char>| next.contains(y) <==> order.contains(y) || x == y by {
                lemma_contains_push(order, x, y);
            }
            assert(next.no_duplicates());
            assert forall|p: int| #![trigger next[p]] 0 <= p < next.len() implies names.contains(
                next[p],
            ) && placed(edges, next, p) by {
                if p < order.len() {
                    assert(next[p] == order[p]);
                    assert(next.take(p) =~= order.take(p));
                } else {
                    assert(next.take(p) =~= order);
                    assert(ready(edges, order, queue[0]));
                }
            }
            assert forall|i: int| #![trigger queue2[i]] 0 <= i < queue2.len() implies names.contains(
                queue2[i],
            ) && ready(edges, next, queue2[i]) by {
                if i < rest.len() {
                    assert(queue2[i] == rest[i]);
                } else {
                    let k = lemma_released_ready(edges, next, edges.len(), i - rest.len());
                    assert(queue2[i] == new[i - rest.len()]);
                    lemma_known(names, edges, k);
                }
            }
            assert forall|t: Seq<char>|
                #![trigger names.contains(t)]
                names.contains(t) && ready(edges, next, t) implies next.contains(t)
                || queue2.contains(t) by {
                if ready(edges, order, t) {
                    if !next.contains(t) {
                        assert(queue.contains(t));
                        let i = choose|i: int| 0 <= i < rest.len() && rest[i] == t;
                        assert(queue2[i] == t);
                    }
                } else {
                    let k = choose|k: int|
                        #![trigger edges[k]]
                        0 <= k < edges.len() && edges[k].1 == t && !order.contains(edges[k].0);
                    assert(next.contains(edges[k].0));
                    assert(edges[k] == (x, t));
                    lemma_released_all(edges, next, t, k, edges.len());
                    let i = choose|i: int| 0 <= i < new.len() && new[i] == t;
                    assert(queue2[rest.len() + i] == t);
                }
            }
            lemma_turns(names, edges, queue2, next, (steps - 1) as nat);
        }
    }
}

/// Where no end is unknown, both ends of every edge are names.
proof fn lemma_known(names: Seq<Seq<char>>, edges: Seq<(Seq<char>, Seq<char>)>, k: int)
    requires
        unknown_end(names, edges) is None,
        0 <= k < edges.len(),
    ensures
        names.contains(edges[k].0),
        names.contains(edges[k].1),
    decreases edges.len(),
{
    if k < edges.len() - 1 {
        lemma_known(names, edges.drop_last(), k);
    }
}

proof fn lemma_roots(names: Seq<Seq<char>>, edges: Seq<(Seq<char>, Seq<char>)>)
    ensures
        roots(names, edges).len() <= names.len(),
        forall|t: Seq<char>|
            #![trigger roots(names, edges).contains(t)]
            roots(names, edges).contains(t) <==> names.contains(t) && !has_edge_to(edges, t),
    decreases names.len(),
{
    if names.len() > 0 {
        let front = names.drop_last();
        lemma_roots(front, edges);
        assert(front.push(names.last()) =~= names);
        assert forall|t: Seq<char>|
            #![trigger roots(names, edges).contains(t)]
            roots(names, edges).contains(t) <==> names.contains(t) && !has_edge_to(edges, t) by {
            lemma_contains_push(front, names.last(), t);
            lemma_contains_push(roots(front, edges), names.last(), t);
            assert(roots(front, edges).contains(t) <==> front.contains(t) && !has_edge_to(edges, t));
        }
    }
}

proof fn lemma_ready_order(names: Seq<Seq<char>>, edges: Seq<(Seq<char>, Seq<char>)>)
    requires
        unknown_end(names, edges) is None,
    ensures
        turn_inv(names, edges, Seq::empty(), ready_order(names, edges)),
{
    let queue = roots(names, edges);
    let order = Seq::<Seq<char>>::empty();
    lemma_roots(names, edges);
    lemma_unfollowed_bound(edges, order, edges.len());
    assert forall|i: int| #![trigger queue[i]] 0 <= i < queue.len() implies names.contains(queue[i])
        && ready(edges, order, queue[i]) by {
        assert(queue.contains(queue[i]));
    }
    assert forall|t: Seq<char>| #![trigger names.contains(t)] names.contains(t) && ready(
        edges,
        order,
        t,
    ) implies order.contains(t) || queue.contains(t) by {
        if has_edge_to(edges, t) {
            let k = choose|k: int| 0 <= k < edges.len() && (#[trigger] edges[k]).1 == t;
            assert(order.contains(edges[k].0));
        }
    }
    lemma_turns(names, edges, queue, order, names.len() + edges.len());
}

// ── Laws ───────────────────────────────────────────────────────────

/// `order` holds every name once and every edge leads forward in it.
pub open spec fn linearizes(
    names: Seq<Seq<char>>,
    edges: Seq<(Seq<char>, Seq<char>)>,
    order: Seq<Seq<char>>,
) -> bool {
    &&& order.no_duplicates()
    &&& order.len() == names.len()
    &&& forall|t: Seq<char>| #![trigger names.contains(t)] names.contains(t) <==> order.contains(t)
    &&& forall|k: int, p: int|
        #![trigger edges[k], order[p]]
        0 <= k < edges.len() && 0 <= p < order.len() && edges[k].1 == order[p] ==> order.take(
            p,
        ).contains(edges[k].0)
}

/// An order that reaches every workspace linearizes the flow: it holds each
/// of them once, and everything an edge leads to comes behind where it
/// starts.
pub proof fn law_order_linearizes(names: Seq<Seq<char>>, edges: Seq<(Seq<char>, Seq<char>)>)
    requires
        unknown_end(names, edges) is None,
        ready_order(names, edges).len() >= names.len(),
    ensures
        linearizes(names, edges, ready_order(names, edges)),
{
    let order = ready_order(names, edges);
    lemma_ready_order(names, edges);
    assert forall|t: Seq<char>| #![trigger names.contains(t)] order.contains(t) implies names.contains(
        t,
    ) by {
        let p = choose|p: int| 0 <= p < order.len() && order[p] == t;
        assert(names.contains(order[p]));
    }
    let a = order.to_set();
    let b = names.to_set();
    order.unique_seq_to_set();
    names.lemma_cardinality_of_set();
    assert(a.subset_of(b));
    vstd::set_lib::lemma_len_subset(a, b);
    assert(a.len() == b.len());
    vstd::set_lib::lemma_subset_equality(a, b);
    assert forall|t: Seq<char>| #![trigger names.contains(t)] names.contains(t) implies order.contains(
        t,
    ) by {
        assert(b.contains(t));
        assert(a.contains(t));
    }
    assert forall|k: int, p: int|
        #![trigger edges[k], order[p]]
        0 <= k < edges.len() && 0 <= p < order.len() && edges[k].1 == order[p] implies order.take(
        p,
    ).contains(edges[k].0) by {
        assert(placed(edges, order, p));
    }
}

/// Every workspace that the order does not reach waits for another that it
/// does not reach: it is on a cycle or behind one.
pub proof fn law_unreached_wait_for_unreached(
    names: Seq<Seq<char>>,
    edges: Seq<(Seq<char>, Seq<char>)>,
    t: Seq<char>,
)
    requires
        unknown_end(names, edges) is None,
        names.contains(t),
        !ready_order(names, edges).contains(t),
    ensures
        exists|k: int|
            0 <= k < edges.len() && (#[trigger] edges[k]).1 == t && names.contains(edges[k].0)
                && !ready_order(names, edges).contains(edges[k].0),
{
    lemma_ready_order(names, edges);
    let order = ready_order(names, edges);
    assert(!Seq::<Seq<char>>::empty().contains(t));
    assert(!ready(edges, order, t));
    let k = choose|k: int|
        #![trigger edges[k]]
        0 <= k < edges.len() && edges[k].1 == t && !order.contains(edges[k].0);
    lemma_known(names, edges, k);
    assert(edges[k].1 == t && names.contains(edges[k].0) && !order.contains(edges[k].0));
}

/// Where any order linearizes the flow, the order that is computed reaches
/// every workspace: a cycle is reported only where there is one.
pub proof fn law_linearizable_is_ordered(
    names: Seq<Seq<char>>,
    edges: Seq<(Seq<char>, Seq<char>)>,
    witness: Seq<Seq<char>>,
)
    requires
        unknown_end(names, edges) is None,
        linearizes(names, edges, witness),
    ensures
        linearizes(names, edges, ready_order(names, edges)),
{
    let order = ready_order(names, edges);
    lemma_ready_order(names, edges);
    assert forall|p: int| #![trigger witness[p]] 0 <= p < witness.len() implies order.contains(
        witness[p],
    ) by {
        lemma_reached(names, edges, witness, p);
    }
    let a = order.to_set();
    let b = witness.to_set();
    order.unique_seq_to_set();
    witness.unique_seq_to_set();
    assert forall|t: Seq<char>| b.contains(t) implies a.contains(t) by {
        let p = choose|p: int| 0 <= p < witness.len() && witness[p] == t;
        assert(order.contains(witness[p]));
    }
    order.lemma_cardinality_of_set();
    vstd::set_lib::lemma_len_subset(b, a);
    law_order_linearizes(names, edges);
}

proof fn lemma_reached(
    names: Seq<Seq<char>>,
    edges: Seq<(Seq<char>, Seq<char>)>,
    witness: Seq<Seq<char>>,
    p: int,
)
    requires
        unknown_end(names, edges) is None,
        linearizes(names, edges, witness),
        0 <= p < witness.len(),
    ensures
        ready_order(names, edges).contains(witness[p]),
    decreases p,
{
    let order = ready_order(names, edges);
    if !order.contains(witness[p]) {
        assert(witness.contains(witness[p]));
        assert(names.contains(witness[p]));
        law_unreached_wait_for_unreached(names, edges, witness[p]);
        let k = choose|k: int|
            0 <= k < edges.len() && (#[trigger] edges[k]).1 == witness[p] && names.contains(edges[k].0)
                && !order.contains(edges[k].0);
        assert(witness.take(p).contains(edges[k].0));
        let q = choose|q: int| 0 <= q < p && witness.take(p)[q] == edges[k].0;
        lemma_reached(names, edges, witness, q);
    }
}

// ── Computing the order ────────────────────────────────────────────

/// Whether a name is in a list.
fn has_name(v: &Vec<String>, n: &str) -> (r: bool)
    ensures
        r == text::texts(v@).contains(n@),
{
    let mut i: usize = 0;
    while i < v.len()
        invariant
            i <= v@.len(),
            forall|j: int| 0 <= j < i ==> text::texts(v@)[j] != n@,
        decreases v.len() - i,
    {
        if same(v[i].as_str(), n) {
            proof {
                assert(text::texts(v@)[i as int] == n@);
            }
            return true;
        }
        i += 1;
    }
    false
}

fn has_workspace(ws: &Vec<FlowWorkspace>, n: &str) -> (r: bool)
    ensures
        r == names_of(ws@).contains(n@),
{
    let mut i: usize = 0;
    while i < ws.len()
        invariant
            i <= ws@.len(),
            forall|j: int| 0 <= j < i ==> names_of(ws@)[j] != n@,
        decreases ws.len() - i,
    {
        if same(ws[i].name.as_str(), n) {
            proof {
                assert(names_of(ws@)[i as int] == n@);
            }
            return true;
        }
        i += 1;
    }
    false
}

fn first_unknown(flow: &FlowFile) -> (r: Option<String>)
    ensures
        match r {
            Some(n) => unknown_end(names_of(flow.workspaces@), ends_of(flow.edges@)) == Some(n@),
            None => unknown_end(names_of(flow.workspaces@), ends_of(flow.edges@)) is None,
        },
{
    let ghost names = names_of(flow.workspaces@);
    let ghost all = ends_of(flow.edges@);
    let mut i: usize = 0;
    proof {
        assert(all.take(0) =~= Seq::empty());
    }
    while i < flow.edges.len()
        invariant
            i <= flow.edges@.len(),
            names == names_of(flow.workspaces@),
            all == ends_of(flow.edges@),
            unknown_end(names, all.take(i as int)) is None,
        decreases flow.edges.len() - i,
    {
        let e = &flow.edges[i];
        proof {
            assert(all.take(i + 1).drop_last() =~= all.take(i as int));
            assert(all.take(i + 1).last() == (e.from@, e.to@));
        }
        if !has_workspace(&flow.workspaces, e.from.as_str()) {
            proof {
                lemma_unknown_stays(names, all, i + 1);
            }
            return Some(e.from.clone());
        }
        if !has_workspace(&flow.workspaces, e.to.as_str()) {
            proof {
                lemma_unknown_stays(names, all, i + 1);
            }
            return Some(e.to.clone());
        }
        i += 1;
    }
    proof {
        assert(all.take(all.len() as int) =~= all);
    }
    None
}

proof fn lemma_unknown_stays(names: Seq<Seq<char>>, edges: Seq<(Seq<char>, Seq<char>)>, n: int)
    requires
        0 <= n <= edges.len(),
        unknown_end(names, edges.take(n)) is Some,
    ensures
        unknown_end(names, edges) == unknown_end(names, edges.take(n)),
    decreases edges.len() - n,
{
    if n == edges.len() {
        assert(edges.take(n) =~= edges);
    } else {
        assert(edges.take(n + 1).drop_last() =~= edges.take(n));
        lemma_unknown_stays(names, edges, n + 1);
    }
}

fn edge_leads_to(edges: &Vec<FlowEdge>, t: &str) -> (r: bool)
    ensures
        r == has_edge_to(ends_of(edges@), t@),
{
    let mut k: usize = 0;
    while k < edges.len()
        invariant
            k <= edges@.len(),
            forall|j: int| 0 <= j < k ==> (#[trigger] ends_of(edges@)[j]).1 != t@,
        decreases edges.len() - k,
    {
        if same(edges[k].to.as_str(), t) {
            proof {
                assert(ends_of(edges@)[k as int].1 == t@);
            }
            return true;
        }
        k += 1;
    }
    false
}

fn root_names(flow: &FlowFile) -> (r: Vec<String>)
    ensures
        text::texts(r@) == roots(names_of(flow.workspaces@), ends_of(flow.edges@)),
{
    let ghost names = names_of(flow.workspaces@);
    let mut out: Vec<String> = Vec::new();
    let mut i: usize = 0;
    proof {
        assert(names.take(0) =~= Seq::empty());
        assert(text::texts(out@) =~= Seq::empty());
    }
    while i < flow.workspaces.len()
        invariant
            i <= flow.workspaces@.len(),
            names == names_of(flow.workspaces@),
            text::texts(out@) == roots(names.take(i as int), ends_of(flow.edges@)),
        decreases flow.workspaces.len() - i,
    {
        let ghost before = out@;
        proof {
            assert(names.take(i + 1).drop_last() =~= names.take(i as int));
            assert(names.take(i + 1).last() == flow.workspaces@[i as int].name@);
        }
        if !edge_leads_to(&flow.edges, flow.workspaces[i].name.as_str()) {
            out.push(flow.workspaces[i].name.clone());
            proof {
                assert(text::texts(out@) =~= text::texts(before).push(
                    flow.workspaces@[i as int].name@,
                ));
            }
        }
        i += 1;
    }
    proof {
        assert(names.take(names.len() as int) =~= names);
    }
    out
}

/// Whether some edge into `t` has not been followed yet.
fn still_waits(edges: &Vec<FlowEdge>, order: &Vec<String>, j: usize, t: &str) -> (r: bool)
    requires
        order@.len() > 0,
    ensures
        r == waits(ends_of(edges@), text::texts(order@), j as int, t@),
{
    let last = order[order.len() - 1].as_str();
    let mut k: usize = 0;
    while k < edges.len()
        invariant
            k <= edges@.len(),
            last@ == text::texts(order@).last(),
            forall|i: int|
                0 <= i < k ==> !#[trigger] open_edge(
                    ends_of(edges@),
                    text::texts(order@),
                    j as int,
                    t@,
                    i,
                ),
        decreases edges.len() - k,
    {
        let e = &edges[k];
        proof {
            assert(ends_of(edges@)[k as int] == (e.from@, e.to@));
        }
        if same(e.to.as_str(), t) && (!has_name(order, e.from.as_str()) || (same(
            e.from.as_str(),
            last,
        ) && k > j)) {
            proof {
                assert(open_edge(ends_of(edges@), text::texts(order@), j as int, t@, k as int));
            }
            return true;
        }
        k += 1;
    }
    false
}

/// Queue what becomes ready as the edges out of the last name are followed.
fn release(edges: &Vec<FlowEdge>, order: &Vec<String>, queue: &mut Vec<String>)
    requires
        order@.len() > 0,
    ensures
        text::texts(final(queue)@) == text::texts(old(queue)@) + released(
            ends_of(edges@),
            text::texts(order@),
            edges@.len(),
        ),
{
    let ghost start = text::texts(queue@);
    let last = order[order.len() - 1].as_str();
    let mut j: usize = 0;
    proof {
        assert(start + Seq::<Seq<char>>::empty() =~= start);
    }
    while j < edges.len()
        invariant
            j <= edges@.len(),
            order@.len() > 0,
            last@ == text::texts(order@).last(),
            text::texts(queue@) == start + released(
                ends_of(edges@),
                text::texts(order@),
                j as nat,
            ),
        decreases edges.len() - j,
    {
        let e = &edges[j];
        let ghost before = queue@;
        proof {
            assert(ends_of(edges@)[j as int] == (e.from@, e.to@));
        }
        if same(e.from.as_str(), last) && !still_waits(edges, order, j, e.to.as_str()) {
            queue.push(e.to.clone());
            proof {
                assert(text::texts(queue@) =~= text::texts(before).push(e.to@));
                let r = released(ends_of(edges@), text::texts(order@), j as nat);
                assert((start + r).push(e.to@) =~= start + r.push(e.to@));
            }
        }
        j += 1;
    }
}

fn stuck(flow: &FlowFile, order: &Vec<String>) -> (r: Vec<String>)
    ensures
        text::texts(r@) == stuck_names(names_of(flow.workspaces@), text::texts(order@)),
{
    let ghost names = names_of(flow.workspaces@);
    let mut out: Vec<String> = Vec::new();
    let mut i: usize = 0;
    proof {
        assert(names.take(0) =~= Seq::empty());
        assert(text::texts(out@) =~= Seq::empty());
    }
    while i < flow.workspaces.len()
        invariant
            i <= flow.workspaces@.len(),
            names == names_of(flow.workspaces@),
            text::texts(out@) == stuck_names(names.take(i as int), text::texts(order@)),
        decreases flow.workspaces.len() - i,
    {
        let ghost before = out@;
        let n = flow.workspaces[i].name.as_str();
        proof {
            assert(names.take(i + 1).drop_last() =~= names.take(i as int));
            assert(names.take(i + 1).last() == n@);
        }
        if !has_name(order, n) && !has_name(&out, n) {
            out.push(n.to_owned());
            proof {
                assert(text::texts(out@) =~= text::texts(before).push(n@));
            }
        }
        i += 1;
    }
    proof {
        assert(names.take(names.len() as int) =~= names);
    }
    out
}

/// The order in which the workspaces run: each behind everything that leads
/// to it. An error where an edge ends at no workspace, or where no order
/// reaches every workspace.
pub fn topological_order(flow: &FlowFile) -> (r: Result<Vec<String>, FlowError>)
    ensures
        ({
            let names = names_of(flow.workspaces@);
            let edges = ends_of(flow.edges@);
            let order = ready_order(names, edges);
            match unknown_end(names, edges) {
                Some(n) => r matches Err(FlowError::UnknownWorkspace(x)) && x@ == n,
                None => if order.len() < names.len() {
                    r matches Err(FlowError::Cycle(x)) && text::texts(x@) == stuck_names(names, order)
                } else {
                    r matches Ok(x) && text::texts(x@) == order && linearizes(names, edges, order)
                },
            }
        }),
{
    let ghost names = names_of(flow.workspaces@);
    let ghost edges = ends_of(flow.edges@);
    if let Some(n) = first_unknown(flow) {
        return Err(FlowError::UnknownWorkspace(n));
    }
    let mut queue = root_names(flow);
    let mut head: usize = 0;
    let mut order: Vec<String> = Vec::new();
    let ghost mut steps: nat = names.len() + edges.len();
    proof {
        lemma_roots(names, edges);
        lemma_unfollowed_bound(edges, Seq::empty(), edges.len());
        assert(text::texts(order@) =~= Seq::empty());
        assert(text::texts(queue@).skip(0) =~= text::texts(queue@));
    }
    while head < queue.len()
        invariant
            head <= queue@.len(),
            edges == ends_of(flow.edges@),
            edges.len() == flow.edges@.len(),
            queue@.len() - head + unfollowed(edges, text::texts(order@), edges.len()) <= steps,
            ready_order(names, edges) == turns(
                edges,
                text::texts(queue@).skip(head as int),
                text::texts(order@),
                steps,
            ),
        decreases steps,
    {
        let n = queue[head].clone();
        let ghost q = text::texts(queue@).skip(head as int);
        let ghost o = text::texts(order@);
        proof {
            assert(q[0] == n@);
            assert(q.skip(1) =~= text::texts(queue@).skip(head + 1));
        }
        head += 1;
        if !has_name(&order, n.as_str()) {
            let ghost before = queue@;
            proof {
                lemma_released_count(edges, o, n@, edges.len());
            }
            order.push(n);
            proof {
                assert(text::texts(order@) =~= o.push(q[0]));
            }
            release(&flow.edges, &order, &mut queue);
            proof {
                let new = released(edges, text::texts(order@), edges.len());
                assert(text::texts(queue@).len() == queue@.len());
                assert(text::texts(before).len() == before.len());
                assert(text::texts(queue@).skip(head as int) =~= q.skip(1) + new);
            }
        }
        proof {
            steps = (steps - 1) as nat;
        }
    }
    proof {
        assert(text::texts(queue@).skip(head as int).len() == 0);
    }
    if order.len() < flow.workspaces.len() {
        return Err(FlowError::Cycle(stuck(flow, &order)));
    }
    proof {
        law_order_linearizes(names, edges);
    }
    Ok(order)
}

// ── Running a flow ─────────────────────────────────────────────────

/// What planning one workspace gave.
#[derive(Clone, Debug)]
pub struct WorkspaceSummary {
    pub workspace: String,
    pub plan_id: String,
    pub changes: usize,
    pub outputs: StrMap<Json>,
}

/// What a run gave: each workspace in order, and what travelled along the
/// edges, under `<workspace>.<input>`.
#[derive(Clone, Debug)]
pub struct AggregateReport {
    pub workspaces: Vec<WorkspaceSummary>,
    pub propagated: StrMap<Json>,
}

/// What a [`WorkspaceSummary`] holds.
#[verifier::ext_equal]
pub struct SummaryV {
    pub workspace: Seq<char>,
    pub plan_id: Seq<char>,
    pub changes: nat,
    pub outputs: Seq<(Seq<char>, JsonV)>,
}

impl View for WorkspaceSummary {
    type V = SummaryV;

    open spec fn view(&self) -> SummaryV {
        SummaryV {
            workspace: self.workspace@,
            plan_id: self.plan_id@,
            changes: self.changes as nat,
            outputs: json::object_view(self.outputs@),
        }
    }
}

/// What an [`AggregateReport`] holds.
#[verifier::ext_equal]
pub struct ReportV {
    pub workspaces: Seq<SummaryV>,
    pub propagated: Seq<(Seq<char>, JsonV)>,
}

impl View for AggregateReport {
    type V = ReportV;

    open spec fn view(&self) -> ReportV {
        ReportV {
            workspaces: Seq::new(self.workspaces@.len(), |i: int| self.workspaces@[i]@),
            propagated: json::object_view(self.propagated@),
        }
    }
}

/// The first workspace with a name.
pub open spec fn entry_at(ws: Seq<FlowWorkspace>, name: Seq<char>, i: int) -> bool {
    &&& 0 <= i < ws.len()
    &&& ws[i].name@ == name
    &&& forall|j: int| 0 <= j < i ==> (#[trigger] ws[j]).name@ != name
}

/// Find a workspace by its name.
pub fn find_workspace<'a>(flow: &'a FlowFile, name: &str) -> (r: Result<&'a FlowWorkspace, FlowError>)
    ensures
        match r {
            Ok(w) => exists|i: int| #[trigger] entry_at(flow.workspaces@, name@, i) && *w
                == flow.workspaces@[i],
            Err(e) => !names_of(flow.workspaces@).contains(name@) && (e matches FlowError::UnknownWorkspace(
                n,
            ) && n@ == name@),
        },
{
    let mut i: usize = 0;
    while i < flow.workspaces.len()
        invariant
            i <= flow.workspaces@.len(),
            forall|j: int| 0 <= j < i ==> (#[trigger] flow.workspaces@[j]).name@ != name@,
        decreases flow.workspaces.len() - i,
    {
        if same(flow.workspaces[i].name.as_str(), name) {
            proof {
                assert(entry_at(flow.workspaces@, name@, i as int));
            }
            return Ok(&flow.workspaces[i]);
        }
        i += 1;
    }
    proof {
        assert forall|j: int| 0 <= j < names_of(flow.workspaces@).len() implies names_of(
            flow.workspaces@,
        )[j] != name@ by {
            assert(flow.workspaces@[j].name@ != name@);
        }
    }
    Err(FlowError::UnknownWorkspace(name.to_owned()))
}

/// The outputs that a workspace declares, by name.
pub open spec fn output_values(outputs: Seq<(Seq<char>, OutputDeclV)>) -> Seq<(Seq<char>, JsonV)> {
    ordmap::map_vals(outputs, |o: OutputDeclV| o.value)
}

/// The values of the outputs that a workspace declares.
pub fn declared_outputs(cfg: &Config) -> (r: StrMap<Json>)
    ensures
        json::object_view(r@) == output_values(cfg@.outputs),
{
    let mut out: Vec<(String, Json)> = Vec::new();
    let mut i: usize = 0;
    while i < cfg.outputs.entries.len()
        invariant
            i <= cfg.outputs.entries@.len(),
            out@.len() == i,
            forall|j: int|
                0 <= j < i ==> (#[trigger] out@[j]).0@ == cfg.outputs.entries@[j].0@ && out@[j].1@
                    == cfg.outputs.entries@[j].1.value@,
        decreases cfg.outputs.entries.len() - i,
    {
        let v: Json = cfg.outputs.entries[i].1.value.clone();
        out.push((cfg.outputs.entries[i].0.clone(), v));
        i += 1;
    }
    let o = StrMap { entries: out };
    proof {
        assert(json::object_view(o@) =~= output_values(cfg@.outputs));
    }
    o
}

/// An edge with all it says.
pub open spec fn edge_view(e: FlowEdge) -> (Seq<char>, Seq<char>, Seq<char>, Seq<char>) {
    (e.from@, e.from_output@, e.to@, e.to_input@)
}

/// What has travelled once the outputs of `from` have been sent along the
/// first `n` edges: under `<to>.<to_input>` the output that the edge names,
/// where there is one.
pub open spec fn sent(
    edges: Seq<FlowEdge>,
    n: nat,
    from: Seq<char>,
    outputs: Seq<(Seq<char>, JsonV)>,
    before: Seq<(Seq<char>, JsonV)>,
) -> Seq<(Seq<char>, JsonV)>
    decreases n,
{
    if n == 0 {
        before
    } else {
        let prev = sent(edges, (n - 1) as nat, from, outputs, before);
        let (start, output, to, input) = edge_view(edges[n - 1]);
        if start == from {
            match ordmap::lookup(outputs, output) {
                Some(v) => ordmap::put(prev, to + "."@ + input, v),
                None => prev,
            }
        } else {
            prev
        }
    }
}

/// Send the outputs of a workspace along the edges that start there.
pub fn propagate(flow: &FlowFile, from: &str, outputs: &StrMap<Json>, propagated: &mut StrMap<Json>)
    ensures
        json::object_view(final(propagated)@) == sent(
            flow.edges@,
            flow.edges@.len(),
            from@,
            json::object_view(outputs@),
            json::object_view(old(propagated)@),
        ),
{
    let ghost start = json::object_view(propagated@);
    let ghost ov = json::object_view(outputs@);
    let mut i: usize = 0;
    while i < flow.edges.len()
        invariant
            i <= flow.edges@.len(),
            ov == json::object_view(outputs@),
            json::object_view(propagated@) == sent(flow.edges@, i as nat, from@, ov, start),
        decreases flow.edges.len() - i,
    {
        let e = &flow.edges[i];
        if same(e.from.as_str(), from) {
            proof {
                ordmap::lemma_map_vals_lookup(outputs@, |v: Json| v@, e.from_output@);
            }
            if let Some(v) = outputs.get(e.from_output.as_str()) {
                let key = text::join3(e.to.as_str(), ".", e.to_input.as_str());
                let x: Json = v.clone();
                proof {
                    ordmap::lemma_map_vals_put(propagated@, |v: Json| v@, key@, x);
                }
                propagated.insert(key, x);
            }
        }
        i += 1;
    }
}

/// What planning a workspace gives: its outputs, the id of its plan, and how
/// many changes that makes.
#[verifier::ext_equal]
pub struct PlannedV {
    pub outputs: Seq<(Seq<char>, JsonV)>,
    pub id: Seq<u8>,
    pub changes: nat,
}

/// A report with one more workspace: its summary at the end, and its outputs
/// sent along the edges.
pub open spec fn entered(edges: Seq<FlowEdge>, r: ReportV, name: Seq<char>, p: PlannedV) -> ReportV {
    ReportV {
        workspaces: r.workspaces.push(
            SummaryV {
                workspace: name,
                plan_id: digest::hex_text(p.id),
                changes: p.changes,
                outputs: p.outputs,
            },
        ),
        propagated: sent(edges, edges.len(), name, p.outputs, r.propagated),
    }
}

/// The report on no workspaces.
pub open spec fn nothing_run() -> ReportV {
    ReportV { workspaces: Seq::empty(), propagated: Seq::empty() }
}

/// The report once the first workspaces of an order have been planned.
pub open spec fn run_report(
    edges: Seq<FlowEdge>,
    order: Seq<Seq<char>>,
    planned: Seq<PlannedV>,
) -> ReportV
    decreases planned.len(),
{
    if planned.len() == 0 {
        nothing_run()
    } else {
        entered(
            edges,
            run_report(edges, order, planned.drop_last()),
            order[planned.len() - 1],
            planned.last(),
        )
    }
}

/// Enter one planned workspace into a report: its summary at the end, and
/// its outputs sent along the edges.
pub fn record_workspace(
    flow: &FlowFile,
    report: &mut AggregateReport,
    workspace: &str,
    cfg: &Config,
    plan_id: &[u8],
    changes: usize,
)
    ensures
        final(report)@ == entered(
            flow.edges@,
            old(report)@,
            workspace@,
            (PlannedV {
                outputs: output_values(cfg@.outputs),
                id: plan_id@,
                changes: changes as nat,
            }),
        ),
{
    let outputs = declared_outputs(cfg);
    propagate(flow, workspace, &outputs, &mut report.propagated);
    let summary = WorkspaceSummary {
        workspace: workspace.to_owned(),
        plan_id: digest::to_hex(plan_id),
        changes,
        outputs,
    };
    report.workspaces.push(summary);
    proof {
        assert(report@.workspaces =~= old(report)@.workspaces.push(summary@));
    }
}

/// An empty report.
pub fn empty_report() -> (r: AggregateReport)
    ensures
        r@ == nothing_run(),
{
    let r = AggregateReport { workspaces: Vec::new(), propagated: StrMap::new() };
    proof {
        assert(r@.workspaces =~= Seq::empty());
        assert(r@.propagated =~= Seq::empty());
    }
    r
}

/// What became of a workspace.
#[derive(Debug)]
pub enum Step {
    /// It was planned.
    Planned { cfg: Config, plan_id: Vec<u8>, changes: usize },
    /// It failed at a stage.
    Failed { stage: &'static str, message: String },
}

/// A flow on its way: the workspaces are planned in their order, and the
/// first that fails ends it.
#[derive(Debug)]
pub struct FlowRun<'a> {
    flow: &'a FlowFile,
    order: Vec<String>,
    done: usize,
    report: AggregateReport,
}

impl<'a> FlowRun<'a> {
    /// The flow.
    pub closed spec fn runs(&self) -> FlowFile {
        *self.flow
    }

    /// The order of its workspaces.
    pub closed spec fn names(&self) -> Seq<Seq<char>> {
        text::texts(self.order@)
    }

    /// How many have been planned.
    pub closed spec fn planned(&self) -> nat {
        self.done as nat
    }

    /// What they gave.
    pub closed spec fn so_far(&self) -> ReportV {
        self.report@
    }

    #[verifier::type_invariant]
    closed spec fn on_the_way(&self) -> bool {
        &&& self.done <= self.order@.len()
        &&& forall|i: int|
            0 <= i < self.order@.len() ==> names_of(self.flow.workspaces@).contains(
                (#[trigger] self.order@[i])@,
            )
    }

    /// Set a flow on its way, with nothing planned yet.
    pub fn start(flow: &'a FlowFile) -> (r: Result<Self, FlowError>)
        ensures
            ({
                let names = names_of(flow.workspaces@);
                let edges = ends_of(flow.edges@);
                let order = ready_order(names, edges);
                match unknown_end(names, edges) {
                    Some(n) => r matches Err(FlowError::UnknownWorkspace(x)) && x@ == n,
                    None => if order.len() < names.len() {
                        r matches Err(FlowError::Cycle(x)) && text::texts(x@) == stuck_names(
                            names,
                            order,
                        )
                    } else {
                        r matches Ok(x) && x.runs() == *flow && x.names() == order && x.planned() == 0
                            && x.so_far() == nothing_run() && linearizes(names, edges, order)
                    },
                }
            }),
    {
        match topological_order(flow) {
            Err(e) => Err(e),
            Ok(order) => {
                proof {
                    let names = names_of(flow.workspaces@);
                    assert forall|i: int| 0 <= i < order@.len() implies names.contains(
                        (#[trigger] order@[i])@,
                    ) by {
                        assert(text::texts(order@)[i] == order@[i]@);
                        assert(text::texts(order@).contains(order@[i]@));
                    }
                }
                let report = empty_report();
                Ok(FlowRun { flow, order, done: 0, report })
            },
        }
    }

    /// The workspace that comes next; none once all have been planned.
    pub fn next_workspace(&self) -> (r: Option<&'a FlowWorkspace>)
        ensures
            match r {
                Some(w) => self.planned() < self.names().len() && exists|i: int| #[trigger]
                    entry_at(self.runs().workspaces@, self.names()[self.planned() as int], i) && *w
                        == self.runs().workspaces@[i],
                None => self.planned() == self.names().len(),
            },
    {
        proof {
            use_type_invariant(self);
        }
        if self.done < self.order.len() {
            proof {
                assert(names_of(self.flow.workspaces@).contains(self.order@[self.done as int]@));
                assert(self.names()[self.done as int] == self.order@[self.done as int]@);
            }
            match find_workspace(self.flow, self.order[self.done].as_str()) {
                Ok(w) => Some(w),
                Err(_) => None,
            }
        } else {
            None
        }
    }

    /// Note what became of the workspace that came next.
    pub fn advance(self, step: Step) -> (r: Result<Self, FlowError>)
        requires
            self.planned() < self.names().len(),
        ensures
            match step {
                Step::Planned { cfg, plan_id, changes } => {
                    &&& r matches Ok(x)
                    &&& x.runs() == self.runs()
                    &&& x.names() == self.names()
                    &&& x.planned() == self.planned() + 1
                    &&& x.so_far() == entered(
                        self.runs().edges@,
                        self.so_far(),
                        self.names()[self.planned() as int],
                        (PlannedV {
                            outputs: output_values(cfg@.outputs),
                            id: plan_id@,
                            changes: changes as nat,
                        }),
                    )
                },
                Step::Failed { stage, message } => {
                    &&& r matches Err(FlowError::WorkspaceStep { workspace, stage: s, message: m })
                    &&& workspace@ == self.names()[self.planned() as int]
                    &&& s@ == stage@
                    &&& m@ == message@
                },
            },
    {
        proof {
            use_type_invariant(&self);
        }
        let FlowRun { flow, order, done, mut report } = self;
        assert(done < order.len());
        match step {
            Step::Planned { cfg, plan_id, changes } => {
                let name = order[done].as_str();
                record_workspace(flow, &mut report, name, &cfg, plan_id.as_slice(), changes);
                Ok(FlowRun { flow, order, done: done + 1, report })
            },
            Step::Failed { stage, message } => Err(
                FlowError::WorkspaceStep { workspace: order[done].clone(), stage, message },
            ),
        }
    }

    /// What the run gave.
    pub fn finish(self) -> (r: AggregateReport)
        ensures
            r@ == self.so_far(),
    {
        self.report
    }
}

// ── What a run gives ───────────────────────────────────────────────

/// Where an edge ends, as the report names it.
pub open spec fn target(e: FlowEdge) -> Seq<char> {
    e.to@ + "."@ + e.to_input@
}

/// A run reports on its workspaces in their order, each with the outputs
/// that it declares.
pub proof fn law_run_reports_in_order(
    edges: Seq<FlowEdge>,
    order: Seq<Seq<char>>,
    planned: Seq<PlannedV>,
)
    requires
        planned.len() <= order.len(),
    ensures
        run_report(edges, order, planned).workspaces.len() == planned.len(),
        forall|i: int|
            0 <= i < planned.len() ==> {
                let w = #[trigger] run_report(edges, order, planned).workspaces[i];
                &&& w.workspace == order[i]
                &&& w.plan_id == digest::hex_text(planned[i].id)
                &&& w.changes == planned[i].changes
                &&& w.outputs == planned[i].outputs
            },
    decreases planned.len(),
{
    if planned.len() > 0 {
        law_run_reports_in_order(edges, order, planned.drop_last());
        let before = run_report(edges, order, planned.drop_last());
        assert forall|i: int| 0 <= i < planned.len() implies ({
            let w = #[trigger] run_report(edges, order, planned).workspaces[i];
            &&& w.workspace == order[i]
            &&& w.plan_id == digest::hex_text(planned[i].id)
            &&& w.changes == planned[i].changes
            &&& w.outputs == planned[i].outputs
        }) by {
            if i < planned.len() - 1 {
                assert(before.workspaces[i] == run_report(edges, order, planned).workspaces[i]);
            }
        }
    }
}

proof fn lemma_sent(
    edges: Seq<FlowEdge>,
    n: nat,
    from: Seq<char>,
    outputs: Seq<(Seq<char>, JsonV)>,
    before: Seq<(Seq<char>, JsonV)>,
    k: int,
)
    requires
        n <= edges.len(),
        0 <= k < edges.len(),
        ordmap::sorted(before),
        forall|j: int|
            0 <= j < edges.len() && j != k ==> target(#[trigger] edges[j]) != target(edges[k]),
    ensures
        ordmap::sorted(sent(edges, n, from, outputs, before)),
        ordmap::lookup(sent(edges, n, from, outputs, before), target(edges[k])) == (if k < n
            && edges[k].from@ == from && ordmap::lookup(outputs, edges[k].from_output@) is Some {
            ordmap::lookup(outputs, edges[k].from_output@)
        } else {
            ordmap::lookup(before, target(edges[k]))
        }),
    decreases n,
{
    if n > 0 {
        lemma_sent(edges, (n - 1) as nat, from, outputs, before, k);
        let e = edges[n - 1];
        let prev = sent(edges, (n - 1) as nat, from, outputs, before);
        if e.from@ == from {
            if let Some(v) = ordmap::lookup(outputs, e.from_output@) {
                ordmap::lemma_put_sorted(prev, target(e), v);
                ordmap::lemma_put_lookup(prev, target(e), v, target(edges[k]));
            }
        }
    }
}

/// An output travels along its edge: once the workspace that an edge starts
/// from has been planned and declares the output, the report holds its value
/// where the edge ends, unless another edge ends there too.
pub proof fn law_outputs_travel(
    edges: Seq<FlowEdge>,
    order: Seq<Seq<char>>,
    planned: Seq<PlannedV>,
    i: int,
    k: int,
)
    requires
        order.no_duplicates(),
        planned.len() <= order.len(),
        0 <= i < planned.len(),
        0 <= k < edges.len(),
        edges[k].from@ == order[i],
        ordmap::lookup(planned[i].outputs, edges[k].from_output@) is Some,
        forall|j: int|
            0 <= j < edges.len() && j != k ==> target(#[trigger] edges[j]) != target(edges[k]),
    ensures
        ordmap::lookup(run_report(edges, order, planned).propagated, target(edges[k]))
            == ordmap::lookup(planned[i].outputs, edges[k].from_output@),
    decreases planned.len(),
{
    let last = planned.len() - 1;
    lemma_travelled_is_sorted(edges, order, planned.drop_last());
    lemma_sent(
        edges,
        edges.len(),
        order[last],
        planned.last().outputs,
        run_report(edges, order, planned.drop_last()).propagated,
        k,
    );
    if i < last {
        assert(order[i] != order[last]);
        assert(planned.drop_last()[i] == planned[i]);
        law_outputs_travel(edges, order, planned.drop_last(), i, k);
    }
}

proof fn lemma_sent_sorted(
    edges: Seq<FlowEdge>,
    n: nat,
    from: Seq<char>,
    outputs: Seq<(Seq<char>, JsonV)>,
    before: Seq<(Seq<char>, JsonV)>,
)
    requires
        n <= edges.len(),
        ordmap::sorted(before),
    ensures
        ordmap::sorted(sent(edges, n, from, outputs, before)),
    decreases n,
{
    if n > 0 {
        lemma_sent_sorted(edges, (n - 1) as nat, from, outputs, before);
        let e = edges[n - 1];
        if let Some(v) = ordmap::lookup(outputs, e.from_output@) {
            ordmap::lemma_put_sorted(
                sent(edges, (n - 1) as nat, from, outputs, before),
                target(e),
                v,
            );
        }
    }
}

proof fn lemma_travelled_is_sorted(
    edges: Seq<FlowEdge>,
    order: Seq<Seq<char>>,
    planned: Seq<PlannedV>,
)
    ensures
        ordmap::sorted(run_report(edges, order, planned).propagated),
    decreases planned.len(),
{
    if planned.len() > 0 {
        lemma_travelled_is_sorted(edges, order, planned.drop_last());
        lemma_sent_sorted(
            edges,
            edges.len(),
            order[planned.len() - 1],
            planned.last().outputs,
            run_report(edges, order, planned.drop_last()).propagated,
        );
    }
}

/// A flow is refused for a workspace that is not there exactly where an edge
/// names one: that of the first such edge, its start before its end.
pub proof fn law_unknown_ends_are_found(names: Seq<Seq<char>>, edges: Seq<(Seq<char>, Seq<char>)>)
    ensures
        match unknown_end(names, edges) {
            None => forall|k: int|
                0 <= k < edges.len() ==> names.contains((#[trigger] edges[k]).0) && names.contains(
                    edges[k].1,
                ),
            Some(n) => exists|k: int|
                0 <= k < edges.len() && !names.contains(n) && (n == (#[trigger] edges[k]).0 || (n
                    == edges[k].1 && names.contains(edges[k].0))) && forall|j: int|
                    0 <= j < k ==> names.contains((#[trigger] edges[j]).0) && names.contains(
                        edges[j].1,
                    ),
        },
    decreases edges.len(),
{
    if edges.len() > 0 {
        let front = edges.drop_last();
        let n = edges.len() - 1;
        law_unknown_ends_are_found(names, front);
        match unknown_end(names, front) {
            None => {
                assert forall|k: int| 0 <= k < n implies names.contains((#[trigger] edges[k]).0)
                    && names.contains(edges[k].1) by {
                    assert(front[k] == edges[k]);
                }
                assert(edges.last() == edges[n]);
            },
            Some(u) => {
                let k = choose|k: int|
                    0 <= k < front.len() && !names.contains(u) && (u == (#[trigger] front[k]).0
                        || (u == front[k].1 && names.contains(front[k].0))) && forall|j: int|
                        0 <= j < k ==> names.contains((#[trigger] front[j]).0) && names.contains(
                            front[j].1,
                        );
                assert(edges[k] == front[k]);
                assert forall|j: int| 0 <= j < k implies names.contains((#[trigger] edges[j]).0)
                    && names.contains(edges[j].1) by {
                    assert(front[j] == edges[j]);
                }
            },
        }
    }
}

/// The workspaces that a flow starts from are those that no edge leads to, in
/// the order of the flow.
pub proof fn law_roots_have_no_edges_in(names: Seq<Seq<char>>, edges: Seq<(Seq<char>, Seq<char>)>)
    ensures
        roots(names, edges) == names.filter(
            |t: Seq<char>|
                forall|k: int| 0 <= k < edges.len() ==> (#[trigger] edges[k]).1 != t,
        ),
    decreases names.len(),
{
    reveal(Seq::filter);
    if names.len() > 0 {
        law_roots_have_no_edges_in(names.drop_last(), edges);
    }
}

/// A cycle names exactly the workspaces that never came to their turn, each of
/// them once.
pub proof fn law_stuck_are_the_rest(names: Seq<Seq<char>>, order: Seq<Seq<char>>, t: Seq<char>)
    ensures
        stuck_names(names, order).contains(t) <==> names.contains(t) && !order.contains(t),
        stuck_names(names, order).no_duplicates(),
    decreases names.len(),
{
    if names.len() > 0 {
        let front = names.drop_last();
        let x = names.last();
        law_stuck_are_the_rest(front, order, t);
        law_stuck_are_the_rest(front, order, x);
        assert(names =~= front.push(x));
        lemma_contains_push(front, x, t);
        lemma_contains_push(stuck_names(front, order), x, t);
        let s = stuck_names(front, order);
        if !(order.contains(x) || s.contains(x)) {
            let r = s.push(x);
            assert forall|i: int, j: int| 0 <= i < r.len() && 0 <= j < r.len() && i != j implies r[i]
                != r[j] by {
                if i < s.len() && j < s.len() {
                    assert(s[i] != s[j]);
                } else if i < s.len() {
                    assert(s.contains(s[i]));
                } else {
                    assert(s.contains(s[j]));
                }
            }
        }
    }
}

proof fn lemma_turns_take(
    edges: Seq<(Seq<char>, Seq<char>)>,
    queue: Seq<Seq<char>>,
    order: Seq<Seq<char>>,
    first: Seq<Seq<char>>,
    rest: Seq<Seq<char>>,
    steps: nat,
)
    requires
        queue == first + rest,
        first.len() <= steps,
        (order + first).no_duplicates(),
    ensures
        (order + first).len() <= turns(edges, queue, order, steps).len(),
        turns(edges, queue, order, steps).take((order + first).len() as int) == order + first,
    decreases steps,
{
    if first.len() == 0 {
        assert(order + first =~= order);
        lemma_turns_extend(edges, queue, order, steps);
    } else {
        let x = first[0];
        assert(queue[0] == x);
        let next = order.push(x);
        let all = order + first;
        assert(!order.contains(x)) by {
            if order.contains(x) {
                let i = choose|i: int| 0 <= i < order.len() && order[i] == x;
                assert(all[i] == all[order.len() as int]);
            }
        }
        assert(next + first.skip(1) =~= all);
        let more = released(edges, next, edges.len());
        assert(queue.skip(1) + more =~= first.skip(1) + (rest + more));
        lemma_turns_take(
            edges,
            queue.skip(1) + more,
            next,
            first.skip(1),
            rest + more,
            (steps - 1) as nat,
        );
    }
}

proof fn lemma_turns_extend(
    edges: Seq<(Seq<char>, Seq<char>)>,
    queue: Seq<Seq<char>>,
    order: Seq<Seq<char>>,
    steps: nat,
)
    ensures
        order.len() <= turns(edges, queue, order, steps).len(),
        turns(edges, queue, order, steps).take(order.len() as int) == order,
    decreases steps,
{
    if steps == 0 || queue.len() == 0 {
        assert(order.take(order.len() as int) =~= order);
    } else if order.contains(queue[0]) {
        lemma_turns_extend(edges, queue.skip(1), order, (steps - 1) as nat);
    } else {
        let next = order.push(queue[0]);
        let q = queue.skip(1) + released(edges, next, edges.len());
        lemma_turns_extend(edges, q, next, (steps - 1) as nat);
        let r = turns(edges, q, next, (steps - 1) as nat);
        assert(r.take(order.len() as int) =~= r.take(next.len() as int).take(order.len() as int));
        assert(next.take(order.len() as int) =~= order);
    }
}

proof fn lemma_roots_no_duplicates(names: Seq<Seq<char>>, edges: Seq<(Seq<char>, Seq<char>)>)
    requires
        names.no_duplicates(),
    ensures
        roots(names, edges).no_duplicates(),
        roots(names, edges).len() <= names.len(),
        forall|i: int|
            0 <= i < roots(names, edges).len() ==> names.contains(#[trigger] roots(names, edges)[i]),
    decreases names.len(),
{
    if names.len() > 0 {
        let front = names.drop_last();
        let x = names.last();
        assert forall|i: int, j: int|
            0 <= i < front.len() && 0 <= j < front.len() && i != j implies front[i] != front[j] by {
            assert(names[i] != names[j]);
        }
        lemma_roots_no_duplicates(front, edges);
        let f = roots(front, edges);
        assert(!front.contains(x)) by {
            if front.contains(x) {
                let i = choose|i: int| 0 <= i < front.len() && front[i] == x;
                assert(names[i] == names[names.len() - 1]);
            }
        }
        let r = roots(names, edges);
        assert forall|i: int| 0 <= i < r.len() implies names.contains(#[trigger] r[i]) by {
            if i < f.len() {
                let k = choose|k: int| 0 <= k < front.len() && front[k] == f[i];
                assert(names[k] == f[i]);
            } else {
                assert(names[names.len() - 1] == x);
            }
        }
        assert forall|i: int, j: int| 0 <= i < r.len() && 0 <= j < r.len() && i != j implies r[i]
            != r[j] by {
            if i < f.len() && j < f.len() {
                assert(f[i] != f[j]);
            } else if i < f.len() {
                assert(front.contains(f[i]));
            } else {
                assert(front.contains(f[j]));
            }
        }
    }
}

/// The workspaces that nothing leads to come first, in the order of the flow;
/// without edges that is all of them.
pub proof fn law_roots_come_first(names: Seq<Seq<char>>, edges: Seq<(Seq<char>, Seq<char>)>)
    requires
        names.no_duplicates(),
    ensures
        roots(names, edges).len() <= ready_order(names, edges).len(),
        ready_order(names, edges).take(roots(names, edges).len() as int) == roots(names, edges),
        edges.len() == 0 ==> roots(names, edges) == names,
{
    lemma_roots_no_duplicates(names, edges);
    let r = roots(names, edges);
    let none = Seq::<Seq<char>>::empty();
    assert(r + none =~= r);
    assert(none + r =~= r);
    lemma_turns_take(edges, r, none, r, none, names.len() + edges.len());
    if edges.len() == 0 {
        lemma_all_roots(names, edges);
    }
}

proof fn lemma_all_roots(names: Seq<Seq<char>>, edges: Seq<(Seq<char>, Seq<char>)>)
    requires
        edges.len() == 0,
    ensures
        roots(names, edges) == names,
    decreases names.len(),
{
    if names.len() > 0 {
        lemma_all_roots(names.drop_last(), edges);
        assert(names.drop_last().push(names.last()) =~= names);
    }
}

/// What a workspace sends arrives under the name of the input that its edge
/// leads to; of two edges to one input the later one counts. Edges of other
/// workspaces and outputs that are not there send nothing.
pub proof fn law_last_edge_counts(
    edges: Seq<FlowEdge>,
    n: nat,
    from: Seq<char>,
    outputs: Seq<(Seq<char>, JsonV)>,
    before: Seq<(Seq<char>, JsonV)>,
    key: Seq<char>,
)
    requires
        n <= edges.len(),
        ordmap::sorted(before),
    ensures
        ordmap::sorted(sent(edges, n, from, outputs, before)),
        forall|i: int|
            0 <= i < n && sends(#[trigger] edges[i], from, outputs, key) && (forall|j: int|
                i < j < n ==> !sends(#[trigger] edges[j], from, outputs, key)) ==> ordmap::lookup(
                sent(edges, n, from, outputs, before),
                key,
            ) == ordmap::lookup(outputs, edges[i].from_output@),
        (forall|j: int| 0 <= j < n ==> !sends(#[trigger] edges[j], from, outputs, key))
            ==> ordmap::lookup(sent(edges, n, from, outputs, before), key) == ordmap::lookup(
            before,
            key,
        ),
    decreases n,
{
    if n > 0 {
        let m = (n - 1) as nat;
        let prev = sent(edges, m, from, outputs, before);
        law_last_edge_counts(edges, m, from, outputs, before, key);
        let e = edges[n - 1];
        if e.from@ == from && ordmap::lookup(outputs, e.from_output@) is Some {
            let v = ordmap::lookup(outputs, e.from_output@)->Some_0;
            ordmap::lemma_put_sorted(prev, target(e), v);
            ordmap::lemma_put_lookup(prev, target(e), v, key);
        }
    }
}

/// An edge of a workspace sends an output that is there to the input `key`.
pub open spec fn sends(
    e: FlowEdge,
    from: Seq<char>,
    outputs: Seq<(Seq<char>, JsonV)>,
    key: Seq<char>,
) -> bool {
    e.from@ == from && ordmap::lookup(outputs, e.from_output@) is Some && target(e) == key
}

/// The edge `k` frees the workspace that it leads to, once the last one of
/// `order` has had its turn: nothing else that leads there is still to come.
pub open spec fn frees(edges: Seq<(Seq<char>, Seq<char>)>, order: Seq<Seq<char>>, k: int) -> bool {
    edges[k].0 == order.last() && forall|j: int|
        0 <= j < edges.len() && (#[trigger] edges[j]).1 == edges[k].1 ==> order.contains(edges[j].0)
            && (edges[j].0 == order.last() ==> j <= k)
}

/// A turn frees the workspaces whose last open edge it follows, in the order
/// of the edges.
pub proof fn law_freed_in_edge_order(
    edges: Seq<(Seq<char>, Seq<char>)>,
    order: Seq<Seq<char>>,
    n: nat,
)
    requires
        n <= edges.len(),
    ensures
        released(edges, order, n) == Seq::new(n, |k: int| k).filter(
            |k: int| frees(edges, order, k),
        ).map_values(|k: int| edges[k].1),
    decreases n,
{
    let f = |k: int| frees(edges, order, k);
    let g = |k: int| edges[k].1;
    let all = Seq::new(n, |k: int| k);
    reveal(Seq::filter);
    if n == 0 {
        assert(all.filter(f).map_values(g) =~= Seq::<Seq<char>>::empty());
    } else {
        let m = (n - 1) as nat;
        law_freed_in_edge_order(edges, order, m);
        let front = Seq::new(m, |k: int| k);
        assert(all.drop_last() =~= front);
        assert(all.last() == n - 1);
        let rest = front.filter(f);
        assert(rest.push(n - 1).map_values(g) =~= rest.map_values(g).push(g(n - 1)));
        let e = edges[n - 1];
        assert(frees(edges, order, n - 1) <==> e.0 == order.last() && !waits(
            edges,
            order,
            n - 1,
            e.1,
        )) by {
            if e.0 == order.last() {
                if !waits(edges, order, n - 1, e.1) {
                    assert forall|j: int|
                        0 <= j < edges.len() && (#[trigger] edges[j]).1 == edges[n - 1].1 implies
                        order.contains(edges[j].0) && (edges[j].0 == order.last() ==> j <= n
                        - 1) by {
                        assert(!open_edge(edges, order, n - 1, e.1, j));
                    }
                }
                if frees(edges, order, n - 1) && waits(edges, order, n - 1, e.1) {
                    let k = choose|k: int|
                        0 <= k < edges.len() && #[trigger] open_edge(edges, order, n - 1, e.1, k);
                    assert(edges[k].1 == edges[n - 1].1);
                }
            }
        }
    }
}

/// One of the first `n` edges frees `x`.
spec fn freed_by(
    edges: Seq<(Seq<char>, Seq<char>)>,
    order: Seq<Seq<char>>,
    n: nat,
    x: Seq<char>,
) -> bool {
    exists|k: int|
        0 <= k < n && edges[k].1 == x && edges[k].0 == order.last() && !(#[trigger] waits(
            edges,
            order,
            k,
            edges[k].1,
        ))
}

proof fn lemma_released_once(edges: Seq<(Seq<char>, Seq<char>)>, order: Seq<Seq<char>>, n: nat)
    requires
        n <= edges.len(),
    ensures
        released(edges, order, n).no_duplicates(),
        released(edges, order, n).len() <= n,
        forall|i: int|
            0 <= i < released(edges, order, n).len() ==> freed_by(
                edges,
                order,
                n,
                #[trigger] released(edges, order, n)[i],
            ),
    decreases n,
{
    if n > 0 {
        let m = (n - 1) as nat;
        lemma_released_once(edges, order, m);
        let front = released(edges, order, m);
        let r = released(edges, order, n);
        let e = edges[n - 1];
        if e.0 == order.last() && !waits(edges, order, n - 1, e.1) {
            assert forall|i: int| 0 <= i < front.len() implies front[i] != e.1 by {
                assert(freed_by(edges, order, m, front[i]));
                let k = choose|k: int|
                    0 <= k < m && edges[k].1 == front[i] && edges[k].0 == order.last() && !(
                    #[trigger] waits(edges, order, k, edges[k].1));
                if front[i] == e.1 {
                    assert(open_edge(edges, order, k, edges[k].1, n - 1));
                }
            }
            assert forall|i: int, j: int|
                0 <= i < r.len() && 0 <= j < r.len() && i != j implies r[i] != r[j] by {
                if i < front.len() && j < front.len() {
                    assert(front[i] != front[j]);
                } else if i < front.len() {
                    assert(r[i] == front[i]);
                } else {
                    assert(r[j] == front[j]);
                }
            }
        }
        assert forall|i: int| 0 <= i < r.len() implies freed_by(edges, order, n, #[trigger] r[i]) by {
            if i < front.len() {
                assert(freed_by(edges, order, m, front[i]));
                let k = choose|k: int|
                    0 <= k < m && edges[k].1 == front[i] && edges[k].0 == order.last() && !(
                    #[trigger] waits(edges, order, k, edges[k].1));
                assert(!waits(edges, order, k, edges[k].1));
            } else {
                assert(!waits(edges, order, n - 1, edges[n - 1].1));
            }
        }
    }
}

proof fn lemma_root_has_no_edge(names: Seq<Seq<char>>, edges: Seq<(Seq<char>, Seq<char>)>, i: int)
    requires
        0 <= i < roots(names, edges).len(),
    ensures
        !has_edge_to(edges, roots(names, edges)[i]),
    decreases names.len(),
{
    if names.len() > 0 {
        let front = roots(names.drop_last(), edges);
        if i < front.len() {
            lemma_root_has_no_edge(names.drop_last(), edges, i);
        }
    }
}

/// Workspaces have their turn in the order in which they become ready: behind
/// those that nothing leads to come the ones that the first of them frees, in
/// the order of the edges.
pub proof fn law_freed_come_behind(names: Seq<Seq<char>>, edges: Seq<(Seq<char>, Seq<char>)>)
    requires
        names.no_duplicates(),
        roots(names, edges).len() > 0,
    ensures
        ({
            let r = roots(names, edges);
            let freed = released(edges, seq![r[0]], edges.len());
            let order = ready_order(names, edges);
            (r + freed).len() <= order.len() && order.take((r + freed).len() as int) == r + freed
        }),
{
    lemma_roots_no_duplicates(names, edges);
    let r = roots(names, edges);
    let none = Seq::<Seq<char>>::empty();
    let start = seq![r[0]];
    let freed = released(edges, start, edges.len());
    lemma_released_once(edges, start, edges.len());
    let steps = names.len() + edges.len();
    assert(none.push(r[0]) =~= start);
    assert(!none.contains(r[0]));
    let queue = r.skip(1) + freed;
    assert(turns(edges, r, none, steps) == turns(edges, queue, start, (steps - 1) as nat));
    let all = start + queue;
    assert(all =~= r + freed);
    assert forall|i: int, j: int| 0 <= i < all.len() && 0 <= j < all.len() && i != j implies all[i]
        != all[j] by {
        if i < r.len() && j < r.len() {
            assert(all[i] == r[i] && all[j] == r[j]);
        } else if i >= r.len() && j >= r.len() {
            assert(all[i] == freed[i - r.len()] && all[j] == freed[j - r.len()]);
        } else if i < r.len() {
            lemma_freed_is_no_root(names, edges, start, i, j - r.len());
            assert(all[i] == r[i] && all[j] == freed[j - r.len()]);
        } else {
            lemma_freed_is_no_root(names, edges, start, j, i - r.len());
            assert(all[j] == r[j] && all[i] == freed[i - r.len()]);
        }
    }
    assert(queue + none =~= queue);
    lemma_turns_take(edges, queue, start, queue, none, (steps - 1) as nat);
}

proof fn lemma_freed_is_no_root(
    names: Seq<Seq<char>>,
    edges: Seq<(Seq<char>, Seq<char>)>,
    order: Seq<Seq<char>>,
    i: int,
    j: int,
)
    requires
        0 <= i < roots(names, edges).len(),
        0 <= j < released(edges, order, edges.len()).len(),
    ensures
        roots(names, edges)[i] != released(edges, order, edges.len())[j],
{
    lemma_root_has_no_edge(names, edges, i);
    lemma_released_once(edges, order, edges.len());
    let freed = released(edges, order, edges.len());
    assert(freed_by(edges, order, edges.len(), freed[j]));
    let k = choose|k: int|
        0 <= k < edges.len() && edges[k].1 == freed[j] && edges[k].0 == order.last() && !(
        #[trigger] waits(edges, order, k, edges[k].1));
    if roots(names, edges)[i] == freed[j] {
        assert(edges[k].1 == roots(names, edges)[i]);
        assert(has_edge_to(edges, roots(names, edges)[i]));
    }
}

/// What a workspace sends are the values of its outputs, under their names.
pub proof fn law_outputs_are_their_values(outputs: Seq<(Seq<char>, OutputDeclV)>, k: Seq<char>)
    ensures
        ordmap::lookup(output_values(outputs), k) == match ordmap::lookup(outputs, k) {
            Some(o) => Some(o.value),
            None => None,
        },
{
    ordmap::lemma_map_vals_lookup(outputs, |o: OutputDeclV| o.value, k);
}

} // verus!
