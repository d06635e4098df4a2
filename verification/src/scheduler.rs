//! The scheduler: a topological order of a pipeline's nodes (Kahn's
//! algorithm), and the work of running one node against a sandbox.
use crate::merkle::tree_root;
use crate::pipeline::{edges_name_nodes, is_topological_order, node_ids, string_views, Node, Pipeline};
use crate::vfs::{change_map, file_hashes, lemma_unchanged_sandbox_root, post_hashes, Sandbox};
use vstd::utf8::encode_utf8;
use vstd::prelude::*;

verus! {

/// Why a pipeline could not be scheduled.
#[derive(Debug, Clone, Copy, PartialEq, Eq)]
pub enum ScheduleError {
    /// No order of the nodes satisfies every edge (or two nodes share an id).
    Cycle,
    /// The system clock reads a time before the Unix epoch.
    Clock,
}

/// The file that a `rename` node writes in the sandbox.
pub const RENAMED_FILE: &'static str = "renamed_via_scheduler.txt";

/// The text that a `rename` node writes into [`RENAMED_FILE`].
pub const RENAMED_TEXT: &'static str = "Renamed by Scheduler";

/// What running one node did: the node, the journal operation type for it,
/// and the sandbox's root before and after.
#[derive(Debug, Clone)]
pub struct NodeStep {
    pub node_id: String,
    pub operation: String,
    pub operation_type: String,
    pub pre_hash: [u8; 32],
    pub post_hash: [u8; 32],
}

/// The index of the last node named `id` (later nodes shadow earlier ones).
pub open spec fn last_node_named(nodes: Seq<Node>, id: Seq<char>, k: int) -> bool {
    &&& 0 <= k < nodes.len()
    &&& nodes[k].id@ == id
    &&& forall|j: int| k < j < nodes.len() ==> #[trigger] nodes[j].id@ != id
}

/// Calls `std::time::SystemTime::now` and reads the milliseconds since the
/// Unix epoch (an error when the clock is set before it). Nothing is claimed
/// of the value: it is the clock's.
#[verifier::external_body]
fn millis_since_epoch() -> (r: Result<u128, ScheduleError>)
    ensures
        r matches Err(e) ==> e == ScheduleError::Clock,
{
    match std::time::SystemTime::now().duration_since(std::time::UNIX_EPOCH) {
        Ok(d) => Ok(d.as_millis()),
        Err(_) => Err(ScheduleError::Clock),
    }
}

/// Runs a pipeline's nodes on behalf of a session.
pub struct Scheduler {
    pub pipeline: Pipeline,
    pub session_id: String,
}

// ---------------------------------------------------------------------------
// Counting edges into a node whose source is not yet done.

/// Among the first `k` edges (given by endpoint indices), those that lead to
/// `v` and whose source is not in `done`.
pub open spec fn pending_into(efrom: Seq<usize>, eto: Seq<usize>, k: int, v: usize, done: Seq<usize>) -> nat
    decreases k,
{
    if k <= 0 {
        0
    } else {
        pending_into(efrom, eto, k - 1, v, done) + if eto[k - 1] == v && !done.contains(efrom[k - 1]) {
            1nat
        } else {
            0nat
        }
    }
}

/// Among the first `k` edges, those from `u` to `v`.
pub open spec fn edges_between(efrom: Seq<usize>, eto: Seq<usize>, k: int, u: usize, v: usize) -> nat
    decreases k,
{
    if k <= 0 {
        0
    } else {
        edges_between(efrom, eto, k - 1, u, v) + if eto[k - 1] == v && efrom[k - 1] == u {
            1nat
        } else {
            0nat
        }
    }
}

proof fn lemma_pending_split(efrom: Seq<usize>, eto: Seq<usize>, k: int, v: usize, done: Seq<usize>, u: usize)
    requires
        0 <= k <= efrom.len(),
        efrom.len() == eto.len(),
        !done.contains(u),
    ensures
        pending_into(efrom, eto, k, v, done.push(u)) + edges_between(efrom, eto, k, u, v)
            == pending_into(efrom, eto, k, v, done),
    decreases k,
{
    if k > 0 {
        lemma_pending_split(efrom, eto, k - 1, v, done, u);
        let x = efrom[k - 1];
        assert(done.push(u).contains(x) <==> (done.contains(x) || x == u)) by {
            if done.push(u).contains(x) {
                let i = choose|i: int| 0 <= i < done.push(u).len() && done.push(u)[i] == x;
                if i < done.len() {
                    assert(done[i] == x);
                }
            }
            if done.contains(x) {
                let i = choose|i: int| 0 <= i < done.len() && done[i] == x;
                assert(done.push(u)[i] == x);
            }
            if x == u {
                assert(done.push(u)[done.len() as int] == x);
            }
        }
    }
}

proof fn lemma_between_monotone(efrom: Seq<usize>, eto: Seq<usize>, j: int, k: int, u: usize, v: usize)
    requires
        0 <= j <= k,
    ensures
        edges_between(efrom, eto, j, u, v) <= edges_between(efrom, eto, k, u, v),
    decreases k - j,
{
    if j < k {
        lemma_between_monotone(efrom, eto, j, k - 1, u, v);
    }
}

proof fn lemma_pending_bound(efrom: Seq<usize>, eto: Seq<usize>, k: int, v: usize, done: Seq<usize>)
    requires
        0 <= k,
    ensures
        pending_into(efrom, eto, k, v, done) <= k,
    decreases k,
{
    if k > 0 {
        lemma_pending_bound(efrom, eto, k - 1, v, done);
    }
}

proof fn lemma_pending_zero(efrom: Seq<usize>, eto: Seq<usize>, k: int, v: usize, done: Seq<usize>)
    requires
        0 <= k,
        pending_into(efrom, eto, k, v, done) == 0,
    ensures
        forall|e: int| 0 <= e < k && eto[e] == v ==> done.contains(#[trigger] efrom[e]),
    decreases k,
{
    if k > 0 {
        lemma_pending_zero(efrom, eto, k - 1, v, done);
    }
}

proof fn lemma_pending_positive(efrom: Seq<usize>, eto: Seq<usize>, k: int, v: usize, done: Seq<usize>) -> (e: int)
    requires
        0 <= k,
        pending_into(efrom, eto, k, v, done) > 0,
    ensures
        0 <= e < k,
        eto[e] == v,
        !done.contains(efrom[e]),
    decreases k,
{
    if k > 0 && pending_into(efrom, eto, k - 1, v, done) > 0 {
        lemma_pending_positive(efrom, eto, k - 1, v, done)
    } else {
        k - 1
    }
}

proof fn lemma_pending_no_edges(efrom: Seq<usize>, eto: Seq<usize>, k: int, v: usize)
    requires
        0 <= k,
    ensures
        pending_into(efrom, eto, k, v, Seq::empty()) == 0 ==> forall|e: int|
            0 <= e < k ==> #[trigger] eto[e] != v,
    decreases k,
{
    if k > 0 {
        lemma_pending_no_edges(efrom, eto, k - 1, v);
    }
}

// ---------------------------------------------------------------------------
// Counting arguments on sequences of indices.

/// A sequence that holds every index below `n` has at least `n` elements.
proof fn lemma_covers_len(s: Seq<int>, n: int)
    requires
        0 <= n,
        forall|v: int| 0 <= v < n ==> s.contains(v),
    ensures
        s.len() >= n,
    decreases n,
{
    if n > 0 {
        assert(s.contains(n - 1));
        let j = choose|j: int| 0 <= j < s.len() && s[j] == n - 1;
        let t = s.remove(j);
        assert forall|v: int| 0 <= v < n - 1 implies t.contains(v) by {
            assert(s.contains(v));
            let i = choose|i: int| 0 <= i < s.len() && s[i] == v;
            if i < j {
                assert(t[i] == v);
            } else {
                assert(i != j);
                assert(t[i - 1] == v);
            }
        }
        lemma_covers_len(t, n - 1);
    }
}

/// A sequence without repeats, of values below `n`, has at most `n` elements.
proof fn lemma_distinct_len(s: Seq<int>, n: int)
    requires
        0 <= n,
        s.no_duplicates(),
        forall|i: int| 0 <= i < s.len() ==> 0 <= #[trigger] s[i] < n,
    ensures
        s.len() <= n,
    decreases n,
{
    if n == 0 {
        if s.len() > 0 {
            let x = s[0];
            assert(0 <= x < n);
        }
    } else if s.contains(n - 1) {
        let j = choose|j: int| 0 <= j < s.len() && s[j] == n - 1;
        let t = s.remove(j);
        assert forall|i: int| 0 <= i < t.len() implies 0 <= #[trigger] t[i] < n - 1 by {
            if i < j {
                assert(t[i] == s[i]);
            } else {
                assert(t[i] == s[i + 1]);
            }
        }
        assert(t.no_duplicates()) by {
            assert forall|a: int, b: int| 0 <= a < b < t.len() implies t[a] != t[b] by {
                let a2 = if a < j { a } else { a + 1 };
                let b2 = if b < j { b } else { b + 1 };
                assert(t[a] == s[a2] && t[b] == s[b2]);
            }
        }
        lemma_distinct_len(t, n - 1);
    } else {
        assert forall|i: int| 0 <= i < s.len() implies 0 <= #[trigger] s[i] < n - 1 by {
            assert(s[i] != n - 1);
        }
        lemma_distinct_len(s, n - 1);
    }
}

/// A sequence without repeats of `n` values below `n` holds every value below `n`.
pub(crate) proof fn lemma_distinct_full(s: Seq<int>, n: int, v: int)
    requires
        0 <= v < n,
        s.len() >= n,
        s.no_duplicates(),
        forall|i: int| 0 <= i < s.len() ==> 0 <= #[trigger] s[i] < n,
    ensures
        s.contains(v),
{
    if !s.contains(v) {
        let t = s.map_values(|x: int| if x > v { x - 1 } else { x });
        assert forall|i: int| 0 <= i < t.len() implies 0 <= #[trigger] t[i] < n - 1 by {
            assert(s[i] != v);
        }
        assert(t.no_duplicates()) by {
            assert forall|a: int, b: int| 0 <= a < b < t.len() implies t[a] != t[b] by {
                assert(s[a] != v && s[b] != v);
                assert(s[a] != s[b]);
            }
        }
        lemma_distinct_len(t, n - 1);
    }
}

/// The least position at which `p` holds, given one at which it does.
proof fn lemma_least(p: spec_fn(int) -> bool, j: int) -> (m: int)
    requires
        0 <= j,
        p(j),
    ensures
        0 <= m <= j,
        p(m),
        forall|k: int| 0 <= k < m ==> !#[trigger] p(k),
    decreases j,
{
    if j == 0 {
        0
    } else if exists|k: int| 0 <= k < j && #[trigger] p(k) {
        let k = choose|k: int| 0 <= k < j && #[trigger] p(k);
        lemma_least(p, k)
    } else {
        j
    }
}

/// Every node of a pipeline with a topological order has its own id, and the
/// order, read as node indices, names every node.
proof fn lemma_order_covers(p: Pipeline, order: Seq<Seq<char>>) -> (oi: Seq<int>)
    requires
        is_topological_order(p, order),
    ensures
        oi.len() == order.len(),
        forall|j: int| 0 <= j < oi.len() ==> 0 <= #[trigger] oi[j] < p.nodes@.len() && node_ids(p)[oi[j]]
            == order[j],
        forall|v: int| 0 <= v < p.nodes@.len() ==> oi.contains(v),
        node_ids(p).no_duplicates(),
{
    let ids = node_ids(p);
    let n = p.nodes@.len() as int;
    let oi = Seq::new(order.len(), |j: int| choose|i: int| 0 <= i < ids.len() && ids[i] == order[j]);
    assert forall|j: int| 0 <= j < oi.len() implies 0 <= #[trigger] oi[j] < n && ids[oi[j]] == order[j] by {
        assert(ids.contains(order[j]));
    }
    assert(oi.no_duplicates()) by {
        assert forall|a: int, b: int| 0 <= a < b < oi.len() implies oi[a] != oi[b] by {
            assert(ids[oi[a]] == order[a]);
            assert(ids[oi[b]] == order[b]);
        }
    }
    assert forall|v: int| 0 <= v < n implies oi.contains(v) by {
        lemma_distinct_full(oi, n, v);
    }
    assert forall|a: int, b: int| 0 <= a < b < ids.len() implies ids[a] != ids[b] by {
        assert(oi.contains(a));
        assert(oi.contains(b));
        let ja = choose|j: int| 0 <= j < oi.len() && oi[j] == a;
        let jb = choose|j: int| 0 <= j < oi.len() && oi[j] == b;
        assert(order[ja] == ids[a]);
        assert(order[jb] == ids[b]);
        assert(ja != jb);
    }
    oi
}

// ---------------------------------------------------------------------------

/// Finds the index of the node named `name`.
fn find_node(nodes: &Vec<Node>, name: &String) -> (r: usize)
    requires
        nodes@.map_values(|n: Node| n.id@).contains(name@),
    ensures
        r < nodes@.len(),
        nodes@[r as int].id@ == name@,
{
    let ghost ids = nodes@.map_values(|n: Node| n.id@);
    let mut i: usize = 0;
    while i < nodes.len()
        invariant
            0 <= i <= nodes@.len(),
            ids == nodes@.map_values(|n: Node| n.id@),
            ids.contains(name@),
            forall|k: int| 0 <= k < i ==> nodes@[k].id@ != name@,
        decreases nodes@.len() - i,
    {
        if nodes[i].id == *name {
            return i;
        }
        i = i + 1;
    }
    proof {
        let k = choose|k: int| 0 <= k < ids.len() && ids[k] == name@;
        assert(nodes@[k].id@ == name@);
    }
    0
}

/// Whether no two nodes share an id.
fn ids_distinct(nodes: &Vec<Node>) -> (r: bool)
    ensures
        r == nodes@.map_values(|n: Node| n.id@).no_duplicates(),
{
    let ghost ids = nodes@.map_values(|n: Node| n.id@);
    let mut i: usize = 0;
    while i < nodes.len()
        invariant
            0 <= i <= nodes@.len(),
            ids == nodes@.map_values(|n: Node| n.id@),
            forall|a: int, b: int| 0 <= a < b < nodes@.len() && a < i ==> ids[a] != ids[b],
        decreases nodes@.len() - i,
    {
        let mut j: usize = i + 1;
        while j < nodes.len()
            invariant
                0 <= i < j <= nodes@.len(),
                ids == nodes@.map_values(|n: Node| n.id@),
                forall|a: int, b: int| 0 <= a < b < nodes@.len() && a < i ==> ids[a] != ids[b],
                forall|b: int| i < b < j ==> ids[i as int] != ids[b],
            decreases nodes@.len() - j,
        {
            if nodes[i].id == nodes[j].id {
                proof {
                    assert(ids[i as int] == ids[j as int]);
                }
                return false;
            }
            j = j + 1;
        }
        i = i + 1;
    }
    true
}

/// The last node named `id`.
fn find_last_node(nodes: &Vec<Node>, id: &String) -> (r: usize)
    requires
        nodes@.map_values(|n: Node| n.id@).contains(id@),
    ensures
        last_node_named(nodes@, id@, r as int),
{
    let ghost ids = nodes@.map_values(|n: Node| n.id@);
    let mut i: usize = nodes.len();
    while i > 0
        invariant
            0 <= i <= nodes@.len(),
            ids == nodes@.map_values(|n: Node| n.id@),
            ids.contains(id@),
            forall|j: int| i <= j < nodes@.len() ==> #[trigger] nodes@[j].id@ != id@,
        decreases i,
    {
        if nodes[i - 1].id == *id {
            return i - 1;
        }
        i = i - 1;
    }
    proof {
        let k = choose|k: int| 0 <= k < ids.len() && ids[k] == id@;
        assert(nodes@[k].id@ == id@);
    }
    0
}

impl Scheduler {
    /// A scheduler for `pipeline` on behalf of the session `session_id`.
    pub fn new(pipeline: Pipeline, session_id: String) -> (s: Self)
        ensures
            s.pipeline == pipeline,
            s.session_id == session_id,
    {
        Scheduler { pipeline, session_id }
    }

    /// The order in which the nodes run: every node once, each after the
    /// nodes whose edges lead to it. Fails exactly when no such order exists.
    pub fn get_topological_order(&self) -> (r: Result<Vec<String>, ScheduleError>)
        requires
            edges_name_nodes(self.pipeline),
        ensures
            match r {
                Ok(order) => is_topological_order(self.pipeline, string_views(order@)),
                Err(e) => e == ScheduleError::Cycle && !exists|o: Seq<Seq<char>>|
                    is_topological_order(self.pipeline, o),
            },
    {
        let p = &self.pipeline;
        let ghost ids = node_ids(*p);
        let n = p.nodes.len();
        if !ids_distinct(&p.nodes) {
            proof {
                assert forall|o: Seq<Seq<char>>| !is_topological_order(*p, o) by {
                    if is_topological_order(*p, o) {
                        lemma_order_covers(*p, o);
                    }
                }
            }
            return Err(ScheduleError::Cycle);
        }
        // Endpoints of each edge, as node indices.
        let ne = p.edges.len();
        let mut efrom: Vec<usize> = Vec::new();
        let mut eto: Vec<usize> = Vec::new();
        let mut k: usize = 0;
        while k < ne
            invariant
                ne == p.edges@.len(),
                n == p.nodes@.len(),
                ids == node_ids(*p),
                edges_name_nodes(*p),
                0 <= k <= ne,
                efrom@.len() == k,
                eto@.len() == k,
                forall|e: int| 0 <= e < k ==> #[trigger] efrom@[e] < n && ids[efrom@[e] as int] == p.edges@[e].from@,
                forall|e: int| 0 <= e < k ==> #[trigger] eto@[e] < n && ids[eto@[e] as int] == p.edges@[e].to@,
            decreases ne - k,
        {
            assert(ids.contains(p.edges@[k as int].from@));
            let a = find_node(&p.nodes, &p.edges[k].from);
            let b = find_node(&p.nodes, &p.edges[k].to);
            efrom.push(a);
            eto.push(b);
            k = k + 1;
        }
        let ghost ef = efrom@;
        let ghost et = eto@;
        // In-degrees.
        let mut in_deg: Vec<usize> = Vec::new();
        let mut i: usize = 0;
        while i < n
            invariant
                0 <= i <= n,
                in_deg@.len() == i,
                forall|v: int| 0 <= v < i ==> #[trigger] in_deg@[v] == 0,
            decreases n - i,
        {
            in_deg.push(0);
            i = i + 1;
        }
        let ghost empty: Seq<usize> = Seq::empty();
        k = 0;
        while k < ne
            invariant
                ne == ef.len(),
                empty == Seq::<usize>::empty(),
                ef == efrom@,
                et == eto@,
                ef.len() == et.len(),
                forall|e: int| 0 <= e < ne ==> #[trigger] et[e] < n,
                0 <= k <= ne,
                in_deg@.len() == n,
                forall|v: int| 0 <= v < n ==> #[trigger] in_deg@[v] == pending_into(ef, et, k as int, v as usize, empty),
            decreases ne - k,
        {
            let t = eto[k];
            proof {
                lemma_pending_bound(ef, et, k as int, t, empty);
            }
            let d = in_deg[t];
            in_deg.set(t, d + 1);
            proof {
                assert forall|v: int| 0 <= v < n implies #[trigger] in_deg@[v] == pending_into(ef, et, k + 1, v as usize, empty) by {
                    assert(!empty.contains(ef[k as int]));
                }
            }
            k = k + 1;
        }
        // Nodes that nothing leads to start the queue.
        let mut queue: Vec<usize> = Vec::new();
        i = 0;
        while i < n
            invariant
                0 <= i <= n,
                in_deg@.len() == n,
                queue@.no_duplicates(),
                forall|a: int| 0 <= a < queue@.len() ==> #[trigger] queue@[a] < i,
                forall|v: int| 0 <= v < i ==> (in_deg@[v] == 0 <==> queue@.contains(v as usize)),
            decreases n - i,
        {
            if in_deg[i] == 0 {
                let ghost oldq = queue@;
                queue.push(i);
                proof {
                    assert forall|v: int| 0 <= v < i + 1 implies (in_deg@[v] == 0 <==> queue@.contains(v as usize)) by {
                        if v < i {
                            if oldq.contains(v as usize) {
                                let a = choose|a: int| 0 <= a < oldq.len() && oldq[a] == v as usize;
                                assert(queue@[a] == v as usize);
                            }
                            if queue@.contains(v as usize) {
                                let a = choose|a: int| 0 <= a < queue@.len() && queue@[a] == v as usize;
                                assert(a < oldq.len());
                                assert(oldq[a] == v as usize);
                            }
                        } else {
                            assert(queue@[oldq.len() as int] == i);
                        }
                    }
                    assert(queue@.no_duplicates()) by {
                        assert forall|a: int, b: int| 0 <= a < b < queue@.len() implies queue@[a] != queue@[b] by {
                            if b == oldq.len() {
                                assert(oldq[a] < i);
                            } else {
                                assert(oldq[a] != oldq[b]);
                            }
                        }
                    }
                }
            } else {
                proof {
                    assert(!queue@.contains(i)) by {
                        if queue@.contains(i) {
                            let a = choose|a: int| 0 <= a < queue@.len() && queue@[a] == i;
                            assert(queue@[a] < i);
                        }
                    }
                }
            }
            i = i + 1;
        }

        // Kahn's algorithm: take nodes from the queue in turn; a node joins
        // the queue once every edge into it comes from a node already taken.
        let mut head: usize = 0;
        let mut order: Vec<String> = Vec::new();
        proof {
            assert(queue@.take(0) =~= empty);
            assert forall|v: int| 0 <= v < n implies #[trigger] in_deg@[v] == pending_into(ef, et, ne as int, v as usize, queue@.take(0)) by {
                assert(queue@.take(0) =~= empty);
            }
            assert forall|e: int, b: int| 0 <= e < ne && 0 <= b < queue@.len() && #[trigger] queue@[b] == #[trigger] et[e]
                implies queue@.take(0).contains(ef[e]) by {
                lemma_pending_no_edges(ef, et, ne as int, queue@[b]);
                assert(queue@.contains(queue@[b]));
                assert(in_deg@[queue@[b] as int] == 0);
            }
            assert forall|e: int, a: int, b: int|
                #![trigger queue@[a], queue@[b], ef[e]]
                0 <= e < ne && 0 <= a < queue@.len() && 0 <= b < queue@.len() && queue@[a] == ef[e] && queue@[b] == et[e]
                implies a < b by {
                lemma_pending_no_edges(ef, et, ne as int, queue@[b]);
                assert(queue@.contains(queue@[b]));
                assert(in_deg@[queue@[b] as int] == 0);
            }
        }
        while head < queue.len()
            invariant
                n == p.nodes@.len(),
                ids == node_ids(*p),
                ids.no_duplicates(),
                ne == ef.len(),
                ef.len() == et.len(),
                ef == efrom@,
                et == eto@,
                forall|e: int| 0 <= e < ne ==> #[trigger] ef[e] < n,
                forall|e: int| 0 <= e < ne ==> #[trigger] et[e] < n,
                in_deg@.len() == n,
                0 <= head <= queue@.len(),
                queue@.no_duplicates(),
                forall|a: int| 0 <= a < queue@.len() ==> #[trigger] queue@[a] < n,
                forall|v: int| 0 <= v < n ==> #[trigger] in_deg@[v] == pending_into(ef, et, ne as int, v as usize, queue@.take(head as int)),
                forall|v: int| 0 <= v < n ==> (#[trigger] in_deg@[v] == 0 <==> queue@.contains(v as usize)),
                forall|e: int, b: int| 0 <= e < ne && 0 <= b < queue@.len() && #[trigger] queue@[b] == #[trigger] et[e]
                    ==> queue@.take(head as int).contains(ef[e]),
                forall|e: int, a: int, b: int|
                    #![trigger queue@[a], queue@[b], ef[e]]
                    0 <= e < ne && 0 <= a < queue@.len() && 0 <= b < queue@.len() && queue@[a] == ef[e] && queue@[b] == et[e]
                    ==> a < b,
                order@.len() == head,
                forall|j: int| 0 <= j < head ==> #[trigger] order@[j]@ == ids[queue@[j] as int],
            decreases n + 1 - head, n - queue@.len(),
        {
            let u = queue[head];
            let ghost done0 = queue@.take(head as int);
            proof {
                assert(!done0.contains(u)) by {
                    if done0.contains(u) {
                        let a = choose|a: int| 0 <= a < done0.len() && done0[a] == u;
                        assert(queue@[a] == queue@[head as int]);
                    }
                }
                assert(queue@.take(head + 1) =~= done0.push(u));
                lemma_distinct_len(queue@.map_values(|x: usize| x as int), n as int);
            }
            head = head + 1;
            order.push(p.nodes[u].id.clone());
            proof {
                assert(order@[head - 1]@ == ids[queue@[head - 1] as int]);
            }
            k = 0;
            while k < ne
                invariant
                    n == p.nodes@.len(),
                    ids == node_ids(*p),
                    order@.len() == head,
                    forall|j: int| 0 <= j < head ==> #[trigger] order@[j]@ == ids[queue@[j] as int],
                    ne == ef.len(),
                    ef.len() == et.len(),
                    ef == efrom@,
                    et == eto@,
                    forall|e: int| 0 <= e < ne ==> #[trigger] ef[e] < n,
                    forall|e: int| 0 <= e < ne ==> #[trigger] et[e] < n,
                    in_deg@.len() == n,
                    0 < head <= queue@.len(),
                    u == queue@[head - 1],
                    done0 == queue@.take(head - 1),
                    !done0.contains(u),
                    queue@.take(head as int) == done0.push(u),
                    queue@.no_duplicates(),
                    forall|a: int| 0 <= a < queue@.len() ==> #[trigger] queue@[a] < n,
                    0 <= k <= ne,
                    forall|v: int| 0 <= v < n ==> #[trigger] in_deg@[v] + edges_between(ef, et, k as int, u, v as usize)
                        == pending_into(ef, et, ne as int, v as usize, done0),
                    forall|v: int| 0 <= v < n ==> (#[trigger] in_deg@[v] == 0 <==> queue@.contains(v as usize)),
                    forall|e: int, b: int| 0 <= e < ne && 0 <= b < queue@.len() && #[trigger] queue@[b] == #[trigger] et[e]
                        ==> queue@.take(head as int).contains(ef[e]),
                    forall|e: int, a: int, b: int|
                        #![trigger queue@[a], queue@[b], ef[e]]
                        0 <= e < ne && 0 <= a < queue@.len() && 0 <= b < queue@.len() && queue@[a] == ef[e] && queue@[b] == et[e]
                        ==> a < b,
                decreases ne - k,
            {
                if efrom[k] == u {
                    let t = eto[k];
                    proof {
                        lemma_pending_split(ef, et, ne as int, t, done0, u);
                        lemma_between_monotone(ef, et, k + 1, ne as int, u, t);
                        assert(in_deg@[t as int] >= 1);
                    }
                    let d = in_deg[t];
                    in_deg.set(t, d - 1);
                    if d - 1 == 0 {
                        let ghost oldq = queue@;
                        proof {
                            assert(!oldq.contains(t));
                            assert(pending_into(ef, et, ne as int, t, done0.push(u)) == 0);
                            lemma_pending_zero(ef, et, ne as int, t, done0.push(u));
                        }
                        queue.push(t);
                        proof {
                            assert(queue@.take(head as int) =~= oldq.take(head as int));
                            assert(queue@[oldq.len() as int] == t);
                            assert forall|x: usize| oldq.contains(x) implies queue@.contains(x) by {
                                let a = choose|a: int| 0 <= a < oldq.len() && oldq[a] == x;
                                assert(queue@[a] == x);
                            }
                            assert forall|x: usize| queue@.contains(x) && x != t implies oldq.contains(x) by {
                                let a = choose|a: int| 0 <= a < queue@.len() && queue@[a] == x;
                                assert(oldq[a] == x);
                            }
                            assert(queue@.no_duplicates()) by {
                                assert forall|a: int, b: int| 0 <= a < b < queue@.len() implies queue@[a] != queue@[b] by {
                                    if b == oldq.len() {
                                        assert(oldq.contains(oldq[a]));
                                    } else {
                                        assert(oldq[a] != oldq[b]);
                                    }
                                }
                            }
                            assert forall|e: int, b: int| 0 <= e < ne && 0 <= b < queue@.len() && #[trigger] queue@[b] == #[trigger] et[e]
                                implies queue@.take(head as int).contains(ef[e]) by {
                                if b < oldq.len() {
                                    assert(oldq[b] == et[e]);
                                } else {
                                    assert(done0.push(u).contains(ef[e]));
                                }
                            }
                            assert forall|e: int, a: int, b: int|
                                #![trigger queue@[a], queue@[b], ef[e]]
                                0 <= e < ne && 0 <= a < queue@.len() && 0 <= b < queue@.len() && queue@[a] == ef[e] && queue@[b] == et[e]
                                implies a < b by {
                                let q = oldq.len() as int;
                                if a < q && b < q {
                                    assert(oldq[a] == ef[e] && oldq[b] == et[e]);
                                } else if b == q {
                                    assert(queue@.take(head as int).contains(ef[e]));
                                    let a2 = choose|a2: int| 0 <= a2 < head && queue@.take(head as int)[a2] == ef[e];
                                    assert(queue@[a2] == ef[e]);
                                } else {
                                    assert(oldq[b] == et[e]);
                                    assert(queue@.take(head as int).contains(ef[e]));
                                    let a2 = choose|a2: int| 0 <= a2 < head && queue@.take(head as int)[a2] == ef[e];
                                    assert(oldq[a2] == t);
                                }
                            }
                        }
                    } else {
                        proof {
                            assert(!queue@.contains(t));
                        }
                    }
                    proof {
                        assert forall|v: int| 0 <= v < n implies #[trigger] in_deg@[v] + edges_between(ef, et, k + 1, u, v as usize)
                            == pending_into(ef, et, ne as int, v as usize, done0) by {
                        }
                        assert forall|v: int| 0 <= v < n implies (#[trigger] in_deg@[v] == 0 <==> queue@.contains(v as usize)) by {
                        }
                    }
                }
                k = k + 1;
            }
            proof {
                assert forall|v: int| 0 <= v < n implies #[trigger] in_deg@[v] == pending_into(ef, et, ne as int, v as usize, queue@.take(head as int)) by {
                    lemma_pending_split(ef, et, ne as int, v as usize, done0, u);
                }
                assert forall|j: int| 0 <= j < head implies #[trigger] order@[j]@ == ids[queue@[j] as int] by {
                }
            }
        }
        if order.len() != n {
            proof {
                assert forall|o: Seq<Seq<char>>| !is_topological_order(*p, o) by {
                    if is_topological_order(*p, o) {
                        let oi = lemma_order_covers(*p, o);
                        let qi = queue@.map_values(|x: usize| x as int);
                        lemma_distinct_len(qi, n as int);
                        let ghost missing = if forall|v: int| 0 <= v < n ==> qi.contains(v) {
                            lemma_covers_len(qi, n as int);
                            0int
                        } else {
                            choose|v: int| 0 <= v < n && !qi.contains(v)
                        };
                        assert(0 <= missing < n && !qi.contains(missing));
                        assert(oi.contains(missing));
                        let j0 = choose|j: int| 0 <= j < oi.len() && oi[j] == missing;
                        let pred = |j: int| 0 <= j < oi.len() && !qi.contains(oi[j]);
                        let m = lemma_least(pred, j0);
                        let w = oi[m];
                        assert(!queue@.contains(w as usize)) by {
                            if queue@.contains(w as usize) {
                                let a = choose|a: int| 0 <= a < queue@.len() && queue@[a] == w as usize;
                                assert(qi[a] == w);
                            }
                        }
                        assert(queue@.take(head as int) =~= queue@);
                        assert(in_deg@[w] != 0);
                        assert(in_deg@[w] == pending_into(ef, et, ne as int, w as usize, queue@.take(head as int)));
                        let e = lemma_pending_positive(ef, et, ne as int, w as usize, queue@);
                        let src = ef[e] as int;
                        assert(!qi.contains(src)) by {
                            if qi.contains(src) {
                                let a = choose|a: int| 0 <= a < qi.len() && qi[a] == src;
                                assert(queue@[a] == ef[e]);
                            }
                        }
                        assert(oi.contains(src));
                        let t = choose|t: int| 0 <= t < oi.len() && oi[t] == src;
                        assert(pred(t));
                        assert(o[t] == p.edges@[e].from@);
                        assert(o[m] == p.edges@[e].to@);
                    }
                }
            }
            return Err(ScheduleError::Cycle);
        }
        proof {
            let ov = string_views(order@);
            assert(ov.no_duplicates()) by {
                assert forall|a: int, b: int| 0 <= a < b < ov.len() implies ov[a] != ov[b] by {
                    assert(order@[a]@ == ids[queue@[a] as int]);
                    assert(order@[b]@ == ids[queue@[b] as int]);
                }
            }
            assert forall|i: int| 0 <= i < ov.len() implies ids.contains(#[trigger] ov[i]) by {
                assert(order@[i]@ == ids[queue@[i] as int]);
            }
            assert forall|e: int, a: int, b: int|
                #![trigger ov[a], ov[b], p.edges@[e]]
                0 <= e < p.edges@.len() && 0 <= a < ov.len() && 0 <= b < ov.len() && ov[a] == p.edges@[e].from@
                    && ov[b] == p.edges@[e].to@ implies a < b by {
                assert(order@[a]@ == ids[queue@[a] as int]);
                assert(order@[b]@ == ids[queue@[b] as int]);
                assert(queue@[a] == ef[e]);
                assert(queue@[b] == et[e]);
            }
        }
        Ok(order)
    }

    /// Runs the node named `node_id` against `sandbox`: a `rename` node writes
    /// [`RENAMED_TEXT`] to [`RENAMED_FILE`]; other operations change nothing.
    /// Reports the sandbox's root before and after, and the journal operation
    /// type `NODE_EXEC:<operation>`.
    pub fn run_node(&self, sandbox: &mut Sandbox, node_id: &String) -> (s: NodeStep)
        requires
            node_ids(self.pipeline).contains(node_id@),
            old(sandbox).wf(),
        ensures
            final(sandbox).wf(),
            final(sandbox).base_snapshot == old(sandbox).base_snapshot,
            final(sandbox).work_dir == old(sandbox).work_dir,
            exists|k: int|
                #![trigger self.pipeline.nodes@[k]]
                last_node_named(self.pipeline.nodes@, node_id@, k) && {
                    let op = self.pipeline.nodes@[k].operation@;
                    &&& s.node_id@ == self.pipeline.nodes@[k].id@
                    &&& s.operation@ == op
                    &&& s.operation_type@ == "NODE_EXEC:"@ + op
                    &&& if op == "rename"@ {
                        change_map(final(sandbox).changes@) == change_map(old(sandbox).changes@).insert(
                            RENAMED_FILE@,
                            encode_utf8(RENAMED_TEXT@),
                        )
                    } else {
                        final(sandbox).changes@ == old(sandbox).changes@
                    }
                },
            s.pre_hash@ == tree_root(post_hashes(*old(sandbox))),
            s.post_hash@ == tree_root(post_hashes(*final(sandbox))),
    {
        let k = find_last_node(&self.pipeline.nodes, node_id);
        let node = &self.pipeline.nodes[k];
        let pre_hash = if sandbox.changes.len() == 0 {
            proof {
                lemma_unchanged_sandbox_root(*sandbox);
            }
            sandbox.base_snapshot.compute_merkle_root()
        } else {
            sandbox.compute_post_merkle_root()
        };
        if node.operation == "rename".to_owned() {
            let path = RENAMED_FILE.to_owned();
            let content = vstd::slice::slice_to_vec(RENAMED_TEXT.as_bytes());
            sandbox.write_file(path, content);
        }
        let post_hash = sandbox.compute_post_merkle_root();
        let mut operation_type = "NODE_EXEC:".to_owned();
        operation_type.append(node.operation.as_str());
        NodeStep {
            node_id: node.id.clone(),
            operation: node.operation.clone(),
            operation_type,
            pre_hash,
            post_hash,
        }
    }

    /// Checks a node's outcome against the clock: it fails one time in ten,
    /// when the milliseconds since the epoch are a multiple of ten.
    fn verify_node(&self, _node: &Node) -> (r: Result<bool, ScheduleError>)
        ensures
            r matches Err(e) ==> e == ScheduleError::Clock,
    {
        let millis = match millis_since_epoch() {
            Ok(m) => m,
            Err(e) => {
                return Err(e);
            },
        };
        Ok(verdict_at(millis))
    }
}

/// The verdict on a node checked at `millis` milliseconds past the epoch:
/// it passes unless `millis` is a multiple of ten.
pub fn verdict_at(millis: u128) -> (ok: bool)
    ensures
        ok == (millis % 10 != 0),
{
    millis % 10 != 0
}

} // verus!
