//! Compiling a FlowLang pipeline into a pipeline graph: every call becomes a
//! node, and the nodes form one chain in the order the calls appear.
use crate::flowlang::{ast_view, ast_views, digits_value, is_digit, lemma_ast_views_index, ASTNode, AstView};
use crate::pipeline::{edges_name_nodes, is_topological_order, node_ids};
use crate::pipeline::{Edge, Node, Pipeline};
use crate::scheduler::lemma_distinct_full;
use vstd::prelude::*;

verus! {

/// Why compilation failed (it never does; the type keeps the call site's shape).
#[derive(Debug, Clone, Copy, PartialEq, Eq)]
pub enum CompileError {
    Unsupported,
}

// ---------------------------------------------------------------------------
// Decimal text of a number.

/// The character of the decimal digit `d`.
pub open spec fn digit_char(d: int) -> char {
    if d == 0 {
        '0'
    } else if d == 1 {
        '1'
    } else if d == 2 {
        '2'
    } else if d == 3 {
        '3'
    } else if d == 4 {
        '4'
    } else if d == 5 {
        '5'
    } else if d == 6 {
        '6'
    } else if d == 7 {
        '7'
    } else if d == 8 {
        '8'
    } else {
        '9'
    }
}

/// The decimal digits of `n`, without leading zeros.
pub open spec fn decimal_chars(n: nat) -> Seq<char>
    decreases n,
{
    if n < 10 {
        seq![digit_char(n as int)]
    } else {
        decimal_chars(n / 10).push(digit_char((n % 10) as int))
    }
}

fn digit_str(d: usize) -> (r: &'static str)
    requires
        d < 10,
    ensures
        r@ == seq![digit_char(d as int)],
{
    if d == 0 {
        proof { reveal_strlit("0"); }
        "0"
    } else if d == 1 {
        proof { reveal_strlit("1"); }
        "1"
    } else if d == 2 {
        proof { reveal_strlit("2"); }
        "2"
    } else if d == 3 {
        proof { reveal_strlit("3"); }
        "3"
    } else if d == 4 {
        proof { reveal_strlit("4"); }
        "4"
    } else if d == 5 {
        proof { reveal_strlit("5"); }
        "5"
    } else if d == 6 {
        proof { reveal_strlit("6"); }
        "6"
    } else if d == 7 {
        proof { reveal_strlit("7"); }
        "7"
    } else if d == 8 {
        proof { reveal_strlit("8"); }
        "8"
    } else {
        proof { reveal_strlit("9"); }
        "9"
    }
}

/// The decimal text of `n`.
pub fn decimal(n: usize) -> (r: String)
    ensures
        r@ == decimal_chars(n as nat),
    decreases n,
{
    if n < 10 {
        String::from_str(digit_str(n))
    } else {
        let mut s = decimal(n / 10);
        s.append(digit_str(n % 10));
        s
    }
}

// ---------------------------------------------------------------------------
// What a pipeline compiles to.

/// The calls that statements make, in order: a call, the calls of a pipe, and
/// the calls in the body of a `for`; other statements make none.
pub open spec fn body_calls(s: Seq<AstView>) -> Seq<Seq<char>>
    decreases s,
{
    if s.len() == 0 {
        Seq::empty()
    } else {
        body_calls(s.drop_last()) + stmt_calls(s.last())
    }
}

/// The calls a statement runs, in order: its own, those of a pipe, those
/// of a loop's body; none for a binding.
pub open spec fn stmt_calls(n: AstView) -> Seq<Seq<char>>
    decreases n,
{
    match n {
        AstView::Call { name, args } => seq![name],
        AstView::Pipe { nodes } => pipe_calls(nodes),
        AstView::For { var, iterable, body } => body_calls(body),
        _ => Seq::empty(),
    }
}

/// The names of the calls among the stages of a pipe.
pub open spec fn pipe_calls(s: Seq<AstView>) -> Seq<Seq<char>>
    decreases s.len(),
{
    if s.len() == 0 {
        Seq::empty()
    } else {
        pipe_calls(s.drop_last()) + match s.last() {
            AstView::Call { name, args } => seq![name],
            _ => Seq::empty(),
        }
    }
}

/// The calls a whole program makes (a program that is not a pipeline makes none).
pub open spec fn program_calls(a: AstView) -> Seq<Seq<char>> {
    match a {
        AstView::Pipeline { name, body } => body_calls(body),
        _ => Seq::empty(),
    }
}

/// The id of the node for call `name` at position `k`: `name_k`.
pub open spec fn node_id_for(name: Seq<char>, k: int) -> Seq<char> {
    name + seq!['_'] + decimal_chars(k as nat)
}

/// The settings of a compiled node: the empty JSON object.
pub open spec fn empty_config() -> Seq<char> {
    seq!['{', '}']
}

/// Nodes and edges that chain the calls `names`: node `k` runs call `k`, and
/// an edge leads from each node to the next.
pub open spec fn chains(nodes: Seq<Node>, edges: Seq<Edge>, names: Seq<Seq<char>>) -> bool {
    &&& nodes.len() == names.len()
    &&& forall|k: int|
        0 <= k < nodes.len() ==> #[trigger] nodes[k].operation@ == names[k] && nodes[k].id@ == node_id_for(
            names[k],
            k,
        ) && nodes[k].config@ == empty_config()
    &&& edges.len() == if names.len() == 0 { 0 } else { names.len() - 1 }
    &&& forall|k: int|
        0 <= k < edges.len() ==> #[trigger] edges[k].from@ == nodes[k].id@ && edges[k].to@ == nodes[k + 1].id@
}

/// `prev` names the last node so far, and there is none exactly when no
/// node was made yet.
pub open spec fn prev_ok(nodes: Seq<Node>, prev: Option<String>) -> bool {
    match prev {
        Some(p) => nodes.len() > 0 && p@ == nodes.last().id@,
        None => nodes.len() == 0,
    }
}

/// Appends the node for call `name` and the edge to it from the previous node.
fn emit(name: &String, nodes: &mut Vec<Node>, edges: &mut Vec<Edge>, prev_id: &mut Option<String>)
    requires
        chains(old(nodes)@, old(edges)@, old(nodes)@.map_values(|n: Node| n.operation@)),
        prev_ok(old(nodes)@, *old(prev_id)),
    ensures
        final(nodes)@.len() == old(nodes)@.len() + 1,
        chains(final(nodes)@, final(edges)@, old(nodes)@.map_values(|n: Node| n.operation@).push(name@)),
        final(nodes)@.map_values(|n: Node| n.operation@) == old(nodes)@.map_values(|n: Node| n.operation@).push(name@),
        prev_ok(final(nodes)@, *final(prev_id)),
{
    let ghost names = nodes@.map_values(|n: Node| n.operation@);
    let k = nodes.len();
    let mut id = name.clone();
    id.append("_");
    let digits = decimal(k);
    id.append(digits.as_str());
    proof {
        reveal_strlit("_");
        assert(id@ =~= node_id_for(name@, k as int));
    }
    let config = String::from_str("{}");
    proof {
        reveal_strlit("{}");
        assert(config@ =~= empty_config());
    }
    let ghost old_nodes = nodes@;
    let ghost old_edges = edges@;
    nodes.push(Node { id: id.clone(), operation: name.clone(), config });
    match prev_id {
        Some(p) => {
            edges.push(Edge { from: p.clone(), to: id.clone() });
            proof {
                assert(edges@.len() == k);
                assert forall|j: int| 0 <= j < edges@.len() implies #[trigger] edges@[j].from@ == nodes@[j].id@
                    && edges@[j].to@ == nodes@[j + 1].id@ by {
                    if j < k - 1 {
                        assert(edges@[j] == old_edges[j]);
                        assert(old_edges[j].from@ == old_nodes[j].id@);
                        assert(nodes@[j] == old_nodes[j]);
                        assert(nodes@[j + 1] == old_nodes[j + 1]);
                    } else {
                        assert(nodes@[j] == old_nodes[j]);
                    }
                }
            }
        },
        None => {
            proof {
                assert(edges@.len() == 0);
            }
        },
    }
    *prev_id = Some(id);
    proof {
        let nn = names.push(name@);
        assert(nodes@.map_values(|n: Node| n.operation@) =~= nn);
        assert forall|j: int| 0 <= j < nodes@.len() implies #[trigger] nodes@[j].operation@ == nn[j] && nodes@[j].id@
            == node_id_for(nn[j], j) && nodes@[j].config@ == empty_config() by {
            if j < k {
                assert(nodes@[j] == old_nodes[j]);
                assert(old_nodes[j].operation@ == names[j]);
            } else {
                assert(nodes@[j].id@ == id@);
            }
        }
    }
}

/// Adds the nodes and edges for the statements `body`, chained after `prev_id`.
fn process_body(body: &Vec<ASTNode>, nodes: &mut Vec<Node>, edges: &mut Vec<Edge>, prev_id: &mut Option<String>)
    requires
        chains(old(nodes)@, old(edges)@, old(nodes)@.map_values(|n: Node| n.operation@)),
        prev_ok(old(nodes)@, *old(prev_id)),
    ensures
        chains(final(nodes)@, final(edges)@, final(nodes)@.map_values(|n: Node| n.operation@)),
        final(nodes)@.map_values(|n: Node| n.operation@) == old(nodes)@.map_values(|n: Node| n.operation@)
            + body_calls(ast_views(body@)),
        prev_ok(final(nodes)@, *final(prev_id)),
    decreases body,
{
    let ghost names0 = nodes@.map_values(|n: Node| n.operation@);
    let ghost views = ast_views(body@);
    proof {
        lemma_ast_views_index(body@);
    }
    let mut k: usize = 0;
    while k < body.len()
        invariant
            0 <= k <= body@.len(),
            views == ast_views(body@),
            views.len() == body@.len(),
            forall|j: int| 0 <= j < body@.len() ==> #[trigger] views[j] == ast_view(body@[j]),
            chains(nodes@, edges@, nodes@.map_values(|n: Node| n.operation@)),
            nodes@.map_values(|n: Node| n.operation@) == names0 + body_calls(views.take(k as int)),
            prev_ok(nodes@, *prev_id),
        decreases body@.len() - k,
    {
        let ghost before = nodes@.map_values(|n: Node| n.operation@);
        proof {
            assert(views.take(k + 1).drop_last() =~= views.take(k as int));
            assert(views.take(k + 1).last() == views[k as int]);
        }
        let stmt = &body[k];
        match stmt {
            ASTNode::Call { name, args } => {
                emit(name, nodes, edges, prev_id);
            },
            ASTNode::Pipe { nodes: stages } => {
                let mut m: usize = 0;
                proof {
                    lemma_ast_views_index(stages@);
                    assert(ast_views(stages@).take(0) =~= Seq::<AstView>::empty());
                    assert(before + pipe_calls(ast_views(stages@).take(0)) =~= before);
                }
                while m < stages.len()
                    invariant
                        0 <= m <= stages@.len(),
                        ast_views(stages@).len() == stages@.len(),
                        forall|j: int| 0 <= j < stages@.len() ==> #[trigger] ast_views(stages@)[j] == ast_view(stages@[j]),
                        chains(nodes@, edges@, nodes@.map_values(|n: Node| n.operation@)),
                        nodes@.map_values(|n: Node| n.operation@) == before + pipe_calls(ast_views(stages@).take(m as int)),
                        prev_ok(nodes@, *prev_id),
                    decreases stages@.len() - m,
                {
                    let ghost sv = ast_views(stages@);
                    proof {
                        assert(sv.take(m + 1).drop_last() =~= sv.take(m as int));
                        assert(sv.take(m + 1).last() == sv[m as int]);
                    }
                    match &stages[m] {
                        ASTNode::Call { name, args } => {
                            emit(name, nodes, edges, prev_id);
                            proof {
                                assert(before + pipe_calls(sv.take(m + 1)) =~= (before + pipe_calls(sv.take(m as int))).push(name@));
                            }
                        },
                        _ => {
                            proof {
                                assert(pipe_calls(sv.take(m + 1)) =~= pipe_calls(sv.take(m as int)));
                            }
                        },
                    }
                    m = m + 1;
                }
                proof {
                    assert(ast_views(stages@).take(stages@.len() as int) =~= ast_views(stages@));
                }
            },
            ASTNode::For { var, iterable, body: inner } => {
                process_body(inner, nodes, edges, prev_id);
            },
            _ => {},
        }
        proof {
            assert(names0 + body_calls(views.take(k + 1)) =~= names0 + body_calls(views.take(k as int)) + stmt_calls(views[k as int]));
        }
        k = k + 1;
    }
    proof {
        assert(views.take(body@.len() as int) =~= views);
    }
}

/// The pipeline graph of a FlowLang program: one node per call, chained in
/// the order the calls appear; anything but a pipeline gives an empty graph.
pub fn compile_ast_to_pipeline(ast: ASTNode) -> (r: Result<Pipeline, CompileError>)
    ensures
        match r {
            Ok(p) => chains(p.nodes@, p.edges@, program_calls(ast_view(ast))),
            Err(_) => false,
        },
{
    let mut nodes: Vec<Node> = Vec::new();
    let mut edges: Vec<Edge> = Vec::new();
    proof {
        assert(nodes@.map_values(|n: Node| n.operation@) =~= Seq::<Seq<char>>::empty());
    }
    match ast {
        ASTNode::Pipeline { name, body } => {
            let mut prev_id: Option<String> = None;
            process_body(&body, &mut nodes, &mut edges, &mut prev_id);
            proof {
                assert(Seq::<Seq<char>>::empty() + body_calls(ast_views(body@)) =~= body_calls(ast_views(body@)));
            }
        },
        _ => {},
    }
    Ok(Pipeline { nodes, edges })
}

} // verus!

verus! {

proof fn lemma_digit_char(d: int)
    requires
        0 <= d < 10,
    ensures
        is_digit(digit_char(d)),
        digit_char(d) as int - '0' as int == d,
{
}

pub(crate) proof fn lemma_decimal_digits(n: nat)
    ensures
        decimal_chars(n).len() >= 1,
        forall|i: int| 0 <= i < decimal_chars(n).len() ==> is_digit(#[trigger] decimal_chars(n)[i]),
        digits_value(decimal_chars(n)) == n,
    decreases n,
{
    if n >= 10 {
        lemma_decimal_digits(n / 10);
        lemma_digit_char((n % 10) as int);
        let d = decimal_chars(n);
        assert(d.drop_last() =~= decimal_chars(n / 10));
        assert(d.last() == digit_char((n % 10) as int));
        assert(digits_value(d) == 10 * digits_value(d.drop_last()) + (d.last() as int - '0' as int));
        assert(n == 10 * (n / 10) + n % 10);
    } else {
        lemma_digit_char(n as int);
        let d = decimal_chars(n);
        assert(d.drop_last() =~= Seq::<char>::empty());
        assert(digits_value(d.drop_last()) == 0);
        assert(d.last() == digit_char(n as int));
    }
}

/// Two strings that end in `_` and then a run without `_` have the same run.
proof fn lemma_suffix_after_underscore(x: Seq<char>, y: Seq<char>, d1: Seq<char>, d2: Seq<char>)
    requires
        x + seq!['_'] + d1 == y + seq!['_'] + d2,
        forall|i: int| 0 <= i < d1.len() ==> #[trigger] d1[i] != '_',
        forall|i: int| 0 <= i < d2.len() ==> #[trigger] d2[i] != '_',
    ensures
        d1 == d2,
{
    let s1 = x + seq!['_'] + d1;
    let s2 = y + seq!['_'] + d2;
    let l = s1.len();
    if d1.len() < d2.len() {
        let p = l - d1.len() - 1;
        assert(s1[p] == '_');
        assert(s2[p] == d2[p - y.len() - 1]);
    } else if d2.len() < d1.len() {
        let p = l - d2.len() - 1;
        assert(s2[p] == '_');
        assert(s1[p] == d1[p - x.len() - 1]);
    } else {
        assert forall|i: int| 0 <= i < d1.len() implies d1[i] == d2[i] by {
            assert(s1[x.len() + 1 + i] == s2[y.len() + 1 + i]);
        }
        assert(d1 =~= d2);
    }
}

proof fn lemma_node_ids_distinct(names: Seq<Seq<char>>, a: int, b: int)
    requires
        a != b,
        0 <= a,
        0 <= b,
    ensures
        node_id_for(names[a], a) != node_id_for(names[b], b),
{
    lemma_decimal_digits(a as nat);
    lemma_decimal_digits(b as nat);
    if node_id_for(names[a], a) == node_id_for(names[b], b) {
        let da = decimal_chars(a as nat);
        let db = decimal_chars(b as nat);
        assert forall|i: int| 0 <= i < da.len() implies #[trigger] da[i] != '_' by {
            assert(is_digit(da[i]));
        }
        assert forall|i: int| 0 <= i < db.len() implies #[trigger] db[i] != '_' by {
            assert(is_digit(db[i]));
        }
        lemma_suffix_after_underscore(names[a], names[b], da, db);
    }
}

/// A compiled pipeline can always be scheduled: its edges name its nodes, and
/// the nodes in the order they were made are a topological order.
pub proof fn lemma_compiled_pipeline_schedulable(p: Pipeline, names: Seq<Seq<char>>)
    requires
        chains(p.nodes@, p.edges@, names),
    ensures
        edges_name_nodes(p),
        is_topological_order(p, node_ids(p)),
{
    let ids = node_ids(p);
    let n = p.nodes@.len() as int;
    assert forall|a: int, b: int| 0 <= a < n && 0 <= b < n && a != b implies #[trigger] ids[a] != #[trigger] ids[b] by {
        assert(p.nodes@[a].operation@ == names[a]);
        assert(p.nodes@[b].operation@ == names[b]);
        lemma_node_ids_distinct(names, a, b);
    }
    assert forall|e: int| 0 <= e < p.edges@.len() implies ids.contains(#[trigger] p.edges@[e].from@) && ids.contains(
        p.edges@[e].to@,
    ) by {
        assert(ids[e] == p.edges@[e].from@);
        assert(ids[e + 1] == p.edges@[e].to@);
    }
    assert forall|i: int| 0 <= i < ids.len() implies ids.contains(#[trigger] ids[i]) by {
    }
    assert forall|e: int, a: int, b: int|
        #![trigger ids[a], ids[b], p.edges@[e]]
        0 <= e < p.edges@.len() && 0 <= a < ids.len() && 0 <= b < ids.len() && ids[a] == p.edges@[e].from@
            && ids[b] == p.edges@[e].to@ implies a < b by {
        assert(ids[e] == p.edges@[e].from@);
        assert(ids[e + 1] == p.edges@[e].to@);
        if a != e {
            assert(ids[a] != ids[e]);
        }
        if b != e + 1 {
            assert(ids[b] != ids[e + 1]);
        }
    }
}


/// A map from positions to positions below `n` that grows at each step is
/// at least the identity.
proof fn lemma_increasing_lower(pos: spec_fn(int) -> int, n: int, k: int)
    requires
        0 <= k < n,
        forall|j: int| 0 <= j < n ==> 0 <= #[trigger] pos(j) < n,
        forall|j: int| 0 <= j < n - 1 ==> #[trigger] pos(j) < pos(j + 1),
    ensures
        pos(k) >= k,
    decreases k,
{
    if k > 0 {
        lemma_increasing_lower(pos, n, k - 1);
        assert(pos(k - 1) < pos(k));
    }
}

/// ... and at most the identity.
proof fn lemma_increasing_upper(pos: spec_fn(int) -> int, n: int, k: int)
    requires
        0 <= k < n,
        forall|j: int| 0 <= j < n ==> 0 <= #[trigger] pos(j) < n,
        forall|j: int| 0 <= j < n - 1 ==> #[trigger] pos(j) < pos(j + 1),
    ensures
        pos(k) <= k,
    decreases n - k,
{
    if k < n - 1 {
        lemma_increasing_upper(pos, n, k + 1);
        assert(pos(k) < pos(k + 1));
    }
}

/// A compiled pipeline has one topological order only: its nodes in the
/// order they were made. Scheduling it therefore runs the calls in the order
/// they appear in the program.
pub proof fn lemma_compiled_order_unique(p: Pipeline, names: Seq<Seq<char>>, o: Seq<Seq<char>>)
    requires
        chains(p.nodes@, p.edges@, names),
        is_topological_order(p, o),
    ensures
        o == node_ids(p),
{
    let ids = node_ids(p);
    let n = p.nodes@.len() as int;
    assert forall|a: int, b: int| 0 <= a < n && 0 <= b < n && a != b implies #[trigger] ids[a] != #[trigger] ids[b] by {
        assert(p.nodes@[a].operation@ == names[a]);
        assert(p.nodes@[b].operation@ == names[b]);
        lemma_node_ids_distinct(names, a, b);
    }
    // Each entry of `o` is the id of one node.
    let f = |a: int| choose|k: int| 0 <= k < n && ids[k] == o[a];
    assert forall|a: int| 0 <= a < n implies 0 <= #[trigger] f(a) < n && ids[f(a)] == o[a] by {
        assert(ids.contains(o[a]));
    }
    let s = Seq::new(n as nat, f);
    assert(s.no_duplicates()) by {
        assert forall|a: int, b: int| 0 <= a < b < s.len() implies s[a] != s[b] by {
            assert(o[a] != o[b]);
        }
    }
    // Every node appears in `o`.
    let pos = |k: int| choose|a: int| 0 <= a < n && o[a] == ids[k];
    assert forall|k: int| 0 <= k < n implies 0 <= #[trigger] pos(k) < n && o[pos(k)] == ids[k] by {
        assert forall|i: int| 0 <= i < s.len() implies 0 <= #[trigger] s[i] < n by {
            assert(s[i] == f(i));
        }
        lemma_distinct_full(s, n, k);
        let a = choose|a: int| 0 <= a < s.len() && s[a] == k;
        assert(o[a] == ids[k]);
    }
    // Edge `k` leads from node `k` to node `k + 1`, so positions grow.
    assert forall|k: int| 0 <= k < n - 1 implies #[trigger] pos(k) < pos(k + 1) by {
        assert(0 <= pos(k) < n && o[pos(k)] == ids[k]);
        assert(0 <= pos(k + 1) < n && o[pos(k + 1)] == ids[k + 1]);
        assert(p.edges@[k].from@ == ids[k]);
        assert(p.edges@[k].to@ == ids[k + 1]);
        assert(o[pos(k)] == p.edges@[k].from@ && o[pos(k + 1)] == p.edges@[k].to@);
    }
    assert forall|k: int| 0 <= k < n implies o[k] == ids[k] by {
        lemma_increasing_lower(pos, n, k);
        lemma_increasing_upper(pos, n, k);
        assert(o[pos(k)] == ids[k]);
    }
    assert(o =~= ids);
}


proof fn lemma_body_calls_concat(a: Seq<AstView>, b: Seq<AstView>)
    ensures
        body_calls(a + b) == body_calls(a) + body_calls(b),
    decreases b.len(),
{
    if b.len() == 0 {
        assert(a + b =~= a);
        assert(body_calls(b) =~= Seq::<Seq<char>>::empty());
        assert(body_calls(a) + body_calls(b) =~= body_calls(a));
    } else {
        lemma_body_calls_concat(a, b.drop_last());
        assert((a + b).drop_last() =~= a + b.drop_last());
        assert(body_calls(a) + body_calls(b) =~= body_calls(a) + body_calls(b.drop_last()) + stmt_calls(b.last()));
    }
}

proof fn lemma_body_calls_single(st: AstView)
    ensures
        body_calls(seq![st]) == stmt_calls(st),
{
    assert(seq![st].drop_last() =~= Seq::<AstView>::empty());
    assert(body_calls(Seq::<AstView>::empty()) + stmt_calls(st) =~= stmt_calls(st));
}

/// A `for` loop compiles to the nodes of its body alone: its variable and the
/// expression it walks make no node, so a program compiles as if the loop's
/// body stood in its place.
pub proof fn lemma_for_loop_compiles_as_its_body(
    name: Seq<char>,
    before: Seq<AstView>,
    after: Seq<AstView>,
    var: Seq<char>,
    iterable: AstView,
    body: Seq<AstView>,
)
    ensures
        program_calls(
            AstView::Pipeline {
                name,
                body: before + seq![AstView::For { var, iterable: Box::new(iterable), body }] + after,
            },
        ) == program_calls(AstView::Pipeline { name, body: before + body + after }),
{
    let f = AstView::For { var, iterable: Box::new(iterable), body };
    lemma_body_calls_concat(before + seq![f], after);
    lemma_body_calls_concat(before, seq![f]);
    lemma_body_calls_single(f);
    lemma_body_calls_concat(before + body, after);
    lemma_body_calls_concat(before, body);
}

/// A `let` binding compiles to no node: a program compiles as if the binding
/// were not there.
pub proof fn lemma_binding_compiles_to_nothing(
    name: Seq<char>,
    before: Seq<AstView>,
    after: Seq<AstView>,
    var: Seq<char>,
    value: AstView,
)
    ensures
        program_calls(
            AstView::Pipeline { name, body: before + seq![AstView::Let { name: var, value: Box::new(value) }] + after },
        ) == program_calls(AstView::Pipeline { name, body: before + after }),
{
    let l = AstView::Let { name: var, value: Box::new(value) };
    lemma_body_calls_concat(before + seq![l], after);
    lemma_body_calls_concat(before, seq![l]);
    lemma_body_calls_single(l);
    assert(body_calls(before) + Seq::<Seq<char>>::empty() =~= body_calls(before));
    lemma_body_calls_concat(before, after);
}

/// A call statement compiles to exactly one node, for the called name,
/// whatever its arguments are, between the nodes of the statements around it.
pub proof fn lemma_call_compiles_to_one_node(
    name: Seq<char>,
    before: Seq<AstView>,
    after: Seq<AstView>,
    call: Seq<char>,
    args: Seq<(Option<Seq<char>>, AstView)>,
)
    ensures
        program_calls(
            AstView::Pipeline { name, body: before + seq![AstView::Call { name: call, args }] + after },
        ) == program_calls(AstView::Pipeline { name, body: before }) + seq![call] + program_calls(
            AstView::Pipeline { name, body: after },
        ),
{
    let c = AstView::Call { name: call, args };
    lemma_body_calls_concat(before + seq![c], after);
    lemma_body_calls_concat(before, seq![c]);
    lemma_body_calls_single(c);
}


proof fn lemma_pipe_calls_all(stages: Seq<AstView>)
    requires
        forall|i: int| 0 <= i < stages.len() ==> #[trigger] stages[i] is Call,
    ensures
        pipe_calls(stages) == stages.map_values(|st: AstView| st->Call_name),
    decreases stages.len(),
{
    if stages.len() > 0 {
        let init = stages.drop_last();
        assert forall|i: int| 0 <= i < init.len() implies #[trigger] init[i] is Call by {
            assert(stages[i] is Call);
        }
        lemma_pipe_calls_all(init);
        assert(stages[stages.len() - 1] is Call);
        assert(stages.map_values(|st: AstView| st->Call_name) =~= init.map_values(|st: AstView| st->Call_name).push(
            stages.last()->Call_name,
        ));
    } else {
        assert(stages.map_values(|st: AstView| st->Call_name) =~= Seq::<Seq<char>>::empty());
    }
}

/// A pipe of calls compiles to one node per stage, in the order of the
/// stages, between the nodes of the statements around it.
pub proof fn lemma_pipe_compiles_to_its_stages(
    name: Seq<char>,
    before: Seq<AstView>,
    after: Seq<AstView>,
    stages: Seq<AstView>,
)
    requires
        forall|i: int| 0 <= i < stages.len() ==> #[trigger] stages[i] is Call,
    ensures
        program_calls(AstView::Pipeline { name, body: before + seq![AstView::Pipe { nodes: stages }] + after })
            == program_calls(AstView::Pipeline { name, body: before }) + stages.map_values(
            |st: AstView| st->Call_name,
        ) + program_calls(AstView::Pipeline { name, body: after }),
{
    let pp = AstView::Pipe { nodes: stages };
    lemma_body_calls_concat(before + seq![pp], after);
    lemma_body_calls_concat(before, seq![pp]);
    lemma_body_calls_single(pp);
    lemma_pipe_calls_all(stages);
}

} // verus!
