use fileflow::compile::{compile_ast_to_pipeline, decimal};
use fileflow::flowlang::parse;
use fileflow::orchestrator::FileFlowOrchestrator;
use fileflow::pipeline::{Edge, Node, Pipeline};
use fileflow::scheduler::{verdict_at, ScheduleError, Scheduler, RENAMED_FILE, RENAMED_TEXT};
use fileflow::vfs::{ListedFile, Sandbox, Snapshot};

fn node(id: &str, op: &str) -> Node {
    Node { id: id.to_string(), operation: op.to_string(), config: "{}".to_string() }
}

fn edge(a: &str, b: &str) -> Edge {
    Edge { from: a.to_string(), to: b.to_string() }
}

fn position(order: &[String], id: &str) -> usize {
    order.iter().position(|x| x == id).unwrap()
}

#[test]
fn compiles_calls_into_a_chain() {
    let ast = parse(r#"pipeline "p" { let k = q("x") for f in k { denoise(f) -> tiff(f) } rename() }"#).unwrap();
    let p = compile_ast_to_pipeline(ast).unwrap();
    let ids: Vec<&str> = p.nodes.iter().map(|n| n.id.as_str()).collect();
    assert_eq!(ids, vec!["denoise_0", "tiff_1", "rename_2"]);
    assert_eq!(p.nodes[2].operation, "rename");
    assert_eq!(p.nodes[0].config, "{}");
    assert_eq!(p.edges.len(), 2);
    assert_eq!((p.edges[0].from.as_str(), p.edges[0].to.as_str()), ("denoise_0", "tiff_1"));
    assert_eq!((p.edges[1].from.as_str(), p.edges[1].to.as_str()), ("tiff_1", "rename_2"));
}

#[test]
fn compiled_pipeline_is_schedulable() {
    let ast = parse(r#"pipeline "p" { a() -> b() -> c() }"#).unwrap();
    let p = compile_ast_to_pipeline(ast).unwrap();
    let s = Scheduler::new(p, "s".to_string());
    assert_eq!(s.get_topological_order().unwrap(), vec!["a_0".to_string(), "b_1".to_string(), "c_2".to_string()]);
}

#[test]
fn decimal_text() {
    assert_eq!(decimal(0), "0");
    assert_eq!(decimal(7), "7");
    assert_eq!(decimal(1234), "1234");
    assert_eq!(decimal(usize::MAX), usize::MAX.to_string());
}

#[test]
fn topological_order_respects_edges() {
    let p = Pipeline {
        nodes: vec![node("d", "x"), node("b", "x"), node("c", "x"), node("a", "x")],
        edges: vec![edge("a", "b"), edge("a", "c"), edge("b", "d"), edge("c", "d")],
    };
    let order = Scheduler::new(p.clone(), "s".to_string()).get_topological_order().unwrap();
    assert_eq!(order.len(), 4);
    for e in &p.edges {
        assert!(position(&order, &e.from) < position(&order, &e.to));
    }
}

#[test]
fn cycle_is_rejected() {
    let p = Pipeline { nodes: vec![node("a", "x"), node("b", "x")], edges: vec![edge("a", "b"), edge("b", "a")] };
    assert_eq!(Scheduler::new(p, "s".to_string()).get_topological_order().unwrap_err(), ScheduleError::Cycle);
    let self_loop = Pipeline { nodes: vec![node("a", "x")], edges: vec![edge("a", "a")] };
    assert_eq!(Scheduler::new(self_loop, "s".to_string()).get_topological_order().unwrap_err(), ScheduleError::Cycle);
}

#[test]
fn duplicate_ids_are_rejected() {
    let p = Pipeline { nodes: vec![node("a", "x"), node("a", "y")], edges: vec![] };
    assert_eq!(Scheduler::new(p, "s".to_string()).get_topological_order().unwrap_err(), ScheduleError::Cycle);
}

#[test]
fn empty_pipeline_has_empty_order() {
    let p = Pipeline { nodes: vec![], edges: vec![] };
    assert!(Scheduler::new(p, "s".to_string()).get_topological_order().unwrap().is_empty());
}

#[test]
fn rename_node_writes_and_chains_roots() {
    let snap = Snapshot::create("/r".to_string(), vec![ListedFile { path: "f".to_string(), size: 1, content: b"z".to_vec() }]);
    let base_root = snap.compute_merkle_root();
    let mut sb = Sandbox::new(snap, "/w".to_string());
    let p = Pipeline { nodes: vec![node("r_0", "rename"), node("k_1", "keep")], edges: vec![edge("r_0", "k_1")] };
    let s = Scheduler::new(p, "sess".to_string());
    let first = s.run_node(&mut sb, &"r_0".to_string());
    assert_eq!(first.pre_hash, base_root);
    assert_eq!(first.operation_type, "NODE_EXEC:rename");
    assert_eq!(sb.changes.len(), 1);
    assert_eq!(sb.changes[0].path, RENAMED_FILE);
    assert_eq!(sb.changes[0].content, RENAMED_TEXT.as_bytes().to_vec());
    assert_ne!(first.post_hash, base_root);
    let second = s.run_node(&mut sb, &"k_1".to_string());
    assert_eq!(second.pre_hash, first.post_hash);
    assert_eq!(second.post_hash, first.post_hash);
    assert_eq!(second.operation, "keep");
    assert_eq!(sb.changes.len(), 1);
    assert_eq!(sb.work_dir, "/w");
}

#[test]
fn orchestrator_answers() {
    let o = FileFlowOrchestrator::default();
    assert_eq!(o.db_path, "fileflow.db");
    assert_eq!(o.start_pipeline(&"nodes: []".to_string()), "test-session");
    let st = o.get_session_status(&"s".to_string());
    assert_eq!(st.status, "Running");
    assert_eq!(st.logs, vec!["Initial status check".to_string()]);
    assert!(o.commit_step(&"s".to_string()));
    assert!(o.rollback_step(&"s".to_string()));
    assert_eq!(o.materialize_snapshot(&"s".to_string()), "/tmp/materialized");
}

#[test]
fn verdict_fails_on_multiples_of_ten() {
    assert!(!verdict_at(0));
    assert!(!verdict_at(1_700_000_000_120));
    assert!(verdict_at(1_700_000_000_123));
    assert!(verdict_at(9));
}

#[test]
fn compiled_pipeline_runs_calls_in_program_order() {
    let ast = parse(r#"pipeline "p" { z() for f in x { m(f) -> a(f) } b() }"#).unwrap();
    let p = compile_ast_to_pipeline(ast).unwrap();
    let ids: Vec<String> = p.nodes.iter().map(|n| n.id.clone()).collect();
    assert_eq!(ids, vec!["z_0", "m_1", "a_2", "b_3"]);
    assert_eq!(Scheduler::new(p, "s".to_string()).get_topological_order().unwrap(), ids);
}
