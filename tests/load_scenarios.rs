use roc_load::coordinator::{Action, Coordinator, Dep, ModuleSubs, Msg, Problem};
use roc_load::load::register_header;
use roc_load::module_ids::{ModuleId, ModuleIdStore};
use std::collections::VecDeque;

type Coord = Coordinator<Vec<String>, String, String, String>;
type Event = Msg<Vec<String>, String, String, String>;

/// A module of a test program: its name, imports and top-level names, or
/// `None` for the body when it fails to parse.
struct Source {
    name: &'static str,
    imports: Vec<&'static str>,
    defs: Option<Vec<&'static str>>,
}

struct Outcome {
    root_id: ModuleId,
    store: ModuleIdStore,
    solved: ModuleSubs<String>,
    problems: Vec<Problem<String>>,
    declarations: Option<Vec<String>>,
    solve_order: Vec<String>,
    solve_deps: Vec<(String, Vec<String>)>,
    others: Vec<String>,
}

fn strings(v: &[&str]) -> Vec<String> {
    v.iter().map(|s| s.to_string()).collect()
}

/// Loads a module: either the header and body events, or a failure.
fn load_events(
    sources: &[Source],
    store: &mut ModuleIdStore,
    name: &str,
    id: ModuleId,
) -> Vec<Event> {
    match sources.iter().find(|s| s.name == name) {
        None => vec![Msg::LoadFailed { module_id: id, problem: format!("FileNotFound {}", name) }],
        Some(src) => {
            let (module_id, deps) =
                register_header(store, &src.name.to_string(), &strings(&src.imports));
            let mut out = vec![Msg::DepsRequested { module_id, deps }];
            match &src.defs {
                Some(defs) => out.push(Msg::Constrained {
                    module_id,
                    declarations: strings(defs),
                    work: src.name.to_string(),
                }),
                None => out.push(Msg::LoadFailed {
                    module_id,
                    problem: format!("ParseFail {}", name),
                }),
            }
            out
        }
    }
}

/// Runs a whole load, taking events from the oldest producer first, or
/// from the newest when `lifo` is set.
fn run(sources: &[Source], root: &str, lifo: bool) -> Outcome {
    run_with_prior(sources, root, lifo, &[])
}

/// Runs a whole load where the modules in `prior` are already solved.
fn run_with_prior(sources: &[Source], root: &str, lifo: bool, prior: &[(&str, &str)]) -> Outcome {
    let mut store = ModuleIdStore::new();
    let src = sources.iter().find(|s| s.name == root).unwrap();
    let (root_id, _) = register_header(&mut store, &src.name.to_string(), &strings(&src.imports));
    let mut coord: Coord = Coordinator::new(root_id);
    for (name, types) in prior {
        let id = store.get_or_create_id(&name.to_string());
        coord.add_prior(id, types.to_string());
    }
    // One batch per producer: a batch keeps its own order, batches interleave.
    let mut queue: VecDeque<VecDeque<Event>> = VecDeque::new();
    queue.push_back(load_events(sources, &mut store, root, root_id).into());
    let mut solve_order = Vec::new();
    let mut solve_deps = Vec::new();
    let mut steps = 0;
    while !coord.is_done() {
        steps += 1;
        assert!(steps < 1000, "load did not finish");
        let batch = if lifo { queue.pop_back() } else { queue.pop_front() };
        let mut batch = batch.expect("no events left before the root was solved");
        let msg = batch.pop_front().unwrap();
        if !batch.is_empty() {
            if lifo {
                queue.push_back(batch);
            } else {
                queue.push_front(batch);
            }
        }
        for action in coord.handle(msg) {
            match action {
                Action::Load { name, module_id } => {
                    let evs = load_events(sources, &mut store, &name, module_id);
                    queue.push_back(evs.into());
                }
                Action::Solve { module_id, work, deps } => {
                    let mut seen = Vec::new();
                    for d in &deps {
                        assert!(coord.solved_types(*d).is_some());
                        seen.push(store.name_of(*d).unwrap().clone());
                    }
                    solve_order.push(work.clone());
                    solve_deps.push((work.clone(), seen));
                    queue.push_back(VecDeque::from(vec![Msg::Solved {
                        module_id,
                        solved: format!("types of {}", work),
                        problems: vec![],
                    }]));
                }
            }
        }
    }
    let finished = coord.finish();
    let mut others: Vec<String> = finished
        .solved_modules
        .iter()
        .map(|(id, _)| store.name_of(*id).unwrap().clone())
        .collect();
    others.sort();
    Outcome {
        root_id: finished.root_id,
        store,
        solved: finished.solved,
        problems: finished.problems,
        declarations: finished.declarations,
        solve_order,
        solve_deps,
        others,
    }
}

fn module_problems(o: &Outcome) -> Vec<String> {
    o.problems
        .iter()
        .filter_map(|p| match p {
            Problem::Module(s) => Some(s.clone()),
            Problem::CyclicImports(_) => None,
        })
        .collect()
}

fn cycles(o: &Outcome) -> Vec<Vec<String>> {
    o.problems
        .iter()
        .filter_map(|p| match p {
            Problem::CyclicImports(ids) => {
                Some(ids.iter().map(|id| o.store.name_of(*id).unwrap().clone()).collect())
            }
            Problem::Module(_) => None,
        })
        .collect()
}

fn solved_text(o: &Outcome) -> Option<String> {
    match &o.solved {
        ModuleSubs::Valid(s) => Some(s.clone()),
        ModuleSubs::Invalid => None,
    }
}

#[test]
fn single_module_without_imports() {
    let sources = [Source { name: "Main", imports: vec![], defs: Some(vec!["main"]) }];
    let o = run(&sources, "Main", false);
    assert_eq!(o.root_id, ModuleId { id: 1 });
    assert_eq!(o.declarations, Some(vec!["main".to_string()]));
    assert!(o.problems.is_empty());
    assert_eq!(o.solve_order, vec!["Main".to_string()]);
    assert_eq!(solved_text(&o), Some("types of Main".to_string()));
    assert_eq!(o.store.len(), 1);
    assert!(o.others.is_empty());
}

#[test]
fn linear_chain_solves_leaf_first() {
    let sources = [
        Source { name: "A", imports: vec!["B"], defs: Some(vec!["a"]) },
        Source { name: "B", imports: vec!["C"], defs: Some(vec!["b"]) },
        Source { name: "C", imports: vec![], defs: Some(vec!["c"]) },
    ];
    for lifo in [false, true] {
        let o = run(&sources, "A", lifo);
        assert_eq!(o.solve_order, strings(&["C", "B", "A"]));
        assert!(o.problems.is_empty());
        assert_eq!(o.declarations, Some(vec!["a".to_string()]));
        assert_eq!(solved_text(&o), Some("types of A".to_string()));
        assert_eq!(o.solve_deps[2], ("A".to_string(), strings(&["B"])));
        assert_eq!(o.others, strings(&["B", "C"]));
    }
}

#[test]
fn diamond_solves_shared_import_once() {
    let sources = [
        Source { name: "A", imports: vec!["B", "C"], defs: Some(vec!["a"]) },
        Source { name: "B", imports: vec!["D"], defs: Some(vec!["b"]) },
        Source { name: "C", imports: vec!["D"], defs: Some(vec!["c"]) },
        Source { name: "D", imports: vec![], defs: Some(vec!["d"]) },
    ];
    for lifo in [false, true] {
        let o = run(&sources, "A", lifo);
        assert_eq!(o.solve_order.iter().filter(|m| *m == "D").count(), 1);
        assert_eq!(o.solve_order.len(), 4);
        assert_eq!(o.solve_order[0], "D");
        assert_eq!(o.solve_order[3], "A");
        assert!(o.problems.is_empty());
        assert_eq!(o.store.len(), 4);
    }
}

#[test]
fn missing_import_is_reported() {
    let sources = [Source { name: "A", imports: vec!["X"], defs: Some(vec!["a"]) }];
    let o = run(&sources, "A", false);
    assert_eq!(module_problems(&o), vec!["FileNotFound X".to_string()]);
    assert_eq!(o.solve_order, vec!["A".to_string()]);
    assert_eq!(o.declarations, Some(vec!["a".to_string()]));
}

#[test]
fn parse_error_in_leaf_still_loads_importer() {
    let sources = [
        Source { name: "A", imports: vec!["B"], defs: Some(vec!["a"]) },
        Source { name: "B", imports: vec![], defs: None },
    ];
    let o = run(&sources, "A", false);
    assert_eq!(module_problems(&o), vec!["ParseFail B".to_string()]);
    assert_eq!(o.declarations, Some(vec!["a".to_string()]));
    assert_eq!(o.solve_order, vec!["A".to_string()]);
}

#[test]
fn import_cycle_is_reported() {
    let sources = [
        Source { name: "A", imports: vec!["B"], defs: Some(vec!["a"]) },
        Source { name: "B", imports: vec!["A"], defs: Some(vec!["b"]) },
    ];
    for lifo in [false, true] {
        let o = run(&sources, "A", lifo);
        let found = cycles(&o);
        assert_eq!(found.len(), 1);
        let mut members = found[0].clone();
        members.sort();
        assert_eq!(members, strings(&["A", "B"]));
        assert!(o.solve_order.is_empty());
        assert_eq!(solved_text(&o), None);
    }
}

#[test]
fn cycle_in_arrival_order_lists_root_first() {
    let sources = [
        Source { name: "A", imports: vec!["B"], defs: Some(vec!["a"]) },
        Source { name: "B", imports: vec!["A"], defs: Some(vec!["b"]) },
    ];
    let o = run(&sources, "A", false);
    assert_eq!(cycles(&o), vec![strings(&["A", "B"])]);
}

#[test]
fn duplicate_imports_load_once() {
    let mut coord: Coord = Coordinator::new(ModuleId { id: 1 });
    let deps = vec![
        Dep { name: "B".to_string(), id: ModuleId { id: 2 } },
        Dep { name: "B".to_string(), id: ModuleId { id: 2 } },
        Dep { name: "C".to_string(), id: ModuleId { id: 3 } },
    ];
    let actions = coord.on_deps_requested(ModuleId { id: 1 }, deps);
    let loads: Vec<(String, u64)> = actions
        .iter()
        .map(|a| match a {
            Action::Load { name, module_id } => (name.clone(), module_id.id),
            Action::Solve { .. } => panic!("nothing is ready to solve"),
        })
        .collect();
    assert_eq!(loads, vec![("B".to_string(), 2), ("C".to_string(), 3)]);
}

#[test]
fn constrained_module_waits_for_imports() {
    let mut coord: Coord = Coordinator::new(ModuleId { id: 1 });
    coord.on_deps_requested(ModuleId { id: 1 }, vec![Dep { name: "B".to_string(), id: ModuleId { id: 2 } }]);
    let a = coord.on_constrained(ModuleId { id: 1 }, vec![], "A".to_string());
    assert!(a.is_empty());
    coord.on_deps_requested(ModuleId { id: 2 }, vec![]);
    let b = coord.on_constrained(ModuleId { id: 2 }, vec![], "B".to_string());
    assert_eq!(b.len(), 1);
    assert!(matches!(&b[0], Action::Solve { module_id, deps, .. } if module_id.id == 2 && deps.is_empty()));
    let after = coord.on_solved(ModuleId { id: 2 }, "tB".to_string(), vec!["warn".to_string()]);
    assert_eq!(after.len(), 1);
    assert!(matches!(&after[0], Action::Solve { module_id, deps, work } if module_id.id == 1 && deps == &vec![ModuleId { id: 2 }] && work == "A"));
    assert!(!coord.is_done());
    coord.on_solved(ModuleId { id: 1 }, "tA".to_string(), vec![]);
    assert!(coord.is_done());
    let f = coord.finish();
    assert_eq!(f.problems.len(), 1);
    assert!(matches!(&f.problems[0], Problem::Module(p) if p == "warn"));
}

#[test]
fn problems_do_not_depend_on_event_order() {
    let sources = [
        Source { name: "A", imports: vec!["B", "X", "C"], defs: Some(vec!["a"]) },
        Source { name: "B", imports: vec!["C"], defs: None },
        Source { name: "C", imports: vec![], defs: Some(vec!["c"]) },
    ];
    let fifo = run(&sources, "A", false);
    let lifo = run(&sources, "A", true);
    let mut p1 = module_problems(&fifo);
    let mut p2 = module_problems(&lifo);
    p1.sort();
    p2.sort();
    assert_eq!(p1, vec![s("FileNotFound X"), s("ParseFail B")]);
    assert_eq!(p1, p2);
    assert_eq!(fifo.declarations, lifo.declarations);
}

fn s(x: &str) -> String {
    x.to_string()
}

#[test]
fn solved_types_stay_once_recorded() {
    let mut coord: Coord = Coordinator::new(ModuleId { id: 1 });
    coord.on_deps_requested(ModuleId { id: 1 }, vec![Dep { name: s("B"), id: ModuleId { id: 2 } }]);
    coord.on_solved(ModuleId { id: 2 }, s("first"), vec![]);
    coord.on_solved(ModuleId { id: 2 }, s("second"), vec![]);
    coord.on_load_failed(ModuleId { id: 2 }, s("late failure"));
    match coord.solved_types(ModuleId { id: 2 }) {
        Some(ModuleSubs::Valid(t)) => assert_eq!(t, "first"),
        _ => panic!("B should stay solved with its first types"),
    }
    assert!(!coord.is_done());
}

#[test]
fn module_is_solved_only_once() {
    let mut coord: Coord = Coordinator::new(ModuleId { id: 1 });
    coord.on_deps_requested(ModuleId { id: 1 }, vec![]);
    let first = coord.on_constrained(ModuleId { id: 1 }, vec![], s("A"));
    let again = coord.on_constrained(ModuleId { id: 1 }, vec![], s("A"));
    assert_eq!(first.len(), 1);
    assert!(again.is_empty());
}

#[test]
fn rerun_with_prior_solved_imports_keeps_declarations() {
    let sources = [
        Source { name: "A", imports: vec!["B", "C"], defs: Some(vec!["a", "main"]) },
        Source { name: "B", imports: vec!["C"], defs: Some(vec!["b"]) },
        Source { name: "C", imports: vec!["X"], defs: Some(vec!["c"]) },
    ];
    let first = run(&sources, "A", false);
    let again = run_with_prior(&sources, "A", false, &[("B", "types of B"), ("C", "types of C")]);
    assert_eq!(first.declarations, again.declarations);
    assert_eq!(module_problems(&first), vec![s("FileNotFound X")]);
    assert!(module_problems(&again).is_empty());
    assert_eq!(again.solve_order, vec![s("A")]);
    assert_eq!(solved_text(&first), solved_text(&again));
}

#[test]
fn three_module_cycle_lists_every_member() {
    let sources = [
        Source { name: "A", imports: vec!["B", "D"], defs: Some(vec!["a"]) },
        Source { name: "B", imports: vec!["C"], defs: Some(vec!["b"]) },
        Source { name: "C", imports: vec!["A"], defs: Some(vec!["c"]) },
        Source { name: "D", imports: vec![], defs: Some(vec!["d"]) },
    ];
    for lifo in [false, true] {
        let o = run(&sources, "A", lifo);
        let found = cycles(&o);
        assert_eq!(found.len(), 1);
        let mut members = found[0].clone();
        members.sort();
        assert_eq!(members, strings(&["A", "B", "C"]));
    }
}

#[test]
fn reported_problem_changes_nothing_else() {
    let mut coord: Coord = Coordinator::new(ModuleId { id: 1 });
    let actions = coord.handle(Msg::Reported { problem: s("name mismatch") });
    assert!(actions.is_empty());
    assert!(!coord.is_done());
    coord.on_deps_requested(ModuleId { id: 1 }, vec![]);
    coord.on_constrained(ModuleId { id: 1 }, vec![], s("A"));
    coord.on_solved(ModuleId { id: 1 }, s("t"), vec![]);
    let f = coord.finish();
    assert_eq!(f.problems.len(), 1);
    assert!(matches!(&f.problems[0], Problem::Module(p) if p == "name mismatch"));
}

#[test]
fn cycle_below_root_drains_its_importer() {
    let sources = [
        Source { name: "A", imports: vec!["B"], defs: Some(vec!["a"]) },
        Source { name: "B", imports: vec!["C"], defs: Some(vec!["b"]) },
        Source { name: "C", imports: vec!["B"], defs: Some(vec!["c"]) },
    ];
    for lifo in [false, true] {
        let o = run(&sources, "A", lifo);
        let found = cycles(&o);
        assert_eq!(found.len(), 1);
        let mut members = found[0].clone();
        members.sort();
        assert_eq!(members, strings(&["B", "C"]));
        assert_eq!(o.solve_order, strings(&["A"]));
        assert_eq!(solved_text(&o), Some("types of A".to_string()));
    }
}
