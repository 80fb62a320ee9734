use roc_load::ast::CommentOrNewline;
use roc_load::docs::{comments_or_new_lines_to_docs, detatched_docs_from_comments_and_new_lines};
use roc_load::imports::{expose, load_import, scope_from_imports, Env, ExposesEntry, ImportsEntry, Located, Region, Symbol};
use roc_load::load::register_header;
use roc_load::module_ids::{ModuleId, ModuleIdStore};
use roc_load::paths::module_file_path;

fn region(line: u32) -> Region {
    Region { start_line: line, end_line: line, start_col: 0, end_col: 3 }
}

#[test]
fn registry_ids_start_at_one_and_increase() {
    let mut store = ModuleIdStore::new();
    let a = store.get_or_create_id(&"A".to_string());
    let b = store.get_or_create_id(&"B.C".to_string());
    let a2 = store.get_or_create_id(&"A".to_string());
    assert_eq!(a, ModuleId { id: 1 });
    assert_eq!(b, ModuleId { id: 2 });
    assert_eq!(a2, a);
    assert_eq!(store.len(), 2);
    assert_eq!(store.name_of(a).unwrap(), "A");
    assert_eq!(store.name_of(b).unwrap(), "B.C");
    assert!(store.name_of(ModuleId { id: 0 }).is_none());
    assert!(store.name_of(ModuleId { id: 3 }).is_none());
    assert_eq!(store.lookup(&"B.C".to_string()), Some(b));
    assert_eq!(store.lookup(&"Z".to_string()), None);
}

#[test]
fn registry_round_trips_every_name() {
    let mut store = ModuleIdStore::new();
    let names = ["Main", "Foo.Bar", "Baz", "Foo.Bar", "Main", "Qux"];
    let mut last = 0;
    for n in names {
        let id = store.get_or_create_id(&n.to_string());
        assert_eq!(store.name_of(id).unwrap(), n);
        if id.id > last {
            assert_eq!(id.id, last + 1);
            last = id.id;
        }
    }
    assert_eq!(store.len(), 4);
}

#[test]
fn header_registration_keeps_known_ids() {
    let mut store = ModuleIdStore::new();
    store.get_or_create_id(&"B".to_string());
    let (id, deps) = register_header(&mut store, &"A".to_string(), &vec!["B".to_string(), "C".to_string()]);
    assert_eq!(id, ModuleId { id: 2 });
    assert_eq!(deps.len(), 2);
    assert_eq!((deps[0].name.as_str(), deps[0].id.id), ("B", 1));
    assert_eq!((deps[1].name.as_str(), deps[1].id.id), ("C", 3));
}

#[test]
fn module_path_turns_dots_into_directories() {
    let p = module_file_path(&"src".to_string(), &"Foo.Bar.Baz".to_string());
    assert_eq!(p, "src/Foo/Bar/Baz.roc");
    let q = module_file_path(&"/tmp/app".to_string(), &"Main".to_string());
    assert_eq!(q, "/tmp/app/Main.roc");
}

#[test]
fn expose_qualifies_by_module_and_skips_spaces() {
    let entry = ExposesEntry::SpaceBefore(Box::new(ExposesEntry::SpaceAfter(Box::new(
        ExposesEntry::Ident("foo".to_string()),
    ))));
    let (key, (symbol, r)) = expose(&"Bar".to_string(), &entry, region(4));
    assert_eq!(key, "foo");
    assert_eq!(symbol.module_name, "Bar");
    assert_eq!(symbol.ident, "foo");
    assert_eq!(r, region(4));
}

#[test]
fn load_import_fills_scope() {
    let env = Env { src_dir: "src".to_string() };
    let entry = ImportsEntry::SpaceAfter(Box::new(ImportsEntry::Module(
        "Dep.Thing".to_string(),
        vec![
            Located { region: region(1), value: ExposesEntry::Ident("x".to_string()) },
            Located {
                region: region(2),
                value: ExposesEntry::SpaceBefore(Box::new(ExposesEntry::Ident("y".to_string()))),
            },
            Located { region: region(3), value: ExposesEntry::Ident("x".to_string()) },
        ],
    )));
    let mut scope: im::HashMap<String, (Symbol, Region)> = im::HashMap::new();
    let name = load_import(&env, region(0), &entry, &mut scope);
    assert_eq!(name, "Dep.Thing");
    let (sym, r) = scope.get(&"y".to_string()).unwrap();
    assert_eq!(sym.module_name, "Dep.Thing");
    assert_eq!(sym.ident, "y");
    assert_eq!(*r, region(2));
    let (_, rx) = scope.get(&"x".to_string()).unwrap();
    assert_eq!(*rx, region(3));
    assert_eq!(scope.len(), 2);
    assert!(scope.get(&"z".to_string()).is_none());
}

#[test]
fn docs_keep_only_the_last_block() {
    let items = vec![
        CommentOrNewline::DocComment("old".to_string()),
        CommentOrNewline::Newline,
        CommentOrNewline::DocComment(" first".to_string()),
        CommentOrNewline::DocComment(" second".to_string()),
    ];
    assert_eq!(comments_or_new_lines_to_docs(&items), Some(" first\n second\n".to_string()));
    let closed = vec![CommentOrNewline::DocComment("x".to_string()), CommentOrNewline::LineComment("c".to_string())];
    assert_eq!(comments_or_new_lines_to_docs(&closed), None);
    assert_eq!(comments_or_new_lines_to_docs(&[]), None);
}

#[test]
fn detached_docs_are_closed_blocks() {
    let items = vec![
        CommentOrNewline::DocComment("a".to_string()),
        CommentOrNewline::DocComment("b".to_string()),
        CommentOrNewline::Newline,
        CommentOrNewline::LineComment("skip".to_string()),
        CommentOrNewline::DocComment("open".to_string()),
    ];
    assert_eq!(
        detatched_docs_from_comments_and_new_lines(&items),
        vec!["a\nb\n".to_string(), String::new()]
    );
    assert!(detatched_docs_from_comments_and_new_lines(&[]).is_empty());
}

#[test]
fn header_registration_on_empty_registry_numbers_in_order() {
    let mut store = ModuleIdStore::new();
    let (id, deps) = register_header(&mut store, &"Main".to_string(), &vec!["B".to_string(), "C".to_string(), "B".to_string()]);
    assert_eq!(id, ModuleId { id: 1 });
    assert_eq!(deps.iter().map(|d| d.id.id).collect::<Vec<_>>(), vec![2, 3, 2]);
    assert_eq!(store.len(), 3);
    assert_eq!(store.name_of(ModuleId { id: 3 }).unwrap(), "C");
    let mut alone = ModuleIdStore::new();
    register_header(&mut alone, &"Main".to_string(), &vec![]);
    assert_eq!(alone.len(), 1);
}

#[test]
fn scope_from_imports_binds_every_exposed_name() {
    let env = Env { src_dir: "src".to_string() };
    let imports = vec![
        (region(1), ImportsEntry::Module("Dep".to_string(), vec![
            Located { region: region(1), value: ExposesEntry::Ident("foo".to_string()) },
        ])),
        (region(2), ImportsEntry::SpaceBefore(Box::new(ImportsEntry::Module("Other".to_string(), vec![])))),
    ];
    let mut scope: im::HashMap<String, (Symbol, Region)> = im::HashMap::new();
    let names = scope_from_imports(&env, &imports, &mut scope);
    assert_eq!(names, vec!["Dep".to_string(), "Other".to_string()]);
    assert_eq!(scope.len(), 1);
    let (sym, r) = scope.get(&"foo".to_string()).unwrap();
    assert_eq!((sym.module_name.as_str(), sym.ident.as_str(), *r), ("Dep", "foo", region(1)));
}
