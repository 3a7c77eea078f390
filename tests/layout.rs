use wispha_layout::path::split_segments;
use wispha_layout::template::contains_key;
use wispha_layout::{
    default_layout_name, layout, resolve_layout, Error, LayoutConfig, LayoutOptions, LayoutTemplate, Tree,
    DEFAULT_DEPTH,
};

fn s(x: &str) -> String {
    x.to_string()
}

/// proj {description: root dir}
///   src {description: sources, owner: me}
///     main.rs {description: entry}
///   docs
fn sample() -> Tree {
    let mut t = Tree::new(s("proj"));
    t.set_attribute(0, s("description"), s("root dir"));
    let src = t.add_child(0, s("src")).unwrap();
    t.set_attribute(src, s("description"), s("sources"));
    t.set_attribute(src, s("owner"), s("me"));
    let main = t.add_child(src, s("main.rs")).unwrap();
    t.set_attribute(main, s("description"), s("entry"));
    t.add_child(0, s("docs")).unwrap();
    t
}

fn chain(levels: usize) -> Tree {
    let mut t = Tree::new(s("n0"));
    let mut cur = 0;
    for i in 1..=levels {
        cur = t.add_child(cur, format!("n{}", i)).unwrap();
    }
    t
}

#[test]
fn relative_path_is_refused() {
    let t = sample();
    for p in ["src", "a/b", "src/", " /src"] {
        match t.resolve(p) {
            Err(Error::NodePathMustBeAbsolute(q)) => assert_eq!(q, p),
            other => panic!("unexpected {:?}", other),
        }
    }
    assert!(matches!(t.resolve(""), Err(Error::NodePathMustBeAbsolute(_))));
}

#[test]
fn root_path_names_root() {
    assert_eq!(sample().resolve("/").unwrap(), 0);
    assert_eq!(Tree::new(s("only")).resolve("/").unwrap(), 0);
    assert_eq!(sample().resolve("//").unwrap(), 0);
}

#[test]
fn nested_paths_resolve() {
    let t = sample();
    assert_eq!(t.resolve("/src").unwrap(), 1);
    assert_eq!(t.resolve("/src/main.rs").unwrap(), 2);
    assert_eq!(t.resolve("/src/main.rs/").unwrap(), 2);
    assert_eq!(t.resolve("/src//main.rs").unwrap(), 2);
    assert_eq!(t.resolve("/docs").unwrap(), 3);
}

#[test]
fn missing_node_names_partial_path() {
    let t = sample();
    match t.resolve("/src/lib.rs/x") {
        Err(Error::NodeNotFound(r, u)) => {
            assert_eq!(r, "/src");
            assert_eq!(u, "/lib.rs/x");
        },
        other => panic!("unexpected {:?}", other),
    }
    match t.resolve("/nope") {
        Err(Error::NodeNotFound(r, u)) => {
            assert_eq!(r, "");
            assert_eq!(u, "/nope");
        },
        other => panic!("unexpected {:?}", other),
    }
    match t.resolve("//src//x/y/") {
        Err(Error::NodeNotFound(r, u)) => {
            assert_eq!(r, "/src");
            assert_eq!(u, "/x/y");
        },
        other => panic!("unexpected {:?}", other),
    }
}

#[test]
fn options_missing_node_keeps_remainder() {
    let t = Tree::new(s("root"));
    let opt = LayoutOptions { layout: None, path: Some(s("/x/y")), keys: None, hide_key: false, depth: None };
    match opt.run(&t) {
        Err(e) => {
            assert!(matches!(&e, Error::NodeNotFound(r, u) if r.is_empty() && u == "/x/y"));
            assert_eq!(e.message(), "Path /x/y not found; /x/y is left unresolved.");
        },
        Ok(text) => panic!("unexpected text {:?}", text),
    }
}

#[test]
fn segments_skip_empty_runs() {
    assert_eq!(split_segments("a//b/"), vec![s("a"), s("b")]);
    assert_eq!(split_segments(""), Vec::<String>::new());
    assert_eq!(split_segments("///"), Vec::<String>::new());
    assert_eq!(split_segments("x"), vec![s("x")]);
}

#[test]
fn depth_zero_renders_one_line() {
    let t = sample();
    let out = layout("line", &t, "/", 0, &vec![], false).unwrap();
    assert_eq!(out, "proj  description: root dir\n");
    let out = layout("tree", &t, "/src", 0, &vec![], true).unwrap();
    assert_eq!(out, "src [sources] [me]\n");
}

#[test]
fn depth_bounds_levels() {
    let t = chain(5);
    let out = layout("line", &t, "/", 2, &vec![], false).unwrap();
    assert_eq!(out, "n0\n    n1\n        n2\n");
    let out = layout("line", &t, "/n1/n2", 1, &vec![], false).unwrap();
    assert_eq!(out, "n2\n    n3\n");
    let out = layout("line", &t, "/", 100, &vec![], false).unwrap();
    assert_eq!(out.lines().count(), 6);
}

#[test]
fn line_layout_full_tree() {
    let out = layout("line", &sample(), "/", 3, &vec![], false).unwrap();
    assert_eq!(
        out,
        "proj  description: root dir\n    src  description: sources  owner: me\n        main.rs  description: entry\n    docs\n"
    );
}

#[test]
fn tree_layout_full_tree() {
    let out = layout("tree", &sample(), "/", 3, &vec![], false).unwrap();
    assert_eq!(
        out,
        "proj [description: root dir]\n|-- src [description: sources] [owner: me]\n    |-- main.rs [description: entry]\n|-- docs\n"
    );
}

#[test]
fn key_filter_keeps_chosen_keys_in_node_order() {
    let mut t = Tree::new(s("root"));
    t.set_attribute(0, s("a"), s("1"));
    t.set_attribute(0, s("b"), s("2"));
    t.set_attribute(0, s("c"), s("3"));
    let out = layout("line", &t, "/", 0, &vec![s("c"), s("a")], false).unwrap();
    assert_eq!(out, "root  a: 1  c: 3\n");
    let out = layout("line", &t, "/", 0, &vec![s("zz")], false).unwrap();
    assert_eq!(out, "root\n");
}

#[test]
fn hidden_keys_show_bare_values() {
    let mut t = Tree::new(s("root"));
    t.set_attribute(0, s("a"), s("1"));
    t.set_attribute(0, s("b"), s("2"));
    t.set_attribute(0, s("c"), s("3"));
    let out = layout("line", &t, "/", 0, &vec![s("a"), s("c")], true).unwrap();
    assert_eq!(out, "root  1  3\n");
    let out = layout("tree", &t, "/", 0, &vec![], true).unwrap();
    assert_eq!(out, "root [1] [2] [3]\n");
    let out = layout("tree", &t, "/", 0, &vec![], false).unwrap();
    assert_eq!(out, "root [a: 1] [b: 2] [c: 3]\n");
}

#[test]
fn unknown_layout_fails_before_path() {
    let t = sample();
    match layout("nonexistent", &t, "relative", 3, &vec![], false) {
        Err(Error::UnknownLayout(n)) => assert_eq!(n, "nonexistent"),
        other => panic!("unexpected {:?}", other),
    }
    assert!(matches!(resolve_layout("Line"), Err(Error::UnknownLayout(_))));
}

#[test]
fn rendering_twice_is_identical() {
    let t = sample();
    let keys = vec![s("description")];
    let a = layout("tree", &t, "/src", 2, &keys, true).unwrap();
    let b = layout("tree", &t, "/src", 2, &keys, true).unwrap();
    assert_eq!(a, b);
    assert_eq!(a, "src [sources]\n|-- main.rs [entry]\n");
}

#[test]
fn registry_names_round_trip() {
    assert_eq!(resolve_layout("line").unwrap(), LayoutTemplate::Line);
    assert_eq!(resolve_layout("tree").unwrap(), LayoutTemplate::Tree);
    assert_eq!(LayoutTemplate::Tree.name(), "tree");
    assert_eq!(resolve_layout(default_layout_name()).unwrap(), LayoutTemplate::Line);
}

#[test]
fn duplicate_child_name_is_refused() {
    let mut t = sample();
    assert_eq!(t.add_child(0, s("src")), None);
    assert_eq!(t.len(), 4);
    assert_eq!(t.add_child(1, s("docs")), Some(4));
    assert_eq!(t.children(1), &vec![2, 4]);
    assert_eq!(t.find_child(1, &s("docs")), Some(4));
    assert_eq!(t.find_child(0, &s("main.rs")), None);
}

#[test]
fn set_attribute_replaces_in_place() {
    let mut t = sample();
    t.set_attribute(1, s("description"), s("code"));
    assert_eq!(
        t.attributes(1),
        &vec![(s("description"), s("code")), (s("owner"), s("me"))]
    );
    assert_eq!(t.name(1), "src");
    assert_eq!(t.root(), 0);
}

#[test]
fn contains_key_matches_whole_keys() {
    let keys = vec![s("ab"), s("c")];
    assert!(contains_key(&keys, &s("c")));
    assert!(!contains_key(&keys, &s("a")));
    assert!(!contains_key(&vec![], &s("a")));
}

#[test]
fn options_take_defaults() {
    let opt = LayoutOptions { layout: None, path: None, keys: None, hide_key: false, depth: None };
    let c = LayoutConfig::from_opt(opt).ok().unwrap();
    assert_eq!(c.layout, "line");
    assert_eq!(c.path, "/");
    assert!(c.keys.is_empty());
    assert!(!c.hide_key);
    assert_eq!(c.depth, DEFAULT_DEPTH);
    assert_eq!(DEFAULT_DEPTH, 3);
}

#[test]
fn options_refuse_relative_path() {
    let opt = LayoutOptions { layout: None, path: Some(s("src")), keys: None, hide_key: true, depth: Some(1) };
    match LayoutConfig::from_opt(opt) {
        Err(e) => assert_eq!(e.message(), "Node path must be absolute, but src is not."),
        Ok(_) => panic!("relative path accepted"),
    }
}

#[test]
fn options_run_renders() {
    let t = sample();
    let opt = LayoutOptions {
        layout: Some(s("tree")),
        path: Some(s("/src")),
        keys: Some(vec![s("owner")]),
        hide_key: false,
        depth: Some(0),
    };
    assert_eq!(opt.run(&t).ok().unwrap(), "src [owner: me]\n");
    let opt = LayoutOptions { layout: None, path: None, keys: None, hide_key: false, depth: None };
    assert_eq!(opt.run(&chain(5)).ok().unwrap(), "n0\n    n1\n        n2\n            n3\n");
}

#[test]
fn error_messages() {
    assert_eq!(
        Error::NodeNotFound(s("/a"), s("/x/y")).message(),
        "Path /a/x/y not found; /x/y is left unresolved."
    );
    assert_eq!(Error::UnknownLayout(s("zz")).message(), "Unknown layout zz.");
}
