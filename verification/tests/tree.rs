use elfvis::parse::ResolvedSymbol;
use elfvis::tree::{build_tree, extract_prefix, flatten_paths, symbol_key, Group, SizeNode, SymbolKey};

fn make_symbols() -> Vec<ResolvedSymbol> {
    vec![
        ResolvedSymbol { name: "func_a".into(), size: 100, source_path: Some("src/app/main.c".into()) },
        ResolvedSymbol { name: "func_b".into(), size: 200, source_path: Some("src/app/main.c".into()) },
        ResolvedSymbol { name: "func_c".into(), size: 50, source_path: Some("src/lib/util.c".into()) },
        ResolvedSymbol { name: "unknown_sym".into(), size: 30, source_path: None },
    ]
}

fn sym(name: &str, size: u64, path: Option<&str>) -> ResolvedSymbol {
    ResolvedSymbol { name: name.into(), size, source_path: path.map(str::to_string) }
}

#[test]
fn test_root_size_is_total() {
    let tree = build_tree(&make_symbols());
    assert_eq!(tree.size, 380);
}

#[test]
fn test_directory_hierarchy() {
    let tree = build_tree(&make_symbols());
    let names: Vec<&str> = tree.children.iter().map(|c| c.name.as_str()).collect();
    assert!(names.contains(&"src"), "should have src dir: {names:?}");
    assert!(names.iter().any(|n| n.starts_with("<unknown>")), "should have <unknown>: {names:?}");
}

#[test]
fn test_file_contains_symbols() {
    let tree = build_tree(&make_symbols());
    let src = tree.children.iter().find(|c| c.name == "src").unwrap();
    // app/main.c collapsed (app had single child main.c)
    let main_c = src.children.iter().find(|c| c.name == "app/main.c").unwrap();
    assert_eq!(main_c.size, 300);
    assert_eq!(main_c.children.len(), 2);
    let sym_names: Vec<&str> = main_c.children.iter().map(|c| c.name.as_str()).collect();
    assert!(sym_names.contains(&"func_a"));
    assert!(sym_names.contains(&"func_b"));
}

#[test]
fn test_unknown_bucket() {
    let tree = build_tree(&make_symbols());
    // Single unknown sym is a singleton → lands in <other>, collapsed to <unknown>/<other>
    let unknown = tree.children.iter().find(|c| c.name.starts_with("<unknown>")).unwrap();
    assert_eq!(unknown.size, 30);
}

#[test]
fn test_children_sorted_by_size_desc() {
    let tree = build_tree(&make_symbols());
    assert_eq!(tree.children[0].name, "src");
    assert!(tree.children[1].name.starts_with("<unknown>"));
}

#[test]
fn test_empty_input() {
    let tree = build_tree(&[]);
    assert_eq!(tree.size, 0);
    assert!(tree.children.is_empty());
}

#[test]
fn test_collapse_single_child_chain() {
    // a/b/c/file.c where a→b→c are single-child dirs
    let syms = vec![sym("func", 42, Some("a/b/c/file.c"))];
    let tree = build_tree(&syms);
    // Root should collapse a/b/c into one node
    assert_eq!(tree.children.len(), 1);
    let collapsed = &tree.children[0];
    assert_eq!(collapsed.name, "a/b/c/file.c");
    assert_eq!(collapsed.children.len(), 1);
    assert_eq!(collapsed.children[0].name, "func");
}

#[test]
fn test_no_collapse_when_multiple_children() {
    // Two files in same dir → should NOT collapse
    let syms = vec![sym("f1", 10, Some("dir/a.c")), sym("f2", 20, Some("dir/b.c"))];
    let tree = build_tree(&syms);
    let dir = &tree.children[0];
    assert_eq!(dir.name, "dir");
    assert_eq!(dir.children.len(), 2);
}

#[test]
fn test_cluster_unknown_hungarian_merges() {
    let syms = vec![
        sym("Vitals_Init", 100, None),
        sym("g_vitals_keys", 50, None),
        sym("gp_vitals_ptr", 30, None),
    ];
    let tree = build_tree(&syms);
    let unknown = tree.children.iter().find(|c| c.name == "<unknown>").unwrap();

    // "vitals" cluster: g_vitals_keys + gp_vitals_ptr (2 syms)
    // "Vitals" singleton → <other>
    let names: Vec<&str> = unknown.children.iter().map(|c| c.name.as_str()).collect();
    assert!(names.contains(&"vitals"), "expected vitals cluster: {names:?}");
    let vitals = unknown.children.iter().find(|c| c.name == "vitals").unwrap();
    assert_eq!(vitals.children.len(), 2);
    assert_eq!(vitals.size, 80);
}

#[test]
fn test_cluster_unknown_singletons_go_to_other() {
    let syms = vec![
        sym("mgfx_font_a", 100, None),
        sym("mgfx_font_b", 200, None),
        sym("strcmp", 50, None),
        sym("sin", 30, None),
    ];
    let tree = build_tree(&syms);
    let unknown = tree.children.iter().find(|c| c.name == "<unknown>").unwrap();

    // Should have "mgfx" cluster + "<other>" (strcmp and sin are singletons)
    let names: Vec<&str> = unknown.children.iter().map(|c| c.name.as_str()).collect();
    assert!(names.contains(&"mgfx"), "expected mgfx: {names:?}");
    assert!(names.contains(&"<other>"), "expected <other>: {names:?}");
    assert_eq!(unknown.children.len(), 2);

    let other = unknown.children.iter().find(|c| c.name == "<other>").unwrap();
    assert_eq!(other.children.len(), 2);
    assert_eq!(other.size, 80);
}

#[test]
fn test_cluster_unknown_groups_by_prefix() {
    let syms = vec![
        sym("mgfx_font_a", 100, None),
        sym("mgfx_font_b", 200, None),
        sym("__aeabi_dmul", 50, None),
        sym("__aeabi_ddiv", 60, None),
    ];
    let tree = build_tree(&syms);
    let unknown = tree.children.iter().find(|c| c.name == "<unknown>").unwrap();

    // Should have 2 cluster nodes: "mgfx" and "__"
    let names: Vec<&str> = unknown.children.iter().map(|c| c.name.as_str()).collect();
    assert_eq!(unknown.children.len(), 2);
    assert!(names.contains(&"mgfx"), "expected mgfx cluster: {names:?}");
    assert!(names.contains(&"__"), "expected __ cluster: {names:?}");

    // mgfx cluster should contain the 2 mgfx symbols
    let mgfx = unknown.children.iter().find(|c| c.name == "mgfx").unwrap();
    assert_eq!(mgfx.size, 300);
    assert_eq!(mgfx.children.len(), 2);

    // __ cluster should contain the 2 aeabi symbols
    let dunder = unknown.children.iter().find(|c| c.name == "__").unwrap();
    assert_eq!(dunder.size, 110);
    assert_eq!(dunder.children.len(), 2);
}

#[test]
fn test_extract_prefix_double_underscore() {
    assert_eq!(extract_prefix("__aeabi_dmul"), "__");
    assert_eq!(extract_prefix("__ieee754_powf"), "__");
    assert_eq!(extract_prefix("__kernel_cos"), "__");
}

#[test]
fn test_extract_prefix_single_underscore() {
    assert_eq!(extract_prefix("_vfprintf_r"), "_");
    assert_eq!(extract_prefix("_malloc_r"), "_");
    assert_eq!(extract_prefix("_strtod_l"), "_");
}

#[test]
fn test_extract_prefix_hungarian_underscore() {
    // g_vitals_keys → strip g_ → "vitals"
    assert_eq!(extract_prefix("g_vitals_keys"), "vitals");
    // s_buffer_ptr → strip s_ → "buffer"
    assert_eq!(extract_prefix("s_buffer_ptr"), "buffer");
}

#[test]
fn test_extract_prefix_hungarian_camel() {
    // aGpioConfigList → strip a → "Gpio" (camelCase split on GpioConfigList)
    assert_eq!(extract_prefix("aGpioConfigList"), "Gpio");
}

#[test]
fn test_extract_prefix_gp_hungarian() {
    // gp_bond_sync → strip gp_ → "bond"
    assert_eq!(extract_prefix("gp_bond_sync"), "bond");
}

#[test]
fn test_extract_prefix_underscore_split() {
    assert_eq!(extract_prefix("mgfx_carousel_update"), "mgfx");
    assert_eq!(extract_prefix("bond_action_str"), "bond");
    assert_eq!(extract_prefix("CSWTCH.2"), "CSWTCH");
    assert_eq!(extract_prefix("IS31FL3763_LED_ADDRESS_H"), "IS31FL3763");
}

#[test]
fn test_extract_prefix_camel_case_split() {
    // No underscore or dot — split on camelCase boundary
    assert_eq!(extract_prefix("localtime"), "localtime");
    assert_eq!(extract_prefix("brainpoolP256r1"), "brainpool");
}

#[test]
fn test_extract_prefix_no_split() {
    // All uppercase or no boundary found — whole name
    assert_eq!(extract_prefix("strcmp"), "strcmp");
    assert_eq!(extract_prefix("sin"), "sin");
    assert_eq!(extract_prefix("K"), "K");
}

#[test]
fn test_flatten_paths() {
    let tree = build_tree(&make_symbols());
    let paths = flatten_paths(&tree);
    // func_a (100) and func_b (200) are leaves under src/app/main.c
    assert_eq!(paths.get(&"src/app/main.c/func_b".to_string()), Some(200));
    assert_eq!(paths.get(&"src/app/main.c/func_a".to_string()), Some(100));
    assert_eq!(paths.get(&"src/lib/util.c/func_c".to_string()), Some(50));
    // Non-leaf nodes should NOT be in the map
    assert!(!paths.contains_key(&"src".to_string()));
    assert!(!paths.contains_key(&"src/app/main.c".to_string()));
}

// ---------------------------------------------------------------------------
// Further cases

fn check_well_sized(n: &SizeNode) {
    if !n.children.is_empty() {
        let sum: u64 = n.children.iter().map(|c| c.size).sum();
        assert_eq!(n.size, sum, "node {} is as large as its children", n.name);
        for w in n.children.windows(2) {
            assert!(w[0].size >= w[1].size, "children of {} come largest first", n.name);
        }
    }
    for c in &n.children {
        check_well_sized(c);
    }
}

#[test]
fn every_node_is_as_large_as_its_children_largest_first() {
    let mut syms = make_symbols();
    syms.push(sym("mgfx_a", 7, None));
    syms.push(sym("mgfx_b", 9, None));
    syms.push(sym("deep", 3, Some("x/y/z/w.c")));
    let tree = build_tree(&syms);
    check_well_sized(&tree);
    assert_eq!(tree.size, 380 + 7 + 9 + 3);
}

#[test]
fn a_symbol_named_like_a_later_directory_loses_its_size_from_the_root() {
    // The leaf "x.c" in directory "d" is found again as the directory "x.c"
    // of the next symbol, which is filed below it.
    let syms = vec![sym("x.c", 10, Some("d")), sym("f", 5, Some("d/x.c"))];
    let tree = build_tree(&syms);
    assert_eq!(tree.size, 5);
}

#[test]
fn siblings_of_equal_size_are_ordered_by_name() {
    let syms = vec![sym("b", 10, Some("f.c")), sym("a", 10, Some("f.c")), sym("c", 20, Some("f.c"))];
    let tree = build_tree(&syms);
    let file = &tree.children[0];
    let names: Vec<&str> = file.children.iter().map(|c| c.name.as_str()).collect();
    assert_eq!(names, vec!["c", "a", "b"]);
}

#[test]
fn leaves_carry_the_source_and_name_key() {
    let tree = build_tree(&[sym("f", 4, Some("a/b.c"))]);
    let file = &tree.children[0];
    assert_eq!(file.name, "a/b.c");
    let leaf = &file.children[0];
    let key = leaf.key.as_ref().unwrap();
    assert_eq!(key.source.as_deref(), Some("a/b.c"));
    assert_eq!(key.name, "f");
    assert_eq!(key.tu, None);
    // The collapsed node keeps the deepest directory's group.
    match file.group.as_ref().unwrap() {
        Group::Dir(parts) => assert_eq!(parts, &vec!["a".to_string(), "b.c".to_string()]),
        _ => panic!("expected a directory group"),
    }
}

#[test]
fn symbol_key_is_source_and_name() {
    let k: SymbolKey = symbol_key(&sym("f", 1, Some("p/q.c")));
    assert_eq!(k.source.as_deref(), Some("p/q.c"));
    assert_eq!(k.name, "f");
    assert!(k.tu.is_none());
}

#[test]
fn group_membership_follows_the_key() {
    let key = |src: Option<&str>, name: &str| SymbolKey {
        source: src.map(str::to_string),
        name: name.into(),
        tu: None,
    };
    let dir = Group::Dir(vec!["src".into(), "app".into()]);
    assert!(dir.contains(&key(Some("src/app/main.c"), "f")));
    assert!(!dir.contains(&key(Some("src/application.c"), "f")));
    assert!(!dir.contains(&key(None, "f")));
    assert!(Group::All.contains(&key(None, "f")));
    assert!(Group::Unresolved.contains(&key(None, "f")));
    assert!(!Group::Unresolved.contains(&key(Some("a.c"), "f")));
    let cluster = Group::UnresolvedCluster("mgfx".into());
    assert!(cluster.contains(&key(None, "mgfx_font")));
    assert!(!cluster.contains(&key(None, "strcmp")));
    let other = Group::UnresolvedOther(vec!["mgfx".into()]);
    assert!(other.contains(&key(None, "strcmp")));
    assert!(!other.contains(&key(None, "mgfx_font")));
}

#[test]
fn extract_prefix_of_edge_names() {
    assert_eq!(extract_prefix(""), "");
    assert_eq!(extract_prefix("_"), "_");
    assert_eq!(extract_prefix("g_"), "");
    assert_eq!(extract_prefix("gp_x"), "x");
}

fn collect_leaves(n: &SizeNode, out: &mut Vec<(String, u64, Option<SymbolKey>)>) {
    if n.children.is_empty() {
        out.push((n.name.clone(), n.size, n.key.clone()));
    }
    for c in &n.children {
        collect_leaves(c, out);
    }
}

#[test]
fn every_symbol_is_exactly_one_leaf_with_its_key() {
    let syms = vec![
        sym("a", 10, Some("x/y/f.c")),
        sym("a", 10, Some("x/y/f.c")),
        sym("b", 7, Some("x/g.c")),
        sym("gpio_init", 3, None),
        sym("gpio_read", 4, None),
        sym("lonely", 2, None),
    ];
    let tree = build_tree(&syms);
    assert_eq!(tree.name, "");
    assert_eq!(tree.group, Some(Group::All));
    assert!(tree.key.is_none());
    let mut got = Vec::new();
    collect_leaves(&tree, &mut got);
    let mut want: Vec<(String, u64, Option<SymbolKey>)> =
        syms.iter().map(|s| (s.name.clone(), s.size, Some(symbol_key(s)))).collect();
    let key = |e: &(String, u64, Option<SymbolKey>)| format!("{e:?}");
    got.sort_by_key(key);
    want.sort_by_key(key);
    assert_eq!(got, want);
}

#[test]
fn group_at_follows_names_and_stops_where_none_matches() {
    let tree = build_tree(&make_symbols());
    assert_eq!(tree.group_at(&[]), Some(Group::All));
    assert_eq!(
        tree.group_at(&["src".to_string()]),
        Some(Group::Dir(vec!["src".to_string()]))
    );
    assert_eq!(tree.group_at(&["src".to_string(), "nowhere".to_string()]), tree.group_at(&["src".to_string()]));
    let lib = tree.group_at(&["src".to_string(), "lib/util.c".to_string()]);
    assert_eq!(lib, Some(Group::Dir(vec!["src".to_string(), "lib".to_string(), "util.c".to_string()])));
}
