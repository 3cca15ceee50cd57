use elfvis::compare::{compare, tu_identity};
use elfvis::diff::aggregate_group;
use elfvis::parse::SymbolDetail;
use elfvis::tree::{Group, SizeNode};

fn sym(name: &str, size: u64, raw: Option<&str>, tu: Option<&str>) -> SymbolDetail {
    SymbolDetail {
        name: name.into(),
        size,
        raw_path: raw.map(str::to_string),
        display_path: None,
        tu: tu.map(str::to_string),
    }
}

fn find<'a>(node: &'a SizeNode, name: &str) -> Option<&'a SizeNode> {
    if node.name == name {
        return Some(node);
    }
    node.children.iter().find_map(|c| find(c, name))
}

fn group_of(tree: &SizeNode, name: &str) -> Option<Group> {
    find(tree, name).and_then(|n| n.group.clone())
}

#[test]
fn test_prefix_is_normalized_over_the_pair_not_per_file() {
    // Old side only has files under /w/sub/, so its own common prefix would
    // be "/w/sub/"; the new side adds /w/c.c, making its prefix "/w/". The
    // shared prefix is "/w/" for both, so `fa` keeps one identity.
    let a = [sym("fa", 22, Some("/w/sub/a.c"), None), sym("fb", 22, Some("/w/sub/b.c"), None)];
    let b = [
        sym("fa", 22, Some("/w/sub/a.c"), None),
        sym("fb", 22, Some("/w/sub/b.c"), None),
        sym("fc", 22, Some("/w/c.c"), None),
    ];
    let cmp = compare(&a, &b);
    let fa: Vec<_> = cmp.deltas.entries().iter().filter(|(k, _)| k.name == "fa").collect();
    assert_eq!(fa.len(), 1, "unchanged fa must be a single delta: {fa:?}");
    assert_eq!(fa[0].1.diff_bytes(), 0);
    assert!(cmp.ambiguous.is_empty());
}

#[test]
fn test_same_source_same_name_locals_are_split_by_translation_unit() {
    let a = [
        sym("helper", 22, Some("/w/shared.h"), Some("a.c")),
        sym("helper", 22, Some("/w/shared.h"), Some("b.c")),
    ];
    let b = [
        sym("helper", 50, Some("/w/shared.h"), Some("a.c")),
        sym("helper", 22, Some("/w/shared.h"), Some("b.c")),
    ];
    let cmp = compare(&a, &b);
    assert!(cmp.ambiguous.is_empty(), "TU provenance makes them distinguishable");
    let mut diffs: Vec<i64> = cmp.deltas.entries().iter().map(|(_, d)| d.diff_bytes()).collect();
    diffs.sort();
    assert_eq!(diffs, vec![0, 28]);
}

#[test]
fn test_unresolved_same_name_locals_are_split_by_translation_unit() {
    let a = [sym("helper", 10, None, Some("a.c")), sym("helper", 10, None, Some("b.c"))];
    let b = [sym("helper", 30, None, Some("a.c")), sym("helper", 10, None, Some("b.c"))];
    let cmp = compare(&a, &b);
    let mut diffs: Vec<i64> = cmp.deltas.entries().iter().map(|(_, d)| d.diff_bytes()).collect();
    diffs.sort();
    assert_eq!(diffs, vec![0, 20]);
}

#[test]
fn test_collision_is_refined_in_both_files_even_if_only_one_collides() {
    // Old has a single `helper`; new gained a second one in another TU.
    // The key must be refined identically on both sides or the unchanged
    // one would look removed+added.
    let a = [sym("helper", 22, Some("/w/shared.h"), Some("a.c"))];
    let b = [
        sym("helper", 22, Some("/w/shared.h"), Some("a.c")),
        sym("helper", 22, Some("/w/shared.h"), Some("b.c")),
    ];
    let cmp = compare(&a, &b);
    let deltas = cmp.deltas.entries();
    let unchanged = deltas.iter().filter(|(_, d)| d.before.is_some() && d.after.is_some()).count();
    let added = deltas.iter().filter(|(_, d)| d.before.is_none()).count();
    assert_eq!((unchanged, added), (1, 1));
}

#[test]
fn test_unresolvable_collision_is_reported_ambiguous_not_overwritten() {
    // No translation-unit provenance at all: cannot tell them apart.
    let a = [sym("helper", 22, Some("/w/shared.h"), None), sym("helper", 22, Some("/w/shared.h"), None)];
    let b = [sym("helper", 50, Some("/w/shared.h"), None), sym("helper", 22, Some("/w/shared.h"), None)];
    let cmp = compare(&a, &b);
    assert_eq!(cmp.ambiguous.len(), 1);
    let d = cmp.deltas.entries()[0].1;
    assert_eq!((d.before, d.after), (Some(44), Some(72)), "combined totals, not last-writer-wins");
}

#[test]
fn test_builds_in_different_roots_still_match() {
    // Same project checked out at two different depths (a developer's home
    // dir vs. a CI workspace). The same relative files must line up, and
    // adding a file must not break that.
    let a = [
        sym("fa", 22, Some("/home/u/proj/src/a.c"), None),
        sym("fb", 22, Some("/home/u/proj/src/b.c"), None),
    ];
    let b = [
        sym("fa", 22, Some("/ci/ws/src/a.c"), None),
        sym("fb", 30, Some("/ci/ws/src/b.c"), None),
        sym("fc", 22, Some("/ci/ws/lib/c.c"), None),
    ];
    let cmp = compare(&a, &b);
    let deltas = cmp.deltas.entries();
    let pairs: Vec<_> = deltas.iter().filter(|(_, d)| d.before.is_some() && d.after.is_some()).collect();
    assert_eq!(pairs.len(), 2, "fa and fb matched across roots: {:?}", deltas);
    assert_eq!(deltas.iter().filter(|(_, d)| d.before.is_none()).count(), 1, "only fc is new");
}

#[test]
fn test_unresolved_cluster_total_includes_a_member_only_the_other_side_has() {
    // motor_init + motor_step cluster under "motor"; the new file adds
    // motor_extra (same name prefix). Hovering the old "motor" cluster must
    // total 150 -> 230, not 150 -> 150.
    let a = [
        sym("motor_init", 100, None, None),
        sym("motor_step", 50, None, None),
        sym("other_x", 10, None, None),
        sym("other_y", 10, None, None),
    ];
    let b = [
        sym("motor_init", 100, None, None),
        sym("motor_step", 50, None, None),
        sym("motor_extra", 80, None, None),
        sym("other_x", 10, None, None),
        sym("other_y", 10, None, None),
    ];
    let cmp = compare(&a, &b);
    for tree in [&cmp.tree_a, &cmp.tree_b] {
        let group = group_of(tree, "motor").expect("motor cluster");
        assert_eq!(aggregate_group(&cmp.deltas, &group), (150, 230));
    }
}

#[test]
fn test_removed_whole_file_is_counted_when_hovering_the_side_that_lost_it() {
    let a = [
        sym("keep", 100, Some("/w/src/a.c"), None),
        sym("fixed", 50, Some("/w/src/b.c"), None),
        sym("gone", 80, Some("/w/src/c.c"), None),
        sym("lib_fn", 5, Some("/w/lib/x.c"), None),
    ];
    let b = [
        sym("keep", 100, Some("/w/src/a.c"), None),
        sym("fixed", 50, Some("/w/src/b.c"), None),
        sym("lib_fn", 5, Some("/w/lib/x.c"), None),
    ];
    let cmp = compare(&a, &b);
    for tree in [&cmp.tree_a, &cmp.tree_b] {
        let group = group_of(tree, "src").expect("src dir");
        assert_eq!(aggregate_group(&cmp.deltas, &group), (230, 150));
    }
}

#[test]
fn test_other_catch_all_means_the_same_in_both_trees() {
    // Which prefixes are named clusters is decided jointly, and `<other>` is
    // "unresolved and not clustered".
    let a = [sym("motor_init", 100, None, None), sym("motor_step", 50, None, None), sym("spare_one", 10, None, None)];
    let b = [
        sym("motor_init", 100, None, None),
        sym("motor_step", 50, None, None),
        sym("spare_one", 10, None, None),
        sym("added_one", 20, None, None),
    ];
    let cmp = compare(&a, &b);
    for tree in [&cmp.tree_a, &cmp.tree_b] {
        let group = group_of(tree, "<other>").expect("<other>");
        assert_eq!(aggregate_group(&cmp.deltas, &group), (10, 30));
    }
}

#[test]
fn test_prefix_that_becomes_a_cluster_on_one_side_is_a_cluster_on_both() {
    // `added_*` is a singleton in the old file but a pair in the new one.
    // It must be a named cluster in both trees (not <other> in one).
    let a = [sym("added_one", 20, None, None), sym("spare_x", 10, None, None)];
    let b = [sym("added_one", 20, None, None), sym("added_two", 30, None, None), sym("spare_x", 10, None, None)];
    let cmp = compare(&a, &b);
    for tree in [&cmp.tree_a, &cmp.tree_b] {
        let group = group_of(tree, "added").expect("added cluster in both trees");
        assert_eq!(aggregate_group(&cmp.deltas, &group), (20, 50));
    }
}

#[test]
fn test_alignment_never_strips_directories_that_distinguish_files() {
    // Shared root /w; old/b.c vs new/b.c are different files even though
    // the basenames agree. Only /w/src/a.c is a real anchor.
    let a = [sym("use_a", 22, Some("/w/src/a.c"), None), sym("helper", 22, Some("/w/old/b.c"), Some("b.c"))];
    let b = [sym("use_a", 22, Some("/w/src/a.c"), None), sym("helper", 50, Some("/w/new/b.c"), Some("b.c"))];
    let cmp = compare(&a, &b);
    let helpers: Vec<_> = cmp.deltas.entries().iter().filter(|(k, _)| k.name == "helper").collect();
    assert_eq!(helpers.len(), 2, "{helpers:?}");
}

// ---------------------------------------------------------------------------
// Further cases

#[test]
fn identical_inputs_change_nothing() {
    let a = [
        sym("f", 10, Some("/p/src/a.c"), None),
        sym("g", 20, Some("/p/src/b.c"), Some("b.c")),
        sym("h", 5, None, None),
    ];
    let cmp = compare(&a, &a);
    assert_eq!(cmp.deltas.len(), 3);
    for (_, d) in cmp.deltas.entries() {
        assert_eq!(d.before, d.after);
        assert_eq!(d.diff_bytes(), 0);
    }
    assert!(cmp.ambiguous.is_empty());
    assert_eq!(cmp.tree_a.size, 35);
    assert_eq!(cmp.tree_b.size, 35);
}

#[test]
fn keys_use_the_paths_trimmed_over_the_pair() {
    let a = [sym("f", 10, Some("/p/src/a.c"), Some("obj/a.c"))];
    let b = [sym("f", 12, Some("/p/src/a.c"), Some("a.c")), sym("g", 1, Some("/p/lib/b.c"), None)];
    let cmp = compare(&a, &b);
    let (k, d) = cmp.deltas.entries().iter().find(|(k, _)| k.name == "f").unwrap();
    assert_eq!(k.source.as_deref(), Some("src/a.c"));
    assert_eq!(k.tu.as_deref(), Some("a.c"));
    assert_eq!((d.before, d.after), (Some(10), Some(12)));
}

#[test]
fn translation_unit_identity_is_the_basename() {
    assert_eq!(tu_identity(Some("sub/dir/a.c")).as_deref(), Some("a.c"));
    assert_eq!(tu_identity(Some("./a.c")).as_deref(), Some("a.c"));
    assert_eq!(tu_identity(Some("a.c")).as_deref(), Some("a.c"));
    assert_eq!(tu_identity(Some("dir/")).as_deref(), Some(""));
    assert_eq!(tu_identity(None), None);
}

#[test]
fn directory_groups_of_both_trees_agree() {
    let a = [sym("x", 3, Some("/r/d/a.c"), None), sym("y", 4, Some("/r/e/b.c"), None)];
    let b = [sym("x", 3, Some("/r/d/a.c"), None), sym("y", 9, Some("/r/e/b.c"), None)];
    let cmp = compare(&a, &b);
    assert_eq!(group_of(&cmp.tree_a, "d/a.c"), group_of(&cmp.tree_b, "d/a.c"));
    let g = group_of(&cmp.tree_a, "e/b.c").unwrap();
    assert_eq!(aggregate_group(&cmp.deltas, &g), (4, 9));
}

#[test]
fn comparing_a_file_with_itself_shows_no_change() {
    let a = [
        sym("main", 120, Some("/build/x/app/main.c"), None),
        sym("helper", 40, Some("/build/x/app/util/helper.c"), Some("helper.c")),
        sym("helper", 8, Some("/build/x/lib/helper.c"), Some("helper.c")),
        sym("g_table", 64, None, None),
        sym("g_tail", 16, None, None),
    ];
    let cmp = compare(&a, &a);
    assert_eq!(cmp.deltas.len(), 5);
    for (k, d) in cmp.deltas.entries() {
        assert!(d.before.is_some(), "{k:?}");
        assert_eq!(d.before, d.after, "{k:?}");
    }
    assert!(cmp.ambiguous.is_empty());
    assert_eq!(cmp.tree_a.size, 248);
    assert_eq!(cmp.tree_b.size, 248);
}
