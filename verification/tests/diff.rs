use elfvis::diff::{aggregate_group, compute_diff, Delta};
use elfvis::table::KeyedTable;
use elfvis::tree::{Group, SymbolKey};

fn table(entries: &[(&str, u64)]) -> KeyedTable<String, u64> {
    let mut t = KeyedTable::new();
    for (k, v) in entries {
        t.insert(k.to_string(), *v);
    }
    t
}

#[test]
fn test_unchanged_symbol() {
    let before = table(&[("a", 100)]);
    let after = table(&[("a", 100)]);
    let diff = compute_diff(&before, &after);
    let d = diff.get(&"a".to_string()).unwrap();
    assert_eq!(d.diff_bytes(), 0);
}

#[test]
fn test_grew_symbol() {
    let before = table(&[("a", 100)]);
    let after = table(&[("a", 150)]);
    let diff = compute_diff(&before, &after);
    let d = diff.get(&"a".to_string()).unwrap();
    assert_eq!(d.diff_bytes(), 50);
}

#[test]
fn test_new_symbol() {
    let before = table(&[]);
    let after = table(&[("new_sym", 200)]);
    let diff = compute_diff(&before, &after);
    let d = diff.get(&"new_sym".to_string()).unwrap();
    assert_eq!(d.before, None);
    assert_eq!(d.after, Some(200));
}

#[test]
fn test_removed_symbol() {
    let before = table(&[("old_sym", 300)]);
    let after = table(&[]);
    let diff = compute_diff(&before, &after);
    let d = diff.get(&"old_sym".to_string()).unwrap();
    assert_eq!(d.before, Some(300));
    assert_eq!(d.after, None);
}

#[test]
fn test_compute_diff_disambiguates_same_named_symbols_by_key() {
    // `helper` defined in both a.c and b.c must not collapse into a single
    // delta: keyed by source and name, they stay distinct.
    let a_helper = SymbolKey { source: Some("a.c".into()), name: "helper".into(), tu: None };
    let b_helper = SymbolKey { source: Some("b.c".into()), name: "helper".into(), tu: None };

    let mut before = KeyedTable::new();
    before.insert(a_helper.clone(), 22u64);
    before.insert(b_helper.clone(), 22u64);
    let mut after = KeyedTable::new();
    after.insert(a_helper.clone(), 50u64);
    after.insert(b_helper.clone(), 22u64);

    let diff = compute_diff(&before, &after);
    assert_eq!(diff.get(&a_helper).unwrap().diff_bytes(), 28, "a.c::helper grew 22 -> 50");
    assert_eq!(diff.get(&b_helper).unwrap().diff_bytes(), 0, "b.c::helper is unchanged");
}

// ---------------------------------------------------------------------------
// Further cases

#[test]
fn diff_has_one_delta_per_key_of_either_side() {
    let before = table(&[("a", 1), ("b", 2)]);
    let after = table(&[("b", 5), ("c", 7)]);
    let diff = compute_diff(&before, &after);
    assert_eq!(diff.len(), 3);
    assert_eq!(diff.get(&"a".to_string()), Some(Delta { before: Some(1), after: None }));
    assert_eq!(diff.get(&"b".to_string()), Some(Delta { before: Some(2), after: Some(5) }));
    assert_eq!(diff.get(&"c".to_string()), Some(Delta { before: None, after: Some(7) }));
    assert_eq!(diff.get(&"d".to_string()), None);
}

#[test]
fn diff_bytes_of_a_shrunk_symbol_is_negative() {
    assert_eq!(Delta { before: Some(150), after: Some(100) }.diff_bytes(), -50);
    assert_eq!(Delta { before: Some(40), after: None }.diff_bytes(), -40);
    assert_eq!(Delta { before: None, after: None }.diff_bytes(), 0);
}

#[test]
fn aggregate_group_sums_both_sides_of_the_members() {
    let key = |src: Option<&str>, name: &str| SymbolKey {
        source: src.map(str::to_string),
        name: name.into(),
        tu: None,
    };
    let mut deltas = KeyedTable::new();
    deltas.insert(key(Some("src/a.c"), "keep"), Delta { before: Some(100), after: Some(100) });
    deltas.insert(key(Some("src/c.c"), "gone"), Delta { before: Some(80), after: None });
    deltas.insert(key(Some("src/d.c"), "new"), Delta { before: None, after: Some(7) });
    deltas.insert(key(Some("lib/x.c"), "lib_fn"), Delta { before: Some(5), after: Some(6) });
    deltas.insert(key(None, "mystery"), Delta { before: Some(3), after: Some(4) });
    assert_eq!(aggregate_group(&deltas, &Group::Dir(vec!["src".into()])), (180, 107));
    assert_eq!(aggregate_group(&deltas, &Group::All), (188, 117));
    assert_eq!(aggregate_group(&deltas, &Group::Unresolved), (3, 4));
    assert_eq!(aggregate_group(&deltas, &Group::Dir(vec!["nowhere".into()])), (0, 0));
}
