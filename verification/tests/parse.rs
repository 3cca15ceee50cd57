use elfvis::dwarf::SourceName;
use elfvis::elf::{ElfSection, ElfSymbol, SectionClass};
use elfvis::parse::{
    attribute_symbols, common_dir_prefix_len, extract_flash_symbols, flash_symbols_from, line_ranges,
    parse_elf, parse_elf_detailed, resolve_against, strip_common_prefix, variable_ranges, EntryFacts,
    resolved_symbols, FlashSymbol, LineRowFacts, PathRange, SymbolDetail, DW_TAG_VARIABLE,
};

#[test]
fn test_strip_common_prefix_absolute_paths() {
    let mut entries: Vec<(u64, u64, String)> = vec![
        (0, 10, "/Users/me/eng/bond-core/ctrl/Sidekick/Sidekick.h".into()),
        (10, 20, "/Users/me/eng/bond-core/target/mate/Sidekick.h".into()),
        (20, 30, "/Users/me/eng/bond-core/sys/SysLog.c".into()),
    ];
    strip_common_prefix(&mut entries);
    assert_eq!(entries[0].2, "ctrl/Sidekick/Sidekick.h");
    assert_eq!(entries[1].2, "target/mate/Sidekick.h");
    assert_eq!(entries[2].2, "sys/SysLog.c");
}

#[test]
fn test_strip_common_prefix_no_common() {
    let mut entries: Vec<(u64, u64, String)> = vec![(0, 10, "src/main.c".into()), (10, 20, "/opt/gcc/include/stdio.h".into())];
    strip_common_prefix(&mut entries);
    // No common prefix — paths unchanged
    assert_eq!(entries[0].2, "src/main.c");
    assert_eq!(entries[1].2, "/opt/gcc/include/stdio.h");
}

#[test]
fn test_strip_common_prefix_empty() {
    let mut entries: Vec<(u64, u64, String)> = vec![];
    strip_common_prefix(&mut entries);
    assert!(entries.is_empty());
}

#[test]
fn test_strip_common_prefix_single() {
    let mut entries: Vec<(u64, u64, String)> = vec![(0, 10, "/a/b/c/file.c".into())];
    strip_common_prefix(&mut entries);
    // Single entry: prefix is entire path, trimmed to last dir boundary = "file.c"
    assert_eq!(entries[0].2, "file.c");
}

#[test]
fn test_rejects_non_elf() {
    let result = extract_flash_symbols(b"not an elf");
    assert!(result.is_err());
}

// ---------------------------------------------------------------------------
// Further cases

#[test]
fn non_elf_input_is_refused_with_the_parse_message() {
    let err = extract_flash_symbols(b"not an elf").unwrap_err();
    assert!(err.starts_with("Failed to parse ELF: "), "{err}");
    let err = parse_elf_detailed(b"not an elf").unwrap_err();
    assert!(err.starts_with("Failed to parse ELF: "), "{err}");
    let err = parse_elf(b"").unwrap_err();
    assert!(err.starts_with("Failed to parse ELF: "), "{err}");
}

#[test]
fn common_dir_prefix_cuts_only_at_slashes() {
    let v = |xs: &[&str]| xs.iter().map(|s| s.to_string()).collect::<Vec<String>>();
    assert_eq!(common_dir_prefix_len(&v(&[])), 0);
    assert_eq!(common_dir_prefix_len(&v(&["/a/bc/x.c", "/a/bd/y.c"])), 3);
    assert_eq!(common_dir_prefix_len(&v(&["/a/b/x.c", "/a/b/y.c"])), 5);
    assert_eq!(common_dir_prefix_len(&v(&["x.c", "y.c"])), 0);
    assert_eq!(common_dir_prefix_len(&v(&["dir/x.c"])), 4);
}

#[test]
fn common_dir_prefix_len_counts_bytes() {
    let v = |xs: &[&str]| xs.iter().map(|s| s.to_string()).collect::<Vec<String>>();
    assert_eq!(common_dir_prefix_len(&v(&["/é/x"])), 4);
    assert_eq!(common_dir_prefix_len(&v(&["/ü/ß/a.c", "/ü/ß/b.c"])), 7);
    assert_eq!(common_dir_prefix_len(&v(&["/日本/a.c", "/日本/b.c"])), 8);
}

#[test]
fn stripping_twice_strips_nothing_more() {
    let mut entries: Vec<(u64, u64, String)> = vec![(0, 1, "/a/b/x/1.c".into()), (1, 2, "/a/b/y/2.c".into())];
    strip_common_prefix(&mut entries);
    assert_eq!(entries[0].2, "x/1.c");
    let again = entries.clone();
    strip_common_prefix(&mut entries);
    assert_eq!(entries, again);
}

#[test]
fn relative_paths_resolve_against_the_compilation_directory() {
    assert_eq!(resolve_against("src/a.c", Some("/home/u/proj")), "/home/u/proj/src/a.c");
    assert_eq!(resolve_against("src/a.c", Some("/home/u/proj//")), "/home/u/proj/src/a.c");
    assert_eq!(resolve_against("/abs/a.c", Some("/home/u/proj")), "/abs/a.c");
    assert_eq!(resolve_against("src/a.c", None), "src/a.c");
    assert_eq!(resolve_against("a.c", Some("/")), "/a.c");
}

fn file(dir: Option<&str>, name: &str) -> Option<SourceName> {
    Some(SourceName { dir: dir.map(str::to_string), name: name.into() })
}

fn row(address: u64, end_sequence: bool, f: Option<SourceName>) -> LineRowFacts {
    LineRowFacts { address, end_sequence, file: f }
}

#[test]
fn line_rows_become_ranges_between_consecutive_rows() {
    let rows = vec![
        row(0x100, false, file(Some("src"), "a.c")),
        row(0x110, false, file(Some("src"), "b.c")),
        row(0x110, false, file(Some(""), "c.c")),
        row(0x120, false, None),
        row(0x130, true, file(Some("src"), "a.c")),
        row(0x140, false, file(None, "d.c")),
    ];
    let ranges = line_ranges(&Some("/build".to_string()), &rows);
    let got: Vec<(u64, u64, &str, &str)> =
        ranges.iter().map(|r| (r.low, r.high, r.path.as_str(), r.raw.as_str())).collect();
    assert_eq!(
        got,
        vec![
            (0x100, 0x110, "src/a.c", "/build/src/a.c"),
            (0x110, 0x130, "c.c", "/build/c.c"),
        ]
    );
}

#[test]
fn variables_with_an_address_and_a_file_become_one_address_ranges() {
    let e = |tag: u16, location: Option<u64>, f: Option<SourceName>| EntryFacts { tag, location, decl_file: f };
    let entries = vec![
        e(DW_TAG_VARIABLE, Some(0x2000), file(Some("/abs"), "v.c")),
        e(0x2e, Some(0x3000), file(Some("src"), "f.c")),
        e(DW_TAG_VARIABLE, None, None),
        e(DW_TAG_VARIABLE, Some(0x4000), None),
        e(DW_TAG_VARIABLE, Some(u64::MAX), file(None, "w.c")),
    ];
    let ranges = variable_ranges(&Some("/b".to_string()), &entries);
    let got: Vec<(u64, u64, &str, &str)> =
        ranges.iter().map(|r| (r.low, r.high, r.path.as_str(), r.raw.as_str())).collect();
    assert_eq!(got, vec![(0x2000, 0x2001, "/abs/v.c", "/abs/v.c"), (u64::MAX, 0, "w.c", "/b/w.c")]);
}

fn range(low: u64, high: u64, path: &str) -> PathRange {
    PathRange { low, high, path: path.into(), raw: format!("/r/{path}") }
}

fn flash(name: &str, address: u64) -> FlashSymbol {
    FlashSymbol { name: name.into(), address, size: 4, tu: None }
}

#[test]
fn symbols_take_the_range_that_contains_them() {
    let ranges = vec![
        range(0x300, 0x310, "x/lib/c.c"),
        range(0x100, 0x200, "x/src/a.c"),
        range(0x200, 0x280, "x/src/b.c"),
    ];
    let syms = vec![flash("in_a", 0x150), flash("in_b", 0x200), flash("gap", 0x290), flash("low", 0x50), flash("in_c", 0x30f)];
    let out = attribute_symbols(&syms, ranges);
    let got: Vec<(&str, Option<&str>, Option<&str>)> =
        out.iter().map(|d| (d.name.as_str(), d.raw_path.as_deref(), d.display_path.as_deref())).collect();
    assert_eq!(
        got,
        vec![
            ("in_a", Some("/r/x/src/a.c"), Some("src/a.c")),
            ("in_b", Some("/r/x/src/b.c"), Some("src/b.c")),
            ("gap", None, None),
            ("low", None, None),
            ("in_c", Some("/r/x/lib/c.c"), Some("lib/c.c")),
        ]
    );
    assert!(out.iter().all(|d| d.size == 4 && d.tu.is_none()));
}

fn elf_sym(name: Option<&str>, section: Option<usize>, size: u64, is_file: bool, is_local: bool) -> ElfSymbol {
    ElfSymbol { is_file, name: name.map(str::to_string), section, address: 0x10, size, is_local }
}

#[test]
fn flash_symbols_are_the_named_sized_ones_in_flash_sections() {
    let sections = vec![
        ElfSection { index: 1, class: SectionClass::Text },
        ElfSection { index: 2, class: SectionClass::Other },
        ElfSection { index: 3, class: SectionClass::ReadOnlyData },
        ElfSection { index: 4, class: SectionClass::ReadOnlyString },
    ];
    let symbols = vec![
        elf_sym(Some("main.c"), None, 0, true, true),
        elf_sym(Some("local_fn"), Some(1), 8, false, true),
        elf_sym(Some("global_fn"), Some(1), 8, false, false),
        elf_sym(Some("in_data"), Some(2), 8, false, false),
        elf_sym(Some("table"), Some(3), 8, false, true),
        elf_sym(Some(""), Some(1), 8, false, false),
        elf_sym(None, Some(1), 8, false, false),
        elf_sym(Some("empty"), Some(1), 0, false, false),
        elf_sym(Some(""), None, 0, true, true),
        elf_sym(Some("str"), Some(4), 2, false, true),
        elf_sym(Some("abs"), None, 2, false, false),
    ];
    let out = flash_symbols_from(&sections, &symbols);
    let got: Vec<(&str, Option<&str>)> = out.iter().map(|s| (s.name.as_str(), s.tu.as_deref())).collect();
    assert_eq!(
        got,
        vec![("local_fn", Some("main.c")), ("global_fn", None), ("table", Some("main.c")), ("str", None)]
    );
}

#[test]
fn resolved_symbols_keep_name_size_and_display_path() {
    let details = vec![
        SymbolDetail {
            name: "f".into(),
            size: 4,
            raw_path: Some("/b/src/a.c".into()),
            display_path: Some("src/a.c".into()),
            tu: Some("a.c".into()),
        },
        SymbolDetail { name: "g".into(), size: 2, raw_path: None, display_path: None, tu: None },
    ];
    let r = resolved_symbols(&details);
    assert_eq!(r.len(), 2);
    assert_eq!((r[0].name.as_str(), r[0].size, r[0].source_path.as_deref()), ("f", 4, Some("src/a.c")));
    assert_eq!((r[1].name.as_str(), r[1].size, r[1].source_path.as_deref()), ("g", 2, None));
}
