//! End-to-end tests on ELF images written here with `object` and `gimli`:
//! bytes -> parser -> tree / comparison. Each image holds a `.text` section
//! described by DWARF line tables, a `.rodata` section whose objects have
//! `DW_TAG_variable` entries, a `.data` section, and `STT_FILE` provenance
//! for local symbols.

use elfvis::compare::{compare, Comparison};
use elfvis::diff::{aggregate_group, Delta};
use elfvis::parse::{extract_flash_symbols, parse_elf, parse_elf_detailed, SymbolDetail};
use elfvis::tree::{build_tree, Group, SizeNode};
use gimli::write::{Address, AttributeValue, Dwarf, EndianVec, Expression, LineProgram, LineString, Sections, Unit};
use object::write::{Object, Symbol, SymbolSection};
use object::{Architecture, BinaryFormat, Endianness, SectionKind, SymbolFlags, SymbolKind, SymbolScope};

/// Where a symbol lives.
#[derive(Clone, Copy, PartialEq)]
enum Place {
    Text,
    Rodata,
    Data,
}

/// A symbol of the image: its section, its offset there, its size, the
/// translation unit of a local (`None` for a global), and the index of its
/// source file in the unit's file list.
struct Sym {
    name: &'static str,
    place: Place,
    offset: u64,
    size: u64,
    tu: Option<&'static str>,
    file: usize,
}

/// A compilation unit: its directory and its files (directory relative to
/// `comp_dir`, `""` for `comp_dir` itself, and name).
struct Cu {
    comp_dir: &'static str,
    files: Vec<(&'static str, &'static str)>,
    syms: Vec<Sym>,
}

fn sym(name: &'static str, place: Place, offset: u64, size: u64, tu: Option<&'static str>, file: usize) -> Sym {
    Sym { name, place, offset, size, tu, file }
}

/// `.rodata` objects sit at this offset and beyond, clear of the code's
/// addresses.
const RODATA_BASE: u64 = 0x1000;

fn build_elf(cus: &[Cu]) -> Vec<u8> {
    build_elf_lines(cus, &|_| 1)
}

/// Like `build_elf`, with the line of the `i`-th row of each line table.
fn build_elf_lines(cus: &[Cu], line_of: &dyn Fn(usize) -> u64) -> Vec<u8> {
    let mut obj = Object::new(BinaryFormat::Elf, Architecture::Arm, Endianness::Little);
    let text = obj.add_section(Vec::new(), b".text".to_vec(), SectionKind::Text);
    let rodata = obj.add_section(Vec::new(), b".rodata".to_vec(), SectionKind::ReadOnlyData);
    let data = obj.add_section(Vec::new(), b".data".to_vec(), SectionKind::Data);
    let end = |place: Place| {
        cus.iter().flat_map(|c| c.syms.iter()).filter(|s| s.place == place).map(|s| s.offset + s.size).max().unwrap_or(0)
    };
    obj.append_section_data(text, &vec![0u8; end(Place::Text).max(4) as usize], 4);
    obj.append_section_data(rodata, &vec![0u8; end(Place::Rodata).max(RODATA_BASE + 4) as usize], 4);
    obj.append_section_data(data, &vec![0u8; end(Place::Data).max(4) as usize], 4);

    let mut current_tu: Option<&str> = None;
    for s in cus.iter().flat_map(|c| c.syms.iter()) {
        if let Some(tu) = s.tu {
            if current_tu != Some(tu) {
                obj.add_file_symbol(tu.as_bytes().to_vec());
                current_tu = Some(tu);
            }
        }
        let (section, kind) = match s.place {
            Place::Text => (text, SymbolKind::Text),
            Place::Rodata => (rodata, SymbolKind::Data),
            Place::Data => (data, SymbolKind::Data),
        };
        obj.add_symbol(Symbol {
            name: s.name.as_bytes().to_vec(),
            value: s.offset,
            size: s.size,
            kind,
            scope: if s.tu.is_some() { SymbolScope::Compilation } else { SymbolScope::Linkage },
            weak: false,
            section: SymbolSection::Section(section),
            flags: SymbolFlags::None,
        });
    }

    let encoding = gimli::Encoding { format: gimli::Format::Dwarf32, version: 4, address_size: 4 };
    let mut dwarf = Dwarf::new();
    for cu in cus {
        let comp_dir = LineString::String(cu.comp_dir.as_bytes().to_vec());
        let first_name = LineString::String(cu.files[0].1.as_bytes().to_vec());
        let mut program = LineProgram::new(encoding, gimli::LineEncoding::default(), comp_dir, first_name, None);
        let files: Vec<_> = cu
            .files
            .iter()
            .map(|(dir, name)| {
                let d = if dir.is_empty() {
                    program.default_directory()
                } else {
                    program.add_directory(LineString::String(dir.as_bytes().to_vec()))
                };
                program.add_file(LineString::String(name.as_bytes().to_vec()), d, None)
            })
            .collect();
        let mut code: Vec<&Sym> = cu.syms.iter().filter(|s| s.place == Place::Text).collect();
        code.sort_by_key(|s| s.offset);
        if let (Some(first), Some(last)) = (code.first(), code.last()) {
            let start = first.offset;
            program.begin_sequence(Some(Address::Constant(start)));
            for (i, s) in code.iter().enumerate() {
                program.row().file = files[s.file];
                program.row().line = line_of(i);
                program.row().address_offset = s.offset - start;
                program.generate_row();
            }
            program.end_sequence(last.offset + last.size - start);
        }
        let unit_id = dwarf.units.add(Unit::new(encoding, program));
        let unit = dwarf.units.get_mut(unit_id);
        let root = unit.root();
        unit.get_mut(root).set(gimli::DW_AT_name, AttributeValue::String(cu.files[0].1.as_bytes().to_vec()));
        unit.get_mut(root).set(gimli::DW_AT_comp_dir, AttributeValue::String(cu.comp_dir.as_bytes().to_vec()));
        for s in cu.syms.iter().filter(|s| s.place == Place::Rodata) {
            let var = unit.add(root, gimli::DW_TAG_variable);
            let mut location = Expression::new();
            location.op_addr(Address::Constant(s.offset));
            unit.get_mut(var).set(gimli::DW_AT_name, AttributeValue::String(s.name.as_bytes().to_vec()));
            unit.get_mut(var).set(gimli::DW_AT_location, AttributeValue::Exprloc(location));
            unit.get_mut(var).set(gimli::DW_AT_decl_file, AttributeValue::FileIndex(Some(files[s.file])));
        }
    }
    let mut sections = Sections::new(EndianVec::new(gimli::LittleEndian));
    dwarf.write(&mut sections).unwrap();
    sections
        .for_each(|id, bytes| -> Result<(), std::convert::Infallible> {
            if !bytes.slice().is_empty() {
                let s = obj.add_section(Vec::new(), id.name().as_bytes().to_vec(), SectionKind::Debug);
                obj.append_section_data(s, bytes.slice(), 1);
            }
            Ok(())
        })
        .unwrap();
    obj.write().unwrap()
}

/// An image like a small firmware build: `helper` a local of main.c,
/// `app_init` from main.c, `util_add` from util.c, `version` a `.rodata`
/// string of main.c, `counter` in `.data`, and a zero-sized label.
fn arm_elf() -> Vec<u8> {
    build_elf(&[Cu {
        comp_dir: "/build",
        files: vec![("src", "main.c"), ("src", "util.c")],
        syms: vec![
            sym("helper", Place::Text, 0x0, 0x8, Some("main.c"), 0),
            sym("app_init", Place::Text, 0x8, 0x10, None, 0),
            sym("util_add", Place::Text, 0x18, 0x8, None, 1),
            sym("version", Place::Rodata, RODATA_BASE, 0x4, None, 0),
            sym("counter", Place::Data, 0x0, 0x4, None, 0),
            sym("label", Place::Text, 0x20, 0x0, None, 1),
        ],
    }])
}

// ---------------------------------------------------------------------------
// Flash symbols

#[test]
fn a_line_table_advancing_by_the_most_negative_step_is_refused() {
    // The second row's line is 2^63 after a row at line 0, so the table
    // advances the line by `i64::MIN`; running it would overflow.
    let elf = build_elf_lines(
        &[Cu {
            comp_dir: "/build",
            files: vec![("src", "main.c")],
            syms: vec![
                sym("first", Place::Text, 0x0, 0x8, None, 0),
                sym("second", Place::Text, 0x8, 0x8, None, 0),
            ],
        }],
        &|i| if i == 0 { 0 } else { 1u64 << 63 },
    );
    assert_eq!(parse_elf_detailed(&elf).unwrap_err(), "DWARF error: line advance out of range");
    assert_eq!(parse_elf(&elf).unwrap_err(), "DWARF error: line advance out of range");
}

#[test]
fn a_line_table_with_a_large_backward_step_still_reads() {
    let elf = build_elf_lines(
        &[Cu {
            comp_dir: "/build",
            files: vec![("src", "main.c")],
            syms: vec![
                sym("first", Place::Text, 0x0, 0x8, None, 0),
                sym("second", Place::Text, 0x8, 0x8, None, 0),
            ],
        }],
        &|i| if i == 0 { 1u64 << 40 } else { 1 },
    );
    let details = parse_elf_detailed(&elf).unwrap();
    assert!(details.iter().all(|d| d.raw_path.as_deref() == Some("/build/src/main.c")), "{details:?}");
}

#[test]
fn test_extracts_symbols_from_arm_elf() {
    let symbols = extract_flash_symbols(&arm_elf()).unwrap();
    assert!(!symbols.is_empty(), "should find at least one flash symbol");
}

#[test]
fn test_finds_known_function() {
    let symbols = extract_flash_symbols(&arm_elf()).unwrap();
    let names: Vec<&str> = symbols.iter().map(|s| s.name.as_str()).collect();
    assert!(names.contains(&"app_init"), "should find app_init symbol");
}

#[test]
fn test_symbols_have_nonzero_size() {
    let symbols = extract_flash_symbols(&arm_elf()).unwrap();
    let app_init = symbols.iter().find(|s| s.name == "app_init").unwrap();
    assert!(app_init.size > 0, "app_init should have nonzero size");
}

#[test]
fn test_finds_rodata() {
    let symbols = extract_flash_symbols(&arm_elf()).unwrap();
    let names: Vec<&str> = symbols.iter().map(|s| s.name.as_str()).collect();
    assert!(names.contains(&"version"), "should find version string in .rodata");
}

#[test]
fn flash_symbols_are_the_sized_ones_in_code_and_read_only_data() {
    let symbols = extract_flash_symbols(&arm_elf()).unwrap();
    let got: Vec<(&str, u64, u64, Option<&str>)> =
        symbols.iter().map(|s| (s.name.as_str(), s.address, s.size, s.tu.as_deref())).collect();
    assert_eq!(
        got,
        vec![
            ("helper", 0x0, 0x8, Some("main.c")),
            ("app_init", 0x8, 0x10, None),
            ("util_add", 0x18, 0x8, None),
            ("version", RODATA_BASE, 0x4, None),
        ]
    );
}

// ---------------------------------------------------------------------------
// Source attribution

#[test]
fn test_parse_elf_resolves_source_paths() {
    let symbols = parse_elf(&arm_elf()).unwrap();
    let app_init = symbols.iter().find(|s| s.name == "app_init").unwrap();
    let path = app_init.source_path.as_ref().expect("app_init should have a source path");
    assert!(path.ends_with("main.c"), "app_init should come from main.c, got: {path}");
}

#[test]
fn test_parse_elf_resolves_different_files() {
    let symbols = parse_elf(&arm_elf()).unwrap();
    let util_add = symbols.iter().find(|s| s.name == "util_add").unwrap();
    let path = util_add.source_path.as_ref().expect("util_add should have a source path");
    assert!(path.ends_with("util.c"), "util_add should come from util.c, got: {path}");
}

#[test]
fn test_parse_elf_succeeds_with_dwarf() {
    let result = parse_elf(&arm_elf());
    assert!(result.is_ok());
}

#[test]
fn test_variable_die_attributes_rodata_symbol() {
    // 'version' is in .rodata, defined in main.c. Line tables don't cover
    // .rodata addresses, but its DW_TAG_variable entry gives the attribution.
    let symbols = parse_elf(&arm_elf()).unwrap();
    let version = symbols.iter().find(|s| s.name == "version").unwrap();
    assert!(
        version.source_path.is_some(),
        "version (.rodata) should be attributed via DW_TAG_variable DIE, got None"
    );
    let path = version.source_path.as_ref().unwrap();
    assert!(path.contains("main.c"), "version should be attributed to main.c, got: {path}");
}

#[test]
fn detailed_symbols_carry_raw_and_display_paths() {
    let details = parse_elf_detailed(&arm_elf()).unwrap();
    let got: Vec<(&str, Option<&str>, Option<&str>, Option<&str>)> = details
        .iter()
        .map(|d| (d.name.as_str(), d.raw_path.as_deref(), d.display_path.as_deref(), d.tu.as_deref()))
        .collect();
    assert_eq!(
        got,
        vec![
            ("helper", Some("/build/src/main.c"), Some("main.c"), Some("main.c")),
            ("app_init", Some("/build/src/main.c"), Some("main.c"), None),
            ("util_add", Some("/build/src/util.c"), Some("util.c"), None),
            ("version", Some("/build/src/main.c"), Some("main.c"), None),
        ]
    );
}

#[test]
fn an_image_without_debug_information_is_refused() {
    let mut obj = Object::new(BinaryFormat::Elf, Architecture::Arm, Endianness::Little);
    let text = obj.add_section(Vec::new(), b".text".to_vec(), SectionKind::Text);
    obj.append_section_data(text, &[0u8; 8], 4);
    obj.add_symbol(Symbol {
        name: b"f".to_vec(),
        value: 0,
        size: 8,
        kind: SymbolKind::Text,
        scope: SymbolScope::Linkage,
        weak: false,
        section: SymbolSection::Section(text),
        flags: SymbolFlags::None,
    });
    let bytes = obj.write().unwrap();
    assert_eq!(parse_elf(&bytes).unwrap_err(), "Found your ELF but not your DWARF. Rebuild with `-g`.");
}

#[test]
fn an_image_without_flash_symbols_gives_no_symbols() {
    let bytes = build_elf(&[Cu {
        comp_dir: "/b",
        files: vec![("", "a.c")],
        syms: vec![sym("counter", Place::Data, 0, 4, None, 0)],
    }]);
    assert_eq!(parse_elf_detailed(&bytes).unwrap().len(), 0);
}

#[test]
fn test_full_pipeline_arm() {
    let symbols = parse_elf(&arm_elf()).unwrap();
    assert!(!symbols.is_empty(), "should parse symbols from ARM ELF");

    let tree = build_tree(&symbols);
    assert!(tree.size > 0, "tree should have nonzero total size");
    assert!(!tree.children.is_empty(), "tree should have children");
    assert_eq!(tree.size, 0x8 + 0x10 + 0x8 + 0x4);
}

// ---------------------------------------------------------------------------
// Comparisons of two images

fn load(bytes: &[u8]) -> Vec<SymbolDetail> {
    parse_elf_detailed(bytes).unwrap()
}

fn find<'a>(node: &'a SizeNode, name: &str) -> Option<&'a SizeNode> {
    if node.name == name {
        return Some(node);
    }
    node.children.iter().find_map(|c| find(c, name))
}

fn leaves<'a>(node: &'a SizeNode, out: &mut Vec<&'a SizeNode>) {
    if node.children.is_empty() {
        out.push(node);
    }
    for c in &node.children {
        leaves(c, out);
    }
}

fn delta_named(cmp: &Comparison, name: &str) -> Vec<Delta> {
    cmp.deltas.entries().iter().filter(|(k, _)| k.name == name).map(|(_, d)| *d).collect()
}

fn prefix_elf(with_c: bool) -> Vec<u8> {
    let mut syms = vec![sym("fa", Place::Text, 0x0, 22, None, 0), sym("fb", Place::Text, 0x20, 22, None, 1)];
    if with_c {
        syms.push(sym("fc", Place::Text, 0x40, 22, None, 2));
    }
    build_elf(&[Cu { comp_dir: "/w", files: vec![("sub", "a.c"), ("sub", "b.c"), ("", "c.c")], syms }])
}

#[test]
fn unchanged_symbol_keeps_one_identity_when_the_per_elf_path_prefix_changes() {
    // sub/a.c + sub/b.c has common prefix ".../sub/"; adding c.c beside sub/
    // moves it to ".../". The per-ELF display path of `fa` therefore changes
    // ("a.c" -> "sub/a.c") even though the function is byte-identical.
    let a = load(&prefix_elf(false));
    let b = load(&prefix_elf(true));

    let fa_a = a.iter().find(|s| s.name == "fa").unwrap();
    let fa_b = b.iter().find(|s| s.name == "fa").unwrap();
    assert_ne!(fa_a.display_path, fa_b.display_path, "precondition: display paths really differ");

    let cmp = compare(&a, &b);
    let fa = delta_named(&cmp, "fa");
    assert_eq!(fa.len(), 1, "unchanged fa must be a single delta, not removed+added: {fa:?}");
    assert_eq!((fa[0].before, fa[0].after), (Some(22), Some(22)));
    assert_eq!(delta_named(&cmp, "fc").len(), 1);
    assert_eq!(delta_named(&cmp, "fc")[0].before, None);

    // The same identity is what both trees' leaves carry, so highlighting works.
    let (mut la, mut lb) = (Vec::new(), Vec::new());
    leaves(&cmp.tree_a, &mut la);
    leaves(&cmp.tree_b, &mut lb);
    let key_a = la.iter().find(|n| n.name == "fa").unwrap().key.clone();
    let key_b = lb.iter().find(|n| n.name == "fa").unwrap().key.clone();
    assert_eq!(key_a, key_b);
}

fn shared_header_elf(a_helper_size: u64) -> Vec<u8> {
    build_elf(&[
        Cu {
            comp_dir: "/w",
            files: vec![("", "a.c"), ("", "shared.h")],
            syms: vec![sym("helper", Place::Text, 0x0, a_helper_size, Some("a.c"), 1)],
        },
        Cu {
            comp_dir: "/w",
            files: vec![("", "b.c"), ("", "shared.h")],
            syms: vec![sym("helper", Place::Text, 0x40, 22, Some("b.c"), 1)],
        },
    ])
}

#[test]
fn same_named_statics_in_one_shared_header_stay_distinct() {
    // `static helper()` lives in shared.h, included by a.c and b.c: two local
    // symbols, both attributed to shared.h. Only a.c's copy grows.
    let a = load(&shared_header_elf(22));
    let b = load(&shared_header_elf(30));

    let helpers: Vec<_> = a.iter().filter(|s| s.name == "helper").collect();
    assert_eq!(helpers.len(), 2, "precondition: two helper symbols");
    assert_eq!(helpers[0].raw_path, helpers[1].raw_path, "precondition: same attributed source");
    assert_ne!(helpers[0].tu, helpers[1].tu, "the ELF's STT_FILE provenance tells them apart");

    let cmp = compare(&a, &b);
    assert!(cmp.ambiguous.is_empty());
    let mut diffs: Vec<i64> = delta_named(&cmp, "helper").iter().map(|d| d.diff_bytes()).collect();
    diffs.sort();
    assert_eq!(diffs.len(), 2, "one delta per helper, not one overwritten entry");
    assert_eq!(diffs[0], 0, "b.c's copy is unchanged");
    assert!(diffs[1] > 0, "a.c's copy grew");
}

fn group_elf(comp_dir: &'static str, with_added: bool) -> Vec<u8> {
    let mut syms = vec![
        sym("_start", Place::Text, 0x0, 8, None, 0),
        sym("keep", Place::Text, 0x10, 22, None, 1),
        sym("fixed", Place::Text, 0x30, 22, None, 2),
    ];
    if with_added {
        syms.push(sym("added", Place::Text, 0x50, 12, None, 3));
    }
    build_elf(&[Cu { comp_dir, files: vec![("", "m.c"), ("src", "a.c"), ("src", "b.c"), ("src", "c.c")], syms }])
}

#[test]
fn directory_total_is_the_same_from_both_sides_when_a_whole_file_is_added() {
    // src/ holds a.c + b.c; the second ELF adds src/c.c. The hovered `src`
    // node exists in both trees but only the new one has c.c's symbol.
    let a = load(&group_elf("/home/u/proj", false));
    let b = load(&group_elf("/ci/ws", true));
    let cmp = compare(&a, &b);

    let group_a = find(&cmp.tree_a, "src").and_then(|n| n.group.clone()).expect("src in old tree");
    let group_b = find(&cmp.tree_b, "src").and_then(|n| n.group.clone()).expect("src in new tree");
    assert_eq!(group_a, group_b, "same logical group regardless of which tree is hovered");
    assert_eq!(group_a, Group::Dir(vec!["src".into()]));

    let added = delta_named(&cmp, "added")[0].after.unwrap();
    let (before, after) = aggregate_group(&cmp.deltas, &group_a);
    assert_eq!(before, 44, "keep + fixed");
    assert_eq!(after, 44 + added, "keep + fixed + the added file's symbol");
}

#[test]
fn files_at_the_build_root_and_in_subdirectories_align_together() {
    // m.c sits in the compilation unit's comp_dir (absolute in DWARF) while
    // src/*.c are recorded relative to it. Built in two different directories,
    // every file must still line up — `_start` in m.c is unchanged.
    let a = load(&group_elf("/home/u/proj", false));
    let b = load(&group_elf("/ci/ws", true));

    assert!(
        a.iter().filter_map(|s| s.raw_path.as_deref()).all(|p| p.starts_with('/')),
        "raw paths are resolved against comp_dir, not a mix of relative and absolute"
    );

    let cmp = compare(&a, &b);
    let start = delta_named(&cmp, "_start");
    assert_eq!(start.len(), 1, "unchanged _start must not become removed+added: {start:?}");
    assert_eq!(start[0].diff_bytes(), 0);
    let deltas = cmp.deltas.entries();
    assert!(deltas.iter().filter(|(_, d)| d.before.is_none()).count() == 1, "only `added` is new");
    assert!(deltas.iter().all(|(_, d)| d.after.is_some()), "nothing was removed");
}
