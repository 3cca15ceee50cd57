//! What the attribution ranges of an image hold: the ranges of every unit's
//! line table, and for every variable that the DWARF of any unit places at an
//! address, in a file, a one-address range there.
use vstd::prelude::*;

use crate::dwarf::{
    dwarf_comp_dir, dwarf_entry_decl_file, dwarf_entry_location, dwarf_entry_tag, dwarf_has_lines,
    dwarf_line_file, dwarf_unit_at, dwarf_unit_failure, SourceNameV,
};
use crate::parse::{
    after, all_line_ranges, all_variable_ranges, line_rows_from, line_scan, line_units_from, LineRowFactsV, dwarf_attribution, entries_from, entry_fact, next_address,
    resolved_path, source_path, variable_scan, variable_units_from, EntryFactsV, PathRangeV,
    DW_TAG_VARIABLE,
};

verus! {

/// The range a variable at address `a`, declared in file `f` of a unit with
/// compilation directory `comp_dir`, gives.
pub open spec fn variable_range(a: u64, f: SourceNameV, comp_dir: Option<Seq<char>>) -> PathRangeV {
    PathRangeV {
        low: a,
        high: next_address(a),
        path: source_path(f),
        raw: resolved_path(source_path(f), comp_dir),
    }
}

proof fn lemma_after_keeps<T>(done: Seq<T>, rest: Result<Seq<T>, Seq<char>>, x: T)
    requires
        rest is Ok,
        rest->Ok_0.contains(x),
    ensures
        after_ok(done, rest).contains(x),
{
    let r = rest->Ok_0;
    let i = choose|i: int| 0 <= i < r.len() && r[i] == x;
    assert((done + r)[done.len() + i] == x);
}

spec fn after_ok<T>(done: Seq<T>, rest: Result<Seq<T>, Seq<char>>) -> Seq<T> {
    after(done, rest)->Ok_0
}

/// The units read for variables from header `p` on include unit `u`, with
/// its compilation directory and entries.
proof fn lemma_unit_is_read(image: Seq<u8>, p: nat, u: nat)
    requires
        p <= u < image.len(),
        forall|k: nat| k <= u ==> #[trigger] dwarf_unit_at(image, k) == Ok::<bool, Seq<char>>(true),
        dwarf_has_lines(image, u),
        variable_units_from(image, p) is Ok,
    ensures
        entries_from(image, u, 0) is Ok,
        variable_units_from(image, p)->Ok_0.contains((dwarf_comp_dir(image, u), entries_from(image, u, 0)->Ok_0)),
    decreases u - p,
{
    assert(dwarf_unit_at(image, p) == Ok::<bool, Seq<char>>(true));
    assert(dwarf_unit_failure(image, p) is None);
    if dwarf_has_lines(image, p) {
        let es = entries_from(image, p, 0);
        assert(es is Ok);
        let x = (dwarf_comp_dir(image, p), es->Ok_0);
        let rest = variable_units_from(image, p + 1);
        assert(variable_units_from(image, p) == after(seq![x], rest));
        assert(rest is Ok);
        if p == u {
            assert(after(seq![x], rest)->Ok_0[0] == x);
        } else {
            lemma_unit_is_read(image, p + 1, u);
            lemma_after_keeps(seq![x], rest, (dwarf_comp_dir(image, u), entries_from(image, u, 0)->Ok_0));
        }
    } else {
        assert(p != u);
        lemma_unit_is_read(image, p + 1, u);
    }
}

/// The entries read from move `m` on include the variable reached by move
/// `j`, with its address and file.
proof fn lemma_entry_is_read(image: Seq<u8>, u: nat, m: nat, j: nat, a: u64, index: u64, f: SourceNameV)
    requires
        m <= j < image.len(),
        entries_from(image, u, m) is Ok,
        forall|q: nat| m <= q < j ==> (#[trigger] dwarf_entry_tag(image, u, q) matches Ok(Some(_))),
        dwarf_entry_tag(image, u, j) == Ok::<Option<u16>, Seq<char>>(Some(DW_TAG_VARIABLE)),
        dwarf_entry_location(image, u, j + 1) == Ok::<Option<u64>, Seq<char>>(Some(a)),
        dwarf_entry_decl_file(image, u, j + 1) == Ok::<Option<u64>, Seq<char>>(Some(index)),
        dwarf_line_file(image, u, 0, index) == Ok::<Option<SourceNameV>, Seq<char>>(Some(f)),
    ensures
        entries_from(image, u, m)->Ok_0.contains(EntryFactsV { tag: DW_TAG_VARIABLE, location: Some(a), decl_file: Some(f) }),
    decreases j - m,
{
    let t = dwarf_entry_tag(image, u, m)->Ok_0->Some_0;
    if m < j {
        assert(dwarf_entry_tag(image, u, m) matches Ok(Some(_)));
    }
    let fact = entry_fact(image, u, m + 1, t);
    assert(fact is Ok);
    let rest = entries_from(image, u, m + 1);
    assert(entries_from(image, u, m) == after(seq![fact->Ok_0], rest));
    let e = EntryFactsV { tag: DW_TAG_VARIABLE, location: Some(a), decl_file: Some(f) };
    if m == j {
        assert(fact->Ok_0 == e);
        assert(rest is Ok);
        assert(after(seq![fact->Ok_0], rest)->Ok_0[0] == e);
    } else {
        assert(rest is Ok);
        lemma_entry_is_read(image, u, m + 1, j, a, index, f);
        lemma_after_keeps(seq![fact->Ok_0], rest, e);
    }
}

proof fn lemma_scan_has(comp_dir: Option<Seq<char>>, es: Seq<EntryFactsV>, a: u64, f: SourceNameV)
    requires
        es.contains(EntryFactsV { tag: DW_TAG_VARIABLE, location: Some(a), decl_file: Some(f) }),
    ensures
        variable_scan(comp_dir, es).contains(variable_range(a, f, comp_dir)),
    decreases es.len(),
{
    let e = EntryFactsV { tag: DW_TAG_VARIABLE, location: Some(a), decl_file: Some(f) };
    let out = variable_scan(comp_dir, es.drop_last());
    if es.last() == e {
        let r = out.push(variable_range(a, f, comp_dir));
        assert(variable_scan(comp_dir, es) == r);
        assert(r[out.len() as int] == variable_range(a, f, comp_dir));
    } else {
        let i = choose|i: int| 0 <= i < es.len() && es[i] == e;
        assert(i < es.len() - 1);
        assert(es.drop_last()[i] == e);
        lemma_scan_has(comp_dir, es.drop_last(), a, f);
        let w = choose|w: int| 0 <= w < out.len() && out[w] == variable_range(a, f, comp_dir);
        let s = variable_scan(comp_dir, es);
        assert(s == out || s == out.push(s.last()));
        assert(s[w] == variable_range(a, f, comp_dir));
    }
}

proof fn lemma_units_have(
    units: Seq<(Option<Seq<char>>, Seq<EntryFactsV>)>,
    x: (Option<Seq<char>>, Seq<EntryFactsV>),
    r: PathRangeV,
)
    requires
        units.contains(x),
        variable_scan(x.0, x.1).contains(r),
    ensures
        all_variable_ranges(units).contains(r),
    decreases units.len(),
{
    let pre = all_variable_ranges(units.drop_last());
    let last = variable_scan(units.last().0, units.last().1);
    assert(all_variable_ranges(units) == pre + last);
    if units.last() == x {
        let w = choose|w: int| 0 <= w < last.len() && last[w] == r;
        assert((pre + last)[pre.len() + w] == r);
    } else {
        let i = choose|i: int| 0 <= i < units.len() && units[i] == x;
        assert(units.drop_last()[i] == x);
        lemma_units_have(units.drop_last(), x, r);
        let w = choose|w: int| 0 <= w < pre.len() && pre[w] == r;
        assert((pre + last)[w] == r);
    }
}

/// Whichever unit holds it, a variable entry whose location names an
/// address and whose declaration file the unit's line table has gives the
/// one-address range at that address for that file, among the ranges the
/// image's DWARF gives. (The units before it are all there, it has a line
/// table, and the moves before it reach entries.)
pub proof fn lemma_variable_of_any_unit_is_attributed(
    image: Seq<u8>,
    u: nat,
    j: nat,
    a: u64,
    index: u64,
    f: SourceNameV,
)
    requires
        dwarf_attribution(image) is Ok,
        u < image.len(),
        j < image.len(),
        forall|k: nat| k <= u ==> #[trigger] dwarf_unit_at(image, k) == Ok::<bool, Seq<char>>(true),
        dwarf_has_lines(image, u),
        forall|q: nat| q < j ==> (#[trigger] dwarf_entry_tag(image, u, q) matches Ok(Some(_))),
        dwarf_entry_tag(image, u, j) == Ok::<Option<u16>, Seq<char>>(Some(DW_TAG_VARIABLE)),
        dwarf_entry_location(image, u, j + 1) == Ok::<Option<u64>, Seq<char>>(Some(a)),
        dwarf_entry_decl_file(image, u, j + 1) == Ok::<Option<u64>, Seq<char>>(Some(index)),
        dwarf_line_file(image, u, 0, index) == Ok::<Option<SourceNameV>, Seq<char>>(Some(f)),
    ensures
        dwarf_attribution(image)->Ok_0.contains(variable_range(a, f, dwarf_comp_dir(image, u))),
{
    assert(dwarf_unit_at(image, 0) == Ok::<bool, Seq<char>>(true));
    let vars = variable_units_from(image, 0);
    assert(vars is Ok);
    let lines = crate::parse::line_units_from(image, 0)->Ok_0;
    lemma_unit_is_read(image, 0, u);
    let es = entries_from(image, u, 0)->Ok_0;
    lemma_entry_is_read(image, u, 0, j, a, index, f);
    lemma_scan_has(dwarf_comp_dir(image, u), es, a, f);
    lemma_units_have(vars->Ok_0, (dwarf_comp_dir(image, u), es), variable_range(a, f, dwarf_comp_dir(image, u)));
    let lr = crate::parse::all_line_ranges(lines);
    let vr = all_variable_ranges(vars->Ok_0);
    assert(dwarf_attribution(image)->Ok_0 == lr + vr);
    let w = choose|w: int| 0 <= w < vr.len() && vr[w] == variable_range(a, f, dwarf_comp_dir(image, u));
    assert((lr + vr)[lr.len() + w] == variable_range(a, f, dwarf_comp_dir(image, u)));
}

/// The units read for line tables from header `p` on include unit `u`, with
/// its compilation directory and rows.
proof fn lemma_line_unit_is_read(image: Seq<u8>, p: nat, u: nat)
    requires
        p <= u < image.len(),
        forall|k: nat| k <= u ==> #[trigger] dwarf_unit_at(image, k) == Ok::<bool, Seq<char>>(true),
        dwarf_has_lines(image, u),
        line_units_from(image, p) is Ok,
    ensures
        line_rows_from(image, u, 0) is Ok,
        line_units_from(image, p)->Ok_0.contains((dwarf_comp_dir(image, u), line_rows_from(image, u, 0)->Ok_0)),
    decreases u - p,
{
    assert(dwarf_unit_at(image, p) == Ok::<bool, Seq<char>>(true));
    assert(dwarf_unit_failure(image, p) is None);
    if dwarf_has_lines(image, p) {
        assert(!crate::dwarf::has_min_line_advance(image, p, 0));
        let rs = line_rows_from(image, p, 0);
        assert(rs is Ok);
        let x = (dwarf_comp_dir(image, p), rs->Ok_0);
        let rest = line_units_from(image, p + 1);
        assert(line_units_from(image, p) == after(seq![x], rest));
        assert(rest is Ok);
        if p == u {
            assert(after(seq![x], rest)->Ok_0[0] == x);
        } else {
            lemma_line_unit_is_read(image, p + 1, u);
            lemma_after_keeps(seq![x], rest, (dwarf_comp_dir(image, u), line_rows_from(image, u, 0)->Ok_0));
        }
    } else {
        assert(p != u);
        lemma_line_unit_is_read(image, p + 1, u);
    }
}

proof fn lemma_line_units_have(
    units: Seq<(Option<Seq<char>>, Seq<LineRowFactsV>)>,
    x: (Option<Seq<char>>, Seq<LineRowFactsV>),
    r: PathRangeV,
)
    requires
        units.contains(x),
        line_scan(x.0, x.1).0.contains(r),
    ensures
        all_line_ranges(units).contains(r),
    decreases units.len(),
{
    let pre = all_line_ranges(units.drop_last());
    let last = line_scan(units.last().0, units.last().1).0;
    assert(all_line_ranges(units) == pre + last);
    if units.last() == x {
        let w = choose|w: int| 0 <= w < last.len() && last[w] == r;
        assert((pre + last)[pre.len() + w] == r);
    } else {
        let i = choose|i: int| 0 <= i < units.len() && units[i] == x;
        assert(units.drop_last()[i] == x);
        lemma_line_units_have(units.drop_last(), x, r);
        let w = choose|w: int| 0 <= w < pre.len() && pre[w] == r;
        assert((pre + last)[w] == r);
    }
}

/// Whichever unit holds it, every range a unit's own line table gives (run
/// over its rows, with its compilation directory) is among the ranges the
/// image's DWARF gives. (The units before it are all there and it has a line
/// table.)
pub proof fn lemma_line_table_of_any_unit_is_attributed(image: Seq<u8>, u: nat, r: PathRangeV)
    requires
        dwarf_attribution(image) is Ok,
        u < image.len(),
        forall|k: nat| k <= u ==> #[trigger] dwarf_unit_at(image, k) == Ok::<bool, Seq<char>>(true),
        dwarf_has_lines(image, u),
        line_rows_from(image, u, 0) is Ok,
        line_scan(dwarf_comp_dir(image, u), line_rows_from(image, u, 0)->Ok_0).0.contains(r),
    ensures
        dwarf_attribution(image)->Ok_0.contains(r),
{
    assert(dwarf_unit_at(image, 0) == Ok::<bool, Seq<char>>(true));
    let lines = line_units_from(image, 0);
    assert(lines is Ok);
    let vars = variable_units_from(image, 0)->Ok_0;
    lemma_line_unit_is_read(image, 0, u);
    lemma_line_units_have(lines->Ok_0, (dwarf_comp_dir(image, u), line_rows_from(image, u, 0)->Ok_0), r);
    let lr = all_line_ranges(lines->Ok_0);
    let vr = all_variable_ranges(vars);
    assert(dwarf_attribution(image)->Ok_0 == lr + vr);
    let w = choose|w: int| 0 <= w < lr.len() && lr[w] == r;
    assert((lr + vr)[w] == r);
}

} // verus!

