//! Symbols of an ELF image and the source files DWARF attributes them to.
use vstd::prelude::*;
use vstd::string::*;

use crate::dwarf::{
    dwarf_comp_dir, dwarf_entry_decl_file, dwarf_entry_location, dwarf_entry_tag,
    dwarf_has_lines, dwarf_line_file, dwarf_line_row, dwarf_load_failure, dwarf_unit_at,
    dwarf_unit_failure, dwarf_units, has_min_line_advance, next_line_instruction,
    unit_line_instructions, entry_decl_file, entry_location_address, line_file,
    load_dwarf, load_unit, next_entry_tag, next_line_row, next_unit_head, unit_comp_dir,
    unit_entries, unit_line_rows, CompUnit, DebugInfo, DwarfLoadError, EntryCursor,
    LineProgramRows, LoadFailureV, SourceName, SourceNameV,
};
use crate::elf::{
    elf_section_table, elf_sections, elf_symbol_table, elf_symbol_views, elf_symbols, ElfSection,
    ElfSymbol, ElfSymbolV, SectionClass,
};
use crate::text::{chars_of, copy_string, push_char, string_from_chars};

verus! {

/// A symbol extracted from the ELF, located in a flash section.
#[derive(Debug, Clone)]
pub struct FlashSymbol {
    pub name: String,
    pub address: u64,
    pub size: u64,
    /// For a local symbol, the object file / translation unit it belongs to,
    /// taken from the `STT_FILE` symbol that precedes it in `.symtab`.
    /// `None` for global/weak symbols, whose names are unique across the link.
    pub tu: Option<String>,
}

/// A symbol with its source file path resolved from DWARF.
#[derive(Debug, Clone)]
pub struct ResolvedSymbol {
    pub name: String,
    pub size: u64,
    /// Source file path from DWARF, or None if not found.
    pub source_path: Option<String>,
}

/// What a resolved symbol stands for.
pub struct SymV {
    pub name: Seq<char>,
    pub size: u64,
    pub source: Option<Seq<char>>,
}

impl View for ResolvedSymbol {
    type V = SymV;

    open spec fn view(&self) -> SymV {
        SymV { name: self.name@, size: self.size, source: self.source_path.deep_view() }
    }
}

/// A symbol with everything comparison mode needs to give it a stable
/// identity: the raw (untrimmed) source path alongside the display-trimmed
/// one, and translation-unit provenance for locals.
#[derive(Debug, Clone)]
pub struct SymbolDetail {
    pub name: String,
    pub size: u64,
    /// Source path exactly as DWARF reports it, resolved against the
    /// compilation directory.
    pub raw_path: Option<String>,
    /// Source path with this ELF's own longest common directory prefix removed.
    pub display_path: Option<String>,
    /// See [`FlashSymbol::tu`].
    pub tu: Option<String>,
}

} // verus!

verus! {

// ---------------------------------------------------------------------------
// Common directory prefixes

/// `r` characters are a directory prefix shared by every path: all paths
/// start with the first path's first `r` characters, and these end with `/`
/// (or are empty).
pub open spec fn is_common_dir_prefix(paths: Seq<Seq<char>>, r: int) -> bool {
    &&& paths.len() > 0
    &&& 0 <= r <= paths[0].len()
    &&& (r == 0 || paths[0][r - 1] == '/')
    &&& forall|i: int| 0 <= i < paths.len() ==> r <= #[trigger] paths[i].len() && paths[i].take(r) == paths[0].take(r)
}

/// The first `k` paths all have length at least `r` and start with
/// `first[..r]`.
pub open spec fn shares_prefix(ps: Seq<Seq<char>>, k: int, first: Seq<char>, r: int) -> bool {
    forall|j: int| 0 <= j < k ==> r <= #[trigger] ps[j].len() && ps[j].take(r) == first.take(r)
}

/// Length of the longest common directory prefix of `paths` (0 when there is
/// no path).
pub open spec fn common_dir_len(paths: Seq<Seq<char>>) -> int {
    if paths.len() == 0 {
        0
    } else {
        choose|r: int| is_common_dir_prefix(paths, r) && forall|r2: int| is_common_dir_prefix(paths, r2) ==> r2 <= r
    }
}

/// Length in characters of the longest common directory prefix of `paths`
/// (ending just after a `/`), or 0 if there is none.
pub(crate) fn common_dir_char_len(paths: &Vec<String>) -> (r: usize)
    ensures
        r == common_dir_len(paths.deep_view()),
        paths.len() > 0 ==> is_common_dir_prefix(paths.deep_view(), r as int),
{
    let ghost ps = paths.deep_view();
    if paths.len() == 0 {
        return 0;
    }
    let first = chars_of(paths[0].as_str());
    let mut len: usize = first.len();
    let mut k: usize = 1;
    while k < paths.len()
        invariant
            1 <= k <= paths.len(),
            ps == paths.deep_view(),
            first@ == ps[0],
            len <= first.len(),
            forall|j: int| 0 <= j < k ==> len <= #[trigger] ps[j].len() && ps[j].take(len as int) == first@.take(len as int),
            forall|r2: int| 0 <= r2 <= first@.len() && #[trigger] shares_prefix(ps, k as int, first@, r2) ==> r2 <= len,
        decreases paths.len() - k,
    {
        let other = chars_of(paths[k].as_str());
        let mut m = len;
        if other.len() < m {
            m = other.len();
        }
        let mut i: usize = 0;
        while i < m && first[i] == other[i]
            invariant
                i <= m <= len <= first.len(),
                m <= other.len(),
                forall|j: int| 0 <= j < i ==> first@[j] == other@[j],
            decreases m - i,
        {
            i += 1;
        }
        let ghost old_len = len;
        len = i;
        proof {
            assert(other@ == ps[k as int]);
            assert forall|j: int| 0 <= j <= k implies len <= #[trigger] ps[j].len() && ps[j].take(len as int) == first@.take(len as int) by {
                if j < k {
                    assert(ps[j].take(len as int) =~= ps[j].take(old_len as int).take(len as int));
                    assert(first@.take(len as int) =~= first@.take(old_len as int).take(len as int));
                } else {
                    assert(ps[j].take(len as int) =~= first@.take(len as int));
                }
            }
            assert forall|r2: int| 0 <= r2 <= first@.len() && #[trigger] shares_prefix(ps, k + 1, first@, r2) implies r2 <= len by {
                assert(shares_prefix(ps, k as int, first@, r2));
                assert(r2 <= old_len);
                assert(r2 <= ps[k as int].len() && ps[k as int].take(r2) == first@.take(r2));
                assert(r2 <= other@.len());
                if r2 > len {
                    assert(i < m);
                    assert(other@.take(r2)[i as int] == first@.take(r2)[i as int]);
                }
            }
        }
        k += 1;
    }
    // Cut just after the last `/` within the shared part.
    let r = last_slash_end(&first, len);
    proof {
        assert(is_common_dir_prefix(ps, r as int)) by {
            assert forall|i: int| 0 <= i < ps.len() implies r <= #[trigger] ps[i].len() && ps[i].take(r as int) == ps[0].take(r as int) by {
                assert(len <= ps[i].len() && ps[i].take(len as int) == first@.take(len as int));
                assert(ps[i].take(r as int) =~= ps[i].take(len as int).take(r as int));
                assert(first@.take(r as int) =~= first@.take(len as int).take(r as int));
            }
        }
        assert forall|r2: int| is_common_dir_prefix(ps, r2) implies r2 <= r by {
            assert(shares_prefix(ps, paths.len() as int, first@, r2));
            assert(r2 <= len);
            if r2 > r {
                assert(first@[r2 - 1] == '/');
            }
        }
        let c = common_dir_len(ps);
        assert(is_common_dir_prefix(ps, c) && forall|r2: int| is_common_dir_prefix(ps, r2) ==> r2 <= c);
        assert(c <= r && r <= c);
    }
    r
}

/// How many bytes UTF-8 spends on `c`.
pub open spec fn utf8_width(c: char) -> nat {
    if (c as u32) < 0x80 {
        1
    } else if (c as u32) < 0x800 {
        2
    } else if (c as u32) < 0x10000 {
        3
    } else {
        4
    }
}

/// How many bytes UTF-8 spends on `s`.
pub open spec fn utf8_len(s: Seq<char>) -> nat
    decreases s.len(),
{
    if s.len() == 0 {
        0
    } else {
        utf8_len(s.drop_last()) + utf8_width(s.last())
    }
}

proof fn lemma_utf8_len_take(s: Seq<char>, i: int)
    requires
        0 <= i <= s.len(),
    ensures
        utf8_len(s.take(i)) <= utf8_len(s),
    decreases s.len(),
{
    if i < s.len() {
        assert(s.drop_last().take(i) == s.take(i));
        lemma_utf8_len_take(s.drop_last(), i);
    } else {
        assert(s.take(i) == s);
    }
}

/// The number of bytes UTF-8 spends on `c`.
fn utf8_width_of(c: char) -> (r: usize)
    ensures
        r == utf8_width(c),
{
    let n = c as u32;
    if n < 0x80 {
        1
    } else if n < 0x800 {
        2
    } else if n < 0x10000 {
        3
    } else {
        4
    }
}

/// Byte length of the longest common directory prefix of `paths` (ending
/// just after a `/`), or 0 if there is none. Only cuts at directory
/// boundaries. The bytes of a string are its UTF-8 encoding, which no
/// string longer than `usize::MAX` bytes can have.
pub fn common_dir_prefix_len(paths: &Vec<String>) -> (r: usize)
    requires
        paths.len() > 0 ==> utf8_len(paths[0]@) <= usize::MAX,
    ensures
        paths.len() == 0 ==> r == 0,
        paths.len() > 0 ==> r == utf8_len(paths[0]@.take(common_dir_len(paths.deep_view()))),
{
    let k = common_dir_char_len(paths);
    if paths.len() == 0 {
        return 0;
    }
    let first = chars_of(paths[0].as_str());
    proof {
        assert(paths.deep_view()[0] == paths[0]@);
        lemma_utf8_len_take(first@, k as int);
    }
    let mut bytes: usize = 0;
    let mut i: usize = 0;
    while i < k
        invariant
            k <= first.len(),
            i <= k,
            utf8_len(first@.take(k as int)) <= usize::MAX,
            bytes == utf8_len(first@.take(i as int)),
        decreases k - i,
    {
        proof {
            assert(first@.take(i + 1).drop_last() == first@.take(i as int));
            lemma_utf8_len_take(first@.take(k as int), i + 1);
            assert(first@.take(k as int).take(i + 1) == first@.take(i + 1));
        }
        bytes = bytes + utf8_width_of(first[i]);
        i += 1;
    }
    bytes
}

/// Index just after the last `/` in `s[..len]`, or 0.
fn last_slash_end(s: &Vec<char>, len: usize) -> (r: usize)
    requires
        len <= s.len(),
    ensures
        r <= len,
        r == 0 || s@[r - 1] == '/',
        forall|j: int| r <= j < len ==> s@[j] != '/',
{
    let mut r = len;
    while r > 0 && s[r - 1] != '/'
        invariant
            r <= len <= s.len(),
            forall|j: int| r <= j < len ==> s@[j] != '/',
        decreases r,
    {
        r -= 1;
    }
    r
}

/// Strip the longest common directory prefix from all paths in the address
/// map. Only strips at directory boundaries (i.e. at '/' characters).
pub fn strip_common_prefix(entries: &mut Vec<(u64, u64, String)>)
    ensures
        final(entries)@.len() == old(entries)@.len(),
        forall|i: int|
            0 <= i < old(entries)@.len() ==> #[trigger] stripped_entry(
                final(entries)@[i],
                old(entries)@[i],
                common_dir_len(third_views(old(entries)@)),
            ),
{
    let mut paths: Vec<String> = Vec::new();
    for i in 0..entries.len()
        invariant
            paths@.len() == i,
            forall|j: int| 0 <= j < i ==> #[trigger] paths@[j]@ == entries@[j].2@,
    {
        paths.push(copy_string(&entries[i].2));
    }
    assert(paths.deep_view() =~= third_views(entries@));
    let strip = common_dir_char_len(&paths);
    let ghost olds = entries@;
    if strip > 0 {
        let mut out: Vec<(u64, u64, String)> = Vec::new();
        let mut i: usize = 0;
        while i < entries.len()
            invariant
                i <= entries@.len(),
                entries@ == olds,
                olds.len() == paths@.len(),
                paths.deep_view() == third_views(olds),
                is_common_dir_prefix(third_views(olds), strip as int),
                out@.len() == i,
                forall|j: int| 0 <= j < i ==> #[trigger] stripped_entry(out@[j], olds[j], strip as int),
            decreases olds.len() - i,
        {
            let cs = chars_of(entries[i].2.as_str());
            proof {
                assert(third_views(olds)[i as int] == olds[i as int].2@);
            }
            let rest = string_from_chars(&cs, strip, cs.len());
            assert(rest@ =~= olds[i as int].2@.skip(strip as int));
            let a = entries[i].0;
            let b = entries[i].1;
            out.push((a, b, rest));
            assert(stripped_entry(out@[i as int], olds[i as int], strip as int));
            i += 1;
        }
        *entries = out;
    } else {
        assert forall|i: int| 0 <= i < olds.len() implies #[trigger] stripped_entry(olds[i], olds[i], 0) by {
            assert(olds[i].2@.skip(0) =~= olds[i].2@);
        }
    }
}

/// `e` is `o` with its path's first `strip` characters removed.
pub open spec fn stripped_entry(e: (u64, u64, String), o: (u64, u64, String), strip: int) -> bool {
    &&& e.0 == o.0
    &&& e.1 == o.1
    &&& e.2@ == o.2@.skip(strip)
}

/// The paths of the entries.
pub open spec fn third_views(s: Seq<(u64, u64, String)>) -> Seq<Seq<char>> {
    Seq::new(s.len(), |i: int| s[i].2@)
}

/// Trailing `/` characters removed.
pub open spec fn trim_trailing_slashes(s: Seq<char>) -> Seq<char>
    decreases s.len(),
{
    if s.len() > 0 && s.last() == '/' {
        trim_trailing_slashes(s.drop_last())
    } else {
        s
    }
}

/// `path` made absolute against `comp_dir` when it is relative.
pub open spec fn resolved_path(path: Seq<char>, comp_dir: Option<Seq<char>>) -> Seq<char> {
    match comp_dir {
        Some(dir) => if path.len() > 0 && path[0] == '/' {
            path
        } else {
            trim_trailing_slashes(dir) + seq!['/'] + path
        },
        None => path,
    }
}

/// `path` made absolute against the compilation unit's `comp_dir` when it is
/// relative. DWARF line-table directories are relative to `comp_dir`, so
/// without this one ELF mixes relative and absolute spellings of paths that
/// live under the same build root.
pub fn resolve_against(path: &str, comp_dir: Option<&str>) -> (r: String)
    ensures
        r@ == resolved_path(path@, match comp_dir { Some(d) => Some(d@), None => None }),
{
    let pcs = chars_of(path);
    match comp_dir {
        Some(dir) => {
            if pcs.len() > 0 && pcs[0] == '/' {
                return path.to_owned();
            }
            let dcs = chars_of(dir);
            let mut end = dcs.len();
            assert(dcs@.take(end as int) == dcs@);
            while end > 0 && dcs[end - 1] == '/'
                invariant
                    end <= dcs.len(),
                    trim_trailing_slashes(dcs@) == trim_trailing_slashes(dcs@.take(end as int)),
                decreases end,
            {
                assert(dcs@.take(end as int).drop_last() == dcs@.take(end - 1));
                end -= 1;
            }
            assert(dcs@.take(dcs.len() as int) == dcs@);
            let mut r = string_from_chars(&dcs, 0, end);
            assert(dcs@.subrange(0, end as int) == dcs@.take(end as int));
            push_char(&mut r, '/');
            r.append(path);
            r
        },
        None => path.to_owned(),
    }
}

} // verus!

verus! {

/// What a detailed symbol stands for.
pub struct DetailV {
    pub name: Seq<char>,
    pub size: u64,
    pub raw: Option<Seq<char>>,
    pub display: Option<Seq<char>>,
    pub tu: Option<Seq<char>>,
}

impl View for SymbolDetail {
    type V = DetailV;

    open spec fn view(&self) -> DetailV {
        DetailV {
            name: self.name@,
            size: self.size,
            raw: self.raw_path.deep_view(),
            display: self.display_path.deep_view(),
            tu: self.tu.deep_view(),
        }
    }
}

/// Views of a list of detailed symbols.
pub open spec fn detail_views(s: Seq<SymbolDetail>) -> Seq<DetailV> {
    Seq::new(s.len(), |i: int| s[i]@)
}

} // verus!

verus! {

// ---------------------------------------------------------------------------
// Address ranges from the line tables and variable entries

/// `DW_TAG_variable`.
pub const DW_TAG_VARIABLE: u16 = 0x34;

/// Addresses `[low, high)` attributed to a source file: `path` as the line
/// table spells it, `raw` the same path resolved against the unit's
/// compilation directory.
#[derive(Debug, Clone)]
pub struct PathRange {
    pub low: u64,
    pub high: u64,
    pub path: String,
    pub raw: String,
}

/// What an address range stands for.
pub struct PathRangeV {
    pub low: u64,
    pub high: u64,
    pub path: Seq<char>,
    pub raw: Seq<char>,
}

impl View for PathRange {
    type V = PathRangeV;

    open spec fn view(&self) -> PathRangeV {
        PathRangeV { low: self.low, high: self.high, path: self.path@, raw: self.raw@ }
    }
}

/// Views of a list of ranges.
pub open spec fn range_views(s: Seq<PathRange>) -> Seq<PathRangeV> {
    Seq::new(s.len(), |i: int| s[i]@)
}

/// A row of a unit's line table, with the file it names when the table has
/// that file.
#[derive(Debug, Clone)]
pub struct LineRowFacts {
    pub address: u64,
    pub end_sequence: bool,
    pub file: Option<SourceName>,
}

/// What a line-table row stands for.
pub struct LineRowFactsV {
    pub address: u64,
    pub end_sequence: bool,
    pub file: Option<SourceNameV>,
}

impl View for LineRowFacts {
    type V = LineRowFactsV;

    open spec fn view(&self) -> LineRowFactsV {
        LineRowFactsV {
            address: self.address,
            end_sequence: self.end_sequence,
            file: match self.file {
                Some(f) => Some(f@),
                None => None,
            },
        }
    }
}

/// Views of a list of line-table rows.
pub open spec fn row_views(s: Seq<LineRowFacts>) -> Seq<LineRowFactsV> {
    Seq::new(s.len(), |i: int| s[i]@)
}

/// An entry of a unit's tree of debugging information: its tag; for a
/// variable, the address its location names (when the location is an
/// expression starting with an address); and, when that address is known,
/// the file it is declared in (when the line table has that file).
#[derive(Debug, Clone)]
pub struct EntryFacts {
    pub tag: u16,
    pub location: Option<u64>,
    pub decl_file: Option<SourceName>,
}

/// What an entry stands for.
pub struct EntryFactsV {
    pub tag: u16,
    pub location: Option<u64>,
    pub decl_file: Option<SourceNameV>,
}

impl View for EntryFacts {
    type V = EntryFactsV;

    open spec fn view(&self) -> EntryFactsV {
        EntryFactsV {
            tag: self.tag,
            location: self.location,
            decl_file: match self.decl_file {
                Some(f) => Some(f@),
                None => None,
            },
        }
    }
}

/// Views of a list of entries.
pub open spec fn entry_views(s: Seq<EntryFacts>) -> Seq<EntryFactsV> {
    Seq::new(s.len(), |i: int| s[i]@)
}

/// The path a file-table entry names: its directory (when it has a
/// non-empty one), a `/`, and its name.
pub open spec fn source_path(n: SourceNameV) -> Seq<char> {
    match n.dir {
        Some(d) => if d.len() > 0 {
            d + seq!['/'] + n.name
        } else {
            n.name
        },
        None => n.name,
    }
}

/// An optional string's view.
pub open spec fn opt_view(s: Option<String>) -> Option<Seq<char>> {
    match s {
        Some(x) => Some(x@),
        None => None,
    }
}

/// The ranges a unit's line table gives, and the row still open at its end.
///
/// Rows whose file the table lacks are skipped. A row closes the range opened
/// by the previous kept row when its address is past that row's; a row that
/// ends a sequence opens nothing, any other row opens a range at its address
/// for its file.
pub open spec fn line_scan(comp_dir: Option<Seq<char>>, rows: Seq<LineRowFactsV>) -> (
    Seq<PathRangeV>,
    Option<(u64, Seq<char>, Seq<char>)>,
)
    decreases rows.len(),
{
    if rows.len() == 0 {
        (Seq::empty(), None)
    } else {
        let (out, open) = line_scan(comp_dir, rows.drop_last());
        let row = rows.last();
        match row.file {
            None => (out, open),
            Some(f) => {
                let closed = match open {
                    Some((a, p, r)) => if row.address > a {
                        out.push(PathRangeV { low: a, high: row.address, path: p, raw: r })
                    } else {
                        out
                    },
                    None => out,
                };
                let path = source_path(f);
                let next = if row.end_sequence {
                    None
                } else {
                    Some((row.address, path, resolved_path(path, comp_dir)))
                };
                (closed, next)
            },
        }
    }
}

/// The address just after `a`, wrapping at the top of the address space.
pub open spec fn next_address(a: u64) -> u64 {
    if a == u64::MAX {
        0
    } else {
        (a + 1) as u64
    }
}

/// The one-address ranges the variable entries of a unit give: every
/// variable whose location address and declaration file are both known.
pub open spec fn variable_scan(comp_dir: Option<Seq<char>>, es: Seq<EntryFactsV>) -> Seq<PathRangeV>
    decreases es.len(),
{
    if es.len() == 0 {
        Seq::empty()
    } else {
        let out = variable_scan(comp_dir, es.drop_last());
        let e = es.last();
        if e.tag == DW_TAG_VARIABLE {
            match (e.location, e.decl_file) {
                (Some(a), Some(f)) => out.push(
                    PathRangeV {
                        low: a,
                        high: next_address(a),
                        path: source_path(f),
                        raw: resolved_path(source_path(f), comp_dir),
                    },
                ),
                _ => out,
            }
        } else {
            out
        }
    }
}

/// The path a file-table entry names.
pub fn source_path_of(n: &SourceName) -> (r: String)
    ensures
        r@ == source_path(n@),
{
    match &n.dir {
        Some(d) => {
            if !d.as_str().is_empty() {
                let mut r = copy_string(d);
                push_char(&mut r, '/');
                r.append(n.name.as_str());
                r
            } else {
                copy_string(&n.name)
            }
        },
        None => copy_string(&n.name),
    }
}

fn opt_str(s: &Option<String>) -> (r: Option<&str>)
    ensures
        match r {
            Some(x) => s.is_some() && x@ == s.unwrap()@,
            None => s.is_none(),
        },
{
    match s {
        Some(x) => Some(x.as_str()),
        None => None,
    }
}

/// The ranges a unit's line table gives (see [`line_scan`]).
pub fn line_ranges(comp_dir: &Option<String>, rows: &Vec<LineRowFacts>) -> (r: Vec<PathRange>)
    ensures
        range_views(r@) == line_scan(opt_view(*comp_dir), row_views(rows@)).0,
{
    let ghost cd = opt_view(*comp_dir);
    let ghost rv = row_views(rows@);
    let mut out: Vec<PathRange> = Vec::new();
    let mut open: Option<(u64, String, String)> = None;
    let mut i: usize = 0;
    while i < rows.len()
        invariant
            i <= rows.len(),
            cd == opt_view(*comp_dir),
            rv == row_views(rows@),
            range_views(out@) == line_scan(cd, rv.take(i as int)).0,
            match (open, line_scan(cd, rv.take(i as int)).1) {
                (Some((a, p, r)), Some((a2, p2, r2))) => a == a2 && p@ == p2 && r@ == r2,
                (None, None) => true,
                _ => false,
            },
        decreases rows.len() - i,
    {
        proof {
            assert(rv.take(i + 1).drop_last() == rv.take(i as int));
            assert(rv.take(i + 1).last() == rows@[i as int]@);
        }
        let row = &rows[i];
        match &row.file {
            None => {},
            Some(f) => {
                let ghost old_out = range_views(out@);
                match &open {
                    Some((a, p, r)) => {
                        if row.address > *a {
                            out.push(
                                PathRange {
                                    low: *a,
                                    high: row.address,
                                    path: copy_string(p),
                                    raw: copy_string(r),
                                },
                            );
                            assert(range_views(out@) =~= old_out.push(range_views(out@).last()));
                        }
                    },
                    None => {},
                }
                if row.end_sequence {
                    open = None;
                } else {
                    let path = source_path_of(f);
                    let dir = opt_str(comp_dir);
                    let raw = resolve_against(path.as_str(), dir);
                    assert(match dir { Some(d) => Some(d@), None => None } == cd);
                    open = Some((row.address, path, raw));
                }
            },
        }
        i += 1;
    }
    proof {
        assert(rv.take(rows.len() as int) == rv);
    }
    out
}


/// The one-address ranges the variable entries of a unit give (see
/// [`variable_scan`]).
pub fn variable_ranges(comp_dir: &Option<String>, entries: &Vec<EntryFacts>) -> (r: Vec<PathRange>)
    ensures
        range_views(r@) == variable_scan(opt_view(*comp_dir), entry_views(entries@)),
{
    let ghost cd = opt_view(*comp_dir);
    let ghost ev = entry_views(entries@);
    let mut out: Vec<PathRange> = Vec::new();
    let mut i: usize = 0;
    while i < entries.len()
        invariant
            i <= entries.len(),
            cd == opt_view(*comp_dir),
            ev == entry_views(entries@),
            range_views(out@) == variable_scan(cd, ev.take(i as int)),
        decreases entries.len() - i,
    {
        proof {
            assert(ev.take(i + 1).drop_last() == ev.take(i as int));
            assert(ev.take(i + 1).last() == entries@[i as int]@);
        }
        let e = &entries[i];
        if e.tag == DW_TAG_VARIABLE {
            match (e.location, &e.decl_file) {
                (Some(a), Some(f)) => {
                    let path = source_path_of(f);
                    let dir = opt_str(comp_dir);
                    let raw = resolve_against(path.as_str(), dir);
                    assert(match dir { Some(d) => Some(d@), None => None } == cd);
                    let high = if a == u64::MAX {
                        0
                    } else {
                        a + 1
                    };
                    let ghost old_out = range_views(out@);
                    out.push(PathRange { low: a, high, path, raw });
                    assert(range_views(out@) =~= old_out.push(range_views(out@).last()));
                },
                _ => {},
            }
        }
        i += 1;
    }
    proof {
        assert(ev.take(entries.len() as int) == ev);
    }
    out
}


// ---------------------------------------------------------------------------
// Attributing symbols to ranges

/// What a flash symbol stands for.
pub struct FlashV {
    pub name: Seq<char>,
    pub address: u64,
    pub size: u64,
    pub tu: Option<Seq<char>>,
}

impl View for FlashSymbol {
    type V = FlashV;

    open spec fn view(&self) -> FlashV {
        FlashV { name: self.name@, address: self.address, size: self.size, tu: opt_view(self.tu) }
    }
}

/// Views of a list of flash symbols.
pub open spec fn flash_views(s: Seq<FlashSymbol>) -> Seq<FlashV> {
    Seq::new(s.len(), |i: int| s[i]@)
}

/// The ranges are in ascending order of `low`.
pub open spec fn sorted_by_low(s: Seq<PathRangeV>) -> bool {
    forall|i: int, j: int| 0 <= i <= j < s.len() ==> s[i].low <= s[j].low
}

/// The ranges of `s` that start at `k`, in order.
pub open spec fn with_low(s: Seq<PathRangeV>, k: u64) -> Seq<PathRangeV>
    decreases s.len(),
{
    if s.len() == 0 {
        Seq::empty()
    } else if s.last().low == k {
        with_low(s.drop_last(), k).push(s.last())
    } else {
        with_low(s.drop_last(), k)
    }
}

/// `sorted` is `ranges` stably sorted by `low`: in ascending order, and with
/// the ranges of each start address in their original order.
pub open spec fn stable_sort_of(ranges: Seq<PathRangeV>, sorted: Seq<PathRangeV>) -> bool {
    &&& sorted_by_low(sorted)
    &&& forall|k: u64| #[trigger] with_low(sorted, k) == with_low(ranges, k)
}

/// `c` is a range that a binary search of the sorted ranges for `addr` by
/// `low` may settle on: one starting at `addr`, or, when none does, the last
/// one starting below it.
pub open spec fn is_candidate(s: Seq<PathRangeV>, addr: u64, c: int) -> bool {
    &&& 0 <= c < s.len()
    &&& (s[c].low == addr || (s[c].low < addr && forall|j: int| c < j < s.len() ==> #[trigger] s[j].low > addr))
}

/// The source attributed to `addr` in the sorted ranges `s`, whose display
/// paths are `shown`: that of the candidate range when it contains `addr`,
/// none when it does not or when no range starts at or below `addr`.
pub open spec fn located(
    s: Seq<PathRangeV>,
    shown: Seq<Seq<char>>,
    addr: u64,
    raw: Option<Seq<char>>,
    display: Option<Seq<char>>,
) -> bool {
    ||| (forall|j: int| 0 <= j < s.len() ==> #[trigger] s[j].low > addr) && raw is None && display is None
    ||| exists|c: int|
        #[trigger] is_candidate(s, addr, c) && if addr < s[c].high {
            raw == Some(s[c].raw) && display == Some(shown[c])
        } else {
            raw is None && display is None
        }
}

/// The paths of the ranges.
pub open spec fn range_paths(s: Seq<PathRangeV>) -> Seq<Seq<char>> {
    Seq::new(s.len(), |i: int| s[i].path)
}

/// The paths of the ranges with their longest common directory prefix removed.
pub open spec fn display_paths(s: Seq<PathRangeV>) -> Seq<Seq<char>> {
    Seq::new(s.len(), |i: int| s[i].path.skip(common_dir_len(range_paths(s))))
}

/// `out` describes the flash symbols `fs` in order, each attributed to a
/// source by the sorted ranges `s`.
pub open spec fn attributed(fs: Seq<FlashV>, s: Seq<PathRangeV>, out: Seq<DetailV>) -> bool {
    &&& out.len() == fs.len()
    &&& forall|i: int|
        0 <= i < fs.len() ==> {
            &&& #[trigger] out[i].name == fs[i].name
            &&& out[i].size == fs[i].size
            &&& out[i].tu == fs[i].tu
            &&& located(s, display_paths(s), fs[i].address, out[i].raw, out[i].display)
        }
}

/// `slice::sort_by_key` on the ranges' `low`. The standard library documents
/// this sort as ascending by the key and stable.
#[verifier::external_body]
fn sort_by_low(ranges: &mut Vec<PathRange>)
    ensures
        stable_sort_of(range_views(old(ranges)@), range_views(final(ranges)@)),
{
    ranges.sort_by_key(|r| r.low);
}

/// Binary search for `addr` among the `low`s of ranges sorted by `low`: `Ok`
/// with the index of a range starting at `addr`, or `Err` with the index
/// where such a range would be inserted.
fn search_low(ranges: &Vec<PathRange>, addr: u64) -> (r: Result<usize, usize>)
    requires
        sorted_by_low(range_views(ranges@)),
    ensures
        match r {
            Ok(i) => i < ranges@.len() && ranges@[i as int].low == addr,
            Err(i) => i <= ranges@.len() && (forall|j: int| 0 <= j < i ==> #[trigger] ranges@[j].low < addr) && (
            forall|j: int| i <= j < ranges@.len() ==> #[trigger] ranges@[j].low > addr),
        },
{
    let ghost v = range_views(ranges@);
    let mut lo: usize = 0;
    let mut hi: usize = ranges.len();
    while lo < hi
        invariant
            lo <= hi <= ranges.len(),
            v == range_views(ranges@),
            sorted_by_low(v),
            forall|j: int| 0 <= j < lo ==> #[trigger] ranges@[j].low < addr,
            forall|j: int| hi <= j < ranges@.len() ==> #[trigger] ranges@[j].low >= addr,
        decreases hi - lo,
    {
        let mid = lo + (hi - lo) / 2;
        if ranges[mid].low < addr {
            proof {
                assert forall|j: int| 0 <= j < mid + 1 implies #[trigger] ranges@[j].low < addr by {
                    assert(v[j].low <= v[mid as int].low);
                }
            }
            lo = mid + 1;
        } else {
            proof {
                assert forall|j: int| mid <= j < ranges@.len() implies #[trigger] ranges@[j].low >= addr by {
                    assert(v[mid as int].low <= v[j].low);
                }
            }
            hi = mid;
        }
    }
    if lo < ranges.len() && ranges[lo].low == addr {
        Ok(lo)
    } else {
        proof {
            assert forall|j: int| lo <= j < ranges@.len() implies #[trigger] ranges@[j].low > addr by {
                assert(ranges@[lo as int].low >= addr);
                assert(v[lo as int].low <= v[j].low);
            }
        }
        Err(lo)
    }
}

/// The range of the sorted `ranges` that contains `addr`, found the way a
/// binary search by `low` finds it.
fn locate(ranges: &Vec<PathRange>, addr: u64) -> (r: Option<usize>)
    requires
        sorted_by_low(range_views(ranges@)),
    ensures
        ({
            let s = range_views(ranges@);
            match r {
                Some(c) => is_candidate(s, addr, c as int) && s[c as int].low <= addr < s[c as int].high,
                None => (forall|j: int| 0 <= j < s.len() ==> #[trigger] s[j].low > addr) || exists|c: int|
                    #[trigger] is_candidate(s, addr, c) && addr >= s[c].high,
            }
        }),
{
    let ghost s = range_views(ranges@);
    let found = search_low(ranges, addr);
    let c = match found {
        Ok(i) => i,
        Err(i) => {
            if i == 0 {
                assert forall|j: int| 0 <= j < s.len() implies #[trigger] s[j].low > addr by {
                    assert(ranges@[j]@ == s[j]);
                }
                return None;
            }
            i - 1
        },
    };
    proof {
        assert(s[c as int] == ranges@[c as int]@);
        match found {
            Ok(i) => {},
            Err(i) => {
                assert forall|j: int| c < j < s.len() implies #[trigger] s[j].low > addr by {
                    assert(ranges@[j]@ == s[j]);
                }
            },
        }
        assert(is_candidate(s, addr, c as int));
    }
    if ranges[c].low <= addr && addr < ranges[c].high {
        Some(c)
    } else {
        None
    }
}

/// Attribute each flash symbol to a source file: sort the ranges by start
/// address (stably), trim the common directory prefix off their paths for
/// display, and give each symbol the range a binary search for its address
/// settles on, when that range contains the address.
pub fn attribute_symbols(flash: &Vec<FlashSymbol>, ranges: Vec<PathRange>) -> (out: Vec<SymbolDetail>)
    ensures
        exists|s: Seq<PathRangeV>|
            stable_sort_of(range_views(ranges@), s) && attributed(flash_views(flash@), s, detail_views(out@)),
{
    let mut sorted = ranges;
    sort_by_low(&mut sorted);
    let ghost s = range_views(sorted@);
    let mut shown: Vec<(u64, u64, String)> = Vec::new();
    let mut i: usize = 0;
    while i < sorted.len()
        invariant
            i <= sorted.len(),
            s == range_views(sorted@),
            shown@.len() == i,
            forall|j: int| 0 <= j < i ==> #[trigger] shown@[j].2@ == s[j].path,
        decreases sorted.len() - i,
    {
        shown.push((sorted[i].low, sorted[i].high, copy_string(&sorted[i].path)));
        i += 1;
    }
    assert(third_views(shown@) =~= range_paths(s));
    let ghost before = shown@;
    strip_common_prefix(&mut shown);
    let ghost shown_paths = display_paths(s);
    assert forall|j: int| 0 <= j < s.len() implies #[trigger] shown@[j].2@ == shown_paths[j] by {
        assert(stripped_entry(shown@[j], before[j], common_dir_len(third_views(before))));
    }
    let mut out: Vec<SymbolDetail> = Vec::new();
    let mut k: usize = 0;
    while k < flash.len()
        invariant
            k <= flash.len(),
            s == range_views(sorted@),
            sorted_by_low(s),
            shown@.len() == s.len(),
            shown_paths == display_paths(s),
            forall|j: int| 0 <= j < s.len() ==> #[trigger] shown@[j].2@ == shown_paths[j],
            out@.len() == k,
            forall|j: int|
                0 <= j < k ==> {
                    &&& #[trigger] out@[j]@.name == flash@[j]@.name
                    &&& out@[j]@.size == flash@[j]@.size
                    &&& out@[j]@.tu == flash@[j]@.tu
                    &&& located(s, shown_paths, flash@[j]@.address, out@[j]@.raw, out@[j]@.display)
                },
        decreases flash.len() - k,
    {
        let f = &flash[k];
        let hit = locate(&sorted, f.address);
        let (raw_path, display_path) = match hit {
            Some(c) => (Some(copy_string(&sorted[c].raw)), Some(copy_string(&shown[c].2))),
            None => (None, None),
        };
        let d = SymbolDetail {
            name: copy_string(&f.name),
            size: f.size,
            raw_path,
            display_path,
            tu: crate::text::copy_opt_string(&f.tu),
        };
        proof {
            match hit {
                Some(c) => {
                    assert(s[c as int] == sorted@[c as int]@);
                    assert(is_candidate(s, f.address, c as int));
                },
                None => {},
            }
            assert(located(s, shown_paths, f@.address, d@.raw, d@.display));
        }
        out.push(d);
        k += 1;
    }
    proof {
        assert(detail_views(out@).len() == flash_views(flash@).len());
        assert(attributed(flash_views(flash@), s, detail_views(out@)));
    }
    out
}

// ---------------------------------------------------------------------------
// Flash symbols

/// Sections whose contents are placed in flash: code, read-only data and
/// read-only strings.
pub open spec fn is_flash_class(c: SectionClass) -> bool {
    c == SectionClass::Text || c == SectionClass::ReadOnlyData || c == SectionClass::ReadOnlyString
}

/// Section `idx` is one of the flash sections of `secs`.
pub open spec fn flash_section(secs: Seq<ElfSection>, idx: usize) -> bool {
    exists|j: int| 0 <= j < secs.len() && #[trigger] secs[j].index == idx && is_flash_class(secs[j].class)
}

/// The name an `STT_FILE` record gives the locals after it: its name, unless
/// that is empty or unreadable.
pub open spec fn file_record_name(n: Option<Seq<char>>) -> Option<Seq<char>> {
    match n {
        Some(x) => if x.len() > 0 {
            Some(x)
        } else {
            None
        },
        None => None,
    }
}

/// The flash symbols of a symbol table, and the translation unit in effect
/// after it.
///
/// An `STT_FILE` record sets the translation unit of the local symbols after
/// it. A symbol is kept when it is defined in a flash section, has a
/// readable, non-empty name and a non-zero size; a local one carries the
/// translation unit in effect.
pub open spec fn flash_scan(secs: Seq<ElfSection>, syms: Seq<ElfSymbolV>) -> (Seq<FlashV>, Option<Seq<char>>)
    decreases syms.len(),
{
    if syms.len() == 0 {
        (Seq::empty(), None)
    } else {
        let (out, cur) = flash_scan(secs, syms.drop_last());
        let y = syms.last();
        if y.is_file {
            (out, file_record_name(y.name))
        } else {
            match (y.section, y.name) {
                (Some(idx), Some(n)) => if flash_section(secs, idx) && n.len() > 0 && y.size != 0 {
                    (
                        out.push(
                            FlashV {
                                name: n,
                                address: y.address,
                                size: y.size,
                                tu: if y.is_local {
                                    cur
                                } else {
                                    None
                                },
                            },
                        ),
                        cur,
                    )
                } else {
                    (out, cur)
                },
                _ => (out, cur),
            }
        }
    }
}

/// The flash symbols of the ELF image `data`, or the message for an image
/// that cannot be parsed.
pub open spec fn flash_table(data: Seq<u8>) -> Result<Seq<FlashV>, Seq<char>> {
    match elf_section_table(data) {
        Err(e) => Err("Failed to parse ELF: "@ + e),
        Ok(secs) => match elf_symbol_table(data) {
            Err(e) => Err("Failed to parse ELF: "@ + e),
            Ok(syms) => Ok(flash_scan(secs, syms).0),
        },
    }
}

/// `Ok` views of a list of flash symbols, or the error text.
pub open spec fn flash_result(r: Result<Vec<FlashSymbol>, String>) -> Result<Seq<FlashV>, Seq<char>> {
    match r {
        Ok(v) => Ok(flash_views(v@)),
        Err(e) => Err(e@),
    }
}

fn is_flash(c: SectionClass) -> (r: bool)
    ensures
        r == is_flash_class(c),
{
    match c {
        SectionClass::Text => true,
        SectionClass::ReadOnlyData => true,
        SectionClass::ReadOnlyString => true,
        SectionClass::Other => false,
    }
}

/// The flash symbols of a symbol table (see [`flash_scan`]).
pub fn flash_symbols_from(sections: &Vec<ElfSection>, symbols: &Vec<ElfSymbol>) -> (r: Vec<FlashSymbol>)
    ensures
        flash_views(r@) == flash_scan(sections@, elf_symbol_views(symbols@)).0,
{
    let ghost secs = sections@;
    let mut flash_idx: Vec<usize> = Vec::new();
    let mut i: usize = 0;
    while i < sections.len()
        invariant
            i <= sections.len(),
            secs == sections@,
            forall|x: usize| #[trigger] flash_idx@.contains(x) <==> exists|j: int|
                0 <= j < i && #[trigger] secs[j].index == x && is_flash_class(secs[j].class),
        decreases sections.len() - i,
    {
        let ghost before = flash_idx@;
        if is_flash(sections[i].class) {
            flash_idx.push(sections[i].index);
        }
        proof {
            assert forall|x: usize| #[trigger] flash_idx@.contains(x) <==> exists|j: int|
                0 <= j < i + 1 && #[trigger] secs[j].index == x && is_flash_class(secs[j].class) by {
                if flash_idx@.contains(x) && !before.contains(x) {
                    assert(flash_idx@ == before.push(secs[i as int].index));
                    let w = choose|w: int| 0 <= w < flash_idx@.len() && flash_idx@[w] == x;
                    assert(w == before.len());
                }
                if before.contains(x) {
                    let w = choose|w: int| 0 <= w < before.len() && before[w] == x;
                    assert(flash_idx@[w] == x);
                }
                if secs[i as int].index == x && is_flash_class(secs[i as int].class) {
                    assert(flash_idx@[flash_idx@.len() - 1] == x);
                }
            }
        }
        i += 1;
    }
    let ghost ys = elf_symbol_views(symbols@);
    let mut out: Vec<FlashSymbol> = Vec::new();
    let mut cur: Option<String> = None;
    let mut k: usize = 0;
    while k < symbols.len()
        invariant
            k <= symbols.len(),
            secs == sections@,
            ys == elf_symbol_views(symbols@),
            forall|x: usize| #[trigger] flash_idx@.contains(x) <==> flash_section(secs, x),
            flash_views(out@) == flash_scan(secs, ys.take(k as int)).0,
            opt_view(cur) == flash_scan(secs, ys.take(k as int)).1,
        decreases symbols.len() - k,
    {
        proof {
            assert(ys.take(k + 1).drop_last() == ys.take(k as int));
            assert(ys.take(k + 1).last() == symbols@[k as int]@);
        }
        let y = &symbols[k];
        if y.is_file {
            cur = match &y.name {
                Some(n) => if n.as_str().is_empty() {
                    None
                } else {
                    Some(copy_string(n))
                },
                None => None,
            };
        } else {
            match (y.section, &y.name) {
                (Some(idx), Some(n)) => {
                    let mut found = false;
                    let mut j: usize = 0;
                    while j < flash_idx.len()
                        invariant
                            j <= flash_idx.len(),
                            found <==> flash_idx@.take(j as int).contains(idx),
                        decreases flash_idx.len() - j,
                    {
                        proof {
                            assert(flash_idx@.take(j + 1) == flash_idx@.take(j as int).push(flash_idx@[j as int]));
                        }
                        if flash_idx[j] == idx {
                            found = true;
                        }
                        proof {
                            let t = flash_idx@.take(j as int);
                            let t1 = flash_idx@.take(j + 1);
                            if found && !t.contains(idx) {
                                assert(t1[j as int] == idx);
                            }
                            if t.contains(idx) {
                                let w = choose|w: int| 0 <= w < t.len() && t[w] == idx;
                                assert(t1[w] == idx);
                            }
                            if t1.contains(idx) && flash_idx@[j as int] != idx {
                                let w = choose|w: int| 0 <= w < t1.len() && t1[w] == idx;
                                assert(t[w] == idx);
                            }
                        }
                        j += 1;
                    }
                    proof {
                        assert(flash_idx@.take(flash_idx.len() as int) == flash_idx@);
                    }
                    if found && !n.as_str().is_empty() && y.size != 0 {
                        let tu = if y.is_local {
                            crate::text::copy_opt_string(&cur)
                        } else {
                            None
                        };
                        let ghost old_out = flash_views(out@);
                        out.push(FlashSymbol { name: copy_string(n), address: y.address, size: y.size, tu });
                        assert(flash_views(out@) =~= old_out.push(out@.last()@));
                    }
                },
                _ => {},
            }
        }
        k += 1;
    }
    proof {
        assert(ys.take(symbols.len() as int) == ys);
    }
    out
}

fn parse_failure(e: &String) -> (r: String)
    ensures
        r@ == "Failed to parse ELF: "@ + e@,
{
    let mut r = "Failed to parse ELF: ".to_owned();
    r.append(e.as_str());
    r
}

/// Parse an ELF binary and return all symbols in flash sections (`.text`,
/// `.rodata`, ...).
pub fn extract_flash_symbols(data: &[u8]) -> (r: Result<Vec<FlashSymbol>, String>)
    ensures
        flash_result(r) == flash_table(data@),
{
    let sections = match elf_sections(data) {
        Ok(s) => s,
        Err(e) => return Err(parse_failure(&e)),
    };
    let symbols = match elf_symbols(data) {
        Ok(s) => s,
        Err(e) => return Err(parse_failure(&e)),
    };
    Ok(flash_symbols_from(&sections, &symbols))
}

// ---------------------------------------------------------------------------
// Parsing ELF + DWARF

/// The ranges the line tables of the units give, unit after unit; each unit
/// is its compilation directory and the rows of its line table.
pub open spec fn all_line_ranges(units: Seq<(Option<Seq<char>>, Seq<LineRowFactsV>)>) -> Seq<PathRangeV>
    decreases units.len(),
{
    if units.len() == 0 {
        Seq::empty()
    } else {
        all_line_ranges(units.drop_last()) + line_scan(units.last().0, units.last().1).0
    }
}

/// The ranges the variable entries of the units give, unit after unit; each
/// unit is its compilation directory and its entries in depth-first order.
pub open spec fn all_variable_ranges(units: Seq<(Option<Seq<char>>, Seq<EntryFactsV>)>) -> Seq<PathRangeV>
    decreases units.len(),
{
    if units.len() == 0 {
        Seq::empty()
    } else {
        all_variable_ranges(units.drop_last()) + variable_scan(units.last().0, units.last().1)
    }
}

/// Every line-table range, then every variable range.
pub open spec fn dwarf_ranges(
    lines: Seq<(Option<Seq<char>>, Seq<LineRowFactsV>)>,
    vars: Seq<(Option<Seq<char>>, Seq<EntryFactsV>)>,
) -> Seq<PathRangeV> {
    all_line_ranges(lines) + all_variable_ranges(vars)
}

/// The message for an ELF image without DWARF.
pub open spec fn no_dwarf_message() -> Seq<char> {
    "Found your ELF but not your DWARF. Rebuild with `-g`."@
}

/// `done`, then what `rest` gives; or `rest`'s error.
pub open spec fn after<T>(done: Seq<T>, rest: Result<Seq<T>, Seq<char>>) -> Result<Seq<T>, Seq<char>> {
    match rest {
        Ok(r) => Ok(done + r),
        Err(e) => Err(e),
    }
}

proof fn lemma_after_push<T>(done: Seq<T>, x: T, rest: Result<Seq<T>, Seq<char>>)
    ensures
        after(done, after(seq![x], rest)) == after(done.push(x), rest),
{
    match rest {
        Ok(r) => {
            assert(done + (seq![x] + r) =~= done.push(x) + r);
        },
        Err(_) => {},
    }
}

proof fn lemma_after_seq<T>(done: Seq<T>, more: Seq<T>, rest: Result<Seq<T>, Seq<char>>)
    ensures
        after(done, after(more, rest)) == after(done + more, rest),
{
    match rest {
        Ok(r) => {
            assert(done + (more + r) =~= (done + more) + r);
        },
        Err(_) => {},
    }
}

proof fn lemma_after_empty<T>(done: Seq<T>)
    ensures
        after(done, Ok(Seq::<T>::empty())) == Ok::<Seq<T>, Seq<char>>(done),
{
    assert(done + Seq::<T>::empty() =~= done);
}

/// The rows that unit `unit`'s line program gives from row `pos` on, each
/// with the file it names as the table stands after that row; the first
/// error reading them.
pub open spec fn line_rows_from(image: Seq<u8>, unit: nat, pos: nat) -> Result<Seq<LineRowFactsV>, Seq<char>>
    decreases image.len() - pos,
{
    match dwarf_line_row(image, unit, pos) {
        Err(e) => Err(e),
        Ok(None) => Ok(Seq::empty()),
        Ok(Some((address, end_sequence, index))) => if pos < image.len() {
            match dwarf_line_file(image, unit, pos + 1, index) {
                Err(e) => Err(e),
                Ok(file) => after(
                    seq![LineRowFactsV { address, end_sequence, file }],
                    line_rows_from(image, unit, pos + 1),
                ),
            }
        } else {
            Ok(Seq::empty())
        },
    }
}

/// Why a line program that advances the line by `i64::MIN` is not run.
pub open spec fn min_line_advance_message() -> Seq<char> {
    "line advance out of range"@
}

/// From the unit header after `pos` earlier ones on: each unit with a line
/// program as its compilation directory and rows; the first error reading
/// them. A program that advances the line by `i64::MIN` is refused before
/// it runs.
pub open spec fn line_units_from(image: Seq<u8>, pos: nat) -> Result<
    Seq<(Option<Seq<char>>, Seq<LineRowFactsV>)>,
    Seq<char>,
>
    decreases image.len() - pos,
{
    match dwarf_unit_at(image, pos) {
        Err(e) => Err(e),
        Ok(false) => Ok(Seq::empty()),
        Ok(true) => if pos < image.len() {
            match dwarf_unit_failure(image, pos) {
                Some(e) => Err(e),
                None => if dwarf_has_lines(image, pos) {
                    if has_min_line_advance(image, pos, 0) {
                        Err(min_line_advance_message())
                    } else {
                    match line_rows_from(image, pos, 0) {
                        Err(e) => Err(e),
                        Ok(rows) => after(seq![(dwarf_comp_dir(image, pos), rows)], line_units_from(image, pos + 1)),
                    }
                    }
                } else {
                    line_units_from(image, pos + 1)
                },
            }
        } else {
            Ok(Seq::empty())
        },
    }
}

/// What the entry reached after `pos` moves of unit `unit`'s cursor, with
/// this tag, tells: for a variable, the address its location names and,
/// when that is known, the file it is declared in, looked up in the unit's
/// line table as it stands before any row.
pub open spec fn entry_fact(image: Seq<u8>, unit: nat, pos: nat, tag: u16) -> Result<EntryFactsV, Seq<char>> {
    let none = EntryFactsV { tag, location: None, decl_file: None };
    if tag == DW_TAG_VARIABLE {
        match dwarf_entry_location(image, unit, pos) {
            Err(e) => Err(e),
            Ok(None) => Ok(none),
            Ok(Some(a)) => match dwarf_entry_decl_file(image, unit, pos) {
                Err(e) => Err(e),
                Ok(None) => Ok(EntryFactsV { tag, location: Some(a), decl_file: None }),
                Ok(Some(i)) => match dwarf_line_file(image, unit, 0, i) {
                    Err(e) => Err(e),
                    Ok(f) => Ok(EntryFactsV { tag, location: Some(a), decl_file: f }),
                },
            },
        }
    } else {
        Ok(none)
    }
}

/// The entries of unit `unit` from the move after `pos` on, in depth-first
/// order; the first error reading them.
pub open spec fn entries_from(image: Seq<u8>, unit: nat, pos: nat) -> Result<Seq<EntryFactsV>, Seq<char>>
    decreases image.len() - pos,
{
    match dwarf_entry_tag(image, unit, pos) {
        Err(e) => Err(e),
        Ok(None) => Ok(Seq::empty()),
        Ok(Some(tag)) => if pos < image.len() {
            match entry_fact(image, unit, pos + 1, tag) {
                Err(e) => Err(e),
                Ok(x) => after(seq![x], entries_from(image, unit, pos + 1)),
            }
        } else {
            Ok(Seq::empty())
        },
    }
}

/// From the unit header after `pos` earlier ones on: each unit with a line
/// program as its compilation directory and entries; the first error
/// reading them.
pub open spec fn variable_units_from(image: Seq<u8>, pos: nat) -> Result<
    Seq<(Option<Seq<char>>, Seq<EntryFactsV>)>,
    Seq<char>,
>
    decreases image.len() - pos,
{
    match dwarf_unit_at(image, pos) {
        Err(e) => Err(e),
        Ok(false) => Ok(Seq::empty()),
        Ok(true) => if pos < image.len() {
            match dwarf_unit_failure(image, pos) {
                Some(e) => Err(e),
                None => if dwarf_has_lines(image, pos) {
                    match entries_from(image, pos, 0) {
                        Err(e) => Err(e),
                        Ok(es) => after(seq![(dwarf_comp_dir(image, pos), es)], variable_units_from(image, pos + 1)),
                    }
                } else {
                    variable_units_from(image, pos + 1)
                },
            }
        } else {
            Ok(Seq::empty())
        },
    }
}

/// The address ranges the DWARF of the image gives, line tables first, or
/// the message saying why they cannot be had.
pub open spec fn dwarf_attribution(image: Seq<u8>) -> Result<Seq<PathRangeV>, Seq<char>> {
    match dwarf_load_failure(image) {
        Some(LoadFailureV::Object(e)) => Err("Failed to parse ELF: "@ + e),
        Some(LoadFailureV::Dwarf(e)) => Err("Failed to load DWARF: "@ + e),
        None => match dwarf_unit_at(image, 0) {
            Err(e) => Err("DWARF error: "@ + e),
            Ok(false) => Err(no_dwarf_message()),
            Ok(true) => match line_units_from(image, 0) {
                Err(e) => Err("DWARF error: "@ + e),
                Ok(lines) => match variable_units_from(image, 0) {
                    Err(e) => Err("DWARF error: "@ + e),
                    Ok(vars) => Ok(dwarf_ranges(lines, vars)),
                },
            },
        },
    }
}

/// What [`parse_elf_detailed`] gives for the ELF image `data`.
///
/// When the image's symbols cannot be read, that error; when it has no flash
/// symbol, no symbol; when its DWARF cannot be read, why; otherwise the flash
/// symbols in order, each attributed to a source by the ranges of the DWARF
/// stably sorted by start address.
pub open spec fn detailed_outcome(data: Seq<u8>, r: Result<Seq<DetailV>, Seq<char>>) -> bool {
    match flash_table(data) {
        Err(e) => r == Err::<Seq<DetailV>, Seq<char>>(e),
        Ok(fs) => if fs.len() == 0 {
            r == Ok::<Seq<DetailV>, Seq<char>>(Seq::empty())
        } else {
            match dwarf_attribution(data) {
                Err(e) => r == Err::<Seq<DetailV>, Seq<char>>(e),
                Ok(ranges) => match r {
                    Ok(out) => exists|s: Seq<PathRangeV>| #[trigger] stable_sort_of(ranges, s) && attributed(fs, s, out),
                    Err(_) => false,
                },
            }
        },
    }
}

/// `Ok` views of a list of detailed symbols, or the error text.
pub open spec fn detailed_result(r: Result<Vec<SymbolDetail>, String>) -> Result<Seq<DetailV>, Seq<char>> {
    match r {
        Ok(v) => Ok(detail_views(v@)),
        Err(e) => Err(e@),
    }
}

fn prefixed(prefix: &str, e: &String) -> (r: String)
    ensures
        r@ == prefix@ + e@,
{
    let mut r = prefix.to_owned();
    r.append(e.as_str());
    r
}

/// Whether the unit's line program advances the line by `i64::MIN` before
/// any instruction that cannot be read.
fn finds_min_line_advance<'a>(unit: &CompUnit<'a>) -> (r: bool)
    requires
        dwarf_has_lines(unit.image(), unit.index()),
    ensures
        r == has_min_line_advance(unit.image(), unit.index(), 0),
{
    let ghost img = unit.image();
    let ghost u = unit.index();
    let mut cursor = match unit_line_instructions(unit) {
        Some(c) => c,
        None => return false,
    };
    loop
        invariant
            img == unit.image(),
            u == unit.index(),
            cursor.image() == img,
            cursor.unit() == u,
            cursor.pos() <= img.len(),
            has_min_line_advance(img, u, 0) == has_min_line_advance(img, u, cursor.pos()),
        decreases img.len() - cursor.pos(),
    {
        let ghost j = cursor.pos();
        match next_line_instruction(&mut cursor) {
            Ok(Some(Some(increment))) => {
                if increment == i64::MIN {
                    assert(has_min_line_advance(img, u, j));
                    return true;
                }
            },
            Ok(Some(None)) => {},
            _ => {
                assert(!has_min_line_advance(img, u, j));
                return false;
            },
        }
        assert(has_min_line_advance(img, u, j) == has_min_line_advance(img, u, j + 1));
    }
}

/// Every row of a unit's line program, each with the file it names.
fn read_rows<'a>(info: &DebugInfo<'a>, unit: &CompUnit<'a>, rows: LineProgramRows<'a>) -> (r: Result<
    Vec<LineRowFacts>,
    String,
>)
    requires
        unit.image() == info.image(),
        rows.image() == info.image(),
        rows.unit() == unit.index(),
        rows.pos() == 0,
        !has_min_line_advance(info.image(), unit.index(), 0),
    ensures
        match r {
            Ok(v) => line_rows_from(info.image(), unit.index(), 0) == Ok::<Seq<LineRowFactsV>, Seq<char>>(row_views(v@)),
            Err(e) => line_rows_from(info.image(), unit.index(), 0) == Err::<Seq<LineRowFactsV>, Seq<char>>(e@),
        },
{
    let ghost img = info.image();
    let ghost u = unit.index();
    let mut rows = rows;
    let mut facts: Vec<LineRowFacts> = Vec::new();
    proof {
        assert(row_views(facts@) =~= Seq::<LineRowFactsV>::empty());
        assert(Seq::<LineRowFactsV>::empty() + line_rows_from(img, u, 0)->Ok_0 =~= line_rows_from(img, u, 0)->Ok_0);
    }
    loop
        invariant
            img == info.image(),
            u == unit.index(),
            unit.image() == img,
            rows.image() == img,
            rows.unit() == u,
            rows.pos() <= img.len(),
            !has_min_line_advance(img, u, 0),
            line_rows_from(img, u, 0) == after(row_views(facts@), line_rows_from(img, u, rows.pos())),
        decreases img.len() - rows.pos(),
    {
        let ghost j = rows.pos();
        let row = match next_line_row(&mut rows) {
            Err(e) => {
                assert(line_rows_from(img, u, j) == Err::<Seq<LineRowFactsV>, Seq<char>>(e@));
                return Err(e);
            },
            Ok(None) => {
                assert(line_rows_from(img, u, j) == Ok::<Seq<LineRowFactsV>, Seq<char>>(Seq::empty()));
                proof {
                    lemma_after_empty(row_views(facts@));
                }
                return Ok(facts);
            },
            Ok(Some(row)) => row,
        };
        let file = match line_file(info, unit, &rows, row.file_index) {
            Err(e) => {
                assert(line_rows_from(img, u, j) == Err::<Seq<LineRowFactsV>, Seq<char>>(e@));
                return Err(e);
            },
            Ok(f) => f,
        };
        let fact = LineRowFacts { address: row.address, end_sequence: row.end_sequence, file };
        let ghost before = row_views(facts@);
        facts.push(fact);
        proof {
            assert(fact@ == LineRowFactsV { address: row.address, end_sequence: row.end_sequence, file: fact@.file });
            assert(line_rows_from(img, u, j) == after(seq![fact@], line_rows_from(img, u, j + 1)));
            lemma_after_push(before, fact@, line_rows_from(img, u, j + 1));
            assert(row_views(facts@) =~= before.push(fact@));
        }
    }
}

/// The ranges of every unit's line table, unit after unit.
fn line_pass<'a>(info: &DebugInfo<'a>) -> (r: Result<Vec<PathRange>, String>)
    ensures
        match (r, line_units_from(info.image(), 0)) {
            (Ok(v), Ok(lines)) => range_views(v@) == all_line_ranges(lines),
            (Err(e), Err(e2)) => e@ == e2,
            _ => false,
        },
{
    let ghost img = info.image();
    let mut units = dwarf_units(info);
    let mut ranges: Vec<PathRange> = Vec::new();
    let ghost mut lines: Seq<(Option<Seq<char>>, Seq<LineRowFactsV>)> = Seq::empty();
    proof {
        assert(range_views(ranges@) =~= Seq::<PathRangeV>::empty());
        match line_units_from(img, 0) {
            Ok(x) => assert(lines + x =~= x),
            Err(_) => {},
        }
    }
    loop
        invariant
            img == info.image(),
            units.image() == img,
            units.pos() <= img.len(),
            line_units_from(img, 0) == after(lines, line_units_from(img, units.pos())),
            range_views(ranges@) == all_line_ranges(lines),
        decreases img.len() - units.pos(),
    {
        let ghost i = units.pos();
        let head = match next_unit_head(&mut units) {
            Err(e) => {
                assert(line_units_from(img, i) == Err::<Seq<(Option<Seq<char>>, Seq<LineRowFactsV>)>, Seq<char>>(e@));
                return Err(e);
            },
            Ok(None) => {
                assert(line_units_from(img, i) == Ok::<Seq<(Option<Seq<char>>, Seq<LineRowFactsV>)>, Seq<char>>(Seq::empty()));
                proof {
                    lemma_after_empty(lines);
                }
                return Ok(ranges);
            },
            Ok(Some(h)) => h,
        };
        let unit = match load_unit(info, head) {
            Err(e) => {
                assert(line_units_from(img, i) == Err::<Seq<(Option<Seq<char>>, Seq<LineRowFactsV>)>, Seq<char>>(e@));
                return Err(e);
            },
            Ok(u) => u,
        };
        let comp_dir = unit_comp_dir(&unit);
        match unit_line_rows(&unit) {
            None => {
                assert(line_units_from(img, i) == line_units_from(img, i + 1));
            },
            Some(rows) => {
                if finds_min_line_advance(&unit) {
                    let m = "line advance out of range".to_owned();
                    assert(line_units_from(img, i) == Err::<Seq<(Option<Seq<char>>, Seq<LineRowFactsV>)>, Seq<char>>(m@));
                    return Err(m);
                }
                let facts = match read_rows(info, &unit, rows) {
                    Err(e) => {
                        assert(line_units_from(img, i) == Err::<Seq<(Option<Seq<char>>, Seq<LineRowFactsV>)>, Seq<char>>(e@));
                        return Err(e);
                    },
                    Ok(f) => f,
                };
                let mut part = line_ranges(&comp_dir, &facts);
                let ghost before = range_views(ranges@);
                let ghost added = range_views(part@);
                ranges.append(&mut part);
                proof {
                    let x = (opt_view(comp_dir), row_views(facts@));
                    assert(opt_view(comp_dir) == dwarf_comp_dir(img, i));
                    assert(line_units_from(img, i) == after(seq![x], line_units_from(img, i + 1)));
                    lemma_after_push(lines, x, line_units_from(img, i + 1));
                    assert(range_views(ranges@) =~= before + added);
                    assert(lines.push(x).drop_last() == lines);
                    lines = lines.push(x);
                }
            },
        }
    }
}

/// What the entry the cursor stands on tells (see [`entry_fact`]).
fn read_entry<'u, 'a>(
    info: &DebugInfo<'a>,
    unit: &CompUnit<'a>,
    entries: &EntryCursor<'u, 'a>,
    table: &LineProgramRows<'a>,
    tag: u16,
) -> (r: Result<EntryFacts, String>)
    requires
        unit.image() == info.image(),
        entries.image() == info.image(),
        entries.unit() == unit.index(),
        table.image() == info.image(),
        table.unit() == unit.index(),
        table.pos() == 0,
    ensures
        match r {
            Ok(x) => entry_fact(info.image(), unit.index(), entries.pos(), tag) == Ok::<EntryFactsV, Seq<char>>(x@),
            Err(e) => entry_fact(info.image(), unit.index(), entries.pos(), tag) == Err::<EntryFactsV, Seq<char>>(e@),
        },
{
    if tag != DW_TAG_VARIABLE {
        return Ok(EntryFacts { tag, location: None, decl_file: None });
    }
    let location = match entry_location_address(entries, unit) {
        Err(e) => return Err(e),
        Ok(None) => return Ok(EntryFacts { tag, location: None, decl_file: None }),
        Ok(Some(a)) => a,
    };
    let index = match entry_decl_file(entries) {
        Err(e) => return Err(e),
        Ok(None) => return Ok(EntryFacts { tag, location: Some(location), decl_file: None }),
        Ok(Some(i)) => i,
    };
    match line_file(info, unit, table, index) {
        Err(e) => Err(e),
        Ok(f) => Ok(EntryFacts { tag, location: Some(location), decl_file: f }),
    }
}

/// Every entry of a unit, in depth-first order.
fn read_entries<'a>(info: &DebugInfo<'a>, unit: &CompUnit<'a>, table: &LineProgramRows<'a>) -> (r: Result<
    Vec<EntryFacts>,
    String,
>)
    requires
        unit.image() == info.image(),
        table.image() == info.image(),
        table.unit() == unit.index(),
        table.pos() == 0,
    ensures
        match r {
            Ok(v) => entries_from(info.image(), unit.index(), 0) == Ok::<Seq<EntryFactsV>, Seq<char>>(entry_views(v@)),
            Err(e) => entries_from(info.image(), unit.index(), 0) == Err::<Seq<EntryFactsV>, Seq<char>>(e@),
        },
{
    let ghost img = info.image();
    let ghost u = unit.index();
    let mut entries = unit_entries(unit);
    let mut facts: Vec<EntryFacts> = Vec::new();
    proof {
        assert(entry_views(facts@) =~= Seq::<EntryFactsV>::empty());
        match entries_from(img, u, 0) {
            Ok(x) => assert(Seq::<EntryFactsV>::empty() + x =~= x),
            Err(_) => {},
        }
    }
    loop
        invariant
            img == info.image(),
            u == unit.index(),
            unit.image() == img,
            table.image() == img,
            table.unit() == u,
            table.pos() == 0,
            entries.image() == img,
            entries.unit() == u,
            entries.pos() <= img.len(),
            entries_from(img, u, 0) == after(entry_views(facts@), entries_from(img, u, entries.pos())),
        decreases img.len() - entries.pos(),
    {
        let ghost j = entries.pos();
        let tag = match next_entry_tag(&mut entries) {
            Err(e) => {
                assert(entries_from(img, u, j) == Err::<Seq<EntryFactsV>, Seq<char>>(e@));
                return Err(e);
            },
            Ok(None) => {
                assert(entries_from(img, u, j) == Ok::<Seq<EntryFactsV>, Seq<char>>(Seq::empty()));
                proof {
                    lemma_after_empty(entry_views(facts@));
                }
                return Ok(facts);
            },
            Ok(Some(t)) => t,
        };
        let fact = match read_entry(info, unit, &entries, table, tag) {
            Err(e) => {
                assert(entries_from(img, u, j) == Err::<Seq<EntryFactsV>, Seq<char>>(e@));
                return Err(e);
            },
            Ok(x) => x,
        };
        let ghost before = entry_views(facts@);
        proof {
            assert(entries_from(img, u, j) == after(seq![fact@], entries_from(img, u, j + 1)));
            lemma_after_push(before, fact@, entries_from(img, u, j + 1));
        }
        facts.push(fact);
        assert(entry_views(facts@) =~= before.push(facts@.last()@));
    }
}

/// The one-address ranges of every unit's variables, unit after unit.
fn variable_pass<'a>(info: &DebugInfo<'a>) -> (r: Result<Vec<PathRange>, String>)
    ensures
        match (r, variable_units_from(info.image(), 0)) {
            (Ok(v), Ok(vars)) => range_views(v@) == all_variable_ranges(vars),
            (Err(e), Err(e2)) => e@ == e2,
            _ => false,
        },
{
    let ghost img = info.image();
    let mut units = dwarf_units(info);
    let mut ranges: Vec<PathRange> = Vec::new();
    let ghost mut vars: Seq<(Option<Seq<char>>, Seq<EntryFactsV>)> = Seq::empty();
    proof {
        assert(range_views(ranges@) =~= Seq::<PathRangeV>::empty());
        match variable_units_from(img, 0) {
            Ok(x) => assert(vars + x =~= x),
            Err(_) => {},
        }
    }
    loop
        invariant
            img == info.image(),
            units.image() == img,
            units.pos() <= img.len(),
            variable_units_from(img, 0) == after(vars, variable_units_from(img, units.pos())),
            range_views(ranges@) == all_variable_ranges(vars),
        decreases img.len() - units.pos(),
    {
        let ghost i = units.pos();
        let head = match next_unit_head(&mut units) {
            Err(e) => {
                assert(variable_units_from(img, i) == Err::<Seq<(Option<Seq<char>>, Seq<EntryFactsV>)>, Seq<char>>(e@));
                return Err(e);
            },
            Ok(None) => {
                assert(variable_units_from(img, i) == Ok::<Seq<(Option<Seq<char>>, Seq<EntryFactsV>)>, Seq<char>>(Seq::empty()));
                proof {
                    lemma_after_empty(vars);
                }
                return Ok(ranges);
            },
            Ok(Some(h)) => h,
        };
        let unit = match load_unit(info, head) {
            Err(e) => {
                assert(variable_units_from(img, i) == Err::<Seq<(Option<Seq<char>>, Seq<EntryFactsV>)>, Seq<char>>(e@));
                return Err(e);
            },
            Ok(u) => u,
        };
        let comp_dir = unit_comp_dir(&unit);
        match unit_line_rows(&unit) {
            None => {
                assert(variable_units_from(img, i) == variable_units_from(img, i + 1));
            },
            Some(table) => {
                let facts = match read_entries(info, &unit, &table) {
                    Err(e) => {
                        assert(variable_units_from(img, i) == Err::<Seq<(Option<Seq<char>>, Seq<EntryFactsV>)>, Seq<char>>(e@));
                        return Err(e);
                    },
                    Ok(f) => f,
                };
                let mut part = variable_ranges(&comp_dir, &facts);
                let ghost before = range_views(ranges@);
                let ghost added = range_views(part@);
                ranges.append(&mut part);
                proof {
                    let x = (opt_view(comp_dir), entry_views(facts@));
                    assert(opt_view(comp_dir) == dwarf_comp_dir(img, i));
                    assert(variable_units_from(img, i) == after(seq![x], variable_units_from(img, i + 1)));
                    lemma_after_push(vars, x, variable_units_from(img, i + 1));
                    assert(range_views(ranges@) =~= before + added);
                    assert(vars.push(x).drop_last() == vars);
                    assert(all_variable_ranges(vars.push(x)) == all_variable_ranges(vars) + added);
                    vars = vars.push(x);
                }
            },
        }
    }
}

/// Like [`parse_elf`], but keeps raw paths and translation-unit provenance.
///
/// Every unit's line table is run, each row with the file it names; every
/// unit with a line table then has its entries walked for variables. The
/// ranges these give attribute the flash symbols (see
/// [`attribute_symbols`]).
pub fn parse_elf_detailed(data: &[u8]) -> (r: Result<Vec<SymbolDetail>, String>)
    ensures
        detailed_outcome(data@, detailed_result(r)),
{
    let flash = extract_flash_symbols(data)?;
    if flash.len() == 0 {
        let none: Vec<SymbolDetail> = Vec::new();
        assert(detail_views(none@) =~= Seq::<DetailV>::empty());
        return Ok(none);
    }
    let ghost fs = flash_views(flash@);
    assert(flash_table(data@) == Ok::<Seq<FlashV>, Seq<char>>(fs));
    let info = match load_dwarf(data) {
        Ok(info) => info,
        Err(DwarfLoadError::Object(e)) => {
            let m = prefixed("Failed to parse ELF: ", &e);
            assert(dwarf_attribution(data@) == Err::<Seq<PathRangeV>, Seq<char>>(m@));
            return Err(m);
        },
        Err(DwarfLoadError::Dwarf(e)) => {
            let m = prefixed("Failed to load DWARF: ", &e);
            assert(dwarf_attribution(data@) == Err::<Seq<PathRangeV>, Seq<char>>(m@));
            return Err(m);
        },
    };
    let mut first = dwarf_units(&info);
    match next_unit_head(&mut first) {
        Err(e) => {
            let m = prefixed("DWARF error: ", &e);
            assert(dwarf_attribution(data@) == Err::<Seq<PathRangeV>, Seq<char>>(m@));
            return Err(m);
        },
        Ok(None) => {
            let m = "Found your ELF but not your DWARF. Rebuild with `-g`.".to_owned();
            assert(dwarf_attribution(data@) == Err::<Seq<PathRangeV>, Seq<char>>(m@));
            return Err(m);
        },
        Ok(Some(_)) => {},
    }
    assert(dwarf_unit_at(data@, 0) == Ok::<bool, Seq<char>>(true));
    let mut ranges = match line_pass(&info) {
        Err(e) => {
            let m = prefixed("DWARF error: ", &e);
            assert(dwarf_attribution(data@) == Err::<Seq<PathRangeV>, Seq<char>>(m@));
            return Err(m);
        },
        Ok(v) => v,
    };
    let mut vars = match variable_pass(&info) {
        Err(e) => {
            let m = prefixed("DWARF error: ", &e);
            assert(dwarf_attribution(data@) == Err::<Seq<PathRangeV>, Seq<char>>(m@));
            return Err(m);
        },
        Ok(v) => v,
    };
    let ghost line_part = range_views(ranges@);
    let ghost var_part = range_views(vars@);
    ranges.append(&mut vars);
    let out = attribute_symbols(&flash, ranges);
    proof {
        let lines = line_units_from(data@, 0)->Ok_0;
        let vs = variable_units_from(data@, 0)->Ok_0;
        assert(range_views(ranges@) =~= line_part + var_part);
        assert(dwarf_attribution(data@) == Ok::<Seq<PathRangeV>, Seq<char>>(dwarf_ranges(lines, vs)));
        let s = choose|s: Seq<PathRangeV>| stable_sort_of(range_views(ranges@), s) && attributed(fs, s, detail_views(out@));
        assert(stable_sort_of(dwarf_ranges(lines, vs), s));
        assert(attributed(fs, s, detail_views(out@)));
        assert(fs.len() > 0);
        assert(flash_table(data@) == Ok::<Seq<FlashV>, Seq<char>>(fs));
        let rg = dwarf_attribution(data@)->Ok_0;
        assert(rg == dwarf_ranges(lines, vs));
        assert(stable_sort_of(rg, s));
        assert(detailed_outcome(data@, Ok::<Seq<DetailV>, Seq<char>>(detail_views(out@))));
    }
    Ok(out)
}

/// A detailed symbol as the single-file view shows it: its name, size and
/// display path.
pub open spec fn resolved_of(d: DetailV) -> SymV {
    SymV { name: d.name, size: d.size, source: d.display }
}

/// [`resolved_of`] applied to an outcome of [`parse_elf_detailed`].
pub open spec fn resolved_outcome(d: Result<Seq<DetailV>, Seq<char>>) -> Result<Seq<SymV>, Seq<char>> {
    match d {
        Ok(v) => Ok(Seq::new(v.len(), |i: int| resolved_of(v[i]))),
        Err(e) => Err(e),
    }
}

/// `Ok` views of a list of resolved symbols, or the error text.
pub open spec fn resolved_result(r: Result<Vec<ResolvedSymbol>, String>) -> Result<Seq<SymV>, Seq<char>> {
    match r {
        Ok(v) => Ok(Seq::new(v@.len(), |i: int| v@[i]@)),
        Err(e) => Err(e@),
    }
}

/// Parse ELF + DWARF and return symbols with source paths.
pub fn parse_elf(data: &[u8]) -> (r: Result<Vec<ResolvedSymbol>, String>)
    ensures
        exists|d: Result<Seq<DetailV>, Seq<char>>|
            #[trigger] detailed_outcome(data@, d) && resolved_result(r) == resolved_outcome(d),
{
    let details = parse_elf_detailed(data);
    let ghost d = detailed_result(details);
    match details {
        Err(e) => Err(e),
        Ok(v) => {
            let out = resolved_symbols(&v);
            proof {
                assert(resolved_result(Ok::<Vec<ResolvedSymbol>, String>(out)) == resolved_outcome(d)) by {
                    assert(Seq::new(out@.len(), |j: int| out@[j]@) =~= Seq::new(
                        detail_views(v@).len(),
                        |j: int| resolved_of(detail_views(v@)[j]),
                    ));
                }
            }
            Ok(out)
        },
    }
}

/// The symbols as the single-file view shows them: each detailed symbol's
/// name, size and display path.
pub fn resolved_symbols(details: &[SymbolDetail]) -> (out: Vec<ResolvedSymbol>)
    ensures
        out@.len() == details@.len(),
        forall|j: int| 0 <= j < details@.len() ==> #[trigger] out@[j]@ == resolved_of(details@[j]@),
{
    let mut out: Vec<ResolvedSymbol> = Vec::new();
    let mut i: usize = 0;
    while i < details.len()
        invariant
            i <= details.len(),
            out@.len() == i,
            forall|j: int| 0 <= j < i ==> #[trigger] out@[j]@ == resolved_of(details@[j]@),
        decreases details.len() - i,
    {
        out.push(
            ResolvedSymbol {
                name: copy_string(&details[i].name),
                size: details[i].size,
                source_path: crate::text::copy_opt_string(&details[i].display_path),
            },
        );
        i += 1;
    }
    out
}

// ---------------------------------------------------------------------------
// Laws of path trimming and resolution

/// The largest `r <= top` that is a common directory prefix of `paths`.
pub open spec fn widest_prefix_upto(paths: Seq<Seq<char>>, top: int) -> int
    decreases top,
{
    if top <= 0 {
        0
    } else if is_common_dir_prefix(paths, top) {
        top
    } else {
        widest_prefix_upto(paths, top - 1)
    }
}

proof fn lemma_widest_prefix_upto(paths: Seq<Seq<char>>, top: int)
    requires
        paths.len() > 0,
        0 <= top <= paths[0].len(),
    ensures
        is_common_dir_prefix(paths, widest_prefix_upto(paths, top)),
        forall|r2: int| r2 <= top && #[trigger] is_common_dir_prefix(paths, r2) ==> r2 <= widest_prefix_upto(paths, top),
    decreases top,
{
    if top > 0 && !is_common_dir_prefix(paths, top) {
        lemma_widest_prefix_upto(paths, top - 1);
    }
    if top <= 0 {
        assert forall|i: int| 0 <= i < paths.len() implies 0 <= #[trigger] paths[i].len() && paths[i].take(0)
            == paths[0].take(0) by {
            assert(paths[i].take(0) =~= paths[0].take(0));
        }
    }
}

/// For at least one path, `common_dir_len` is a common directory prefix
/// and no common directory prefix is longer.
pub proof fn lemma_common_dir_len(paths: Seq<Seq<char>>)
    requires
        paths.len() > 0,
    ensures
        is_common_dir_prefix(paths, common_dir_len(paths)),
        forall|r2: int| #[trigger] is_common_dir_prefix(paths, r2) ==> r2 <= common_dir_len(paths),
{
    let w = widest_prefix_upto(paths, paths[0].len() as int);
    lemma_widest_prefix_upto(paths, paths[0].len() as int);
    assert(is_common_dir_prefix(paths, w) && forall|r2: int| is_common_dir_prefix(paths, r2) ==> r2 <= w);
}

/// The paths with their first `r` characters removed.
pub open spec fn skip_all(paths: Seq<Seq<char>>, r: int) -> Seq<Seq<char>> {
    Seq::new(paths.len(), |i: int| paths[i].skip(r))
}

/// Once the longest common directory prefix is removed from every path, the
/// paths share no directory prefix any more: stripping again changes
/// nothing.
pub proof fn lemma_stripped_paths_share_no_prefix(paths: Seq<Seq<char>>)
    requires
        paths.len() > 0,
    ensures
        common_dir_len(skip_all(paths, common_dir_len(paths))) == 0,
{
    let r = common_dir_len(paths);
    let q = skip_all(paths, r);
    lemma_common_dir_len(paths);
    lemma_common_dir_len(q);
    let r2 = common_dir_len(q);
    if r2 > 0 {
        assert(is_common_dir_prefix(paths, r + r2)) by {
            assert(paths[0][r + r2 - 1] == q[0][r2 - 1]);
            assert forall|i: int| 0 <= i < paths.len() implies r + r2 <= #[trigger] paths[i].len() && paths[i].take(
                r + r2,
            ) == paths[0].take(r + r2) by {
                assert(r2 <= q[i].len());
                assert(paths[i].take(r) == paths[0].take(r));
                assert(q[i].take(r2) == q[0].take(r2));
                assert forall|k: int| 0 <= k < r + r2 implies #[trigger] paths[i].take(r + r2)[k] == paths[0].take(r + r2)[k] by {
                    if k < r {
                        assert(paths[i].take(r)[k] == paths[0].take(r)[k]);
                    } else {
                        assert(q[i].take(r2)[k - r] == q[0].take(r2)[k - r]);
                    }
                }
                assert(paths[i].take(r + r2) =~= paths[0].take(r + r2));
            }
        }
    }
}

proof fn lemma_trim_trailing_slashes(s: Seq<char>)
    ensures
        trim_trailing_slashes(s).len() <= s.len(),
        trim_trailing_slashes(s) == s.take(trim_trailing_slashes(s).len() as int),
    decreases s.len(),
{
    if s.len() > 0 && s.last() == '/' {
        lemma_trim_trailing_slashes(s.drop_last());
        let t = trim_trailing_slashes(s.drop_last());
        assert(s.drop_last().take(t.len() as int) == s.take(t.len() as int));
    } else {
        assert(s.take(s.len() as int) == s);
    }
}

/// Resolving leaves an absolute path as it is, and makes a relative one
/// absolute against an absolute compilation directory.
pub proof fn lemma_resolved_is_absolute(path: Seq<char>, comp_dir: Option<Seq<char>>)
    requires
        (path.len() > 0 && path[0] == '/') || (comp_dir is Some && comp_dir.unwrap().len() > 0
            && comp_dir.unwrap()[0] == '/'),
    ensures
        resolved_path(path, comp_dir).len() > 0,
        resolved_path(path, comp_dir)[0] == '/',
        path.len() > 0 && path[0] == '/' ==> resolved_path(path, comp_dir) == path,
{
    if let Some(d) = comp_dir {
        if !(path.len() > 0 && path[0] == '/') {
            lemma_trim_trailing_slashes(d);
            let t = trim_trailing_slashes(d);
            if t.len() > 0 {
                assert(t[0] == d.take(t.len() as int)[0]);
            }
            assert((t + seq!['/'] + path)[t.len() as int] == '/');
        }
    }
}

} // verus!
