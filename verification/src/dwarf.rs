//! Reading the DWARF debugging information of an ELF image with `gimli`: the
//! handful of queries the source attribution makes, each answering with plain
//! values. The decisions about what those values mean are made in
//! [`crate::parse`].
//!
//! The `gimli` values the queries work on (the loaded sections, a unit, a
//! running line program, a cursor over a unit's entries) are held in handles
//! whose `gimli` part Verus does not see. Each handle carries, as ghost state,
//! the image it was read from and where it stands: which unit, and how many
//! steps its cursor has taken. What a query answers depends on nothing else,
//! so each answer is named as a function of the image's bytes and those
//! positions (`dwarf_unit_at`, `dwarf_line_row`, ...). Only the queries here
//! make or move handles, so the ghost positions always describe the `gimli`
//! state.
use vstd::prelude::*;

use object::{Object, ObjectSection};

verus! {

type Slice<'a> = gimli::EndianSlice<'a, gimli::RunTimeEndian>;

#[verifier::external_body]
struct GimliDwarf<'a> {
    dwarf: gimli::Dwarf<Slice<'a>>,
}

#[verifier::external_body]
struct GimliUnitIter<'a> {
    iter: gimli::DebugInfoUnitHeadersIter<Slice<'a>>,
}

#[verifier::external_body]
struct GimliUnitHeader<'a> {
    header: gimli::UnitHeader<Slice<'a>>,
}

#[verifier::external_body]
struct GimliUnit<'a> {
    unit: gimli::Unit<Slice<'a>>,
}

#[verifier::external_body]
struct GimliRows<'a> {
    rows: gimli::LineRows<Slice<'a>, gimli::IncompleteLineProgram<Slice<'a>, usize>, usize>,
}

#[verifier::external_body]
struct GimliInstructions<'a> {
    program: gimli::IncompleteLineProgram<Slice<'a>, usize>,
    instructions: gimli::LineInstructions<Slice<'a>>,
}

#[verifier::external_body]
struct GimliEntries<'u, 'a> {
    cursor: gimli::EntriesCursor<'u, 'u, Slice<'a>>,
}

/// The DWARF sections of an ELF image, as `gimli::Dwarf` over the image's bytes.
pub struct DebugInfo<'a> {
    inner: GimliDwarf<'a>,
    image: Ghost<Seq<u8>>,
}

/// A position in the list of unit headers of `.debug_info`.
pub struct UnitCursor<'a> {
    inner: GimliUnitIter<'a>,
    image: Ghost<Seq<u8>>,
    pos: Ghost<nat>,
}

/// The header of one unit of `.debug_info`.
pub struct UnitHead<'a> {
    inner: GimliUnitHeader<'a>,
    image: Ghost<Seq<u8>>,
    index: Ghost<nat>,
}

/// One parsed unit of `.debug_info`.
pub struct CompUnit<'a> {
    inner: GimliUnit<'a>,
    image: Ghost<Seq<u8>>,
    index: Ghost<nat>,
}

/// A unit's line-number program, run row by row.
pub struct LineProgramRows<'a> {
    inner: GimliRows<'a>,
    image: Ghost<Seq<u8>>,
    unit: Ghost<nat>,
    pos: Ghost<nat>,
}

/// A position in the instructions of a unit's line-number program, read
/// without running them.
pub struct LineInstructionCursor<'a> {
    inner: GimliInstructions<'a>,
    image: Ghost<Seq<u8>>,
    unit: Ghost<nat>,
    pos: Ghost<nat>,
}

/// A depth-first position in a unit's tree of debugging-information entries.
pub struct EntryCursor<'u, 'a> {
    inner: GimliEntries<'u, 'a>,
    image: Ghost<Seq<u8>>,
    unit: Ghost<nat>,
    pos: Ghost<nat>,
}

impl<'a> DebugInfo<'a> {
    /// The bytes of the image.
    pub closed spec fn image(&self) -> Seq<u8> {
        self.image@
    }
}

impl<'a> UnitCursor<'a> {
    /// The bytes of the image.
    pub closed spec fn image(&self) -> Seq<u8> {
        self.image@
    }

    /// How many headers the cursor has been asked for.
    pub closed spec fn pos(&self) -> nat {
        self.pos@
    }
}

impl<'a> UnitHead<'a> {
    /// The bytes of the image.
    pub closed spec fn image(&self) -> Seq<u8> {
        self.image@
    }

    /// The unit's place in `.debug_info`, counting from 0.
    pub closed spec fn index(&self) -> nat {
        self.index@
    }
}

impl<'a> CompUnit<'a> {
    /// The bytes of the image.
    pub closed spec fn image(&self) -> Seq<u8> {
        self.image@
    }

    /// The unit's place in `.debug_info`, counting from 0.
    pub closed spec fn index(&self) -> nat {
        self.index@
    }
}

impl<'a> LineProgramRows<'a> {
    /// The bytes of the image.
    pub closed spec fn image(&self) -> Seq<u8> {
        self.image@
    }

    /// The place of the program's unit.
    pub closed spec fn unit(&self) -> nat {
        self.unit@
    }

    /// How many rows have been asked for.
    pub closed spec fn pos(&self) -> nat {
        self.pos@
    }
}

impl<'a> LineInstructionCursor<'a> {
    /// The bytes of the image.
    pub closed spec fn image(&self) -> Seq<u8> {
        self.image@
    }

    /// The place of the program's unit.
    pub closed spec fn unit(&self) -> nat {
        self.unit@
    }

    /// How many instructions have been asked for.
    pub closed spec fn pos(&self) -> nat {
        self.pos@
    }
}

impl<'u, 'a> EntryCursor<'u, 'a> {
    /// The bytes of the image.
    pub closed spec fn image(&self) -> Seq<u8> {
        self.image@
    }

    /// The place of the entries' unit.
    pub closed spec fn unit(&self) -> nat {
        self.unit@
    }

    /// How many moves the cursor has made.
    pub closed spec fn pos(&self) -> nat {
        self.pos@
    }
}

/// Why the DWARF sections could not be loaded.
#[derive(Debug)]
pub enum DwarfLoadError {
    /// The bytes are not an object file; the text of `object`'s error.
    Object(String),
    /// `gimli` refused the sections; the text of its error.
    Dwarf(String),
}

/// What a load failure stands for.
pub enum LoadFailureV {
    Object(Seq<char>),
    Dwarf(Seq<char>),
}

/// One row of a line-number program's matrix.
#[derive(Debug, Clone, Copy)]
pub struct LineRowRec {
    pub address: u64,
    pub end_sequence: bool,
    pub file_index: u64,
}

/// A file of a line-number program's file table: its directory, when it has
/// one, and its path name, both as strings.
#[derive(Debug, Clone)]
pub struct SourceName {
    pub dir: Option<String>,
    pub name: String,
}

/// What a source file name stands for.
pub struct SourceNameV {
    pub dir: Option<Seq<char>>,
    pub name: Seq<char>,
}

impl View for SourceName {
    type V = SourceNameV;

    open spec fn view(&self) -> SourceNameV {
        SourceNameV {
            dir: match self.dir {
                Some(d) => Some(d@),
                None => None,
            },
            name: self.name@,
        }
    }
}

// ---------------------------------------------------------------------------
// What the queries answer, as functions of the image

/// Why loading the DWARF sections of the image fails, if it does.
pub uninterp spec fn dwarf_load_failure(image: Seq<u8>) -> Option<LoadFailureV>;

/// Asking the unit-header iterator for the header after `pos` earlier ones:
/// whether there is one, or the text of the error.
pub uninterp spec fn dwarf_unit_at(image: Seq<u8>, pos: nat) -> Result<bool, Seq<char>>;

/// The text of the error parsing unit `unit`, if there is one.
pub uninterp spec fn dwarf_unit_failure(image: Seq<u8>, unit: nat) -> Option<Seq<char>>;

/// The compilation directory of unit `unit`.
pub uninterp spec fn dwarf_comp_dir(image: Seq<u8>, unit: nat) -> Option<Seq<char>>;

/// Whether unit `unit` has a line-number program.
pub uninterp spec fn dwarf_has_lines(image: Seq<u8>, unit: nat) -> bool;

/// Asking unit `unit`'s line program for the row after `pos` earlier ones:
/// its address, end-of-sequence flag and file index, `None` after the last,
/// or the text of the error.
pub uninterp spec fn dwarf_line_row(image: Seq<u8>, unit: nat, pos: nat) -> Result<
    Option<(u64, bool, u64)>,
    Seq<char>,
>;

/// Reading unit `unit`'s line program instruction after `pos` earlier ones
/// without running it: for a `DW_LNS_advance_line`, its increment; `None`
/// inside for any other instruction; `None` after the last; or the text of
/// the error.
pub uninterp spec fn dwarf_line_instruction(image: Seq<u8>, unit: nat, pos: nat) -> Result<
    Option<Option<i64>>,
    Seq<char>,
>;

/// Whether an instruction of unit `unit`'s line program, from the one after
/// `pos` earlier ones on and before any that cannot be read, advances the
/// line by `i64::MIN`.
pub open spec fn has_min_line_advance(image: Seq<u8>, unit: nat, pos: nat) -> bool
    decreases image.len() - pos,
{
    match dwarf_line_instruction(image, unit, pos) {
        Ok(Some(a)) => if a == Some(i64::MIN) {
            true
        } else if pos < image.len() {
            has_min_line_advance(image, unit, pos + 1)
        } else {
            false
        },
        _ => false,
    }
}

/// The file with this index in the file table of unit `unit`'s line program
/// once `pos` rows have been read, or the text of the error reading its
/// strings.
pub uninterp spec fn dwarf_line_file(image: Seq<u8>, unit: nat, pos: nat, index: u64) -> Result<
    Option<SourceNameV>,
    Seq<char>,
>;

/// Moving unit `unit`'s entry cursor once more after `pos` moves: the tag of
/// the entry reached, `None` past the last, or the text of the error.
pub uninterp spec fn dwarf_entry_tag(image: Seq<u8>, unit: nat, pos: nat) -> Result<Option<u16>, Seq<char>>;

/// The address that the location of the entry reached after `pos` moves
/// names, when it is an expression starting with an address.
pub uninterp spec fn dwarf_entry_location(image: Seq<u8>, unit: nat, pos: nat) -> Result<Option<u64>, Seq<char>>;

/// The declaration file index of the entry reached after `pos` moves.
pub uninterp spec fn dwarf_entry_decl_file(image: Seq<u8>, unit: nat, pos: nat) -> Result<Option<u64>, Seq<char>>;

/// A `String` error's view.
pub open spec fn err_view<T>(r: Result<T, String>) -> Result<T, Seq<char>> {
    match r {
        Ok(v) => Ok(v),
        Err(e) => Err(e@),
    }
}

/// The view of a header query's answer.
pub open spec fn head_answer<'a>(r: Result<Option<UnitHead<'a>>, String>) -> Result<bool, Seq<char>> {
    match r {
        Ok(h) => Ok(h is Some),
        Err(e) => Err(e@),
    }
}

/// The view of a row query's answer.
pub open spec fn row_answer(r: Result<Option<LineRowRec>, String>) -> Result<Option<(u64, bool, u64)>, Seq<char>> {
    match r {
        Ok(Some(x)) => Ok(Some((x.address, x.end_sequence, x.file_index))),
        Ok(None) => Ok(None),
        Err(e) => Err(e@),
    }
}

/// The view of a file query's answer.
pub open spec fn file_answer(r: Result<Option<SourceName>, String>) -> Result<Option<SourceNameV>, Seq<char>> {
    match r {
        Ok(Some(f)) => Ok(Some(f@)),
        Ok(None) => Ok(None),
        Err(e) => Err(e@),
    }
}

// ---------------------------------------------------------------------------
// The queries

/// `object::File::parse` on `data`, then `gimli::Dwarf::load` with each
/// section's bytes found by `section_by_name` (empty when the section is
/// missing or unreadable), read in the image's byte order. The answer is a
/// function of the bytes (`dwarf_load_failure`).
#[verifier::external_body]
pub(crate) fn load_dwarf<'a>(data: &'a [u8]) -> (r: Result<DebugInfo<'a>, DwarfLoadError>)
    ensures
        match r {
            Ok(info) => dwarf_load_failure(data@) is None && info.image() == data@,
            Err(DwarfLoadError::Object(e)) => dwarf_load_failure(data@) == Some(LoadFailureV::Object(e@)),
            Err(DwarfLoadError::Dwarf(e)) => dwarf_load_failure(data@) == Some(LoadFailureV::Dwarf(e@)),
        },
{
    let obj = object::File::parse(data).map_err(|e| DwarfLoadError::Object(e.to_string()))?;
    let endian = if obj.is_little_endian() { gimli::RunTimeEndian::Little } else { gimli::RunTimeEndian::Big };
    let dwarf = gimli::Dwarf::load(|id: gimli::SectionId| -> Result<_, gimli::Error> {
        let bytes = obj.section_by_name(id.name()).and_then(|s| s.data().ok()).unwrap_or(&[]);
        Ok(gimli::EndianSlice::new(bytes, endian))
    }).map_err(|e| DwarfLoadError::Dwarf(e.to_string()))?;
    Ok(DebugInfo { inner: GimliDwarf { dwarf }, image: Ghost(data@) })
}

/// `gimli::Dwarf::units`: a cursor before the first unit header.
#[verifier::external_body]
pub(crate) fn dwarf_units<'a>(info: &DebugInfo<'a>) -> (r: UnitCursor<'a>)
    ensures
        r.image() == info.image(),
        r.pos() == 0,
{
    UnitCursor { inner: GimliUnitIter { iter: info.inner.dwarf.units() }, image: Ghost(info.image@), pos: Ghost(0) }
}

/// `DebugInfoUnitHeadersIter::next`: the next unit header, `None` after the
/// last, or the text of `gimli`'s error (`dwarf_unit_at`). Each header it
/// gives starts at a later byte of `.debug_info`, which lies in the image,
/// so fewer headers come than the image has bytes.
#[verifier::external_body]
pub(crate) fn next_unit_head<'a>(cursor: &mut UnitCursor<'a>) -> (r: Result<Option<UnitHead<'a>>, String>)
    ensures
        final(cursor).image() == old(cursor).image(),
        final(cursor).pos() == old(cursor).pos() + 1,
        head_answer(r) == dwarf_unit_at(old(cursor).image(), old(cursor).pos()),
        match r {
            Ok(Some(h)) => h.image() == old(cursor).image() && h.index() == old(cursor).pos()
                && old(cursor).pos() < old(cursor).image().len(),
            _ => true,
        },
{
    let (image, pos) = (Ghost(cursor.image@), Ghost(cursor.pos@));
    cursor.pos = Ghost(pos@ + 1);
    match cursor.inner.iter.next() {
        Ok(h) => Ok(h.map(|header| UnitHead { inner: GimliUnitHeader { header }, image, index: pos })),
        Err(e) => Err(e.to_string()),
    }
}

/// `gimli::Dwarf::unit`: the unit with this header parsed, or the text of
/// `gimli`'s error (`dwarf_unit_failure`).
#[verifier::external_body]
pub(crate) fn load_unit<'a>(info: &DebugInfo<'a>, head: UnitHead<'a>) -> (r: Result<CompUnit<'a>, String>)
    requires
        head.image() == info.image(),
    ensures
        match r {
            Ok(u) => dwarf_unit_failure(info.image(), head.index()) is None && u.image() == info.image()
                && u.index() == head.index(),
            Err(e) => dwarf_unit_failure(info.image(), head.index()) == Some(e@),
        },
{
    match info.inner.dwarf.unit(head.inner.header) {
        Ok(unit) => Ok(CompUnit { inner: GimliUnit { unit }, image: head.image, index: head.index }),
        Err(e) => Err(e.to_string()),
    }
}

/// The unit's `comp_dir`, converted with `to_string_lossy` (`dwarf_comp_dir`).
#[verifier::external_body]
pub(crate) fn unit_comp_dir<'a>(unit: &CompUnit<'a>) -> (r: Option<String>)
    ensures
        r.deep_view() == dwarf_comp_dir(unit.image(), unit.index()),
{
    unit.inner.unit.comp_dir.as_ref().map(|d| d.to_string_lossy().into_owned())
}

/// A copy of the unit's `line_program`, started with
/// `IncompleteLineProgram::rows`; `None` when the unit has no line program
/// (`dwarf_has_lines`).
#[verifier::external_body]
pub(crate) fn unit_line_rows<'a>(unit: &CompUnit<'a>) -> (r: Option<LineProgramRows<'a>>)
    ensures
        r is Some == dwarf_has_lines(unit.image(), unit.index()),
        match r {
            Some(rows) => rows.image() == unit.image() && rows.unit() == unit.index() && rows.pos() == 0,
            None => true,
        },
{
    unit.inner.unit.line_program.clone().map(|p| LineProgramRows {
        inner: GimliRows { rows: p.rows() }, image: unit.image, unit: unit.index, pos: Ghost(0),
    })
}

/// `LineRows::next_row`: the next row of the matrix (its `address()`,
/// `end_sequence()` and `file_index()`), `None` after the last, or the text of
/// `gimli`'s error (`dwarf_line_row`). Running an `AdvanceLine` instruction
/// whose increment is `i64::MIN` negates it, which overflows; the callers
/// read the instructions first and do not run such a program (see
/// [`next_line_instruction`]), and the `requires` leaves such a program out.
/// Each row it gives needs at least one
/// further opcode byte of `.debug_line`, which lies in the image, so fewer
/// rows come than the image has bytes.
#[verifier::external_body]
pub(crate) fn next_line_row<'a>(rows: &mut LineProgramRows<'a>) -> (r: Result<Option<LineRowRec>, String>)
    requires
        !has_min_line_advance(old(rows).image(), old(rows).unit(), 0),
    ensures
        final(rows).image() == old(rows).image(),
        final(rows).unit() == old(rows).unit(),
        final(rows).pos() == old(rows).pos() + 1,
        row_answer(r) == dwarf_line_row(old(rows).image(), old(rows).unit(), old(rows).pos()),
        r matches Ok(Some(_)) ==> old(rows).pos() < old(rows).image().len(),
{
    rows.pos = Ghost(rows.pos@ + 1);
    match rows.inner.rows.next_row() {
        Ok(r) => Ok(r.map(|(_, row)| LineRowRec {
            address: row.address(), end_sequence: row.end_sequence(), file_index: row.file_index(),
        })),
        Err(e) => Err(e.to_string()),
    }
}

/// A copy of the unit's `line_program` and `LineProgramHeader::instructions`
/// of its header: a cursor before the program's first instruction; `None`
/// when the unit has no line program (`dwarf_has_lines`).
#[verifier::external_body]
pub(crate) fn unit_line_instructions<'a>(unit: &CompUnit<'a>) -> (r: Option<LineInstructionCursor<'a>>)
    ensures
        r is Some == dwarf_has_lines(unit.image(), unit.index()),
        match r {
            Some(c) => c.image() == unit.image() && c.unit() == unit.index() && c.pos() == 0,
            None => true,
        },
{
    unit.inner.unit.line_program.clone().map(|program| {
        let instructions = program.header().instructions();
        LineInstructionCursor {
            inner: GimliInstructions { program, instructions }, image: unit.image, unit: unit.index, pos: Ghost(0),
        }
    })
}

/// `LineInstructions::next_instruction` with the program's header: for an
/// `AdvanceLine` instruction its increment, `None` inside for any other
/// instruction, `None` after the last, or the text of `gimli`'s error
/// (`dwarf_line_instruction`). Each instruction starts with an opcode byte
/// of `.debug_line`, which lies in the image, so fewer instructions come
/// than the image has bytes.
#[verifier::external_body]
pub(crate) fn next_line_instruction<'a>(cursor: &mut LineInstructionCursor<'a>) -> (r: Result<Option<Option<i64>>, String>)
    ensures
        final(cursor).image() == old(cursor).image(),
        final(cursor).unit() == old(cursor).unit(),
        final(cursor).pos() == old(cursor).pos() + 1,
        err_view(r) == dwarf_line_instruction(old(cursor).image(), old(cursor).unit(), old(cursor).pos()),
        r matches Ok(Some(_)) ==> old(cursor).pos() < old(cursor).image().len(),
{
    cursor.pos = Ghost(cursor.pos@ + 1);
    let inner = &mut cursor.inner;
    match inner.instructions.next_instruction(inner.program.header()) {
        Ok(i) => Ok(i.map(|i| match i {
            gimli::LineInstruction::AdvanceLine(increment) => Some(increment),
            _ => None,
        })),
        Err(e) => Err(e.to_string()),
    }
}

/// `LineProgramHeader::file` with this index, in the program's header as
/// it stands; for a file it finds, `FileEntry::directory` and
/// `FileEntry::path_name` read with `Dwarf::attr_string` and converted with
/// `to_string_lossy`. `None` when the header has no such file; the text of
/// `gimli`'s error when a string cannot be read (`dwarf_line_file`).
#[verifier::external_body]
pub(crate) fn line_file<'a>(info: &DebugInfo<'a>, unit: &CompUnit<'a>, rows: &LineProgramRows<'a>, index: u64) -> (r:
    Result<Option<SourceName>, String>)
    requires
        unit.image() == info.image(),
        rows.image() == info.image(),
        rows.unit() == unit.index(),
    ensures
        file_answer(r) == dwarf_line_file(info.image(), unit.index(), rows.pos(), index),
{
    let header = rows.inner.rows.header();
    let Some(file) = header.file(index) else { return Ok(None) };
    let text = |a| info.inner.dwarf.attr_string(&unit.inner.unit, a).map(|s| s.to_string_lossy().into_owned());
    let dir = match file.directory(header) {
        Some(d) => Some(text(d).map_err(|e| e.to_string())?),
        None => None,
    };
    let name = text(file.path_name()).map_err(|e| e.to_string())?;
    Ok(Some(SourceName { dir, name }))
}

/// `Unit::entries`: a cursor before the unit's first entry.
#[verifier::external_body]
pub(crate) fn unit_entries<'u, 'a>(unit: &'u CompUnit<'a>) -> (r: EntryCursor<'u, 'a>)
    ensures
        r.image() == unit.image(),
        r.unit() == unit.index(),
        r.pos() == 0,
{
    EntryCursor { inner: GimliEntries { cursor: unit.inner.unit.entries() }, image: unit.image, unit: unit.index, pos: Ghost(0) }
}

/// `EntriesCursor::next_dfs`: moves to the next entry in depth-first order
/// and gives its tag (`DwTag`'s number), `None` after the last entry, or the
/// text of `gimli`'s error (`dwarf_entry_tag`). Each entry it reaches starts
/// with an abbreviation code at a later byte of `.debug_info`, which lies in
/// the image, so fewer entries come than the image has bytes.
#[verifier::external_body]
pub(crate) fn next_entry_tag<'u, 'a>(cursor: &mut EntryCursor<'u, 'a>) -> (r: Result<Option<u16>, String>)
    ensures
        final(cursor).image() == old(cursor).image(),
        final(cursor).unit() == old(cursor).unit(),
        final(cursor).pos() == old(cursor).pos() + 1,
        err_view(r) == dwarf_entry_tag(old(cursor).image(), old(cursor).unit(), old(cursor).pos()),
        r matches Ok(Some(_)) ==> old(cursor).pos() < old(cursor).image().len(),
{
    cursor.pos = Ghost(cursor.pos@ + 1);
    match cursor.inner.cursor.next_dfs() {
        Ok(e) => Ok(e.map(|(_, entry)| entry.tag().0)),
        Err(e) => Err(e.to_string()),
    }
}

/// The current entry's `DW_AT_location` (`attr_value`): when it is an
/// `Exprloc` whose first operation (`Expression::operations` in the unit's
/// encoding) is `Operation::Address`, that address; otherwise `None`. The
/// text of `gimli`'s error when the attribute cannot be read
/// (`dwarf_entry_location`).
#[verifier::external_body]
pub(crate) fn entry_location_address<'u, 'a>(cursor: &EntryCursor<'u, 'a>, unit: &CompUnit<'a>) -> (r: Result<
    Option<u64>,
    String,
>)
    requires
        cursor.image() == unit.image(),
        cursor.unit() == unit.index(),
    ensures
        err_view(r) == dwarf_entry_location(cursor.image(), cursor.unit(), cursor.pos()),
{
    let Some(entry) = cursor.inner.cursor.current() else { return Ok(None) };
    match entry.attr_value(gimli::DW_AT_location).map_err(|e| e.to_string())? {
        Some(gimli::AttributeValue::Exprloc(expr)) => match expr.operations(unit.inner.unit.encoding()).next() {
            Ok(Some(gimli::Operation::Address { address })) => Ok(Some(address)),
            _ => Ok(None),
        },
        _ => Ok(None),
    }
}

/// The current entry's `DW_AT_decl_file` (`attr_value`): the file index when
/// it is a `FileIndex`, otherwise `None`. The text of `gimli`'s error when
/// the attribute cannot be read (`dwarf_entry_decl_file`).
#[verifier::external_body]
pub(crate) fn entry_decl_file<'u, 'a>(cursor: &EntryCursor<'u, 'a>) -> (r: Result<Option<u64>, String>)
    ensures
        err_view(r) == dwarf_entry_decl_file(cursor.image(), cursor.unit(), cursor.pos()),
{
    let Some(entry) = cursor.inner.cursor.current() else { return Ok(None) };
    match entry.attr_value(gimli::DW_AT_decl_file).map_err(|e| e.to_string())? {
        Some(gimli::AttributeValue::FileIndex(index)) => Ok(Some(index)),
        _ => Ok(None),
    }
}

} // verus!
