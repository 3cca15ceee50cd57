//! The parts of an ELF image's section and symbol tables that the flash
//! symbol extraction reads, as `object` reports them.
use vstd::prelude::*;

use object::{Object, ObjectSection, ObjectSymbol};

verus! {

/// What kind of contents a section holds, as far as flash attribution cares.
#[derive(Debug, Clone, Copy, PartialEq, Eq, Structural)]
pub enum SectionClass {
    /// Executable code.
    Text,
    /// Read-only data.
    ReadOnlyData,
    /// Read-only strings.
    ReadOnlyString,
    /// Any other kind of section.
    Other,
}

/// One section header: its index and the class of its contents.
#[derive(Debug, Clone, Copy)]
pub struct ElfSection {
    pub index: usize,
    pub class: SectionClass,
}

/// One entry of the symbol table.
#[derive(Debug, Clone)]
pub struct ElfSymbol {
    /// The entry is an `STT_FILE` record.
    pub is_file: bool,
    /// The symbol's name, or `None` when it cannot be read.
    pub name: Option<String>,
    /// Index of the section that defines the symbol, if it is defined in one.
    pub section: Option<usize>,
    pub address: u64,
    pub size: u64,
    /// The symbol has local binding.
    pub is_local: bool,
}

/// What a symbol table entry stands for.
pub struct ElfSymbolV {
    pub is_file: bool,
    pub name: Option<Seq<char>>,
    pub section: Option<usize>,
    pub address: u64,
    pub size: u64,
    pub is_local: bool,
}

impl View for ElfSymbol {
    type V = ElfSymbolV;

    open spec fn view(&self) -> ElfSymbolV {
        ElfSymbolV {
            is_file: self.is_file,
            name: match self.name {
                Some(n) => Some(n@),
                None => None,
            },
            section: self.section,
            address: self.address,
            size: self.size,
            is_local: self.is_local,
        }
    }
}

/// Views of a list of symbol table entries.
pub open spec fn elf_symbol_views(s: Seq<ElfSymbol>) -> Seq<ElfSymbolV> {
    Seq::new(s.len(), |i: int| s[i]@)
}

/// The section headers `object` reads from the ELF image `data`, in order,
/// or the text of the error it reports when `data` is not an object file it
/// can parse.
pub uninterp spec fn elf_section_table(data: Seq<u8>) -> Result<Seq<ElfSection>, Seq<char>>;

/// The symbol table entries `object` reads from the ELF image `data`, in
/// order, or the text of the error it reports when `data` is not an object
/// file it can parse.
pub uninterp spec fn elf_symbol_table(data: Seq<u8>) -> Result<Seq<ElfSymbolV>, Seq<char>>;

/// `Ok` views of a section list, or the error text.
pub open spec fn sections_result(r: Result<Vec<ElfSection>, String>) -> Result<Seq<ElfSection>, Seq<char>> {
    match r {
        Ok(v) => Ok(v@),
        Err(e) => Err(e@),
    }
}

/// `Ok` views of a symbol list, or the error text.
pub open spec fn symbols_result(r: Result<Vec<ElfSymbol>, String>) -> Result<Seq<ElfSymbolV>, Seq<char>> {
    match r {
        Ok(v) => Ok(elf_symbol_views(v@)),
        Err(e) => Err(e@),
    }
}

/// `object::File::parse` on `data`, then its `sections()`, each section
/// converted to its index and the class of its `kind()`. Claims only that the
/// result is the one named `elf_section_table` for these bytes.
#[verifier::external_body]
pub(crate) fn elf_sections(data: &[u8]) -> (r: Result<Vec<ElfSection>, String>)
    ensures
        sections_result(r) == elf_section_table(data@),
{
    let obj = object::File::parse(data).map_err(|e| e.to_string())?;
    Ok(obj.sections().map(|s| ElfSection {
        index: s.index().0,
        class: match s.kind() {
            object::SectionKind::Text => SectionClass::Text,
            object::SectionKind::ReadOnlyData => SectionClass::ReadOnlyData,
            object::SectionKind::ReadOnlyString => SectionClass::ReadOnlyString,
            _ => SectionClass::Other,
        },
    }).collect())
}

/// `object::File::parse` on `data`, then its `symbols()`, each symbol
/// converted field by field (`kind()` tested for `SymbolKind::File`, `name()`
/// with its error dropped, the index of a `SymbolSection::Section`). Claims
/// only that the result is the one named `elf_symbol_table` for these bytes.
#[verifier::external_body]
pub(crate) fn elf_symbols(data: &[u8]) -> (r: Result<Vec<ElfSymbol>, String>)
    ensures
        symbols_result(r) == elf_symbol_table(data@),
{
    let obj = object::File::parse(data).map_err(|e| e.to_string())?;
    Ok(obj.symbols().map(|s| ElfSymbol {
        is_file: matches!(s.kind(), object::SymbolKind::File),
        name: s.name().ok().map(|n| n.to_string()),
        section: match s.section() {
            object::SymbolSection::Section(i) => Some(i.0),
            _ => None,
        },
        address: s.address(),
        size: s.size(),
        is_local: s.is_local(),
    }).collect())
}

} // verus!
