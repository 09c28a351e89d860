//! Compilation units for Mach-O images without debugging information: the
//! symbols of the code sections, sorted by address, in batches of a fixed size.
use vstd::prelude::*;

use super::cu::{
    code_ranges, ranges_of, DebugInfoSource, FunctionView, MachoCompilationUnit, MachoCuIndex,
    MachoFunction, UnitView,
};
use super::image::MachoError;
use crate::image::{
    image_header, image_sections, image_symbols, read_header, read_sections, read_symbols,
    section_views, symbol_views, ImageSection, ImageSectionView, ImageSymbol, ImageSymbolView,
};
use crate::ordered::{
    by_address, distinct, lemma_distinct, lemma_stable_sorted, lemma_stable_sorted_contains,
    sort_by_address, stable_sorted, total_preorder, without_repeats,
};
use crate::text::{has_ink, spec_has_ink, str_eq};

verus! {

/// Number of functions in a unit.
pub const BATCH_SIZE: usize = 100;

/// Index, from `i` on, of the first `__TEXT` section called `name`.
pub open spec fn text_section_from(sections: Seq<ImageSectionView>, name: Seq<char>, i: int) -> Option<
    int,
>
    decreases sections.len() - i,
{
    if i < 0 || i >= sections.len() {
        None
    } else if sections[i].segment == Some("__TEXT"@) && sections[i].name == Some(name) {
        Some(i)
    } else {
        text_section_from(sections, name, i + 1)
    }
}

/// True when the first `__TEXT` section called `name` holds `addr`.
pub open spec fn in_text_section(
    sections: Seq<ImageSectionView>,
    name: Seq<char>,
    addr: u64,
) -> bool {
    match text_section_from(sections, name, 0) {
        Some(i) => sections[i].addr <= addr < sections[i].addr + sections[i].size,
        None => false,
    }
}

/// True when the symbol names something in the code of the image.
pub open spec fn names_code(sections: Seq<ImageSectionView>, s: ImageSymbolView) -> bool {
    &&& !s.undefined
    &&& !s.unknown
    &&& in_text_section(sections, "__text"@, s.addr) || in_text_section(
        sections,
        "__coalesced_text"@,
        s.addr,
    )
    &&& s.name is Some
    &&& spec_has_ink(s.name->0)
}

/// Addresses and positions of the symbols of code among the first `n`.
pub open spec fn code_symbols(
    sections: Seq<ImageSectionView>,
    symbols: Seq<ImageSymbolView>,
    n: int,
) -> Seq<(u64, usize)>
    decreases n,
{
    if n <= 0 {
        Seq::empty()
    } else {
        let before = code_symbols(sections, symbols, n - 1);
        if names_code(sections, symbols[n - 1]) {
            before.push((symbols[n - 1].addr, (n - 1) as usize))
        } else {
            before
        }
    }
}

/// The symbols of code by address, the first of each address alone.
pub open spec fn chosen_symbols(
    sections: Seq<ImageSectionView>,
    symbols: Seq<ImageSymbolView>,
) -> Seq<(u64, usize)> {
    let sorted = stable_sorted(
        code_symbols(sections, symbols, symbols.len() as int),
        by_address(),
    );
    distinct(sorted, sorted.len() as int)
}

/// The functions of an image: each ends where the next begins, and the last has
/// no size.
pub open spec fn symtab_functions(
    sections: Seq<ImageSectionView>,
    symbols: Seq<ImageSymbolView>,
) -> Seq<FunctionView> {
    let chosen = chosen_symbols(sections, symbols);
    Seq::new(
        chosen.len(),
        |i: int|
            FunctionView {
                name: symbols[chosen[i].1 as int].name->0,
                linkage_name: Some(symbols[chosen[i].1 as int].name->0),
                addr: chosen[i].0,
                size: if i + 1 < chosen.len() {
                    (chosen[i + 1].0 - chosen[i].0) as u64
                } else {
                    0
                },
                external: true,
            },
    )
}

/// The end of the batch that begins with function `start`.
pub open spec fn batch_end(start: int, n: int) -> int {
    if start + BATCH_SIZE < n {
        start + BATCH_SIZE
    } else {
        n
    }
}

/// The unit of the batch `u`: it is named after its first function.
pub open spec fn batch_unit(functions: Seq<FunctionView>, u: int) -> UnitView {
    let start = u * BATCH_SIZE;
    let batch = functions.subrange(start, batch_end(start, functions.len() as int));
    UnitView {
        id: u as nat,
        name: functions[start].name,
        comp_dir: None,
        oso_path: None,
        ranges: code_ranges(batch, batch.len() as int),
        functions: batch,
        variables: Seq::empty(),
    }
}

/// Number of batches that `n` functions make.
pub open spec fn batch_count(n: int) -> int {
    (n + BATCH_SIZE - 1) / (BATCH_SIZE as int)
}

/// The units of an image: its functions, in batches.
pub open spec fn symtab_units(
    sections: Seq<ImageSectionView>,
    symbols: Seq<ImageSymbolView>,
) -> Seq<UnitView> {
    let functions = symtab_functions(sections, symbols);
    Seq::new(batch_count(functions.len() as int) as nat, |u: int| batch_unit(functions, u))
}

/// Positions in `code_symbols` are those of symbols of code, with their
/// addresses.
proof fn lemma_code_symbols(
    sections: Seq<ImageSectionView>,
    symbols: Seq<ImageSymbolView>,
    n: int,
)
    requires
        0 <= n <= symbols.len(),
        symbols.len() <= usize::MAX,
    ensures
        code_symbols(sections, symbols, n).len() <= n,
        forall|i: int|
            0 <= i < code_symbols(sections, symbols, n).len() ==> {
                let e = #[trigger] code_symbols(sections, symbols, n)[i];
                &&& e.1 < symbols.len()
                &&& e.0 == symbols[e.1 as int].addr
                &&& names_code(sections, symbols[e.1 as int])
            },
    decreases n,
{
    if n > 0 {
        lemma_code_symbols(sections, symbols, n - 1);
    }
}

/// The chosen symbols are symbols of code, strictly ascending by address.
proof fn lemma_chosen_symbols(sections: Seq<ImageSectionView>, symbols: Seq<ImageSymbolView>)
    requires
        symbols.len() <= usize::MAX,
    ensures
        chosen_symbols(sections, symbols).len() <= symbols.len(),
        forall|i: int|
            0 <= i < chosen_symbols(sections, symbols).len() ==> {
                let e = #[trigger] chosen_symbols(sections, symbols)[i];
                &&& e.1 < symbols.len()
                &&& e.0 == symbols[e.1 as int].addr
                &&& names_code(sections, symbols[e.1 as int])
            },
        forall|i: int, j: int|
            0 <= i < j < chosen_symbols(sections, symbols).len() ==> (#[trigger] chosen_symbols(
                sections,
                symbols,
            )[i]).0 < (#[trigger] chosen_symbols(sections, symbols)[j]).0,
{
    let found = code_symbols(sections, symbols, symbols.len() as int);
    let sorted = stable_sorted(found, by_address());
    lemma_code_symbols(sections, symbols, symbols.len() as int);
    assert(total_preorder(by_address()));
    lemma_stable_sorted(found, by_address());
    lemma_distinct(sorted, sorted.len() as int);
    assert forall|i: int| 0 <= i < chosen_symbols(sections, symbols).len() implies {
        let e = #[trigger] chosen_symbols(sections, symbols)[i];
        &&& e.1 < symbols.len()
        &&& e.0 == symbols[e.1 as int].addr
        &&& names_code(sections, symbols[e.1 as int])
    } by {
        let e = chosen_symbols(sections, symbols)[i];
        assert(sorted.contains(e));
        lemma_stable_sorted_contains(found, by_address(), e);
        let k = choose|k: int| 0 <= k < found.len() && found[k] == e;
        assert(found[k] == e);
    }
}

/// Each function ends where the next begins, so that no two share an address,
/// and each begins in the code of the image.
pub proof fn law_symtab_functions_partition(
    sections: Seq<ImageSectionView>,
    symbols: Seq<ImageSymbolView>,
)
    requires
        symbols.len() <= usize::MAX,
    ensures
        forall|i: int|
            0 <= i < symtab_functions(sections, symbols).len() - 1 ==> (#[trigger] symtab_functions(
                sections,
                symbols,
            )[i]).addr + symtab_functions(sections, symbols)[i].size == symtab_functions(
                sections,
                symbols,
            )[i + 1].addr && symtab_functions(sections, symbols)[i].size > 0,
        forall|i: int|
            0 <= i < symtab_functions(sections, symbols).len() ==> in_text_section(
                sections,
                "__text"@,
                (#[trigger] symtab_functions(sections, symbols)[i]).addr,
            ) || in_text_section(
                sections,
                "__coalesced_text"@,
                symtab_functions(sections, symbols)[i].addr,
            ),
{
    lemma_chosen_symbols(sections, symbols);
    let chosen = chosen_symbols(sections, symbols);
    assert forall|i: int|
        0 <= i < symtab_functions(sections, symbols).len() - 1 implies (#[trigger] symtab_functions(
        sections,
        symbols,
    )[i]).addr + symtab_functions(sections, symbols)[i].size == symtab_functions(
        sections,
        symbols,
    )[i + 1].addr && symtab_functions(sections, symbols)[i].size > 0 by {
        assert(chosen[i].0 < chosen[i + 1].0);
    }
    assert forall|i: int| 0 <= i < symtab_functions(sections, symbols).len() implies in_text_section(
        sections,
        "__text"@,
        (#[trigger] symtab_functions(sections, symbols)[i]).addr,
    ) || in_text_section(
        sections,
        "__coalesced_text"@,
        symtab_functions(sections, symbols)[i].addr,
    ) by {
        assert(names_code(sections, symbols[chosen[i].1 as int]));
    }
}

fn text_section(sections: &Vec<ImageSection>, name: &str) -> (r: Option<usize>)
    ensures
        match r {
            Some(i) => i < sections@.len() && text_section_from(
                section_views(sections@),
                name@,
                0,
            ) == Some(i as int),
            None => text_section_from(section_views(sections@), name@, 0) is None,
        },
{
    let ghost views = section_views(sections@);
    let mut i: usize = 0;
    while i < sections.len()
        invariant
            i <= sections@.len(),
            views == section_views(sections@),
            text_section_from(views, name@, 0) == text_section_from(views, name@, i as int),
        decreases sections@.len() - i,
    {
        assert(views[i as int] == sections@[i as int]@);
        let in_text = match &sections[i].segment {
            Some(s) => str_eq(s.as_str(), "__TEXT"),
            None => false,
        };
        let named = match &sections[i].name {
            Some(s) => str_eq(s.as_str(), name),
            None => false,
        };
        if in_text && named {
            return Some(i);
        }
        i = i + 1;
    }
    None
}

fn is_in(sections: &Vec<ImageSection>, at: Option<usize>, addr: u64) -> (b: bool)
    requires
        at is Some ==> at->0 < sections@.len(),
    ensures
        b == (at is Some && sections@[at->0 as int].addr <= addr < sections@[at->0 as int].addr
            + sections@[at->0 as int].size),
{
    match at {
        Some(i) => addr >= sections[i].addr && addr - sections[i].addr < sections[i].size,
        None => false,
    }
}

/// The symbols of code by address, the first of each address alone.
fn choose_symbols(sections: &Vec<ImageSection>, symbols: &Vec<ImageSymbol>) -> (r: Vec<
    (u64, usize),
>)
    ensures
        r@ == chosen_symbols(section_views(sections@), symbol_views(symbols@)),
{
    let ghost sv = section_views(sections@);
    let ghost yv = symbol_views(symbols@);
    let text = text_section(sections, "__text");
    let coalesced = text_section(sections, "__coalesced_text");
    let mut found: Vec<(u64, usize)> = Vec::new();
    let mut i: usize = 0;
    while i < symbols.len()
        invariant
            i <= symbols@.len(),
            sv == section_views(sections@),
            yv == symbol_views(symbols@),
            text is Some ==> text->0 < sections@.len(),
            coalesced is Some ==> coalesced->0 < sections@.len(),
            forall|addr: u64| #[trigger]
                in_text_section(sv, "__text"@, addr) == (text is Some && sections@[text->0 as int].addr
                    <= addr < sections@[text->0 as int].addr + sections@[text->0 as int].size),
            forall|addr: u64| #[trigger]
                in_text_section(sv, "__coalesced_text"@, addr) == (coalesced is Some
                    && sections@[coalesced->0 as int].addr <= addr
                    < sections@[coalesced->0 as int].addr + sections@[coalesced->0 as int].size),
            found@ == code_symbols(sv, yv, i as int),
        decreases symbols@.len() - i,
    {
        let s = &symbols[i];
        assert(yv[i as int] == s@);
        let named = match &s.name {
            Some(n) => has_ink(n.as_str()),
            None => false,
        };
        if !s.undefined && !s.unknown && (is_in(sections, text, s.addr) || is_in(
            sections,
            coalesced,
            s.addr,
        )) && named {
            found.push((s.addr, i));
        }
        i = i + 1;
    }
    sort_by_address(&mut found);
    without_repeats(&found)
}

fn symbol_function(symbols: &Vec<ImageSymbol>, chosen: &Vec<(u64, usize)>, i: usize) -> (f:
    MachoFunction)
    requires
        i < chosen@.len(),
        chosen@[i as int].1 < symbols@.len(),
        symbols@[chosen@[i as int].1 as int].name is Some,
        i + 1 < chosen@.len() ==> chosen@[i as int].0 <= chosen@[i + 1].0,
    ensures
        f@ == (FunctionView {
            name: symbol_views(symbols@)[chosen@[i as int].1 as int].name->0,
            linkage_name: Some(symbol_views(symbols@)[chosen@[i as int].1 as int].name->0),
            addr: chosen@[i as int].0,
            size: if i + 1 < chosen@.len() {
                (chosen@[i + 1].0 - chosen@[i as int].0) as u64
            } else {
                0
            },
            external: true,
        }),
{
    assert(symbol_views(symbols@)[chosen@[i as int].1 as int]
        == symbols@[chosen@[i as int].1 as int]@);
    assert(chosen@.len() == chosen.len());
    let name = match &symbols[chosen[i].1].name {
        Some(n) => n.clone(),
        None => String::new(),
    };
    let size: u64 = if i + 1 < chosen.len() {
        chosen[i + 1].0 - chosen[i].0
    } else {
        0
    };
    MachoFunction { name: name.clone(), linkage_name: Some(name), addr: chosen[i].0, size, external: true }
}

/// Groups the symbols of code into units of at most [`BATCH_SIZE`] functions.
pub fn units_from_symbols(sections: &Vec<ImageSection>, symbols: &Vec<ImageSymbol>) -> (r: MachoCuIndex)
    ensures
        r.units@.map_values(|u: MachoCompilationUnit| u@) == symtab_units(
            section_views(sections@),
            symbol_views(symbols@),
        ),
        r.source == DebugInfoSource::Symtab,
{
    let ghost sv = section_views(sections@);
    let ghost yv = symbol_views(symbols@);
    let ghost functions = symtab_functions(sv, yv);
    let chosen = choose_symbols(sections, symbols);
    proof {
        assert(symbols@.len() == symbols.len());
        lemma_chosen_symbols(sv, yv);
    }
    let n: usize = chosen.len();
    let mut units: Vec<MachoCompilationUnit> = Vec::new();
    let mut start: usize = 0;
    while start < n
        invariant
            n == chosen@.len(),
            sv == section_views(sections@),
            yv == symbol_views(symbols@),
            functions == symtab_functions(sv, yv),
            chosen@ == chosen_symbols(sv, yv),
            forall|i: int|
                0 <= i < n ==> (#[trigger] chosen@[i]).1 < symbols@.len()
                    && names_code(sv, yv[chosen@[i].1 as int]),
            forall|i: int, j: int|
                0 <= i < j < n ==> (#[trigger] chosen@[i]).0 < (#[trigger] chosen@[j]).0,
            start == n || start == units@.len() * BATCH_SIZE,
            units@.len() == batch_count(start as int),
            start <= n,
            forall|u: int|
                0 <= u < units@.len() ==> (#[trigger] units@[u])@ == batch_unit(functions, u),
        decreases n - start,
    {
        let end: usize = if n - start > BATCH_SIZE {
            start + BATCH_SIZE
        } else {
            n
        };
        let ghost batch = functions.subrange(start as int, end as int);
        let mut list: Vec<MachoFunction> = Vec::new();
        let mut i: usize = start;
        while i < end
            invariant
                start <= i <= end <= n,
                n == chosen@.len(),
                sv == section_views(sections@),
                yv == symbol_views(symbols@),
                functions == symtab_functions(sv, yv),
                chosen@ == chosen_symbols(sv, yv),
                batch == functions.subrange(start as int, end as int),
                forall|i: int|
                    0 <= i < n ==> (#[trigger] chosen@[i]).1 < symbols@.len()
                        && names_code(sv, yv[chosen@[i].1 as int]),
                forall|i: int, j: int|
                    0 <= i < j < n ==> (#[trigger] chosen@[i]).0 < (#[trigger] chosen@[j]).0,
                list@.len() == i - start,
                forall|k: int| 0 <= k < list@.len() ==> (#[trigger] list@[k])@ == batch[k],
            decreases end - i,
        {
            assert(yv[chosen@[i as int].1 as int] == symbols@[chosen@[i as int].1 as int]@);
            list.push(symbol_function(symbols, &chosen, i));
            i = i + 1;
        }
        assert(list@.map_values(|f: MachoFunction| f@) =~= batch);
        let ranges = ranges_of(&list);
        let name = list[0].name.clone();
        assert(list@[0]@ == batch[0]);
        let id: usize = units.len();
        let unit = MachoCompilationUnit {
            id,
            name,
            comp_dir: None,
            oso_path: None,
            ranges,
            functions: list,
            variables: Vec::new(),
        };
        assert(unit@.variables =~= batch_unit(functions, id as int).variables);
        assert(unit@ =~= batch_unit(functions, id as int));
        units.push(unit);
        start = end;
    }
    assert(units@.map_values(|u: MachoCompilationUnit| u@) =~= symtab_units(sv, yv));
    MachoCuIndex { units, source: DebugInfoSource::Symtab }
}

/// The units that the symbol table of an image gives: none where it is not a Mach-O
/// image, as only Mach-O sections lie in the segment of the code. Nothing where the file
/// cannot be read.
pub open spec fn table_units(data: Seq<u8>) -> Option<Seq<UnitView>> {
    match image_header(data) {
        None => None,
        Some(h) => if !h.macho {
            Some(Seq::empty())
        } else {
            match (image_sections(data), image_symbols(data)) {
                (Some(sections), Some(symbols)) => Some(symtab_units(sections, symbols)),
                _ => None,
            }
        },
    }
}

/// The units of a Mach-O image, from its symbol table alone. An image of another format
/// has none.
pub fn build_cu_index_from_symtab(data: &[u8]) -> (r: Result<MachoCuIndex, MachoError>)
    ensures
        match r {
            Ok(index) => table_units(data@) == Some(
                index.units@.map_values(|u: MachoCompilationUnit| u@),
            ) && index.source == DebugInfoSource::Symtab,
            Err(e) => table_units(data@) is None && e == MachoError::Unparsable,
        },
{
    let header = match read_header(data) {
        Some(h) => h,
        None => return Err(MachoError::Unparsable),
    };
    if !header.macho {
        let units: Vec<MachoCompilationUnit> = Vec::new();
        assert(units@.map_values(|u: MachoCompilationUnit| u@) =~= Seq::empty());
        return Ok(MachoCuIndex { units, source: DebugInfoSource::Symtab });
    }
    let sections = match read_sections(data) {
        Some(s) => s,
        None => return Err(MachoError::Unparsable),
    };
    let symbols = match read_symbols(data) {
        Some(s) => s,
        None => return Err(MachoError::Unparsable),
    };
    Ok(units_from_symbols(&sections, &symbols))
}

} // verus!
