//! The names under which an object's code refers to symbols: those that the
//! object defines, and those that it leaves undefined.
use vstd::hash_map::StringHashMap;
use vstd::prelude::*;

use crate::objfile::{symbol, Machine, ObjectFormat, ObjectModel, ObjectWriter, SymbolKind};

verus! {

/// An object and the numbers of the symbols that its code names.
#[verifier::ext_equal]
pub ghost struct LinkageModel {
    pub obj: ObjectModel,
    /// Symbols that the object defines.
    pub local: Map<Seq<char>, usize>,
    /// Symbols that the object leaves undefined.
    pub undef: Map<Seq<char>, usize>,
}

impl LinkageModel {
    /// An object with nothing in it.
    pub open spec fn empty(format: ObjectFormat, machine: Machine) -> LinkageModel {
        LinkageModel {
            obj: ObjectModel::empty(format, machine),
            local: Map::empty(),
            undef: Map::empty(),
        }
    }

    /// The number of the undefined symbol `name`, once it is there.
    pub open spec fn undef_number(self, name: Seq<char>) -> usize {
        if self.undef.contains_key(name) {
            self.undef[name]
        } else {
            self.obj.symbols.len() as usize
        }
    }

    /// With an undefined symbol under the key `name`; one that is missing is
    /// added as `spelling`.
    pub open spec fn with_undef(
        self,
        name: Seq<char>,
        spelling: Seq<char>,
        kind: SymbolKind,
    ) -> LinkageModel {
        if self.undef.contains_key(name) {
            self
        } else {
            LinkageModel {
                obj: self.obj.with_symbol(symbol(spelling, 0, 0, kind, true, false, None)),
                local: self.local,
                undef: self.undef.insert(name, self.obj.symbols.len() as usize),
            }
        }
    }

    /// The number of the symbol that a reference to `name` means: a definition
    /// goes before an undefined symbol.
    pub open spec fn number(self, name: Seq<char>) -> usize {
        if self.local.contains_key(name) {
            self.local[name]
        } else {
            self.undef_number(name)
        }
    }

    /// With a symbol that a reference to `name` can mean.
    pub open spec fn with_reference(
        self,
        name: Seq<char>,
        spelling: Seq<char>,
        kind: SymbolKind,
    ) -> LinkageModel {
        if self.local.contains_key(name) {
            self
        } else {
            self.with_undef(name, spelling, kind)
        }
    }

    /// A second reference to a name means the symbol of the first, and adds nothing.
    pub proof fn law_references_agree(
        self,
        name: Seq<char>,
        spelling: Seq<char>,
        kind: SymbolKind,
        again: Seq<char>,
        other: SymbolKind,
    )
        ensures
            self.with_reference(name, spelling, kind).number(name) == self.number(name),
            self.with_reference(name, spelling, kind).with_reference(name, again, other)
                == self.with_reference(name, spelling, kind),
            self.with_undef(name, spelling, kind).undef_number(name) == self.undef_number(name),
            self.with_undef(name, spelling, kind).with_undef(name, again, other)
                == self.with_undef(name, spelling, kind),
    {
    }

    /// A definition is what later references to its name mean: they add nothing to
    /// the object.
    pub proof fn law_definitions_are_found(
        self,
        name: Seq<char>,
        spelling: Seq<char>,
        value: u64,
        size: u64,
        kind: SymbolKind,
        global: bool,
        weak: bool,
        section: usize,
        again: Seq<char>,
        other: SymbolKind,
    )
        ensures
            ({
                let d = self.with_definition(
                    name,
                    spelling,
                    value,
                    size,
                    kind,
                    global,
                    weak,
                    section,
                );
                d.number(name) == self.obj.symbols.len() as usize && d.with_reference(
                    name,
                    again,
                    other,
                ) == d
            }),
    {
    }

    /// With a definition under the key `name`, spelt `spelling`.
    pub open spec fn with_definition(
        self,
        name: Seq<char>,
        spelling: Seq<char>,
        value: u64,
        size: u64,
        kind: SymbolKind,
        global: bool,
        weak: bool,
        section: usize,
    ) -> LinkageModel {
        LinkageModel {
            obj: self.obj.with_symbol(
                symbol(spelling, value, size, kind, global, weak, Some(section)),
            ),
            local: self.local.insert(name, self.obj.symbols.len() as usize),
            undef: self.undef,
        }
    }

    /// The same names over another state of the object.
    pub open spec fn over(self, obj: ObjectModel) -> LinkageModel {
        LinkageModel { obj, ..self }
    }
}

/// An object under construction and the numbers of the symbols that its code
/// names.
pub struct Linkage {
    pub obj: ObjectWriter,
    pub local: StringHashMap<usize>,
    pub undef: StringHashMap<usize>,
}

impl View for Linkage {
    type V = LinkageModel;

    open spec fn view(&self) -> LinkageModel {
        LinkageModel { obj: self.obj@, local: self.local@, undef: self.undef@ }
    }
}

impl Linkage {
    /// The numbers are those of symbols of the object.
    pub open spec fn wf(&self) -> bool {
        &&& self.obj.wf()
        &&& forall|name: Seq<char>| #[trigger]
            self.local@.contains_key(name) ==> self.local@[name] < self.obj@.symbols.len()
        &&& forall|name: Seq<char>| #[trigger]
            self.undef@.contains_key(name) ==> self.undef@[name] < self.obj@.symbols.len()
    }

    /// An object with nothing in it.
    pub fn new(format: ObjectFormat, machine: Machine) -> (l: Linkage)
        ensures
            l.wf(),
            l@ == LinkageModel::empty(format, machine),
    {
        Linkage {
            obj: ObjectWriter::new(format, machine),
            local: StringHashMap::new(),
            undef: StringHashMap::new(),
        }
    }

    /// The number of the undefined symbol under the key `name`, which is added
    /// as `spelling` where it is missing.
    pub fn undefined(&mut self, name: &str, spelling: &str, kind: SymbolKind) -> (i: usize)
        requires
            old(self).wf(),
        ensures
            final(self).wf(),
            final(self)@ == old(self)@.with_undef(name@, spelling@, kind),
            i == old(self)@.undef_number(name@),
            i < final(self)@.obj.symbols.len(),
            final(self)@.obj.sections == old(self)@.obj.sections,
            final(self)@.obj.symbols.len() >= old(self)@.obj.symbols.len(),
    {
        let found = self.undef.get(name);
        if let Some(i) = found {
            return *i;
        }
        let i = self.obj.add_symbol(spelling, 0, 0, kind, true, false, None);
        self.undef.insert(name.to_owned(), i);
        i
    }

    /// The number of the symbol that a reference to `name` means.
    pub fn reference(&mut self, name: &str, spelling: &str, kind: SymbolKind) -> (i: usize)
        requires
            old(self).wf(),
        ensures
            final(self).wf(),
            final(self)@ == old(self)@.with_reference(name@, spelling@, kind),
            i == old(self)@.number(name@),
            i < final(self)@.obj.symbols.len(),
            final(self)@.obj.sections == old(self)@.obj.sections,
            final(self)@.obj.symbols.len() >= old(self)@.obj.symbols.len(),
    {
        let found = self.local.get(name);
        if let Some(i) = found {
            return *i;
        }
        self.undefined(name, spelling, kind)
    }

    /// Adds a definition under the key `name`, spelt `spelling`.
    pub fn define(
        &mut self,
        name: &str,
        spelling: &str,
        value: u64,
        size: u64,
        kind: SymbolKind,
        global: bool,
        weak: bool,
        section: usize,
    ) -> (i: usize)
        requires
            old(self).wf(),
            section < old(self)@.obj.sections.len(),
        ensures
            final(self).wf(),
            final(self)@ == old(self)@.with_definition(
                name@,
                spelling@,
                value,
                size,
                kind,
                global,
                weak,
                section,
            ),
            i == old(self)@.obj.symbols.len(),
            i < final(self)@.obj.symbols.len(),
    {
        let i = self.obj.add_symbol(spelling, value, size, kind, global, weak, Some(section));
        self.local.insert(name.to_owned(), i);
        i
    }
}

} // verus!
