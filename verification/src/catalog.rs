//! The two catalogs of inlined functions: their line tables and their names.

use std::collections::BTreeMap;
use vstd::prelude::*;
use crate::address::{AddressTranslator, Region};
use crate::line_info::{collect_lines, collected, LineInfo};
use crate::lines::LineTable;
use crate::symbols::{InlineeId, Offset};

verus! {

broadcast use vstd::std_specs::btree::group_btree_axioms;

/// One expansion of an inlined function: which function was expanded, and
/// the offset of the procedure around it, at which the inlinee's relative
/// line table is anchored.
#[derive(Clone, Copy, Debug, PartialEq, Eq)]
pub struct InlineSite {
    pub inlinee_id: InlineeId,
    pub parent_offset: Offset,
}

/// What the catalog holds for one inlined function: its line table, with
/// offsets relative to the procedure in which the function is expanded.
pub type InlineeEntry = LineTable;

/// The lines that the expansion `site` contributes, in the flat address
/// space: `None` where the catalog has no entry for the inlinee.
pub open spec fn expansion(
    entries: Map<InlineeId, LineTable>,
    site: InlineSite,
    regions: Seq<Region>,
) -> Option<Seq<LineInfo>> {
    if entries.contains_key(site.inlinee_id) {
        Some(collected(entries[site.inlinee_id]@, site.parent_offset, regions))
    } else {
        None
    }
}

/// The inlined functions of a module, each with its entry, by identifier.
#[derive(Clone, Debug)]
pub struct InlineeCatalog {
    entries: BTreeMap<InlineeId, InlineeEntry>,
}

impl View for InlineeCatalog {
    type V = Map<InlineeId, LineTable>;

    closed spec fn view(&self) -> Map<InlineeId, LineTable> {
        self.entries@
    }
}

impl InlineeCatalog {
    /// A catalog without entries.
    pub fn new() -> (catalog: InlineeCatalog)
        ensures
            catalog@ == Map::<InlineeId, LineTable>::empty(),
    {
        InlineeCatalog { entries: BTreeMap::new() }
    }

    /// Enters `lines` under `inlinee_id`, in place of an entry already there.
    pub fn insert(&mut self, inlinee_id: InlineeId, lines: LineTable)
        ensures
            final(self)@ == old(self)@.insert(inlinee_id, lines),
    {
        self.entries.insert(inlinee_id, lines);
    }

    /// The line table entered under `inlinee_id`.
    pub fn get(&self, inlinee_id: InlineeId) -> (entry: Option<&LineTable>)
        ensures
            match entry {
                Some(lines) => self@.contains_key(inlinee_id) && *lines == self@[inlinee_id],
                None => !self@.contains_key(inlinee_id),
            },
    {
        self.entries.get(&inlinee_id)
    }

    /// The lines of one expansion. An inlinee that the catalog does not
    /// hold gives `None`: the site is passed over. Otherwise the inlinee's
    /// table is anchored at the site's parent offset and moved to flat
    /// addresses, without the rows whose offset does not translate.
    pub fn expand(&self, site: &InlineSite, translator: &AddressTranslator) -> (lines: Option<
        Vec<LineInfo>,
    >)
        ensures
            match expansion(self@, *site, translator@) {
                Some(expected) => lines is Some && lines->0@ == expected,
                None => lines is None,
            },
    {
        match self.get(site.inlinee_id) {
            Some(table) => Some(collect_lines(table, site.parent_offset, translator)),
            None => None,
        }
    }
}

/// What an entry of the identifier catalog describes.
#[derive(Clone, Debug, PartialEq, Eq)]
pub enum IdentifierKind {
    /// A function, with the name to show for it.
    Function { name: String },
    /// Anything else, among it the entries that could not be decoded.
    Other,
}

/// One entry of the identifier catalog.
#[derive(Clone, Debug, PartialEq, Eq)]
pub struct IdentifierEntry {
    pub id: InlineeId,
    pub kind: IdentifierKind,
}

/// The name in the first entry from index `start` on that has the
/// identifier `id` and describes a function.
pub open spec fn function_name_from(entries: Seq<IdentifierEntry>, start: int, id: InlineeId)
    -> Option<String>
    decreases entries.len() - start,
{
    if start < 0 || start >= entries.len() {
        None
    } else if entries[start].id == id && entries[start].kind is Function {
        Some(entries[start].kind->name)
    } else {
        function_name_from(entries, start + 1, id)
    }
}

/// The name of the function `id`: that of the first entry with this
/// identifier that describes a function.
pub open spec fn function_name_of(entries: Seq<IdentifierEntry>, id: InlineeId) -> Option<String> {
    function_name_from(entries, 0, id)
}

/// No entry with the identifier `id` describes a function.
pub open spec fn names_no_function(entries: Seq<IdentifierEntry>, id: InlineeId) -> bool {
    forall|i: int|
        0 <= i < entries.len() ==> !((#[trigger] entries[i]).id == id && entries[i].kind
            is Function)
}

/// The names of the functions of a binary, by identifier. One catalog
/// serves all the modules.
#[derive(Clone, Debug, PartialEq, Eq)]
pub struct IdentifierCatalog {
    pub entries: Vec<IdentifierEntry>,
}

impl View for IdentifierCatalog {
    type V = Seq<IdentifierEntry>;

    open spec fn view(&self) -> Seq<IdentifierEntry> {
        self.entries@
    }
}

impl IdentifierCatalog {
    /// A catalog without entries.
    pub fn new() -> (catalog: IdentifierCatalog)
        ensures
            catalog@ == Seq::<IdentifierEntry>::empty(),
    {
        IdentifierCatalog { entries: Vec::new() }
    }

    /// Adds an entry after those already there.
    pub fn push(&mut self, id: InlineeId, kind: IdentifierKind)
        ensures
            final(self)@ == old(self)@.push(IdentifierEntry { id, kind }),
    {
        self.entries.push(IdentifierEntry { id, kind });
    }

    /// The name of the function `id`, looked up by a scan of the entries.
    pub fn function_name(&self, id: InlineeId) -> (name: Option<&String>)
        ensures
            match function_name_of(self@, id) {
                Some(expected) => name == Some(&expected),
                None => name is None,
            },
    {
        let n = self.entries.len();
        let mut i: usize = 0;
        while i < n
            invariant
                n == self@.len(),
                i <= n,
                function_name_of(self@, id) == function_name_from(self@, i as int, id),
            decreases n - i,
        {
            let entry = &self.entries[i];
            if entry.id == id {
                if let IdentifierKind::Function { name } = &entry.kind {
                    return Some(name);
                }
            }
            i += 1;
        }
        None
    }
}

/// Where no entry with the identifier describes a function, no name is found.
pub proof fn lemma_no_function_no_name(entries: Seq<IdentifierEntry>, start: int, id: InlineeId)
    requires
        names_no_function(entries, id),
        0 <= start,
    ensures
        function_name_from(entries, start, id) is None,
    decreases entries.len() - start,
{
    if start < entries.len() {
        assert(!(entries[start].id == id && entries[start].kind is Function));
        lemma_no_function_no_name(entries, start + 1, id);
    }
}

} // verus!
