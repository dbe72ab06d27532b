//! Resolution of a set of addresses against the modules of a binary.

use vstd::prelude::*;
use crate::address::{translated, AddressTranslator, Region};
use crate::catalog::{
    expansion, IdentifierCatalog, IdentifierEntry, InlineSite, InlineeCatalog,
};
use crate::frames::{
    all_among, any_target_within, frame_views, inline_frames, inline_frames_of, inline_name,
    lemma_among_concat, lemma_inline_frames_among, lemma_no_target_no_frames,
    lemma_procedure_frames_among, lemma_views_concat, procedure_frames, procedure_frames_of,
    Frame, FrameView,
};
use crate::line_info::{flat_rows, translate_table};
use crate::lines::{rows_within, select_rows, LineRecord, LineTable};
use crate::scope::{
    innermost_procedure, is_well_formed, lemma_scopes_bounded, scopes_after, well_formed,
    ScopeWalker,
};
use crate::symbols::{InlineeId, Offset, SymbolRecord};

verus! {

/// The debug information of one compilation unit: its symbol stream, its
/// line table (at section-relative offsets) and the line tables of the
/// functions inlined in it.
#[derive(Clone, Debug)]
pub struct Module {
    pub symbols: Vec<SymbolRecord>,
    pub lines: LineTable,
    pub inlinees: InlineeCatalog,
}

impl Module {
    /// The symbol stream can be walked: no record closes a scope when none
    /// is open, and the number of records fits `u32`.
    pub open spec fn walkable(&self) -> bool {
        &&& well_formed(self.symbols@)
        &&& self.symbols@.len() <= u32::MAX
    }

    /// Whether the symbol stream can be walked.
    pub fn is_walkable(&self) -> (ok: bool)
        ensures
            ok == self.walkable(),
    {
        self.symbols.len() <= u32::MAX as usize && is_well_formed(&self.symbols)
    }
}

/// The debug information of one binary. A module whose information could
/// not be had stands as `None` and is passed over.
#[derive(Clone, Debug)]
pub struct DebugInfo {
    pub modules: Vec<Option<Module>>,
    pub translator: AddressTranslator,
    pub identifiers: IdentifierCatalog,
}

impl DebugInfo {
    /// The symbol stream of every module that is there can be walked.
    pub open spec fn walkable(&self) -> bool {
        forall|i: int|
            0 <= i < self.modules@.len() && (#[trigger] self.modules@[i]) is Some
                ==> self.modules@[i]->0.walkable()
    }

    /// Whether the symbol stream of every module that is there can be walked.
    pub fn is_walkable(&self) -> (ok: bool)
        ensures
            ok == self.walkable(),
    {
        let n = self.modules.len();
        let mut i: usize = 0;
        while i < n
            invariant
                n == self.modules@.len(),
                i <= n,
                forall|k: int|
                    0 <= k < i && (#[trigger] self.modules@[k]) is Some
                        ==> self.modules@[k]->0.walkable(),
            decreases n - i,
        {
            if let Some(module) = &self.modules[i] {
                if !module.is_walkable() {
                    return false;
                }
            }
            i += 1;
        }
        true
    }
}

/// The line table of the procedure whose code is the `length` bytes from
/// `offset` on: the rows of the module's table that start in that code,
/// moved to their flat addresses.
pub open spec fn procedure_table(
    lines: Seq<LineRecord>,
    offset: Offset,
    length: u64,
    regions: Seq<Region>,
) -> Seq<LineRecord> {
    flat_rows(rows_within(lines, offset, length), 0, regions)
}

/// The frames that one symbol record gives. `enclosing` is the innermost
/// procedure open after the record, `lines` the module's line table.
///
/// A procedure start whose offset translates gives the frames of that
/// procedure. An inline site inside a procedure, whose inlinee is in the
/// catalog, gives the frames of that expansion. Every other record, a
/// procedure that does not translate, an inline site outside every
/// procedure or one whose inlinee is missing give nothing.
pub open spec fn record_frames(
    record: SymbolRecord,
    enclosing: Option<Offset>,
    lines: Seq<LineRecord>,
    inlinees: Map<InlineeId, LineTable>,
    regions: Seq<Region>,
    identifiers: Seq<IdentifierEntry>,
    targets: Seq<u64>,
) -> Seq<(u64, FrameView)> {
    match record {
        SymbolRecord::ProcedureStart { name, offset, length } => match translated(regions, offset) {
            Some(start) => procedure_frames_of(
                name@,
                start,
                length,
                procedure_table(lines, offset, length, regions),
                targets,
            ),
            None => Seq::empty(),
        },
        SymbolRecord::InlineSiteBegin { inlinee_id } => match enclosing {
            Some(parent_offset) => match expansion(
                inlinees,
                InlineSite { inlinee_id, parent_offset },
                regions,
            ) {
                Some(expanded) => inline_frames_of(
                    inline_name(identifiers, inlinee_id),
                    expanded,
                    targets,
                ),
                None => Seq::empty(),
            },
            None => Seq::empty(),
        },
        _ => Seq::empty(),
    }
}

/// The frames that record `i` of `symbols` gives, in the scopes that the
/// records up to and with it leave open.
pub open spec fn frames_at(
    symbols: Seq<SymbolRecord>,
    i: int,
    lines: Seq<LineRecord>,
    inlinees: Map<InlineeId, LineTable>,
    regions: Seq<Region>,
    identifiers: Seq<IdentifierEntry>,
    targets: Seq<u64>,
) -> Seq<(u64, FrameView)> {
    record_frames(
        symbols[i],
        innermost_procedure(scopes_after(symbols.take(i + 1))),
        lines,
        inlinees,
        regions,
        identifiers,
        targets,
    )
}

/// The frames that the first `count` records of `symbols` give, record by record.
pub open spec fn stream_frames(
    symbols: Seq<SymbolRecord>,
    count: int,
    lines: Seq<LineRecord>,
    inlinees: Map<InlineeId, LineTable>,
    regions: Seq<Region>,
    identifiers: Seq<IdentifierEntry>,
    targets: Seq<u64>,
) -> Seq<(u64, FrameView)>
    decreases count,
{
    if count <= 0 {
        Seq::empty()
    } else {
        stream_frames(symbols, count - 1, lines, inlinees, regions, identifiers, targets)
            + frames_at(symbols, count - 1, lines, inlinees, regions, identifiers, targets)
    }
}

/// The frames that a module gives: those of its records in stream order.
pub open spec fn module_frames(
    module: Module,
    regions: Seq<Region>,
    identifiers: Seq<IdentifierEntry>,
    targets: Seq<u64>,
) -> Seq<(u64, FrameView)> {
    stream_frames(
        module.symbols@,
        module.symbols@.len() as int,
        module.lines@,
        module.inlinees@,
        regions,
        identifiers,
        targets,
    )
}

/// The frames that the first `count` modules give, module by module; a
/// module that is not there gives none.
pub open spec fn modules_frames(
    modules: Seq<Option<Module>>,
    count: int,
    regions: Seq<Region>,
    identifiers: Seq<IdentifierEntry>,
    targets: Seq<u64>,
) -> Seq<(u64, FrameView)>
    decreases count,
{
    if count <= 0 {
        Seq::empty()
    } else {
        modules_frames(modules, count - 1, regions, identifiers, targets) + match modules[count
            - 1] {
            Some(module) => module_frames(module, regions, identifiers, targets),
            None => Seq::empty(),
        }
    }
}

/// The result of resolving `targets` against `info`: the queried addresses
/// with their frames, in the order of discovery.
pub open spec fn resolution(info: DebugInfo, targets: Seq<u64>) -> Seq<(u64, FrameView)> {
    modules_frames(
        info.modules@,
        info.modules@.len() as int,
        info.translator@,
        info.identifiers@,
        targets,
    )
}

/// Resolves a fixed set of addresses, all of them in one pass over each module.
#[derive(Clone, Debug, PartialEq, Eq)]
pub struct FrameResolver {
    pub targets: Vec<u64>,
}

impl FrameResolver {
    /// A resolver for the addresses `targets`.
    pub fn new(targets: Vec<u64>) -> (resolver: FrameResolver)
        ensures
            resolver.targets == targets,
    {
        FrameResolver { targets }
    }

    /// The frames that `record` gives, where `enclosing` is the innermost
    /// procedure open after it and `lines` the module's line table. The
    /// rows of a procedure are sought out and translated only if the
    /// procedure holds a target.
    pub fn resolve_record(
        &self,
        record: &SymbolRecord,
        enclosing: Option<Offset>,
        lines: &LineTable,
        inlinees: &InlineeCatalog,
        translator: &AddressTranslator,
        identifiers: &IdentifierCatalog,
    ) -> (frames: Vec<(u64, Frame)>)
        ensures
            frame_views(frames@) == record_frames(
                *record,
                enclosing,
                lines@,
                inlinees@,
                translator@,
                identifiers@,
                self.targets@,
            ),
    {
        let mut none: Vec<(u64, Frame)> = Vec::new();
        proof {
            assert(frame_views(none@) =~= Seq::empty());
        }
        match record {
            SymbolRecord::ProcedureStart { name, offset, length } => {
                match translator.translate(*offset) {
                    Some(start) => {
                        if any_target_within(start, *length, &self.targets) {
                            let rows = select_rows(lines, *offset, *length);
                            let table = translate_table(&rows, 0, translator);
                            procedure_frames(name, start, *length, &table, &self.targets)
                        } else {
                            proof {
                                lemma_no_target_no_frames(
                                    name@,
                                    start,
                                    *length,
                                    procedure_table(lines@, *offset, *length, translator@),
                                    self.targets@,
                                );
                            }
                            none
                        }
                    },
                    None => none,
                }
            },
            SymbolRecord::InlineSiteBegin { inlinee_id } => {
                match enclosing {
                    Some(parent_offset) => {
                        let site = InlineSite { inlinee_id: *inlinee_id, parent_offset };
                        match inlinees.expand(&site, translator) {
                            Some(expanded) => inline_frames(
                                &expanded,
                                *inlinee_id,
                                identifiers,
                                &self.targets,
                            ),
                            None => none,
                        }
                    },
                    None => none,
                }
            },
            _ => none,
        }
    }

    /// The frames of one module. Its symbol stream is walked once; each
    /// record gives its frames in the scopes open after it.
    pub fn resolve_module(
        &self,
        module: &Module,
        translator: &AddressTranslator,
        identifiers: &IdentifierCatalog,
    ) -> (frames: Vec<(u64, Frame)>)
        requires
            module.walkable(),
        ensures
            frame_views(frames@) == module_frames(
                *module,
                translator@,
                identifiers@,
                self.targets@,
            ),
    {
        let mut walker = ScopeWalker::new();
        let mut frames: Vec<(u64, Frame)> = Vec::new();
        let n = module.symbols.len();
        let mut i: usize = 0;
        proof {
            assert(frame_views(frames@) =~= Seq::empty());
            assert(module.symbols@.take(0) =~= Seq::empty());
        }
        while i < n
            invariant
                n == module.symbols@.len(),
                i <= n,
                module.walkable(),
                walker.wf(),
                walker.scopes() == scopes_after(module.symbols@.take(i as int)),
                frame_views(frames@) == stream_frames(
                    module.symbols@,
                    i as int,
                    module.lines@,
                    module.inlinees@,
                    translator@,
                    identifiers@,
                    self.targets@,
                ),
            decreases n - i,
        {
            let record = &module.symbols[i];
            proof {
                lemma_scopes_bounded(module.symbols@.take(i as int));
                assert(module.symbols@.take(i + 1).drop_last() =~= module.symbols@.take(i as int));
            }
            walker.step(record);
            let enclosing = walker.enclosing_procedure();
            let mut more = self.resolve_record(
                record,
                enclosing,
                &module.lines,
                &module.inlinees,
                translator,
                identifiers,
            );
            proof {
                lemma_views_concat(frames@, more@);
            }
            frames.append(&mut more);
            i += 1;
        }
        frames
    }

    /// Resolves the targets against every module of `info` in turn. The
    /// result holds, for each module that is there and each of its records
    /// in stream order, the frames of that record: the frame of a procedure
    /// and those of the inline expansions inside it follow one another as
    /// they are found, unsorted and with repetitions.
    pub fn resolve(&self, info: &DebugInfo) -> (frames: Vec<(u64, Frame)>)
        requires
            info.walkable(),
        ensures
            frame_views(frames@) == resolution(*info, self.targets@),
    {
        let mut frames: Vec<(u64, Frame)> = Vec::new();
        let n = info.modules.len();
        let mut i: usize = 0;
        proof {
            assert(frame_views(frames@) =~= Seq::empty());
        }
        while i < n
            invariant
                n == info.modules@.len(),
                i <= n,
                info.walkable(),
                frame_views(frames@) == modules_frames(
                    info.modules@,
                    i as int,
                    info.translator@,
                    info.identifiers@,
                    self.targets@,
                ),
            decreases n - i,
        {
            let ghost done = frame_views(frames@);
            if let Some(module) = &info.modules[i] {
                let mut more = self.resolve_module(module, &info.translator, &info.identifiers);
                proof {
                    lemma_views_concat(frames@, more@);
                }
                frames.append(&mut more);
            } else {
                assert(done =~= done + Seq::<(u64, FrameView)>::empty());
            }
            i += 1;
        }
        frames
    }

    /// Resolves the targets against `info` if every symbol stream in it can
    /// be walked, and gives `None` otherwise.
    pub fn try_resolve(&self, info: &DebugInfo) -> (frames: Option<Vec<(u64, Frame)>>)
        ensures
            frames is Some <==> info.walkable(),
            frames is Some ==> frame_views(frames->0@) == resolution(*info, self.targets@),
    {
        if info.is_walkable() {
            Some(self.resolve(info))
        } else {
            None
        }
    }
}

/// Resolution depends on the debug information and the targets alone: two
/// runs on the same information and the same targets give the same frames
/// in the same order.
pub proof fn lemma_resolution_repeats(
    info: DebugInfo,
    targets: Seq<u64>,
    first: Seq<(u64, Frame)>,
    second: Seq<(u64, Frame)>,
)
    requires
        frame_views(first) == resolution(info, targets),
        frame_views(second) == resolution(info, targets),
    ensures
        first.len() == second.len(),
        forall|k: int|
            0 <= k < first.len() ==> first[k].0 == second[k].0 && first[k].1@ == second[k].1@,
{
    assert(frame_views(first).len() == frame_views(second).len());
    assert forall|k: int| 0 <= k < first.len() implies first[k].0 == second[k].0 && first[k].1@
        == second[k].1@ by {
        assert(frame_views(first)[k] == frame_views(second)[k]);
    }
}

proof fn lemma_stream_frames_among(
    symbols: Seq<SymbolRecord>,
    count: int,
    lines: Seq<LineRecord>,
    inlinees: Map<InlineeId, LineTable>,
    regions: Seq<Region>,
    identifiers: Seq<IdentifierEntry>,
    targets: Seq<u64>,
)
    requires
        0 <= count <= symbols.len(),
    ensures
        all_among(
            stream_frames(symbols, count, lines, inlinees, regions, identifiers, targets),
            targets,
        ),
    decreases count,
{
    if count > 0 {
        lemma_stream_frames_among(
            symbols,
            count - 1,
            lines,
            inlinees,
            regions,
            identifiers,
            targets,
        );
        let enclosing = innermost_procedure(scopes_after(symbols.take(count)));
        match symbols[count - 1] {
            SymbolRecord::ProcedureStart { name, offset, length } => {
                if let Some(start) = translated(regions, offset) {
                    lemma_procedure_frames_among(
                        name@,
                        start,
                        length,
                        procedure_table(lines, offset, length, regions),
                        targets,
                    );
                }
            },
            SymbolRecord::InlineSiteBegin { inlinee_id } => {
                if let Some(parent_offset) = enclosing {
                    if let Some(expanded) = expansion(
                        inlinees,
                        InlineSite { inlinee_id, parent_offset },
                        regions,
                    ) {
                        lemma_inline_frames_among(
                            inline_name(identifiers, inlinee_id),
                            expanded,
                            targets,
                        );
                    }
                }
            },
            _ => {},
        }
        lemma_among_concat(
            stream_frames(symbols, count - 1, lines, inlinees, regions, identifiers, targets),
            frames_at(symbols, count - 1, lines, inlinees, regions, identifiers, targets),
            targets,
        );
    }
}

proof fn lemma_modules_frames_among(
    modules: Seq<Option<Module>>,
    count: int,
    regions: Seq<Region>,
    identifiers: Seq<IdentifierEntry>,
    targets: Seq<u64>,
)
    requires
        0 <= count <= modules.len(),
    ensures
        all_among(modules_frames(modules, count, regions, identifiers, targets), targets),
    decreases count,
{
    if count > 0 {
        lemma_modules_frames_among(modules, count - 1, regions, identifiers, targets);
        let more = match modules[count - 1] {
            Some(module) => module_frames(module, regions, identifiers, targets),
            None => Seq::empty(),
        };
        if let Some(module) = modules[count - 1] {
            lemma_stream_frames_among(
                module.symbols@,
                module.symbols@.len() as int,
                module.lines@,
                module.inlinees@,
                regions,
                identifiers,
                targets,
            );
        }
        lemma_among_concat(
            modules_frames(modules, count - 1, regions, identifiers, targets),
            more,
            targets,
        );
    }
}

/// Resolution answers what was asked: every frame of the result stands
/// with one of the targets. Without targets there are no frames.
pub proof fn lemma_resolution_answers_targets(info: DebugInfo, targets: Seq<u64>)
    ensures
        all_among(resolution(info, targets), targets),
        targets.len() == 0 ==> resolution(info, targets).len() == 0,
{
    lemma_modules_frames_among(
        info.modules@,
        info.modules@.len() as int,
        info.translator@,
        info.identifiers@,
        targets,
    );
    if targets.len() == 0 && resolution(info, targets).len() > 0 {
        assert(targets.contains(resolution(info, targets)[0].0));
    }
}

proof fn lemma_scopes_ignore_site(symbols: Seq<SymbolRecord>, site: int, count: int)
    requires
        0 <= site < symbols.len(),
        symbols[site] is InlineSiteBegin,
        0 <= count <= symbols.len(),
    ensures
        scopes_after(symbols.update(site, SymbolRecord::ScopeBegin).take(count)) == scopes_after(
            symbols.take(count),
        ),
    decreases count,
{
    let plain = symbols.update(site, SymbolRecord::ScopeBegin);
    if count > 0 {
        lemma_scopes_ignore_site(symbols, site, count - 1);
        assert(plain.take(count).drop_last() =~= plain.take(count - 1));
        assert(symbols.take(count).drop_last() =~= symbols.take(count - 1));
    } else {
        assert(plain.take(0) =~= symbols.take(0));
    }
}

proof fn lemma_frames_ignore_site(
    symbols: Seq<SymbolRecord>,
    site: int,
    count: int,
    lines: Seq<LineRecord>,
    inlinees: Map<InlineeId, LineTable>,
    regions: Seq<Region>,
    identifiers: Seq<IdentifierEntry>,
    targets: Seq<u64>,
)
    requires
        0 <= site < symbols.len(),
        symbols[site] is InlineSiteBegin,
        !inlinees.contains_key(symbols[site]->inlinee_id),
        0 <= count <= symbols.len(),
    ensures
        stream_frames(symbols, count, lines, inlinees, regions, identifiers, targets)
            == stream_frames(
            symbols.update(site, SymbolRecord::ScopeBegin),
            count,
            lines,
            inlinees,
            regions,
            identifiers,
            targets,
        ),
    decreases count,
{
    if count > 0 {
        lemma_frames_ignore_site(
            symbols,
            site,
            count - 1,
            lines,
            inlinees,
            regions,
            identifiers,
            targets,
        );
        lemma_scopes_ignore_site(symbols, site, count);
    }
}

/// An inline site whose inlinee the catalog does not hold gives no frame,
/// and the frames of the stream are those that it gives with a plain scope
/// in the place of that site: what the other records give is untouched.
pub proof fn lemma_missing_inlinee_skipped(
    symbols: Seq<SymbolRecord>,
    site: int,
    lines: Seq<LineRecord>,
    inlinees: Map<InlineeId, LineTable>,
    regions: Seq<Region>,
    identifiers: Seq<IdentifierEntry>,
    targets: Seq<u64>,
)
    requires
        0 <= site < symbols.len(),
        symbols[site] is InlineSiteBegin,
        !inlinees.contains_key(symbols[site]->inlinee_id),
    ensures
        frames_at(symbols, site, lines, inlinees, regions, identifiers, targets) == Seq::<
            (u64, FrameView),
        >::empty(),
        stream_frames(
            symbols,
            symbols.len() as int,
            lines,
            inlinees,
            regions,
            identifiers,
            targets,
        ) == stream_frames(
            symbols.update(site, SymbolRecord::ScopeBegin),
            symbols.len() as int,
            lines,
            inlinees,
            regions,
            identifiers,
            targets,
        ),
{
    lemma_frames_ignore_site(
        symbols,
        site,
        symbols.len() as int,
        lines,
        inlinees,
        regions,
        identifiers,
        targets,
    );
}

} // verus!
