use pdb_frames::{
    AddressTranslator, DebugInfo, Frame, FrameResolver, IdentifierCatalog, IdentifierKind,
    InlineeCatalog, LineRecord, LineTable, Module, SymbolRecord,
};

fn row(offset: u64, file: &str, line: u32, length: Option<u64>) -> LineRecord {
    LineRecord { offset, file: file.to_string(), line, length }
}

fn frame(function_name: &str, file: &str, line: u64) -> Frame {
    Frame { function_name: function_name.to_string(), file: file.to_string(), line }
}

fn procedure(name: &str, offset: u64, length: u64) -> SymbolRecord {
    SymbolRecord::ProcedureStart { name: name.to_string(), offset, length }
}

fn names() -> IdentifierCatalog {
    let mut identifiers = IdentifierCatalog::new();
    identifiers.push(7, IdentifierKind::Function { name: "bar".to_string() });
    identifiers.push(8, IdentifierKind::Function { name: "baz".to_string() });
    identifiers
}

fn two_procedures() -> Module {
    let mut inlinees = InlineeCatalog::new();
    inlinees.insert(7, LineTable { records: vec![row(0x20, "b.c", 42, Some(0x10))] });
    inlinees.insert(8, LineTable { records: vec![row(0x24, "c.c", 5, Some(4))] });
    Module {
        symbols: vec![
            procedure("foo", 0x1000, 0x100),
            SymbolRecord::ScopeBegin,
            SymbolRecord::InlineSiteBegin { inlinee_id: 7 },
            SymbolRecord::InlineSiteBegin { inlinee_id: 8 },
            SymbolRecord::ScopeEnd,
            SymbolRecord::ScopeEnd,
            SymbolRecord::ScopeEnd,
            SymbolRecord::ProcedureEnd,
            SymbolRecord::Other,
            procedure("qux", 0x2000, 0x40),
            SymbolRecord::InlineSiteBegin { inlinee_id: 7 },
            SymbolRecord::ScopeEnd,
            SymbolRecord::ProcedureEnd,
        ],
        lines: LineTable {
            records: vec![
                row(0x1000, "a.c", 10, None),
                row(0x1010, "a.c", 11, None),
                row(0x2000, "q.c", 1, None),
            ],
        },
        inlinees,
    }
}

fn info_of(modules: Vec<Option<Module>>, identifiers: IdentifierCatalog) -> DebugInfo {
    DebugInfo { modules, translator: AddressTranslator::identity(), identifiers }
}

#[test]
fn frames_come_in_order_of_discovery() {
    let info = info_of(vec![Some(two_procedures())], names());
    let frames = FrameResolver::new(vec![0x2025, 0x1025]).resolve(&info);
    assert_eq!(
        frames,
        vec![
            (0x1025, frame("foo", "a.c", 11)),
            (0x1025, frame("bar", "b.c", 42)),
            (0x1025, frame("baz", "c.c", 5)),
            (0x2025, frame("qux", "q.c", 1)),
            (0x2025, frame("bar", "b.c", 42)),
        ]
    );
}

#[test]
fn resolving_twice_gives_the_same_frames() {
    let info = info_of(vec![Some(two_procedures())], names());
    let resolver = FrameResolver::new(vec![0x1025, 0x2025, 0x1005]);
    let first = resolver.resolve(&info);
    let second = resolver.resolve(&info);
    assert_eq!(first, second);
    assert_eq!(first.len(), 6);
}

#[test]
fn missing_inlinee_is_passed_over() {
    let mut with_gap = two_procedures();
    with_gap.symbols[2] = SymbolRecord::InlineSiteBegin { inlinee_id: 99 };
    let mut plain = two_procedures();
    plain.symbols[2] = SymbolRecord::ScopeBegin;
    let resolver = FrameResolver::new(vec![0x1025, 0x2025]);
    let frames = resolver.resolve(&info_of(vec![Some(with_gap)], names()));
    assert_eq!(
        frames,
        vec![
            (0x1025, frame("foo", "a.c", 11)),
            (0x1025, frame("baz", "c.c", 5)),
            (0x2025, frame("qux", "q.c", 1)),
            (0x2025, frame("bar", "b.c", 42)),
        ]
    );
    assert_eq!(frames, resolver.resolve(&info_of(vec![Some(plain)], names())));
}

#[test]
fn missing_identifier_gives_the_unknown_name() {
    let mut identifiers = IdentifierCatalog::new();
    identifiers.push(8, IdentifierKind::Function { name: "baz".to_string() });
    identifiers.push(7, IdentifierKind::Other);
    let info = info_of(vec![Some(two_procedures())], identifiers);
    let frames = FrameResolver::new(vec![0x1025]).resolve(&info);
    assert_eq!(
        frames,
        vec![
            (0x1025, frame("foo", "a.c", 11)),
            (0x1025, frame("unknown_inline_function", "b.c", 42)),
            (0x1025, frame("baz", "c.c", 5)),
        ]
    );
}

#[test]
fn missing_module_is_passed_over() {
    let info = info_of(vec![None, Some(two_procedures()), None], names());
    let frames = FrameResolver::new(vec![0x2001]).resolve(&info);
    assert_eq!(frames, vec![(0x2001, frame("qux", "q.c", 1))]);
    assert_eq!(FrameResolver::new(vec![0x2001]).resolve(&info_of(vec![None], names())), vec![]);
    assert_eq!(FrameResolver::new(vec![0x2001]).resolve(&info_of(vec![], names())), vec![]);
}

#[test]
fn modules_are_resolved_in_turn() {
    let second = Module {
        symbols: vec![procedure("dup", 0x1000, 0x40), SymbolRecord::ProcedureEnd],
        lines: LineTable { records: vec![row(0x1000, "d.c", 3, None)] },
        inlinees: InlineeCatalog::new(),
    };
    let info = info_of(vec![Some(second), Some(two_procedures())], names());
    let frames = FrameResolver::new(vec![0x1005]).resolve(&info);
    assert_eq!(
        frames,
        vec![(0x1005, frame("dup", "d.c", 3)), (0x1005, frame("foo", "a.c", 10))]
    );
}

#[test]
fn procedure_that_does_not_translate_is_passed_over() {
    let mut translator = AddressTranslator::new();
    translator.map_region(0x2000, 0x1000, 0x8000);
    let info = DebugInfo {
        modules: vec![Some(two_procedures())],
        translator,
        identifiers: names(),
    };
    let frames = FrameResolver::new(vec![0x1025, 0x8025, 0x2025]).resolve(&info);
    assert_eq!(
        frames,
        vec![(0x8025, frame("qux", "q.c", 1)), (0x8025, frame("bar", "b.c", 42))]
    );
}

#[test]
fn line_rows_that_do_not_translate_are_dropped() {
    let mut translator = AddressTranslator::new();
    translator.map_region(0x1000, 0x10, 0x1000);
    translator.map_region(0x1020, 0x100, 0x1020);
    let info = DebugInfo {
        modules: vec![Some(two_procedures())],
        translator,
        identifiers: names(),
    };
    let frames = FrameResolver::new(vec![0x1028]).resolve(&info);
    assert_eq!(
        frames,
        vec![(0x1028, frame("foo", "a.c", 10)), (0x1028, frame("bar", "b.c", 42))]
    );
}

#[test]
fn inline_site_outside_every_procedure_gives_nothing() {
    let mut inlinees = InlineeCatalog::new();
    inlinees.insert(7, LineTable { records: vec![row(0x20, "b.c", 42, Some(0x10))] });
    let module = Module {
        symbols: vec![SymbolRecord::InlineSiteBegin { inlinee_id: 7 }, SymbolRecord::ScopeEnd],
        lines: LineTable { records: vec![] },
        inlinees,
    };
    let frames = FrameResolver::new(vec![0x25]).resolve(&info_of(vec![Some(module)], names()));
    assert_eq!(frames, vec![]);
}

#[test]
fn inline_site_is_anchored_at_the_innermost_procedure() {
    let mut inlinees = InlineeCatalog::new();
    inlinees.insert(7, LineTable { records: vec![row(0x8, "b.c", 42, Some(4))] });
    let module = Module {
        symbols: vec![
            procedure("outer", 0x1000, 0x100),
            procedure("inner", 0x3000, 0x100),
            SymbolRecord::InlineSiteBegin { inlinee_id: 7 },
            SymbolRecord::ScopeEnd,
            SymbolRecord::ProcedureEnd,
            SymbolRecord::InlineSiteBegin { inlinee_id: 7 },
            SymbolRecord::ScopeEnd,
            SymbolRecord::ProcedureEnd,
        ],
        lines: LineTable { records: vec![] },
        inlinees,
    };
    let frames =
        FrameResolver::new(vec![0x3009, 0x1009]).resolve(&info_of(vec![Some(module)], names()));
    assert_eq!(
        frames,
        vec![(0x3009, frame("bar", "b.c", 42)), (0x1009, frame("bar", "b.c", 42))]
    );
}

#[test]
fn malformed_stream_is_refused() {
    let module = Module {
        symbols: vec![procedure("foo", 0x1000, 0x100), SymbolRecord::ProcedureEnd, SymbolRecord::ScopeEnd],
        lines: LineTable { records: vec![row(0x1000, "a.c", 10, None)] },
        inlinees: InlineeCatalog::new(),
    };
    assert!(!module.is_walkable());
    let info = info_of(vec![None, Some(module)], names());
    assert!(!info.is_walkable());
    assert_eq!(FrameResolver::new(vec![0x1000]).try_resolve(&info), None);
}

#[test]
fn try_resolve_resolves_what_can_be_walked() {
    let info = info_of(vec![Some(two_procedures())], names());
    assert!(info.is_walkable());
    let resolver = FrameResolver::new(vec![0x2001]);
    assert_eq!(resolver.try_resolve(&info), Some(vec![(0x2001, frame("qux", "q.c", 1))]));
    assert_eq!(resolver.targets, vec![0x2001]);
}

#[test]
fn resolve_module_and_record() {
    let module = two_procedures();
    let translator = AddressTranslator::identity();
    let identifiers = names();
    let resolver = FrameResolver::new(vec![0x1025]);
    assert_eq!(
        resolver.resolve_module(&module, &translator, &identifiers),
        vec![
            (0x1025, frame("foo", "a.c", 11)),
            (0x1025, frame("bar", "b.c", 42)),
            (0x1025, frame("baz", "c.c", 5)),
        ]
    );
    let site = SymbolRecord::InlineSiteBegin { inlinee_id: 7 };
    assert_eq!(
        resolver.resolve_record(
            &site,
            Some(0x1000),
            &module.lines,
            &module.inlinees,
            &translator,
            &identifiers
        ),
        vec![(0x1025, frame("bar", "b.c", 42))]
    );
    assert_eq!(
        resolver.resolve_record(
            &site,
            None,
            &module.lines,
            &module.inlinees,
            &translator,
            &identifiers
        ),
        vec![]
    );
    assert_eq!(
        resolver.resolve_record(
            &SymbolRecord::Other,
            Some(0x1000),
            &module.lines,
            &module.inlinees,
            &translator,
            &identifiers
        ),
        vec![]
    );
}

#[test]
fn procedure_reads_its_own_rows_only() {
    let module = Module {
        symbols: vec![
            procedure("first", 0x1000, 0x100),
            SymbolRecord::ProcedureEnd,
            procedure("second", 0x1100, 0x100),
            SymbolRecord::ProcedureEnd,
            procedure("third", 0x1200, 0x100),
            SymbolRecord::ProcedureEnd,
        ],
        lines: LineTable {
            records: vec![
                row(0x1000, "a.c", 1, None),
                row(0x1080, "a.c", 2, None),
                row(0x1240, "a.c", 3, None),
            ],
        },
        inlinees: InlineeCatalog::new(),
    };
    let info = info_of(vec![Some(module)], names());
    let frames = FrameResolver::new(vec![0x10f0, 0x1150, 0x1210, 0x1250]).resolve(&info);
    assert_eq!(
        frames,
        vec![(0x10f0, frame("first", "a.c", 2)), (0x1250, frame("third", "a.c", 3))]
    );
}

#[test]
fn procedure_range_follows_the_translation() {
    let mut translator = AddressTranslator::new();
    translator.map_region(0x1000, 0x100, 0x7000);
    let module = Module {
        symbols: vec![procedure("moved", 0x1000, 0x100), SymbolRecord::ProcedureEnd],
        lines: LineTable {
            records: vec![row(0x1000, "a.c", 1, None), row(0x1010, "a.c", 2, None)],
        },
        inlinees: InlineeCatalog::new(),
    };
    let info = DebugInfo { modules: vec![Some(module)], translator, identifiers: names() };
    let frames = FrameResolver::new(vec![0x1010, 0x7010, 0x70ff, 0x7100]).resolve(&info);
    assert_eq!(
        frames,
        vec![(0x7010, frame("moved", "a.c", 2)), (0x70ff, frame("moved", "a.c", 2))]
    );
}

#[test]
fn every_frame_answers_a_target() {
    let info = info_of(vec![Some(two_procedures())], names());
    let targets = vec![0x1025, 0x5000, 0x2025, 0x1005];
    let frames = FrameResolver::new(targets.clone()).resolve(&info);
    assert_eq!(frames.len(), 6);
    for (address, _) in &frames {
        assert!(targets.contains(address));
    }
    assert!(frames.iter().all(|(address, _)| *address != 0x5000));
}
