use pdb_frames::{
    AddressTranslator, DebugInfo, Frame, FrameResolver, IdentifierCatalog, IdentifierKind,
    InlineeCatalog, LineRecord, LineTable, Module, SymbolRecord,
};

fn row(offset: u64, file: &str, line: u32, length: Option<u64>) -> LineRecord {
    LineRecord { offset, file: file.to_string(), line, length }
}

fn frame(function_name: &str, file: &str, line: u64) -> Frame {
    Frame { function_name: function_name.to_string(), file: file.to_string(), line }
}

fn foo_alone() -> DebugInfo {
    let module = Module {
        symbols: vec![
            SymbolRecord::ProcedureStart { name: "foo".to_string(), offset: 0x1000, length: 0x100 },
            SymbolRecord::ProcedureEnd,
        ],
        lines: LineTable { records: vec![row(0x1000, "a.c", 10, None)] },
        inlinees: InlineeCatalog::new(),
    };
    DebugInfo {
        modules: vec![Some(module)],
        translator: AddressTranslator::identity(),
        identifiers: IdentifierCatalog::new(),
    }
}

fn foo_with_inlined_bar(identifiers: IdentifierCatalog) -> DebugInfo {
    let mut inlinees = InlineeCatalog::new();
    inlinees.insert(7, LineTable { records: vec![row(0x20, "b.c", 42, Some(0x10))] });
    let module = Module {
        symbols: vec![
            SymbolRecord::ProcedureStart { name: "foo".to_string(), offset: 0x1000, length: 0x100 },
            SymbolRecord::InlineSiteBegin { inlinee_id: 7 },
            SymbolRecord::ScopeEnd,
            SymbolRecord::ProcedureEnd,
        ],
        lines: LineTable { records: vec![row(0x1000, "a.c", 10, None)] },
        inlinees,
    };
    DebugInfo { modules: vec![Some(module)], translator: AddressTranslator::identity(), identifiers }
}

#[test]
fn procedure_with_one_line_record() {
    let frames = FrameResolver::new(vec![0x1050]).resolve(&foo_alone());
    assert_eq!(frames, vec![(0x1050, frame("foo", "a.c", 10))]);
}

#[test]
fn procedure_range_is_half_open() {
    let info = foo_alone();
    assert_eq!(
        FrameResolver::new(vec![0x1000]).resolve(&info),
        vec![(0x1000, frame("foo", "a.c", 10))]
    );
    assert_eq!(
        FrameResolver::new(vec![0x10ff]).resolve(&info),
        vec![(0x10ff, frame("foo", "a.c", 10))]
    );
    assert_eq!(FrameResolver::new(vec![0x1100]).resolve(&info), vec![]);
    assert_eq!(FrameResolver::new(vec![0xfff]).resolve(&info), vec![]);
}

#[test]
fn inline_site_adds_a_frame() {
    let mut identifiers = IdentifierCatalog::new();
    identifiers.push(7, IdentifierKind::Function { name: "bar".to_string() });
    let frames = FrameResolver::new(vec![0x1025]).resolve(&foo_with_inlined_bar(identifiers));
    assert_eq!(
        frames,
        vec![(0x1025, frame("foo", "a.c", 10)), (0x1025, frame("bar", "b.c", 42))]
    );
}

#[test]
fn inline_site_does_not_reach_outside_its_range() {
    let mut identifiers = IdentifierCatalog::new();
    identifiers.push(7, IdentifierKind::Function { name: "bar".to_string() });
    let info = foo_with_inlined_bar(identifiers);
    assert_eq!(
        FrameResolver::new(vec![0x101f]).resolve(&info),
        vec![(0x101f, frame("foo", "a.c", 10))]
    );
    assert_eq!(
        FrameResolver::new(vec![0x1020]).resolve(&info),
        vec![(0x1020, frame("foo", "a.c", 10)), (0x1020, frame("bar", "b.c", 42))]
    );
    assert_eq!(
        FrameResolver::new(vec![0x102f]).resolve(&info),
        vec![(0x102f, frame("foo", "a.c", 10)), (0x102f, frame("bar", "b.c", 42))]
    );
    assert_eq!(
        FrameResolver::new(vec![0x1030]).resolve(&info),
        vec![(0x1030, frame("foo", "a.c", 10))]
    );
}

#[test]
fn inline_site_without_identifier_is_unknown() {
    let frames =
        FrameResolver::new(vec![0x1025]).resolve(&foo_with_inlined_bar(IdentifierCatalog::new()));
    assert_eq!(
        frames,
        vec![
            (0x1025, frame("foo", "a.c", 10)),
            (0x1025, frame("unknown_inline_function", "b.c", 42)),
        ]
    );
}

#[test]
fn address_outside_every_procedure() {
    assert_eq!(FrameResolver::new(vec![0x2000]).resolve(&foo_alone()), vec![]);
    let mut identifiers = IdentifierCatalog::new();
    identifiers.push(7, IdentifierKind::Function { name: "bar".to_string() });
    assert_eq!(
        FrameResolver::new(vec![0x2000]).resolve(&foo_with_inlined_bar(identifiers)),
        vec![]
    );
}

#[test]
fn no_targets_no_frames() {
    assert_eq!(FrameResolver::new(vec![]).resolve(&foo_alone()), vec![]);
}
