use branch_hints::hints::{HintDirection, HintEntry, HintTable};
use branch_hints::scan::{apply_events, OpAt, ScanEvent, TransformError};

fn table_with(func: u32, offset: u32, dir: HintDirection) -> HintTable {
    let mut t = HintTable::new();
    t.insert(HintEntry { func, offset, dir });
    t
}

#[test]
fn no_events_and_no_hints_returns_input() {
    let bytes: Vec<u8> = vec![1, 2, 3];
    let events: Vec<ScanEvent> = Vec::new();
    let out = apply_events(&bytes, &events, &HintTable::new()).unwrap();
    assert_eq!(out, bytes);
}

#[test]
fn splices_section_at_derived_offset() {
    // content starts at 2, size 0 encodes in one byte: header starts at 0
    let bytes: Vec<u8> = vec![9, 9, 9, 9];
    let events: Vec<ScanEvent> = vec![
        ScanEvent::CodeStart { content_start: 2, content_end: 2 },
        ScanEvent::Body { ops_start: 10, ops: vec![OpAt { hintable: true, pos: 15 }] },
    ];
    let table = table_with(0, 5, HintDirection::Likely);
    let out = apply_events(&bytes, &events, &table).unwrap();
    let mut expected: Vec<u8> = vec![0x00, 0x12, 0x0b];
    expected.extend_from_slice(b"branchHints");
    expected.extend_from_slice(&[0x01, 0x00, 0x00, 0x01, 0x01, 0x05]);
    expected.extend_from_slice(&bytes);
    assert_eq!(out, expected);
}

#[test]
fn non_hintable_instructions_never_match() {
    let bytes: Vec<u8> = vec![9, 9, 9, 9];
    let events: Vec<ScanEvent> = vec![
        ScanEvent::CodeStart { content_start: 2, content_end: 2 },
        ScanEvent::Body { ops_start: 10, ops: vec![OpAt { hintable: false, pos: 15 }] },
    ];
    let table = table_with(0, 5, HintDirection::Likely);
    assert_eq!(apply_events(&bytes, &events, &table).unwrap(), bytes);
}

#[test]
fn imports_after_code_fail_fast() {
    let bytes: Vec<u8> = vec![9, 9, 9, 9];
    let events: Vec<ScanEvent> = vec![
        ScanEvent::CodeStart { content_start: 2, content_end: 2 },
        ScanEvent::Imports(vec![true]),
    ];
    assert_eq!(
        apply_events(&bytes, &events, &HintTable::new()).unwrap_err(),
        TransformError::ImportsAfterCode
    );
}

#[test]
fn duplicate_sections_are_rejected() {
    let bytes: Vec<u8> = vec![9, 9, 9, 9];
    let events: Vec<ScanEvent> =
        vec![ScanEvent::Imports(vec![true]), ScanEvent::Imports(vec![true])];
    assert_eq!(
        apply_events(&bytes, &events, &HintTable::new()).unwrap_err(),
        TransformError::DuplicateImportSection
    );
    let events: Vec<ScanEvent> = vec![
        ScanEvent::CodeStart { content_start: 2, content_end: 2 },
        ScanEvent::CodeStart { content_start: 2, content_end: 2 },
    ];
    assert_eq!(
        apply_events(&bytes, &events, &HintTable::new()).unwrap_err(),
        TransformError::DuplicateCodeSection
    );
}

#[test]
fn body_outside_code_section_is_rejected() {
    let bytes: Vec<u8> = vec![9, 9, 9, 9];
    let events: Vec<ScanEvent> = vec![ScanEvent::Body { ops_start: 0, ops: Vec::new() }];
    assert_eq!(
        apply_events(&bytes, &events, &HintTable::new()).unwrap_err(),
        TransformError::BodyOutsideCodeSection
    );
}

#[test]
fn code_header_outside_module_is_rejected() {
    let bytes: Vec<u8> = vec![9, 9, 9, 9];
    // header would start before byte 0
    let events: Vec<ScanEvent> = vec![ScanEvent::CodeStart { content_start: 0, content_end: 0 }];
    assert_eq!(
        apply_events(&bytes, &events, &HintTable::new()).unwrap_err(),
        TransformError::BadCodeSectionHeader
    );
    // header would start past the end of the module
    let events: Vec<ScanEvent> = vec![ScanEvent::CodeStart { content_start: 100, content_end: 100 }];
    assert_eq!(
        apply_events(&bytes, &events, &HintTable::new()).unwrap_err(),
        TransformError::BadCodeSectionHeader
    );
}

#[test]
fn errors_do_not_depend_on_the_table() {
    let bytes: Vec<u8> = vec![9, 9, 9, 9];
    let events: Vec<ScanEvent> = vec![
        ScanEvent::CodeStart { content_start: 2, content_end: 2 },
        ScanEvent::Imports(vec![true]),
    ];
    let with_hints = table_with(0, 5, HintDirection::Likely);
    assert_eq!(
        apply_events(&bytes, &events, &HintTable::new()).unwrap_err(),
        apply_events(&bytes, &events, &with_hints).unwrap_err()
    );
}
