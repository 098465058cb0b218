use branch_hints::hints::{parse_hint_text, HintDirection, HintEntry, HintTable, ParseError};

fn parse(text: &str) -> Result<HintTable, ParseError> {
    let bytes: Vec<u8> = text.as_bytes().to_vec();
    parse_hint_text(&bytes)
}

#[test]
fn parses_one_function_one_branch() {
    let t = parse("0\n\t4 1\n").unwrap();
    assert_eq!(t.entries.len(), 1);
    assert_eq!(
        t.entries[0],
        HintEntry { func: 0, offset: 4, dir: HintDirection::Likely }
    );
}

#[test]
fn parses_several_functions_and_directions() {
    let t = parse("0\n\t4 1\n\t9 0\n2\n\t0 1\n").unwrap();
    assert_eq!(t.entries.len(), 3);
    assert_eq!(
        t.entries[0],
        HintEntry { func: 0, offset: 4, dir: HintDirection::Likely }
    );
    assert_eq!(
        t.entries[1],
        HintEntry { func: 0, offset: 9, dir: HintDirection::Unlikely }
    );
    assert_eq!(
        t.entries[2],
        HintEntry { func: 2, offset: 0, dir: HintDirection::Likely }
    );
}

#[test]
fn accepts_carriage_returns_and_no_trailing_newline() {
    let t = parse("0\r\n\t4 1\r\n\t7 0").unwrap();
    assert_eq!(t.entries.len(), 2);
    assert_eq!(
        t.entries[1],
        HintEntry { func: 0, offset: 7, dir: HintDirection::Unlikely }
    );
}

#[test]
fn header_without_branches_is_fine() {
    let t = parse("0\n1\n\t3 0\n").unwrap();
    assert_eq!(t.entries.len(), 1);
    assert_eq!(
        t.entries[0],
        HintEntry { func: 1, offset: 3, dir: HintDirection::Unlikely }
    );
}

#[test]
fn later_line_for_same_offset_wins() {
    let t = parse("0\n\t4 1\n\t4 0\n").unwrap();
    assert_eq!(t.entries.len(), 1);
    assert_eq!(
        t.entries[0],
        HintEntry { func: 0, offset: 4, dir: HintDirection::Unlikely }
    );
}

#[test]
fn rejects_empty_line() {
    assert_eq!(parse("0\n\n\t4 1\n").unwrap_err(), ParseError::MalformedLine);
}

#[test]
fn rejects_branch_before_function_header() {
    assert_eq!(parse("\t4 1\n0\n").unwrap_err(), ParseError::BranchBeforeFunction);
}

#[test]
fn rejects_duplicate_function_header() {
    assert_eq!(parse("0\n\t4 1\n0\n\t5 1\n").unwrap_err(), ParseError::DuplicateFunction);
}

#[test]
fn rejects_non_numeric_fields() {
    assert_eq!(parse("zero\n").unwrap_err(), ParseError::BadNumber);
    assert_eq!(parse("0\n\tx 1\n").unwrap_err(), ParseError::BadNumber);
    assert_eq!(parse("0\n\t4 x\n").unwrap_err(), ParseError::BadNumber);
    assert_eq!(parse("4294967296\n").unwrap_err(), ParseError::BadNumber);
}

#[test]
fn rejects_direction_other_than_zero_or_one() {
    assert_eq!(parse("0\n\t4 2\n").unwrap_err(), ParseError::BadDirection);
}

#[test]
fn rejects_branch_line_without_space() {
    assert_eq!(parse("0\n\t41\n").unwrap_err(), ParseError::MalformedLine);
}

#[test]
fn tolerates_extra_spaces_around_direction() {
    let t = parse("0\n\t4  1 \n").unwrap();
    assert_eq!(
        t.entries[0],
        HintEntry { func: 0, offset: 4, dir: HintDirection::Likely }
    );
}

#[test]
fn resolve_hits_and_misses() {
    let t = parse("0\n\t4 1\n\t9 0\n").unwrap();
    assert_eq!(t.resolve(0, 4), Some(HintDirection::Likely));
    assert_eq!(t.resolve(0, 9), Some(HintDirection::Unlikely));
    assert_eq!(t.resolve(0, 5), None);
    assert_eq!(t.resolve(1, 4), None);
}

#[test]
fn insert_replaces_same_key() {
    let mut t = HintTable::new();
    t.insert(HintEntry { func: 3, offset: 8, dir: HintDirection::Likely });
    t.insert(HintEntry { func: 3, offset: 9, dir: HintDirection::Likely });
    t.insert(HintEntry { func: 3, offset: 8, dir: HintDirection::Unlikely });
    assert_eq!(t.entries.len(), 2);
    assert_eq!(t.resolve(3, 8), Some(HintDirection::Unlikely));
    assert_eq!(t.resolve(3, 9), Some(HintDirection::Likely));
}

#[test]
fn empty_text_gives_empty_table() {
    let t = parse("").unwrap();
    assert_eq!(t.entries.len(), 0);
    assert_eq!(t.resolve(0, 0), None);
}

#[test]
fn resolve_misses_offsets_past_u32() {
    let t = parse("0\n\t4 1\n").unwrap();
    assert_eq!(t.resolve(0, 4 + (1u64 << 32)), None);
}

#[test]
fn accepts_maximal_u32_fields() {
    let t = parse("4294967295\n\t4294967295 1\n").unwrap();
    assert_eq!(
        t.entries[0],
        HintEntry { func: u32::MAX, offset: u32::MAX, dir: HintDirection::Likely }
    );
}
