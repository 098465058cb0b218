use branch_hints::hints::HintDirection;
use branch_hints::section::{BranchHintsSection, BranchRecord, FunctionHints};

const NAME: &[u8] = b"branchHints";

#[test]
fn writes_empty_section() {
    let s = BranchHintsSection { functions: Vec::new() };
    let bytes = s.write();
    // id 0, payload size 13: name length, 11 name bytes, function count 0
    let mut expected: Vec<u8> = vec![0x00, 0x0d, 0x0b];
    expected.extend_from_slice(NAME);
    expected.push(0x00);
    assert_eq!(bytes, expected);
}

#[test]
fn writes_one_function_one_branch() {
    let s = BranchHintsSection {
        functions: vec![FunctionHints {
            function_index: 0,
            branches: vec![BranchRecord { dir: HintDirection::Likely, offset: 4 }],
        }],
    };
    let bytes = s.write();
    let mut expected: Vec<u8> = vec![0x00, 0x12, 0x0b];
    expected.extend_from_slice(NAME);
    // func count, func index, reserved, branch count, direction, offset
    expected.extend_from_slice(&[0x01, 0x00, 0x00, 0x01, 0x01, 0x04]);
    assert_eq!(bytes, expected);
}

#[test]
fn writes_functions_in_order_with_varint_fields() {
    let s = BranchHintsSection {
        functions: vec![
            FunctionHints {
                function_index: 1,
                branches: vec![
                    BranchRecord { dir: HintDirection::Unlikely, offset: 2 },
                    BranchRecord { dir: HintDirection::Likely, offset: 300 },
                ],
            },
            FunctionHints {
                function_index: 200,
                branches: vec![BranchRecord { dir: HintDirection::Likely, offset: 0 }],
            },
        ],
    };
    let bytes = s.write();
    let mut expected: Vec<u8> = vec![0x00];
    let mut payload: Vec<u8> = vec![0x0b];
    payload.extend_from_slice(NAME);
    payload.push(0x02);
    // function 1: index, reserved, two branches; offset 300 is 0xac 0x02
    payload.extend_from_slice(&[0x01, 0x00, 0x02, 0x00, 0x02, 0x01, 0xac, 0x02]);
    // function 200: index is 0xc8 0x01
    payload.extend_from_slice(&[0xc8, 0x01, 0x00, 0x01, 0x01, 0x00]);
    expected.push(payload.len() as u8);
    expected.extend_from_slice(&payload);
    assert_eq!(bytes, expected);
}
