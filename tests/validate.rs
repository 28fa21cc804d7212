use dagcheck::input::{validate_dag, Exit};

#[test]
fn no_cycle() {
    let input = "\
AB
BD
DF
";
    let buf = input.as_bytes();
    let result = validate_dag(buf);
    assert_eq!(result, (Exit::NoCycle, None));
}

#[test]
fn cycle_simple() {
    let input = "\
AB
BC
CA
";
    let buf = input.as_bytes();
    let result = validate_dag(buf);
    assert_eq!(result.0, Exit::Cycle);
    assert!(result.1.is_some());
    let cycle = result.1.unwrap();
    assert!(cycle == "ABC" || cycle == "BCA" || cycle == "CAB");
}

#[test]
fn cycle_small() {
    let input = "\
BA
AB
";
    let buf = input.as_bytes();
    let result = validate_dag(buf);
    assert_eq!(result.0, Exit::Cycle);
    assert!(result.1.is_some());
    let cycle = result.1.unwrap();
    assert!(cycle == "AB" || cycle == "BA");
}

#[test]
fn cycle_single_node() {
    let input = "\
AA
";
    let buf = input.as_bytes();
    let result = validate_dag(buf);
    assert_eq!(result, (Exit::Cycle, Some("A".to_string())));
}

#[test]
fn cycle_large() {
    let input = "\
AB
BD
CM
DF
EF
CE
CD
FG
FH
FI
FJ
FK
HL
IL
JL
EL
LD
JK
ZF
ZJ
BI
LK
";
    let buf = input.as_bytes();
    let result = validate_dag(buf);
    assert_eq!(result.0, Exit::Cycle);
    assert!(result.1.is_some());
    let cycle = result.1.unwrap();
    assert!(cycle == "HLDF" || cycle == "LDFH" || cycle == "DFHL" || cycle == "FHLD");
}

// A line with a single character is invalid input.
#[test]
fn invalid_input_short() {
    let input = "\
A
b
bA
";
    let buf = input.as_bytes();
    let result = validate_dag(buf);
    assert_eq!(result, (Exit::InvalidInput, None));
}

#[test]
fn input_long() {
    let input = "\
AB
BA
";
    let buf = input.as_bytes();
    let result = validate_dag(buf);
    assert_eq!(result.0, Exit::Cycle);
    assert!(result.1.is_some());
    let cycle = result.1.unwrap();
    assert!(cycle == "AB" || cycle == "BA");
}

#[test]
fn unicode_scalars_valid_cycle() {
    let input = "\
y\u{306}
\u{306}y
";
    let buf = input.as_bytes();
    let result = validate_dag(buf);

    assert_eq!(result.0, Exit::Cycle);
    assert!(result.1.is_some());
    let cycle = result.1.unwrap();
    assert!(cycle == "y\u{306}" || cycle == "\u{306}y");
}

#[test]
fn empty_input_has_no_cycle() {
    assert_eq!(validate_dag(b""), (Exit::NoCycle, None));
}

#[test]
fn empty_line_is_invalid() {
    assert_eq!(validate_dag(b"AB\n\nBA\n"), (Exit::InvalidInput, None));
}

#[test]
fn carriage_return_line_end_is_dropped() {
    assert_eq!(validate_dag(b"AB\r\nBC\r\n"), (Exit::NoCycle, None));
    assert_eq!(validate_dag(b"A\r\n"), (Exit::InvalidInput, None));
}

#[test]
fn third_character_is_ignored() {
    assert_eq!(validate_dag(b"ABA\nBCB\n"), (Exit::NoCycle, None));
}

#[test]
fn last_line_without_line_feed() {
    let result = validate_dag(b"AB\nBA");
    assert_eq!(result.0, Exit::Cycle);
    let cycle = result.1.unwrap();
    assert!(cycle == "AB" || cycle == "BA");
}

#[test]
fn invalid_utf8_is_invalid_input() {
    assert_eq!(validate_dag(&[0x41, 0xff, 0x0a]), (Exit::InvalidInput, None));
    assert_eq!(validate_dag(&[0xc0, 0x80, 0x41, 0x0a]), (Exit::InvalidInput, None));
}

#[test]
fn self_loop_wins_over_longer_cycle() {
    let result = validate_dag(b"AB\nBC\nCA\nBB\n");
    assert_eq!(result, (Exit::Cycle, Some("B".to_string())));
}

#[test]
fn cycle_without_entry_point_is_found() {
    let result = validate_dag(b"XY\nYZ\nZX\n");
    assert_eq!(result.0, Exit::Cycle);
    let cycle = result.1.unwrap();
    assert!(cycle == "XYZ" || cycle == "YZX" || cycle == "ZXY");
}

#[test]
fn repeated_edges_are_harmless() {
    assert_eq!(validate_dag(b"AB\nAB\nBC\nAC\n"), (Exit::NoCycle, None));
}

#[test]
fn same_input_same_result() {
    let input = b"AB\nBD\nCM\nDF\nEF\nCE\nCD\nFG\nFH\nFI\nFJ\nFK\nHL\nIL\nJL\nEL\nLD\nJK\nZF\nZJ\nBI\nLK\n";
    let first = validate_dag(input);
    let second = validate_dag(input);
    assert_eq!(first, second);
}
