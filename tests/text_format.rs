use cmt_software::circuit::{ArithCircuit, Gate};
use cmt_software::protocol::run_protocol;
use cmt_software::text::{parse_circuit, parse_gate_item, parse_line, parse_number, split_bytes, split_words, ParseError};

#[test]
fn parses_the_product_of_sums() {
    let layers = parse_circuit(b"0,1,*\n0,1,+ 2,3,+\n2 3 4 5\n").ok().unwrap();
    assert_eq!(layers.len(), 3);
    assert_eq!(layers[0], vec![Gate::new(0, 1, false, 0)]);
    assert_eq!(layers[1], vec![Gate::new(0, 1, true, 0), Gate::new(2, 3, true, 0)]);
    assert_eq!(layers[2].iter().map(|g| g.val()).collect::<Vec<u64>>(), vec![2, 3, 4, 5]);
    let c = ArithCircuit::new(layers, 101).ok().unwrap();
    assert_eq!(c.get_layer(0)[0].val(), 45);
    assert!(run_protocol(&c));
}

#[test]
fn blank_runs_and_carriage_returns() {
    let layers = parse_circuit(b"  0,0,+\t\r\n 7   8 \r\n").ok().unwrap();
    assert_eq!(layers.len(), 2);
    assert_eq!(layers[0], vec![Gate::new(0, 0, true, 0)]);
    assert_eq!(layers[1].iter().map(|g| g.val()).collect::<Vec<u64>>(), vec![7, 8]);
}

#[test]
fn lines_without_final_newline_and_empty_lines() {
    let layers = parse_circuit(b"1 2\n\n3").ok().unwrap();
    assert_eq!(layers.len(), 3);
    assert_eq!(layers[1].len(), 0);
    assert_eq!(parse_circuit(b"").ok().unwrap().len(), 0);
    assert_eq!(parse_circuit(b"\n").ok().unwrap().len(), 1);
}

#[test]
fn bad_operation_is_reported_with_its_line() {
    assert_eq!(parse_circuit(b"0,1,+\n0,1,-\n1 2\n"), Err(ParseError::BadLine { line: 1 }));
}

#[test]
fn wrong_field_count_is_reported() {
    assert_eq!(parse_circuit(b"0,1\n1 2\n"), Err(ParseError::BadLine { line: 0 }));
    assert_eq!(parse_circuit(b"0,1,+,2\n1 2\n"), Err(ParseError::BadLine { line: 0 }));
}

#[test]
fn bad_input_value_is_reported() {
    assert_eq!(parse_circuit(b"0,1,+\n1 x\n"), Err(ParseError::BadLine { line: 1 }));
    assert_eq!(parse_circuit(b"0,1,+\n1 18446744073709551616\n"), Err(ParseError::BadLine { line: 1 }));
}

#[test]
fn numbers() {
    assert_eq!(parse_number(b"18446744073709551615", u64::MAX), Some(u64::MAX));
    assert_eq!(parse_number(b"18446744073709551616", u64::MAX), None);
    assert_eq!(parse_number(b"0042", u64::MAX), Some(42));
    assert_eq!(parse_number(b"256", 255), None);
    assert_eq!(parse_number(b"", 255), None);
    assert_eq!(parse_number(b"1a", 255), None);
}

#[test]
fn gate_items() {
    assert_eq!(parse_gate_item(b"12,3,*"), Some(Gate::new(12, 3, false, 0)));
    assert_eq!(parse_gate_item(b"1,2,++"), None);
    assert_eq!(parse_gate_item(b",2,+"), None);
}

#[test]
fn lines_and_words() {
    assert_eq!(parse_line(b"4 5").unwrap().len(), 2);
    assert_eq!(parse_line(b"4, 5"), None);
    assert_eq!(split_bytes(b"a,,b", 44), vec![b"a".to_vec(), vec![], b"b".to_vec()]);
    assert_eq!(split_words(b" ab  c "), vec![b"ab".to_vec(), b"c".to_vec()]);
}
