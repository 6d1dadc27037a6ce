use schrage::engine::{schrage_custom_heaps, schrage_custom_heaps_cmax};
use schrage::fixture::{parse_decimal, parse_test_file, split_fields, split_lines};
use schrage::scan::{schrage_vecs_sort_q_cmax, schrage_vecs_sort_r_cmax};
use schrage::task::Task;

const FIXTURE: &str = "data.1:\n7\n30 3 8\n20 4 21\n10 5 7\n11 7 24\n30 2 0\n13 6 26\n0 6 17\n\nschrpmtn:\n49\nschr:\n53\n7 3 6 4 2 1 5\n\ndata.2:\n2\n0 10 1\n2 3 50\n\nschrpmtn:\n55\nschr:\n63\n1 2\n";

fn bytes(s: &str) -> Vec<u8> {
    s.as_bytes().to_vec()
}

#[test]
fn fixture_blocks_are_read() {
    let cases = parse_test_file(&bytes(FIXTURE)).unwrap();
    assert_eq!(cases.len(), 2);
    let first = &cases[0];
    assert_eq!(first.data_name, bytes("data.1:"));
    assert_eq!(first.data_size, 7);
    assert_eq!(first.data.len(), 7);
    assert_eq!(first.data[0], Task::new(30, 3, 8));
    assert_eq!(first.data[6], Task::new(0, 6, 17));
    assert_eq!(first.cmax_preemptive, 49);
    assert_eq!(first.cmax, 53);
    assert_eq!(
        first.order,
        vec![
            Task::new(0, 6, 17),
            Task::new(10, 5, 7),
            Task::new(13, 6, 26),
            Task::new(11, 7, 24),
            Task::new(20, 4, 21),
            Task::new(30, 3, 8),
            Task::new(30, 2, 0),
        ]
    );
    assert_eq!(cases[1].data, vec![Task::new(0, 10, 1), Task::new(2, 3, 50)]);
    assert_eq!(cases[1].order, vec![Task::new(0, 10, 1), Task::new(2, 3, 50)]);
    assert_eq!(cases[1].cmax, 63);
}

#[test]
fn fixture_cases_match_the_engines() {
    for case in parse_test_file(&bytes(FIXTURE)).unwrap() {
        assert_eq!(schrage_custom_heaps_cmax(case.data.clone()), case.cmax);
        assert_eq!(schrage_vecs_sort_q_cmax(case.data.clone()), case.cmax);
        assert_eq!(schrage_vecs_sort_r_cmax(case.data.clone()), case.cmax);
        let (order, _) = schrage_custom_heaps(case.data.clone());
        assert_eq!(order, case.order);
    }
}

#[test]
fn fixture_with_crlf_endings() {
    let text = FIXTURE.replace('\n', "\r\n");
    let cases = parse_test_file(&bytes(&text)).unwrap();
    assert_eq!(cases.len(), 2);
    assert_eq!(cases[0].cmax, 53);
    assert_eq!(cases[1].data.len(), 2);
}

#[test]
fn fixture_errors_give_none() {
    assert!(parse_test_file(&bytes("d\n2\n1 2 x\n")).is_none());
    assert!(parse_test_file(&bytes("d\nseven\n")).is_none());
    assert!(parse_test_file(&bytes("d\n1\n1 2 3\n\nschrpmtn:\n5\nschr:\n6\n2\n")).is_none());
    assert!(parse_test_file(&bytes("d\n1\n1 2 3\n\nschrpmtn:\n5\nschr:\n6\n0\n")).is_none());
    assert!(parse_test_file(&bytes("d\n1\n1 2\n")).is_none());
}

#[test]
fn fixture_without_cases_is_empty() {
    assert_eq!(parse_test_file(&bytes("")).unwrap().len(), 0);
    assert_eq!(parse_test_file(&bytes("\nnotes\n\n")).unwrap().len(), 0);
}

#[test]
fn decimal_numbers_read_as_str_parse_does() {
    assert_eq!(parse_decimal(&bytes("0")), Some(0));
    assert_eq!(parse_decimal(&bytes("+17")), Some(17));
    assert_eq!(parse_decimal(&bytes("4294967295")), Some(u32::MAX));
    assert_eq!(parse_decimal(&bytes("4294967296")), None);
    assert_eq!(parse_decimal(&bytes("")), None);
    assert_eq!(parse_decimal(&bytes("+")), None);
    assert_eq!(parse_decimal(&bytes("-1")), None);
    assert_eq!(parse_decimal(&bytes("1 ")), None);
}

#[test]
fn lines_and_fields_split_as_std_does() {
    for text in ["a\nb", "a\r\nb\n", "\n\nx", "", "x\r", "one\n\r\ntwo"] {
        let expected: Vec<Vec<u8>> = text.lines().map(bytes).collect();
        assert_eq!(split_lines(&bytes(text)), expected);
    }
    for line in ["1 2 3", "1  2", " a", "a ", ""] {
        let expected: Vec<Vec<u8>> = line.split(' ').map(bytes).collect();
        assert_eq!(split_fields(&bytes(line)), expected);
    }
}
