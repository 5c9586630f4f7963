use crossword_grid::text::{find_separator, parse_list, parse_number, split_line, trim};
use crossword_grid::Problem;

#[test]
fn numbers_are_read_in_base_ten() {
    assert_eq!(parse_number(b"15", 0, 2), Some(15));
    assert_eq!(parse_number(b"0", 0, 1), Some(0));
    assert_eq!(parse_number(b"007", 0, 3), Some(7));
    assert_eq!(parse_number(b"+42", 0, 3), Some(42));
    assert_eq!(parse_number(b"a123b", 1, 4), Some(123));
    assert_eq!(parse_number(b"18446744073709551615", 0, 20), Some(u64::MAX as usize));
}

#[test]
fn what_is_no_number_is_refused() {
    assert_eq!(parse_number(b"", 0, 0), None);
    assert_eq!(parse_number(b"+", 0, 1), None);
    assert_eq!(parse_number(b"-1", 0, 2), None);
    assert_eq!(parse_number(b"1 ", 0, 2), None);
    assert_eq!(parse_number(b" 1", 0, 2), None);
    assert_eq!(parse_number(b"1+", 0, 2), None);
    assert_eq!(parse_number(b"++1", 0, 3), None);
    assert_eq!(parse_number(b"12a", 0, 3), None);
    assert_eq!(parse_number(b"18446744073709551616", 0, 20), None);
    assert_eq!(parse_number(b"99999999999999999999999", 0, 23), None);
    assert_eq!(parse_number(b"123", 1, 1), None);
}

#[test]
fn lists_are_split_at_each_separator() {
    assert_eq!(parse_list(b"1,4,7,10", b','), Some(vec![1, 4, 7, 10]));
    assert_eq!(parse_list(b"5", b','), Some(vec![5]));
    assert_eq!(parse_list(b"15x15", b'x'), Some(vec![15, 15]));
    assert_eq!(parse_list(b"15x7x2", b'x'), Some(vec![15, 7, 2]));
    assert_eq!(parse_list(b"", b','), None);
    assert_eq!(parse_list(b",", b','), None);
    assert_eq!(parse_list(b"1,", b','), None);
    assert_eq!(parse_list(b",1", b','), None);
    assert_eq!(parse_list(b"1,,2", b','), None);
    assert_eq!(parse_list(b"1, 2", b','), None);
    assert_eq!(parse_list(b"1,x,3", b','), None);
    assert_eq!(parse_list(b"x,2,3", b','), None);
}

#[test]
fn trim_drops_blanks_at_both_ends() {
    assert_eq!(trim(b"  A: 1,2 \r\n"), (2, 8));
    assert_eq!(trim(b"abc"), (0, 3));
    assert_eq!(trim(b"\t a b \x0b\x0c"), (2, 5));
    assert_eq!(trim(b""), (0, 0));
    assert_eq!(trim(b"   "), (3, 3));
}

#[test]
fn separator_is_a_colon_and_a_space() {
    assert_eq!(find_separator(b"A: 1", 0, 4), Some(1));
    assert_eq!(find_separator(b"A:1: 2", 0, 6), Some(3));
    assert_eq!(find_separator(b"A: 1: 2", 2, 7), Some(4));
    assert_eq!(find_separator(b"A: 1", 0, 2), None);
    assert_eq!(find_separator(b"A:1", 0, 3), None);
    assert_eq!(find_separator(b"", 0, 0), None);
}

#[test]
fn lines_are_split_into_label_and_content() {
    assert_eq!(split_line(b"EXAMPLE: 15x15\n"), Some(((0, 7), (9, 14))));
    assert_eq!(split_line(b"        A: 1,4,7\r\n"), Some(((8, 9), (11, 16))));
    assert_eq!(split_line(b"A: 1: 2"), Some(((0, 1), (3, 4))));
    assert_eq!(split_line(b": "), None);
    assert_eq!(split_line(b": x"), Some(((0, 0), (2, 3))));
    assert_eq!(split_line(b"A: "), None);
    assert_eq!(split_line(b"A 1,2"), None);
    assert_eq!(split_line(b""), None);
}

#[test]
fn load_reads_size_and_clue_lists() {
    let p = Problem::load(String::from("EXAMPLE"), b"15x7", b"1,4,7", b"1,2,3,5").unwrap();
    assert_eq!(p.name, "EXAMPLE");
    assert_eq!(p.size, (15, 7));
    assert_eq!(p.accross, vec![1, 4, 7]);
    assert_eq!(p.down, vec![1, 2, 3, 5]);
    let p = Problem::load(String::new(), b"3x5x9", b"1", b"2").unwrap();
    assert_eq!(p.size, (3, 5));
}

#[test]
fn load_refuses_what_it_cannot_read_or_use() {
    assert!(Problem::load(String::new(), b"15", b"1", b"1").is_none());
    assert!(Problem::load(String::new(), b"15x", b"1", b"1").is_none());
    assert!(Problem::load(String::new(), b"15 x 15", b"1", b"1").is_none());
    assert!(Problem::load(String::new(), b"3x3", b"", b"1").is_none());
    assert!(Problem::load(String::new(), b"3x3", b"1", b"").is_none());
    assert!(Problem::load(String::new(), b"3x3", b"1;2", b"1").is_none());
    assert!(Problem::load(String::new(), b"0x3", b"1", b"1").is_none());
    assert!(Problem::load(String::new(), b"3x0", b"1", b"1").is_none());
    assert!(Problem::load(String::new(), b"3x3", b"0", b"1").is_none());
    assert!(Problem::load(String::new(), b"3x3", b"1", b"1,0").is_none());
    assert!(Problem::load(String::new(), b"18446744073709551615x2", b"1", b"1").is_none());
    assert!(Problem::load(String::new(), b"3x3", b"1", b"1").is_some());
}
