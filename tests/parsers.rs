use mhd_mem::parsers::{
    keyed_value, parse_dot_csv_record, parse_dot_dat_line, scan_numbers, ParseError,
};
use mhd_mem::Problem;

#[test]
fn dat_line_gives_the_instance() {
    let k = parse_dot_dat_line(b"1 2 10 3 4 5 6\n").unwrap();
    assert_eq!(k.problem_size(), 2);
    assert_eq!(k.capacity(), 10);
    assert_eq!(k.basis.weights, vec![3, 5]);
    assert_eq!(k.values, vec![4, 6]);
    let k = parse_dot_dat_line(b"  7 3 100\t20 30 40 50 60 70  ").unwrap();
    assert_eq!(k.basis.weights, vec![20, 40, 60]);
    assert_eq!(k.values, vec![30, 50, 70]);
}

#[test]
fn dat_line_errors() {
    assert_eq!(parse_dot_dat_line(b"   \n").unwrap_err(), ParseError::EmptyLine);
    assert_eq!(parse_dot_dat_line(b"").unwrap_err(), ParseError::EmptyLine);
    assert_eq!(parse_dot_dat_line(b"1 2 x 3 4 5 6").unwrap_err(), ParseError::BadNumber);
    assert_eq!(parse_dot_dat_line(b"1 2 99999999999 3 4 5 6").unwrap_err(), ParseError::BadNumber);
    assert_eq!(parse_dot_dat_line(b"1 3 10 3 4 5 6").unwrap_err(), ParseError::BadTokenCount);
    assert_eq!(parse_dot_dat_line(b"1 1 10 3 4").unwrap_err(), ParseError::BadTokenCount);
    assert_eq!(
        parse_dot_dat_line(b"1 2 10 4000000000 4 4000000000 6").unwrap_err(),
        ParseError::TooLarge
    );
}

#[test]
fn numbers_and_keys() {
    assert_eq!(scan_numbers(b"1,94,485,0\n", true), Some(vec![1, 94, 485, 0]));
    assert_eq!(scan_numbers(b"1,94,485,0\n", false), None);
    assert_eq!(scan_numbers(b"", false), Some(vec![]));
    assert_eq!(keyed_value(b"n 50\n", b"n"), Some(50));
    assert_eq!(keyed_value(b"c 995", b"c"), Some(995));
    assert_eq!(keyed_value(b"c 995 3", b"c"), None);
    assert_eq!(keyed_value(b"cc 995", b"c"), None);
}

fn lines(text: &str) -> Vec<Vec<u8>> {
    text.split_inclusive('\n').map(|l| l.as_bytes().to_vec()).collect()
}

#[test]
fn csv_record_gives_the_instance_and_optimum() {
    let text = "knapPI_1_4_1000_1\nn 4\nc 35\nz 1002\ntime 0.00\n1,485,94,0\n2,326,74,1\n3,248,77,0\n4,421,40,1\n-----\n\n";
    let (k, z) = parse_dot_csv_record(&lines(text)).unwrap();
    assert_eq!(z, 1002);
    assert_eq!(k.capacity(), 35);
    assert_eq!(k.values, vec![485, 326, 248, 421]);
    assert_eq!(k.basis.weights, vec![94, 74, 77, 40]);
}

#[test]
fn csv_record_errors() {
    let good = "name\nn 2\nc 35\nz 10\ntime 0.01\n1,5,9,0\n2,6,8,1\n-----\n";
    assert!(parse_dot_csv_record(&lines(good)).is_ok());
    let bad_key = good.replace("c 35", "k 35");
    assert_eq!(parse_dot_csv_record(&lines(&bad_key)).unwrap_err(), ParseError::BadLayout);
    let bad_index = good.replace("2,6,8,1", "3,6,8,1");
    assert_eq!(parse_dot_csv_record(&lines(&bad_index)).unwrap_err(), ParseError::BadLayout);
    let no_dashes = good.replace("-----", "----");
    assert_eq!(parse_dot_csv_record(&lines(&no_dashes)).unwrap_err(), ParseError::BadLayout);
    let short = "name\nn 2\nc 35\n";
    assert_eq!(parse_dot_csv_record(&lines(short)).unwrap_err(), ParseError::BadLayout);
    let heavy = good.replace("1,5,9,0", "1,5,4294967295,0");
    assert_eq!(parse_dot_csv_record(&lines(&heavy)).unwrap_err(), ParseError::TooLarge);
}
