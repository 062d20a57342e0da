use ylog::text::{chars_of, parse_number, push_decimal, push_padded, split_fields};

#[test]
fn push_decimal_writes_the_shortest_numeral() {
    let mut out = String::from("n=");
    push_decimal(&mut out, 0);
    assert_eq!(out, "n=0");
    let mut out = String::new();
    push_decimal(&mut out, 7);
    push_decimal(&mut out, 10);
    push_decimal(&mut out, 2023);
    assert_eq!(out, "7102023");
    let mut out = String::new();
    push_decimal(&mut out, u64::MAX);
    assert_eq!(out, "18446744073709551615");
}

#[test]
fn push_padded_keeps_the_width() {
    let mut out = String::new();
    push_padded(&mut out, 5, 2);
    assert_eq!(out, "05");
    push_padded(&mut out, 2023, 4);
    assert_eq!(out, "052023");
    push_padded(&mut out, 7, 4);
    assert_eq!(out, "0520230007");
    push_padded(&mut out, 12345, 2);
    assert_eq!(out, "052023000745");
    push_padded(&mut out, 9, 0);
    assert_eq!(out, "052023000745");
}

#[test]
fn chars_of_lists_the_characters() {
    assert_eq!(chars_of(""), Vec::<char>::new());
    assert_eq!(chars_of("a b"), vec!['a', ' ', 'b']);
    assert_eq!(chars_of("é1"), vec!['é', '1']);
}

#[test]
fn parse_number_reads_digits() {
    let chars = chars_of("x0042y");
    assert_eq!(parse_number(&chars, 1, 5, 99), Some(42));
    assert_eq!(parse_number(&chars, 1, 5, 42), Some(42));
    assert_eq!(parse_number(&chars, 1, 5, 41), None);
    assert_eq!(parse_number(&chars, 0, 5, 99), None);
    assert_eq!(parse_number(&chars, 1, 6, 99), None);
    assert_eq!(parse_number(&chars, 2, 2, 99), None);
    assert_eq!(parse_number(&chars, 3, 4, 0), None);
    assert_eq!(parse_number(&chars, 1, 3, 0), Some(0));
}

#[test]
fn parse_number_stops_at_the_limit() {
    let most = chars_of("18446744073709551615");
    assert_eq!(parse_number(&most, 0, most.len(), u64::MAX), Some(u64::MAX));
    let over = chars_of("18446744073709551616");
    assert_eq!(parse_number(&over, 0, over.len(), u64::MAX), None);
    let long = chars_of("99999999999999999999999999");
    assert_eq!(parse_number(&long, 0, long.len(), u64::MAX), None);
}

#[test]
fn split_fields_keeps_empty_fields() {
    assert_eq!(split_fields("", ' '), vec![String::new()]);
    assert_eq!(split_fields("a", ' '), vec![String::from("a")]);
    assert_eq!(
        split_fields("a b  c", ' '),
        vec![String::from("a"), String::from("b"), String::new(), String::from("c")]
    );
    assert_eq!(split_fields(" a ", ' '), vec![String::new(), String::from("a"), String::new()]);
    assert_eq!(split_fields("a\nb\n", '\n'), vec![String::from("a"), String::from("b"), String::new()]);
}

#[test]
fn split_fields_undoes_a_join() {
    let fields = vec![String::from("2023-10-08"), String::from("14:05"), String::from("JA1YXP")];
    assert_eq!(split_fields(&fields.join(" "), ' '), fields);
}
