use redis_lite::numbers::{isize_to_string, parse_isize, parse_u64, parse_usize, u128_to_string};
use redis_lite::resp::{build_array, build_bulk, concat_strings};
use redis_lite::text::{split_char, split_lines, str_to_chars};

fn chars(s: &str) -> Vec<char> {
    str_to_chars(s)
}

#[test]
fn bulk_string_frames_content_with_its_byte_length() {
    assert_eq!(build_bulk("hello".to_string()), "$5\r\nhello\r\n");
    assert_eq!(build_bulk(String::new()), "$0\r\n\r\n");
    assert_eq!(build_bulk("é".to_string()), "$2\r\né\r\n");
}

#[test]
fn array_header_counts_dollar_signs() {
    let body = format!("{}{}", build_bulk("a".to_string()), build_bulk("bc".to_string()));
    assert_eq!(build_array(body), "*2\r\n$1\r\na\r\n$2\r\nbc\r\n");
    assert_eq!(build_array(String::new()), "*0\r\n");
    assert_eq!(build_array("$$x".to_string()), "*2\r\n$$x");
}

#[test]
fn concat_joins_without_separator() {
    let v = vec!["ab".to_string(), String::new(), "c".to_string()];
    assert_eq!(concat_strings(&v), "abc");
}

#[test]
fn parse_unsigned_like_std() {
    assert_eq!(parse_usize(&chars("42")), Some(42));
    assert_eq!(parse_usize(&chars("+7")), Some(7));
    assert_eq!(parse_usize(&chars("-7")), None);
    assert_eq!(parse_usize(&chars("")), None);
    assert_eq!(parse_usize(&chars("+")), None);
    assert_eq!(parse_usize(&chars("4x")), None);
    assert_eq!(parse_u64(&chars("18446744073709551615")), Some(u64::MAX));
    assert_eq!(parse_u64(&chars("18446744073709551616")), None);
    for s in ["0", "12", "+3", "-1", "", "abc", "99999999999999999999999"] {
        assert_eq!(parse_u64(&chars(s)), s.parse::<u64>().ok(), "input {:?}", s);
        assert_eq!(parse_usize(&chars(s)), s.parse::<usize>().ok(), "input {:?}", s);
    }
}

#[test]
fn parse_signed_like_std() {
    for s in ["0", "-0", "12", "+3", "-1", "-", "+", "", "1-", "9223372036854775807", "9223372036854775808", "-9223372036854775808", "-9223372036854775809"] {
        assert_eq!(parse_isize(&chars(s)), s.parse::<isize>().ok(), "input {:?}", s);
    }
}

#[test]
fn decimal_printing_like_display() {
    for n in [0isize, 7, -7, 10, 1234567, isize::MAX, isize::MIN] {
        assert_eq!(isize_to_string(n), n.to_string());
    }
    assert_eq!(u128_to_string(u128::MAX), u128::MAX.to_string());
    assert_eq!(u128_to_string(0), "0");
}

#[test]
fn lines_like_std() {
    for s in ["", "a", "a\n", "a\r\nb", "a\r\nb\r\n", "\n\n", "x\r", "x\r\ny\r", "\r\n"] {
        let got: Vec<String> = split_lines(&chars(s)).into_iter().map(|l| l.into_iter().collect()).collect();
        let want: Vec<String> = s.lines().map(|l| l.to_string()).collect();
        assert_eq!(got, want, "input {:?}", s);
    }
}

#[test]
fn split_like_std() {
    for s in ["", "a b", " a", "a  b", "1-2-3", "-"] {
        let sep = if s.contains('-') { '-' } else { ' ' };
        let got: Vec<String> = split_char(&chars(s), sep).into_iter().map(|l| l.into_iter().collect()).collect();
        let want: Vec<String> = s.split(sep).map(|l| l.to_string()).collect();
        assert_eq!(got, want, "input {:?}", s);
    }
}

#[test]
fn array_of_bulks_counts_its_elements() {
    let items = ["a", "bc", "", "hello world"];
    let mut body = String::new();
    for it in items.iter() {
        body.push_str(&build_bulk(it.to_string()));
    }
    let arr = build_array(body.clone());
    assert_eq!(arr, format!("*{}\r\n{}", items.len(), body));
    assert_eq!(arr, "*4\r\n$1\r\na\r\n$2\r\nbc\r\n$0\r\n\r\n$11\r\nhello world\r\n");
}
