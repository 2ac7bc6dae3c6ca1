use nexmud::text::{chars_of, split_lines, replace_seq, trim_seq, find, rfind_char};

fn lines(s: &str) -> Vec<String> {
    split_lines(&chars_of(s)).iter().map(|l| l.iter().collect()).collect()
}

#[test]
fn lines_split_like_str_lines() {
    assert_eq!(lines("a\r\nb\n\nc"), vec!["a", "b", "", "c"]);
    assert_eq!(lines("x\n"), vec!["x"]);
    assert_eq!(lines("x\r"), vec!["x\r"]);
    assert_eq!(lines(""), Vec::<String>::new());
    assert_eq!(lines("\n"), vec![""]);
}

#[test]
fn replace_is_leftmost_and_non_overlapping() {
    let r: String = replace_seq(&chars_of("aaa"), &chars_of("aa"), &chars_of("b")).iter().collect();
    assert_eq!(r, "ba");
}

#[test]
fn trim_drops_unicode_whitespace() {
    let r: String = trim_seq(&chars_of("\u{3000} x y\t\n")).iter().collect();
    assert_eq!(r, "x y");
}

#[test]
fn find_and_rfind() {
    assert_eq!(find(&chars_of("abcabc"), &chars_of("ca")), Some(2));
    assert_eq!(find(&chars_of("abc"), &chars_of("")), Some(0));
    assert_eq!(find(&chars_of("abc"), &chars_of("d")), None);
    assert_eq!(rfind_char(&chars_of("a\"b\"c"), '"'), Some(3));
    assert_eq!(rfind_char(&chars_of("abc"), '"'), None);
}
