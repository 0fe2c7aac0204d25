use movie_search::query::{
    hex, parse_unsigned_chars, path_segments_of, percent_decode, query_param, query_param_u32, query_usize,
    split_target_of,
};

fn chars(s: &str) -> Vec<char> {
    s.chars().collect()
}

#[test]
fn query_usize_reads_the_first_parsable_pair() {
    assert_eq!(query_usize("offset=5&limit=10", "limit"), Some(10));
    assert_eq!(query_usize("limit=x&limit=7", "limit"), Some(7));
    assert_eq!(query_usize("limit", "limit"), None);
    assert_eq!(query_usize("", "offset"), None);
    assert_eq!(query_usize("offset=+3", "offset"), Some(3));
    assert_eq!(query_usize("offset=-3", "offset"), None);
    assert_eq!(query_usize("offset=18446744073709551616", "offset"), None);
    assert_eq!(query_usize("offset=18446744073709551615", "offset"), Some(usize::MAX));
}

#[test]
fn unsigned_numbers_follow_str_parse() {
    assert_eq!(parse_unsigned_chars(&chars("0"), 10), Some(0));
    assert_eq!(parse_unsigned_chars(&chars("10"), 10), Some(10));
    assert_eq!(parse_unsigned_chars(&chars("11"), 10), None);
    assert_eq!(parse_unsigned_chars(&chars("+"), 10), None);
    assert_eq!(parse_unsigned_chars(&chars(""), 10), None);
    assert_eq!(parse_unsigned_chars(&chars("1 "), 10), None);
}

#[test]
fn hex_digits_in_both_cases() {
    assert_eq!(hex(b'0'), Some(0));
    assert_eq!(hex(b'9'), Some(9));
    assert_eq!(hex(b'a'), Some(10));
    assert_eq!(hex(b'F'), Some(15));
    assert_eq!(hex(b'g'), None);
}

#[test]
fn percent_decoding_handles_plus_escapes_and_stray_percents() {
    assert_eq!(percent_decode("a+b%20c"), "a b c");
    assert_eq!(percent_decode("100%"), "100%");
    assert_eq!(percent_decode("%zz"), "%zz");
    assert_eq!(percent_decode("%41%42"), "AB");
    assert_eq!(percent_decode("%C3%A9"), "é");
    assert_eq!(percent_decode("%FF"), "\u{FFFD}");
    assert_eq!(percent_decode("%4"), "%4");
    assert_eq!(percent_decode("a+b%2Fc%zz%4"), "a b/c%zz%4");
    assert_eq!(percent_decode("%41%62"), "Ab");
    assert_eq!(percent_decode("x%80y"), "x\u{FFFD}y");
}

#[test]
fn query_params_are_decoded_and_first_wins() {
    assert_eq!(query_param("format=jpeg&width=10", "format"), Some("jpeg".to_string()));
    assert_eq!(query_param("&&name=a%20b&name=c", "name"), Some("a b".to_string()));
    assert_eq!(query_param("flag&x=1", "flag"), Some(String::new()));
    assert_eq!(query_param("x=1", "y"), None);
    assert_eq!(query_param_u32("width=256&height=0", "width"), Some(256));
    assert_eq!(query_param_u32("width=256&height=0", "height"), Some(0));
    assert_eq!(query_param_u32("width=4294967296", "width"), None);
    assert_eq!(query_param_u32("width=abc", "width"), None);
}

#[test]
fn path_segments_ignore_empty_pieces() {
    let segs: Vec<String> = path_segments_of("//movies/./x//").iter().map(|s| s.iter().collect()).collect();
    assert_eq!(segs, vec!["movies", ".", "x"]);
    assert!(path_segments_of("/").is_empty());
    assert_eq!(split_target_of("/movies?offset=1?x"), ("/movies".to_string(), "offset=1?x".to_string()));
    assert_eq!(split_target_of("/health"), ("/health".to_string(), String::new()));
}
