use minihttp::header::parser::{
    field_string_split_all, field_string_split_max_n, multi_values_field, single_value_field,
    trim_field_value, value,
};
use minihttp::header::{merge_copy, merge_move, Headers, Value};
use minihttp::router::params::{params_from, Params};
use minihttp::text::inner_bounds;

fn strmap(pairs: &[(&str, &str)]) -> Params {
    params_from(pairs.iter().map(|(k, v)| (k.to_string(), v.to_string())).collect())
}

fn is(value: &Value, token: &str, params: &[(&str, &str)]) -> bool {
    value.0 == token && value.1 == strmap(params)
}

#[test]
fn split_cuts_outside_quotes_only() {
    assert_eq!(field_string_split_all("a,b,c", ','), vec!["a", "b", "c"]);
    assert_eq!(field_string_split_all("a,\"b,c\",d", ','), vec!["a", "\"b,c\"", "d"]);
    assert_eq!(field_string_split_all("\"a,b", ','), vec!["\"a,b"]);
    assert_eq!(field_string_split_all("a;b", ','), vec!["a;b"]);
}

#[test]
fn split_keeps_inner_empty_pieces_and_drops_a_last_empty_one() {
    assert_eq!(field_string_split_all("", ','), Vec::<String>::new());
    assert_eq!(field_string_split_all(",", ','), vec![""]);
    assert_eq!(field_string_split_all("a,", ','), vec!["a"]);
    assert_eq!(field_string_split_all(",a", ','), vec!["", "a"]);
    assert_eq!(field_string_split_all("a,,b", ','), vec!["a", "", "b"]);
}

#[test]
fn escaped_quote_does_not_toggle() {
    assert_eq!(field_string_split_all("\"a\\\",b\",c", ','), vec!["\"a\\\",b\"", "c"]);
    assert_eq!(field_string_split_all("a\\\",b", ','), vec!["a\\\"", "b"]);
    assert_eq!(field_string_split_all("\\\"a,b", ','), vec!["\\\"a", "b"]);
}

#[test]
fn split_hands_back_the_first_pieces() {
    assert_eq!(field_string_split_max_n("a,b,c", ',', 1), vec!["a"]);
    assert_eq!(field_string_split_max_n("a,b,c", ',', 2), vec!["a", "b"]);
    assert_eq!(field_string_split_max_n("a,b,c", ',', 3), vec!["a", "b", "c"]);
    assert_eq!(field_string_split_max_n("a,b,c", ',', 4), vec!["a", "b", "c"]);
    assert_eq!(field_string_split_max_n("abc", ',', 1), vec!["abc"]);
    assert_eq!(field_string_split_max_n("", ',', 1), Vec::<String>::new());
    assert_eq!(field_string_split_max_n("a,b,c", ',', usize::MAX), vec!["a", "b", "c"]);
}

#[test]
fn field_value_is_trimmed_and_unquoted() {
    assert_eq!(trim_field_value("  text/html \t"), "text/html");
    assert_eq!(trim_field_value(" \"quoted text\" "), "quoted text");
    assert_eq!(trim_field_value("\"\""), "");
    assert_eq!(trim_field_value("\""), "\"");
    assert_eq!(trim_field_value("\"a"), "\"a");
    assert_eq!(trim_field_value("\" a \""), " a ");
    assert_eq!(trim_field_value("\"\"a\"\""), "\"a\"");
    assert_eq!(trim_field_value(""), "");
    assert_eq!(trim_field_value(" \r\n "), "");
    assert_eq!(trim_field_value("\u{a0}\u{2003}x y\u{3000}"), "x y");
}

#[test]
fn inner_bounds_skip_flagged_ends() {
    assert_eq!(inner_bounds(&vec![]), (0, 0));
    assert_eq!(inner_bounds(&vec![false, false]), (0, 2));
    assert_eq!(inner_bounds(&vec![true, false, true, false, true, true]), (1, 4));
    assert_eq!(inner_bounds(&vec![true, true, true]), (3, 3));
    assert_eq!(inner_bounds(&vec![false, true]), (0, 1));
    assert_eq!(inner_bounds(&vec![true, false]), (1, 2));
}

#[test]
fn value_has_token_and_parameters() {
    assert!(is(&value("text/html"), "text/html", &[]));
    assert!(is(&value(" text/html ; charset=utf-8"), "text/html", &[("charset", "utf-8")]));
    assert!(is(
        &value("form-data; name=\"field; one\"; filename=\"a.txt\""),
        "form-data",
        &[("name", "field; one"), ("filename", "a.txt")]
    ));
    assert!(is(&value("gzip;q=0.5;q=0.8"), "gzip", &[("q", "0.8")]));
}

#[test]
fn parameter_is_split_at_the_first_equals_sign() {
    assert!(is(&value("a; k=v=w"), "a", &[("k", "v=w")]));
    assert!(is(&value("a; k"), "a", &[("k", "")]));
    assert!(is(&value("a; k="), "a", &[("k", "")]));
    assert!(is(&value("a; =v"), "a", &[("", "v")]));
    assert!(is(&value("a; \"k=x\"=v"), "a", &[("k=x", "v")]));
    assert!(is(&value("a;;k=v"), "a", &[("", ""), ("k", "v")]));
}

#[test]
fn empty_value_has_empty_token() {
    assert!(is(&value(""), "", &[]));
    assert!(is(&value(";"), "", &[]));
    assert!(is(&value(" ;a"), "", &[("a", "")]));
}

#[test]
fn field_holds_values_between_commas() {
    let values = multi_values_field("text/html, application/json;q=0.9, */*;q=0.8");
    assert_eq!(values.len(), 3);
    assert!(is(&values[0], "text/html", &[]));
    assert!(is(&values[1], "application/json", &[("q", "0.9")]));
    assert!(is(&values[2], "*/*", &[("q", "0.8")]));
    assert!(multi_values_field("").is_empty());
}

#[test]
fn single_value_is_the_first() {
    assert!(is(&single_value_field("a;x=1, b").unwrap(), "a", &[("x", "1")]));
    assert!(is(&single_value_field("a").unwrap(), "a", &[]));
    assert!(is(&single_value_field(",b").unwrap(), "", &[]));
    assert!(single_value_field("").is_none());
}

#[test]
fn headers_set_get_and_append() {
    let mut headers = Headers::new();
    assert_eq!(headers.get("a"), None);
    assert_eq!(headers.get_all("a"), None);
    assert_eq!(headers.len(), 0);

    headers.set("a".to_string(), "1".to_string());
    headers.append("a".to_string(), "2".to_string());
    headers.append("b".to_string(), "3".to_string());
    assert_eq!(headers.get("a"), Some(&"1".to_string()));
    assert_eq!(headers.get_all("a"), Some(&vec!["1".to_string(), "2".to_string()]));
    assert_eq!(headers.get("b"), Some(&"3".to_string()));
    assert_eq!(headers.get("A"), None);
    assert_eq!(headers.len(), 2);

    headers.set("a".to_string(), "4".to_string());
    assert_eq!(headers.get_all("a"), Some(&vec!["4".to_string()]));
    assert_eq!(headers.len(), 2);
    assert_eq!(headers.entry(0), (&"a".to_string(), &vec!["4".to_string()]));
    assert_eq!(headers.entry(1), (&"b".to_string(), &vec!["3".to_string()]));
}

#[test]
fn headers_give_typed_values() {
    let mut headers = Headers::new();
    assert!(headers.accept().is_none());
    assert!(headers.accept_encoding().is_none());
    assert!(headers.content_type().is_none());
    assert!(headers.content_length().is_none());

    headers.set("accept".to_string(), "text/html, */*;q=0.8".to_string());
    headers.append("accept".to_string(), "image/png".to_string());
    headers.set("accept-encoding".to_string(), "gzip, br".to_string());
    headers.set("content-type".to_string(), "text/plain; charset=utf-8".to_string());
    headers.set("content-length".to_string(), " 42 ".to_string());

    let accept = headers.accept().unwrap();
    assert_eq!(accept.len(), 2);
    assert!(is(&accept[0], "text/html", &[]));
    assert!(is(&accept[1], "*/*", &[("q", "0.8")]));
    let encoding = headers.accept_encoding().unwrap();
    assert_eq!(encoding.len(), 2);
    assert!(is(&encoding[1], "br", &[]));
    assert!(is(&headers.content_type().unwrap(), "text/plain", &[("charset", "utf-8")]));
    assert_eq!(headers.content_length(), Some(42));
    assert!(is(&headers.get_value("accept").unwrap(), "text/html", &[]));
    assert_eq!(headers.get_multi_values("accept").unwrap().len(), 2);
    assert!(headers.get_multi_values("none").is_none());

    let all = headers.get_multi_values_all("accept").unwrap();
    assert_eq!(all.len(), 2);
    assert_eq!(all[0].len(), 2);
    assert_eq!(all[1].len(), 1);
    assert!(is(&all[1][0], "image/png", &[]));
    assert!(headers.get_multi_values_all("none").is_none());
}

#[test]
fn content_length_must_be_a_number() {
    let length = |text: &str| {
        let mut headers = Headers::new();
        headers.set("content-length".to_string(), text.to_string());
        headers.content_length()
    };
    assert_eq!(length("0"), Some(0));
    assert_eq!(length("007"), Some(7));
    assert_eq!(length("+15"), Some(15));
    assert_eq!(length("18446744073709551615"), "18446744073709551615".parse::<usize>().ok());
    assert_eq!(length("18446744073709551616"), "18446744073709551616".parse::<usize>().ok());
    assert_eq!(length("99999999999999999999999"), None);
    assert_eq!(length(""), None);
    assert_eq!(length("+"), None);
    assert_eq!(length("-1"), None);
    assert_eq!(length("1 2"), None);
    assert_eq!(length("12a"), None);
    assert_eq!(length("++1"), None);
    assert_eq!(length("1, 2"), Some(1));
    assert_eq!(length("12; unit=byte"), Some(12));
}

#[test]
fn merging_appends_under_each_name() {
    let mut from = Headers::new();
    from.append("a".to_string(), "3".to_string());
    from.append("a".to_string(), "4".to_string());
    from.append("c".to_string(), "5".to_string());

    let mut to = Headers::new();
    to.append("a".to_string(), "1".to_string());
    to.append("b".to_string(), "2".to_string());

    merge_copy(&from, &mut to);
    let strings = |items: &[&str]| items.iter().map(|s| s.to_string()).collect::<Vec<_>>();
    assert_eq!(to.get_all("a"), Some(&strings(&["1", "3", "4"])));
    assert_eq!(to.get_all("b"), Some(&strings(&["2"])));
    assert_eq!(to.get_all("c"), Some(&strings(&["5"])));
    assert_eq!(to.len(), 3);
    assert_eq!(from.get_all("a"), Some(&strings(&["3", "4"])));

    merge_move(from, &mut to);
    assert_eq!(to.get_all("a"), Some(&strings(&["1", "3", "4", "3", "4"])));
    assert_eq!(to.get_all("c"), Some(&strings(&["5", "5"])));

    let mut untouched = Headers::new();
    untouched.set("x".to_string(), "y".to_string());
    merge_move(Headers::new(), &mut untouched);
    assert_eq!(untouched.len(), 1);
    assert_eq!(untouched.get("x"), Some(&"y".to_string()));
}
