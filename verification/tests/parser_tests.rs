use file_organizer::parser::{any, capture, text, varname, wildcard};

fn chars(s: &str) -> Vec<char> {
    s.chars().collect()
}

#[test]
fn format_test_parser() {
    let input = chars("lalala wew s \\\\\\{were{");
    let result = text(&input, 0);
    println!("{:?}", result);
    let (end, out) = result.unwrap();
    assert_eq!(end, input.len() - 1);
    assert_eq!(out, "lalala wew s \\\\\\{were");

    let wildcardin = chars("?Aweqweqw");
    let result = wildcard(&wildcardin, 0);
    println!("{:?}", result);
    assert_eq!(result, Some((1, ".+?".to_string())));

    let capturein = chars("{var:?test?d}");
    let result = capture(&capturein, 0);
    println!("{:?}", result);
    let (end, slots, rx) = result.unwrap();
    assert_eq!(end, capturein.len());
    assert_eq!(slots, vec![Some("var".to_string())]);
    assert_eq!(rx, "(.+?test\\d+?)");

    let any_input = chars("{ anime   :?}.{mp4|mp3}");
    let result = any(&any_input, 0);
    println!("{:?}", result);
    let (end, slots, rx) = result.unwrap();
    assert_eq!(end, any_input.len());
    assert_eq!(slots, vec![Some("anime".to_string()), None]);
    assert_eq!(rx, "(.+?)\\.(mp4|mp3)");
}

#[test]
fn parser_varname_run() {
    let input = chars("abc_1!rest");
    let (end, name) = varname(&input, 0).unwrap();
    assert_eq!(end, 5);
    assert_eq!(name, "abc_1");
    assert!(varname(&chars("!x"), 0).is_none());
}

#[test]
fn parser_metachar_escaping() {
    let input = chars("a.b+c");
    let (end, out) = text(&input, 0).unwrap();
    assert_eq!(end, input.len());
    assert_eq!(out, "a\\.b\\+c");
}

#[test]
fn parser_bad_escape_fails() {
    // a backslash before a character that cannot be escaped ends nothing:
    // the whole literal run is rejected
    let input = chars("ab\\X");
    assert!(text(&input, 0).is_none());
    // and a trailing backslash as well
    let input2 = chars("ab\\");
    assert!(text(&input2, 0).is_none());
}
