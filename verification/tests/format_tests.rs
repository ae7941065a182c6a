use file_organizer::format::{FormatString, PatternString, StringPart};

#[test]
fn test_formatstring() {
    let format = FormatString::parse("%var%otherdata.%var%");
    println!("{:?}", format.vars);
    let out = format.generate_string(&vec!["test".to_string(), "test2".to_string()]);
    println!("{}", out);
    assert_eq!(out, "testotherdata.test2");
    let format2 = FormatString::parse("a%var%%var2%we");
    println!("{:?}", format2.vars);
    assert_eq!(format2.vars, vec!["var".to_string(), "var2".to_string()]);
    let str = "hello world";
    let sliced = &str[0..2];
    println!("{}", sliced);
}

#[test]
fn test_parser() {
    let input = (
        "{?}.{mp3|mp4}",
        vec![Some("var".to_string()), Some("ext".to_string())],
    );
    let pattern = PatternString::parse(input.0, input.1).unwrap();
    let data = pattern.get_data("test.mp5");
    println!("{:?}", data);
    assert!(data.is_none());
}

#[test]
fn template_round_trip_example() {
    let t = FormatString::parse("%a%-%b%.%c%");
    let out = t.generate_string(&vec!["x".to_string(), "y".to_string(), "z".to_string()]);
    assert_eq!(out, "x-y.z");
}

#[test]
fn template_missing_values_render_empty() {
    let t = FormatString::parse("%a%-%b%");
    let out = t.generate_string(&vec!["x".to_string()]);
    assert_eq!(out, "x-");
}

#[test]
fn template_empty_tokens_dropped() {
    let t = FormatString::parse("%%");
    assert_eq!(t.generate_string(&vec![]), "");
    let t2 = FormatString::parse("a%%b");
    // "a" and "b" both land on even positions: two literals, no variable
    assert!(t2.vars.is_empty());
    assert_eq!(t2.generate_string(&vec![]), "ab");
    assert!(matches!(t2.parts[0], StringPart::Literal(_)));
}

#[test]
fn pattern_named_and_positional_vars() {
    // anonymous extension slot: only the named slot is extracted
    let p = PatternString::parse(
        "{?}.{mp3|mp4}",
        vec![Some("name".to_string()), None],
    )
    .unwrap();
    let data = p.get_data("song.mp3").unwrap();
    assert_eq!(data, vec![("name".to_string(), "song".to_string())]);

    // both slots named positionally
    let p2 = PatternString::parse(
        "{?}.{mp3|mp4}",
        vec![Some("name".to_string()), Some("ext".to_string())],
    )
    .unwrap();
    let data2 = p2.get_data("song.mp3").unwrap();
    assert_eq!(
        data2,
        vec![
            ("name".to_string(), "song".to_string()),
            ("ext".to_string(), "mp3".to_string())
        ]
    );
}

#[test]
fn pattern_inline_names_and_escapes() {
    // inline name, wildcard class, and an escaped literal brace
    let p = PatternString::parse("{num:?d}\\{x", vec![]).unwrap();
    let data = p.get_data("42{x").unwrap();
    assert_eq!(data, vec![("num".to_string(), "42".to_string())]);
}

#[test]
fn pattern_alternation_unused_group() {
    // nested captures inside an alternation: the branch that did not take
    // part in the match contributes nothing
    let p = PatternString::parse(
        "{{ab}|{cd}}",
        vec![
            Some("outer".to_string()),
            Some("left".to_string()),
            Some("right".to_string()),
        ],
    )
    .unwrap();
    let data = p.get_data("ab").unwrap();
    assert_eq!(
        data,
        vec![
            ("outer".to_string(), "ab".to_string()),
            ("left".to_string(), "ab".to_string())
        ]
    );
}

#[test]
fn pattern_trailing_garbage_is_error() {
    // a pattern must consist of elements through its whole length
    let r = PatternString::parse("a:b", vec![]);
    assert!(r.is_err());
}

#[test]
fn pattern_malformed_is_error() {
    let r = PatternString::parse("{unterminated", vec![]);
    assert!(r.is_err());
    let r2 = PatternString::parse("", vec![]);
    assert!(r2.is_err());
}
