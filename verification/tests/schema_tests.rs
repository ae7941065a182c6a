use file_organizer::schema::{Field, FieldType, Schema, SchemaList};

fn pairs(data: &[(&str, &str)]) -> Vec<(String, String)> {
    data.iter().map(|(k, v)| (k.to_string(), v.to_string())).collect()
}

#[test]
fn test_parse() {
    let mut sl = SchemaList::new();
    sl.parse_format(
        "any".to_owned(),
        "field1 field2! field3(num) | child1 child2 | filename",
    );
    sl.parse_format("custom".to_owned(), "field1 field2! field3(num) | any |");
    sl.parse_format("child1".to_owned(), "testf| |");
    sl.parse_format("child2".to_owned(), "fs(num)!| |");
    // "any" was defined first; child1 and child2 were created as
    // placeholders by it and then filled in place
    assert!(sl.get("any").is_some());
    assert!(sl.get("custom").is_some());
    assert!(sl.get("child1").is_some());
    assert!(sl.get("child2").is_some());
    assert_eq!(sl.get("any").unwrap().children, vec!["child1", "child2"]);
    assert_eq!(
        sl.get("any").unwrap().filename,
        Some("filename".to_string())
    );
    assert_eq!(sl.get("custom").unwrap().filename, None);
}

#[test]
fn fit_test() {
    let mut sl = SchemaList::new();
    sl.parse_format("test1".to_owned(), "a(num) b c | |");
    sl.parse_format("test2".to_owned(), "a b(num) c! | test1 |");

    let data_test1 = pairs(&[("a", "2"), ("b", "test")]);
    let data_test2 = pairs(&[("a", "s"), ("b", "2"), ("c", "a")]);
    let data_test2_no_c = pairs(&[("a", "s"), ("b", "2")]);

    let test1 = sl.get("test1").unwrap();
    let test2 = sl.get("test2").unwrap();

    assert_eq!(true, test1.is_fit(&data_test1));
    assert_eq!(false, test2.is_fit(&data_test1));
    assert_eq!(false, test1.is_fit(&data_test2));
    assert_eq!(true, test2.is_fit(&data_test2));
    assert_eq!(false, test1.is_fit(&data_test2_no_c));
    assert_eq!(false, test2.is_fit(&data_test2_no_c));
}

#[test]
fn generate_string_test() {
    let mut sl = SchemaList::new();
    sl.parse_format("test1".to_owned(), "a b c | | %a%.txt");
    let test = sl.get("test1").unwrap();
    let data = pairs(&[("a", "2"), ("b", "test")]);
    let out = test.generate_string(&data);
    println!("{}", out);
    assert_eq!(out, "2.txt");
}

#[test]
fn field_typing() {
    let int_field = Field::from_format("n(num)").unwrap();
    assert!(int_field.is_fit(&"n".to_string(), &"42".to_string()));
    assert!(!int_field.is_fit(&"n".to_string(), &"4a".to_string()));

    let text_field = Field::from_format("t").unwrap();
    assert!(text_field.is_fit(&"t".to_string(), &"anything".to_string()));
    assert!(text_field.is_fit(&"t".to_string(), &"".to_string()));

    // the name must agree too
    assert!(!int_field.is_fit(&"other".to_string(), &"42".to_string()));
}

#[test]
fn integer_bounds() {
    let f = Field::from_format("n(num)").unwrap();
    let n = "n".to_string();
    assert!(f.is_fit(&n, &"2147483647".to_string()));
    assert!(!f.is_fit(&n, &"2147483648".to_string()));
    assert!(f.is_fit(&n, &"-2147483648".to_string()));
    assert!(!f.is_fit(&n, &"-2147483649".to_string()));
    assert!(f.is_fit(&n, &"+42".to_string()));
    assert!(f.is_fit(&n, &"0042".to_string()));
    assert!(!f.is_fit(&n, &"".to_string()));
    assert!(!f.is_fit(&n, &"4 2".to_string()));
}

#[test]
fn float_syntax() {
    let f = Field::from_format("x(flo)").unwrap();
    let x = "x".to_string();
    assert!(f.is_fit(&x, &"1.5".to_string()));
    assert!(f.is_fit(&x, &".5".to_string()));
    assert!(f.is_fit(&x, &"5.".to_string()));
    assert!(f.is_fit(&x, &"-1e9".to_string()));
    assert!(f.is_fit(&x, &"1E+9".to_string()));
    assert!(f.is_fit(&x, &"inf".to_string()));
    assert!(f.is_fit(&x, &"NaN".to_string()));
    assert!(f.is_fit(&x, &"Infinity".to_string()));
    assert!(!f.is_fit(&x, &"1.5.2".to_string()));
    assert!(!f.is_fit(&x, &"1e".to_string()));
    assert!(!f.is_fit(&x, &".".to_string()));
    assert!(!f.is_fit(&x, &"".to_string()));
    // cross-check against the standard library's own parser
    for s in ["1.5", ".5", "5.", "-1e9", "1E+9", "inf", "NaN", "Infinity"] {
        assert!(s.parse::<f32>().is_ok());
    }
    for s in ["1.5.2", "1e", ".", ""] {
        assert!(s.parse::<f32>().is_err());
    }
}

#[test]
fn tag_list_typing() {
    let f = Field::new("t".to_string(), FieldType::TagList, false);
    let t = "t".to_string();
    assert!(f.is_fit(&t, &"a, b, c".to_string()));
    assert!(!f.is_fit(&t, &"[".to_string()));
}

#[test]
fn required_field_combinations() {
    let mut sl = SchemaList::new();
    sl.parse_format("s".to_owned(), "a! b | |");
    let s = sl.get("s").unwrap();
    assert!(!s.is_fit(&pairs(&[])));
    assert!(s.is_fit(&pairs(&[("a", "x")])));
    assert!(!s.is_fit(&pairs(&[("b", "y")])));
    assert!(s.is_fit(&pairs(&[("a", "x"), ("b", "y")])));
    // undeclared fields are ignored by the fit check
    assert!(s.is_fit(&pairs(&[("a", "x"), ("zzz", "y")])));
}

#[test]
fn field_format_round_trip() {
    let f = Field::from_format("epinum(num)!").unwrap();
    assert_eq!(f.to_format(), "epinum(num)!");
    let g = Field::from_format("name").unwrap();
    assert_eq!(g.to_format(), "name");
    assert!(Field::from_format("").is_none());
    assert!(Field::from_format("a(num").is_none());
    assert!(Field::from_format("a!x").is_none());
}

#[test]
fn field_type_names() {
    assert_eq!(FieldType::parse("num"), FieldType::Integer);
    assert_eq!(FieldType::parse("flo"), FieldType::Float);
    assert_eq!(FieldType::parse("str"), FieldType::Text);
    assert_eq!(FieldType::parse("str[]"), FieldType::TagList);
    assert_eq!(FieldType::parse("whatever"), FieldType::Text);
    assert_eq!(FieldType::Integer.to_string(), "num");
    assert_eq!(FieldType::TagList.to_string(), "str[]");
}

#[test]
fn schema_to_format() {
    let mut sl = SchemaList::new();
    sl.parse_format("s".to_owned(), "a(num) b! | kid | %a%.txt");
    let s = sl.get("s").unwrap();
    assert_eq!(s.to_format(), "a(num) b!|kid|%a%.txt");
}

#[test]
fn schema_new_is_empty() {
    let s = Schema::new("empty".to_string());
    assert_eq!(s.name, "empty");
    assert!(s.fields.is_empty());
    assert!(s.children.is_empty());
    assert!(s.filename.is_none());
    // a schema with no declared fields is vacuously satisfied
    assert!(s.is_fit(&pairs(&[("anything", "at all")])));
    // and renders as the empty string without a template
    assert_eq!(s.generate_string(&pairs(&[])), "");
}

#[test]
fn get_children_resolves_in_order() {
    let mut sl = SchemaList::new();
    sl.parse_format("root".to_owned(), " | b a | ");
    sl.parse_format("a".to_owned(), "x | | ");
    sl.parse_format("b".to_owned(), "y | | ");
    let kids = sl.get_children("root").unwrap();
    let names: Vec<&str> = kids.iter().map(|s| s.name.as_str()).collect();
    assert_eq!(names, vec!["b", "a"]);
    assert!(sl.get_children("nobody").is_none());
}

#[test]
fn parse_format_needs_a_pipe() {
    let mut sl = SchemaList::new();
    assert!(sl.parse_format("s".to_owned(), "just fields").is_none());
    assert!(sl.get("s").is_none());
    assert!(sl.parse_format("s".to_owned(), "just fields |").is_some());
    assert!(sl.get("s").is_some());
}

#[test]
fn parse_format_replaces_in_place() {
    let mut sl = SchemaList::new();
    sl.parse_format("a".to_owned(), " | b | ");
    sl.parse_format("b".to_owned(), "x | | %x%");
    // the placeholder for b was created before a itself was inserted, and
    // defining b later overwrote the placeholder in place
    assert_eq!(sl.list[0].name, "b");
    assert_eq!(sl.list[0].filename, Some("%x%".to_string()));
    assert_eq!(sl.list[1].name, "a");
    assert_eq!(sl.list.len(), 2);
}
