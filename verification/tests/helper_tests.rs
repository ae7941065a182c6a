use file_organizer::helper::FieldHashMapBuilder;

#[test]
fn test_field_dot_list() {
    let data = vec![
        ("a.b".to_owned(), "1".to_owned()),
        ("a.c".to_owned(), "2".to_owned()),
        ("a.d".to_owned(), "3".to_owned()),
        ("b".to_owned(), "4".to_owned()),
        ("ab.d".to_owned(), "5".to_owned()),
        ("abn.d".to_owned(), "6".to_owned()),
    ];

    let helper = FieldHashMapBuilder::new("abc").insert(&data);
    let map = helper.to_map();
    println!("{:?}", map);
    // "a.b", "a.c", "a.d" reach "abc" as prefix notations; the bare "b"
    // cannot displace the entry with the longer notation "a"; "ab.d"
    // displaces "a.d" because its notation is longer; "abn" does not
    // reach "abc" at all
    assert_eq!(
        map,
        vec![
            ("b".to_string(), "1".to_string()),
            ("c".to_string(), "2".to_string()),
            ("d".to_string(), "5".to_string()),
        ]
    );
}

#[test]
fn builder_keeps_multi_dot_rest() {
    let data = vec![("a.b.c".to_owned(), "1".to_owned())];
    let map = FieldHashMapBuilder::new("abc").insert(&data).to_map();
    // the field part is everything after the first dot, dots kept
    assert_eq!(map, vec![("b.c".to_string(), "1".to_string())]);
}
