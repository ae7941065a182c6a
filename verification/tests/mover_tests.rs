use file_organizer::config::{
    CommaSeperated, Config, ImportConfig, MetaConfig, SchemaConfig, SchemaConfigItem,
};
use file_organizer::error::FOError;
use file_organizer::helper::match_text;
use file_organizer::mover::{
    classify, prune_data, prune_unrelated_data, remove_dot, schema_finder, Mover,
};
use file_organizer::path::FilePath;
use file_organizer::schema::SchemaList;

fn pairs(data: &[(&str, &str)]) -> Vec<(String, String)> {
    data.iter().map(|(k, v)| (k.to_string(), v.to_string())).collect()
}

fn strings(xs: &[&str]) -> Vec<String> {
    xs.iter().map(|s| s.to_string()).collect()
}

#[test]
fn test_text_match() {
    assert!(match_text("anime", "an"));
    assert!(match_text("Anime", "ani"));
    assert!(!match_text("anime", "book"));
    assert!(match_text("an", "anime"));
}

#[test]
fn test_prune() {
    let data = pairs(&[
        ("anim.name", "Naruto"),
        ("epinum", "1"),
        ("book.name", "Harry Potter"),
    ]);
    let visible = prune_unrelated_data(&data, "anime");
    assert_eq!(
        visible,
        pairs(&[("name", "Naruto"), ("epinum", "1")])
    );

    let mut sl = SchemaList::new();
    sl.parse_format("Anime".to_owned(), "name epinum | |");
    let (consumed, rest) = prune_data(&data, sl.get("Anime").unwrap());
    // the qualified anim.name is consumed still carrying its qualifier;
    // book.name travels on; epinum is consumed as a bare declared field
    assert_eq!(
        consumed,
        pairs(&[("anim.name", "Naruto"), ("epinum", "1")])
    );
    assert_eq!(rest, pairs(&[("book.name", "Harry Potter")]));
}

#[test]
fn remove_dot_strips_one_level() {
    let data = pairs(&[("a.b", "1"), ("plain", "2"), ("x.y.z", "3")]);
    let out = remove_dot(&data);
    assert_eq!(out, pairs(&[("b", "1"), ("plain", "2"), ("y", "3")]));
}

#[test]
fn finder_test() {
    let mut schemalist = SchemaList::new();
    schemalist.parse_format(
        "anime".to_owned(),
        "name! epinum(num) | file | [Anime] %name% ",
    );
    schemalist.parse_format("Books".to_owned(), "name! artist | page | [Book] %name% ");
    schemalist.parse_format("page".to_owned(), "number(num) ext | | %num%.%ext% ");
    schemalist.parse_format("root".to_owned(), " | anime books | root ");
    schemalist.parse_format("file".to_owned(), "tags name ext | | %name%.%ext% ");

    let anime_data = pairs(&[
        ("anim.name", "Naruto"),
        ("b.epinum", "1"),
        ("tags", "Anime"),
        ("file.name", "lol"),
        ("ext", "mp4"),
    ]);

    let book_data = pairs(&[
        ("book.name", "Math"),
        ("lol.artist", "John"),
        ("tags", "Book"),
        ("number", "1"),
        ("ext", "pdf"),
    ]);

    let res1 = schema_finder(&schemalist, &strings(&["root"]), &anime_data);
    let res2 = schema_finder(&schemalist, &strings(&["root"]), &book_data);

    let t1 = res1.unwrap();
    let p1 = t1.to_path(&schemalist);
    println!("{} -> {}", t1.name, p1);
    let t2 = res2.unwrap();
    let p2 = t2.to_path(&schemalist);
    println!("{} -> {}", t2.name, p2);

    // the root schema (no fields) is vacuously fit and starts both chains
    assert_eq!(t1.name, "root");
    assert_eq!(t2.name, "root");
}

#[test]
fn test_mover() {
    // a catalog with a root pointing at anime, anime at file, and an
    // import rule naming the three captured fields positionally
    let mut items = Vec::new();
    items.push((
        "anime".to_string(),
        SchemaConfigItem {
            fields: CommaSeperated(strings(&["name"])),
            children: CommaSeperated(strings(&["file"])),
            filename: Some("%name%".to_string()),
        },
    ));
    items.push((
        "file".to_string(),
        SchemaConfigItem {
            fields: CommaSeperated(strings(&["filename", "ext"])),
            children: CommaSeperated(vec![]),
            filename: Some("%filename%.%ext%".to_string()),
        },
    ));
    items.push((
        "root".to_string(),
        SchemaConfigItem {
            fields: CommaSeperated(vec![]),
            children: CommaSeperated(strings(&["anime"])),
            filename: None,
        },
    ));
    let schema = SchemaConfig { items };
    let schemalist = SchemaList::from_config(&schema);

    let config = Config {
        schema,
        import: ImportConfig {
            list: vec![(
                "{?}-{?}.{mp4|mp3}".to_string(),
                CommaSeperated(strings(&["name", "filename", "ext"])),
            )],
        },
        meta: MetaConfig {
            schema: None,
            ignore_schema: false,
            other: SchemaConfigItem {
                fields: CommaSeperated(vec![]),
                children: CommaSeperated(strings(&["anime"])),
                filename: None,
            },
        },
    };

    let file_name = FilePath::from("./testdir/test-ad.mp4").get_name();
    assert_eq!(file_name, "test-ad.mp4");
    let moves = Mover::new(file_name);
    let path = moves.get_path(&config, &schemalist).unwrap();
    assert_eq!(path, "test/ad.mp4");
}

#[test]
fn resolver_deterministic() {
    let mut sl = SchemaList::new();
    sl.parse_format("a".to_owned(), "x | b | %x%");
    sl.parse_format("b".to_owned(), "y | | %y%");
    let data = pairs(&[("x", "1"), ("y", "2")]);
    let r1 = schema_finder(&sl, &strings(&["a"]), &data).unwrap();
    let r2 = schema_finder(&sl, &strings(&["a"]), &data).unwrap();
    assert_eq!(r1.name, r2.name);
    assert_eq!(r1.fields, r2.fields);
    assert_eq!(r1.to_path(&sl), r2.to_path(&sl));
    assert_eq!(r1.to_path(&sl), "1/2");
}

#[test]
fn resolver_fallback_uncategorized() {
    let mut sl = SchemaList::new();
    sl.parse_format("strict".to_owned(), "must! | | %must%");
    let data = pairs(&[("other", "1"), ("ns.qualified", "2")]);
    let t = schema_finder(&sl, &strings(&["strict"]), &data).unwrap();
    assert_eq!(t.name, "_Uncategorized");
    // all original fields, namespace markers intact
    assert_eq!(t.fields, data);
    assert!(t.children.is_none());
    assert_eq!(t.to_path(&sl), "");
}

#[test]
fn resolver_greedy_first_fit_wins() {
    let mut sl = SchemaList::new();
    // a declares nothing: vacuously fit, but its subtree consumes nothing
    sl.parse_format("a".to_owned(), " | | ");
    // b would consume the field and render it
    sl.parse_format("b".to_owned(), "x | | %x%");
    let data = pairs(&[("x", "1")]);
    let t = schema_finder(&sl, &strings(&["a", "b"]), &data).unwrap();
    assert_eq!(t.name, "a");
    let next = t.children.as_ref().unwrap();
    assert_eq!(next.name, "_Uncategorized");
    // the whole chain renders to nothing, even though b was available
    assert_eq!(t.to_path(&sl), "");
}

#[test]
fn namespace_scoping() {
    let mut sl = SchemaList::new();
    sl.parse_format("anime".to_owned(), "title! | | %title%");
    sl.parse_format("book".to_owned(), "title! | | %title%");
    let data = pairs(&[("anime.title", "Naruto")]);

    // visible to a schema the namespace prefixes, as bare "title"
    let v_anime = prune_unrelated_data(&data, "anime");
    assert_eq!(v_anime, pairs(&[("title", "Naruto")]));
    assert!(sl.get("anime").unwrap().is_fit(&v_anime));

    // invisible to book: ignored entirely, so the required title is absent
    let v_book = prune_unrelated_data(&data, "book");
    assert!(v_book.is_empty());
    assert!(!sl.get("book").unwrap().is_fit(&v_book));

    // prefix matching is case-insensitive and works on prefixes
    let v_pre = prune_unrelated_data(&pairs(&[("an.title", "x")]), "Anime");
    assert_eq!(v_pre, pairs(&[("title", "x")]));
}

#[test]
fn classify_no_pattern_match() {
    let sl = SchemaList::new();
    let rules = ImportConfig {
        list: vec![("{?}.{mp3}".to_string(), CommaSeperated(strings(&["name"])))],
    };
    let r = classify(&rules, &sl, &strings(&[]), "file.txt");
    assert_eq!(r, Err(FOError::NoPatternMatch));
}

#[test]
fn classify_skips_malformed_rule() {
    let mut sl = SchemaList::new();
    sl.parse_format("root".to_owned(), "name | | %name%");
    let rules = ImportConfig {
        list: vec![
            ("{broken".to_string(), CommaSeperated(vec![])),
            ("{?}.txt".to_string(), CommaSeperated(strings(&["name"]))),
        ],
    };
    let r = classify(&rules, &sl, &strings(&["root"]), "note.txt");
    assert_eq!(r, Ok("note".to_string()));
}

#[test]
fn classify_match_but_uncategorized_is_empty_path() {
    let sl = SchemaList::new();
    let rules = ImportConfig {
        list: vec![("{?}.txt".to_string(), CommaSeperated(strings(&["name"])))],
    };
    let r = classify(&rules, &sl, &strings(&[]), "note.txt");
    assert_eq!(r, Ok("".to_string()));
}
