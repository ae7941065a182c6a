use file_organizer::config::{
    CommaSeperated, Config, ImportConfig, MetaConfig, SchemaConfig, SchemaConfigItem,
};

fn strings(xs: &[&str]) -> Vec<String> {
    xs.iter().map(|s| s.to_string()).collect()
}

fn item(fields: &[&str], children: &[&str], filename: Option<&str>) -> SchemaConfigItem {
    SchemaConfigItem {
        fields: CommaSeperated(strings(fields)),
        children: CommaSeperated(strings(children)),
        filename: filename.map(|s| s.to_string()),
    }
}

fn meta() -> MetaConfig {
    MetaConfig {
        schema: None,
        ignore_schema: false,
        other: item(&[], &[], None),
    }
}

#[test]
fn test_combine() {
    let mut config1 = Config {
        schema: SchemaConfig {
            items: vec![(
                "Anime".to_string(),
                item(
                    &["anime_name!", "tags(tags)", "startDate", "episodeNum"],
                    &["TaggedVideo"],
                    Some("{a}-{b}.{ext}"),
                ),
            )],
        },
        import: ImportConfig {
            list: vec![
                ("format1-1".to_string(), CommaSeperated(strings(&["data"]))),
                ("format1-2".to_string(), CommaSeperated(vec![])),
            ],
        },
        meta: meta(),
    };

    let config2 = Config {
        schema: SchemaConfig {
            items: vec![(
                "Anime".to_string(),
                item(
                    &["anime_name2!", "tags2(tags)", "startDate2", "episodeNum2"],
                    &["TaggedVideo"],
                    Some("{a}-{b}.{ext}"),
                ),
            )],
        },
        import: ImportConfig {
            list: vec![
                ("format2-1".to_string(), CommaSeperated(vec![])),
                ("format2-2".to_string(), CommaSeperated(vec![])),
            ],
        },
        meta: meta(),
    };

    config1.combine_config(&config2, true);

    // the higher-priority source replaces the fragment of the same name
    assert_eq!(config1.schema.items.len(), 1);
    assert_eq!(
        config1.schema.items[0].1.fields.0,
        strings(&["anime_name2!", "tags2(tags)", "startDate2", "episodeNum2"])
    );
    // its import rules go to the front, one after the other
    let rule_names: Vec<&str> = config1.import.list.iter().map(|r| r.0.as_str()).collect();
    assert_eq!(
        rule_names,
        vec!["format2-2", "format2-1", "format1-1", "format1-2"]
    );
}

#[test]
fn combine_lower_priority_fills_only_absent() {
    let mut c1 = Config {
        schema: SchemaConfig {
            items: vec![("a".to_string(), item(&["x"], &[], None))],
        },
        import: ImportConfig { list: vec![] },
        meta: meta(),
    };
    let c2 = Config {
        schema: SchemaConfig {
            items: vec![
                ("a".to_string(), item(&["y"], &[], None)),
                ("b".to_string(), item(&["z"], &[], None)),
            ],
        },
        import: ImportConfig {
            list: vec![("r".to_string(), CommaSeperated(vec![]))],
        },
        meta: MetaConfig {
            schema: Some("somewhere".to_string()),
            ignore_schema: false,
            other: item(&["m"], &["kid"], Some("tpl")),
        },
    };
    c1.combine_config(&c2, false);
    // existing "a" kept, new "b" filled in
    assert_eq!(c1.schema.items.len(), 2);
    assert_eq!(c1.schema.items[0].1.fields.0, strings(&["x"]));
    assert_eq!(c1.schema.items[1].0, "b");
    // lower-priority imports are appended
    assert_eq!(c1.import.list[0].0, "r");
    // and the meta section absorbs the other one
    assert_eq!(c1.meta.schema, Some("somewhere".to_string()));
    assert_eq!(c1.meta.other.fields.0, strings(&["m"]));
    assert_eq!(c1.meta.other.children.0, strings(&["kid"]));
    assert_eq!(c1.meta.other.filename, Some("tpl".to_string()));
}

#[test]
fn meta_combine_fills_absent_only() {
    let mut m1 = MetaConfig {
        schema: Some("keep".to_string()),
        ignore_schema: true,
        other: SchemaConfigItem {
            fields: CommaSeperated(strings(&["a"])),
            children: CommaSeperated(strings(&["c1"])),
            filename: Some("mine".to_string()),
        },
    };
    let m2 = MetaConfig {
        schema: Some("other".to_string()),
        ignore_schema: false,
        other: SchemaConfigItem {
            fields: CommaSeperated(strings(&["b"])),
            children: CommaSeperated(strings(&["c2"])),
            filename: Some("theirs".to_string()),
        },
    };
    m1.combine(&m2);
    assert_eq!(m1.schema, Some("keep".to_string()));
    assert!(m1.ignore_schema);
    assert_eq!(m1.other.fields.0, strings(&["a", "b"]));
    assert_eq!(m1.other.children.0, strings(&["c1", "c2"]));
    assert_eq!(m1.other.filename, Some("mine".to_string()));
}
