use json_array_search::json_path_writer::{
    JsonArrayPathEntry, JsonPathWriter, JSON_END_OF_PATH, JSON_END_OF_PATH_STR,
    JSON_PATH_SEGMENT_SEP, JSON_PATH_SEGMENT_SEP_STR,
};

#[test]
fn json_path_writer_test() {
    let mut writer = JsonPathWriter::new();
    writer.set_expand_dots(false);

    writer.push("root");
    assert_eq!(writer.as_str(), "root");

    writer.push("child");
    assert_eq!(writer.as_str(), "root\u{1}child");

    writer.pop();
    assert_eq!(writer.as_str(), "root");

    writer.push("k8s.node.id");
    assert_eq!(writer.as_str(), "root\u{1}k8s.node.id");

    writer.set_expand_dots(true);
    writer.pop();
    writer.push("k8s.node.id");
    assert_eq!(writer.as_str(), "root\u{1}k8s\u{1}node\u{1}id");
}

#[test]
fn test_json_path_expand_dots_enabled_pop_segment() {
    let mut json_writer = JsonPathWriter::with_expand_dots(true);
    json_writer.push("hello");
    assert_eq!(json_writer.as_str(), "hello");
    json_writer.push("color.hue");
    assert_eq!(json_writer.as_str(), "hello\x01color\x01hue");
    json_writer.pop();
    assert_eq!(json_writer.as_str(), "hello");
}

#[test]
fn test_json_path_array_context() {
    let mut writer = JsonPathWriter::default();
    writer.push("k1");
    writer.push_array_context(10);
    assert_eq!(
        writer.array_entries(),
        &[JsonArrayPathEntry {
            path_id: 10,
            element_ord: 0
        }]
    );
    writer.set_current_array_ordinal(2);
    assert_eq!(writer.array_entries()[0].element_ord, 2);
    writer.push_array_context(10);
    writer.set_current_array_ordinal(5);
    assert_eq!(
        writer.array_entries(),
        [
            JsonArrayPathEntry {
                path_id: 10,
                element_ord: 2
            },
            JsonArrayPathEntry {
                path_id: 10,
                element_ord: 5
            }
        ]
    );
    writer.pop_array_context();
    writer.pop_array_context();
    assert!(writer.array_entries().is_empty());
    writer.clear();
    assert!(writer.array_entries().is_empty());
    assert_eq!(writer.as_str(), "");
}

#[test]
fn the_separators_are_single_bytes() {
    assert_eq!(JSON_PATH_SEGMENT_SEP_STR.as_bytes(), &[JSON_PATH_SEGMENT_SEP]);
    assert_eq!(JSON_END_OF_PATH_STR.as_bytes(), &[JSON_END_OF_PATH]);
}

#[test]
fn pop_undoes_push_with_wide_characters() {
    let mut writer = JsonPathWriter::with_expand_dots(true);
    writer.push("größe");
    writer.push("日本.語");
    assert_eq!(writer.as_str(), "größe\u{1}日本\u{1}語");
    writer.push("😀");
    writer.set_end();
    assert_eq!(writer.as_str(), "größe\u{1}日本\u{1}語\u{1}😀\u{0}");
    writer.pop();
    assert_eq!(writer.as_str(), "größe\u{1}日本\u{1}語");
    writer.pop();
    assert_eq!(writer.as_str(), "größe");
    writer.pop();
    assert_eq!(writer.as_str(), "");
    writer.pop();
    assert_eq!(writer.as_str(), "");
}

#[test]
fn a_dotted_key_gives_the_path_of_nested_keys() {
    let mut dotted = JsonPathWriter::with_expand_dots(true);
    dotted.push("root");
    dotted.push("k8s.node");
    let mut nested = JsonPathWriter::with_expand_dots(true);
    nested.push("root");
    nested.push("k8s");
    nested.push("node");
    assert_eq!(dotted.as_str(), nested.as_str());
    dotted.pop();
    nested.pop();
    assert_eq!(dotted.as_str(), "root");
    assert_eq!(nested.as_str(), "root\u{1}k8s");
}

#[test]
fn an_empty_segment_still_counts() {
    let mut writer = JsonPathWriter::new();
    writer.push("");
    assert_eq!(writer.as_str(), "");
    writer.push("a");
    assert_eq!(writer.as_str(), "\u{1}a");
    writer.pop();
    assert_eq!(writer.as_str(), "");
}

#[test]
fn closing_an_array_undoes_opening_it() {
    let mut writer = JsonPathWriter::new();
    writer.push_array_context(7);
    writer.set_current_array_ordinal(3);
    writer.push_array_context(8);
    writer.set_current_array_ordinal(9);
    writer.pop_array_context();
    assert_eq!(
        writer.array_entries(),
        &[JsonArrayPathEntry { path_id: 7, element_ord: 3 }]
    );
    writer.clear_array_entries();
    assert!(writer.array_entries().is_empty());
    writer.set_current_array_ordinal(1);
    writer.pop_array_context();
    assert!(writer.array_entries().is_empty());
}

#[test]
fn clear_keeps_the_dot_setting() {
    let mut writer = JsonPathWriter::with_expand_dots(true);
    writer.push("a.b");
    writer.push_array_context(1);
    writer.clear();
    assert_eq!(writer.as_str(), "");
    assert!(writer.array_entries().is_empty());
    writer.push("c.d");
    assert_eq!(writer.as_str(), "c\u{1}d");
}

#[test]
fn a_clone_goes_its_own_way() {
    let mut writer = JsonPathWriter::new();
    writer.push("a");
    writer.push_array_context(4);
    let mut copy = writer.clone();
    copy.push("b");
    copy.pop_array_context();
    assert_eq!(writer.as_str(), "a");
    assert_eq!(writer.array_entries().len(), 1);
    assert_eq!(copy.as_str(), "a\u{1}b");
    copy.pop();
    assert_eq!(String::from(copy), "a");
}

#[test]
fn paths_compare_as_their_segments_do() {
    let written = |segments: &[&str]| {
        let mut writer = JsonPathWriter::new();
        for segment in segments {
            writer.push(segment);
        }
        writer.set_end();
        writer.as_str().to_string()
    };
    let in_order: [&[&str]; 8] = [
        &[""],
        &["", "b"],
        &["a"],
        &["a", ""],
        &["a", "b"],
        &["a\u{2}"],
        &["a.b"],
        &["b", "\u{e9}", "c"],
    ];
    for (at, one) in in_order.iter().enumerate() {
        for (other_at, other) in in_order.iter().enumerate() {
            assert_eq!(
                written(one).as_bytes().cmp(written(other).as_bytes()),
                at.cmp(&other_at)
            );
            assert_eq!(one.cmp(other), at.cmp(&other_at));
        }
    }
}
