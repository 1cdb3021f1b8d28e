use std::collections::BTreeMap;
use std::sync::Arc;

use json_array_search::docset::TERMINATED;
use json_array_search::json_metadata::JsonArrayPath;
use json_array_search::json_path_writer::{JsonArrayPathEntry, JsonPathWriter};
use json_array_search::owned_bytes::OwnedBytes;
use json_array_search::position_reader::{PositionReader, JSON_METADATA_MARKER};
use json_array_search::query::boolean_query::boolean_weight::BooleanWeight;
use json_array_search::query::boolean_query::Occur;
use json_array_search::query::json_query::JsonQuery;
use json_array_search::query::leaf_scorers::FreqReadingOption;
use json_array_search::query::postings::PostingList;
use json_array_search::query::queries::{LeafQuery, Query, QueryTerm};
use json_array_search::query::weight::{Clause, EnableScoring, SegmentReader, Weight};
use json_array_search::query::ScoreCombiner;
use serde_json::Value;

/// The key of the only JSON field.
const DOC_BODY_KEY: u64 = 1;

struct Occurrence {
    doc: u32,
    position: u32,
    path_id: u32,
}

/// A segment with one JSON field.
struct Index {
    field: String,
    num_docs: u32,
    array_ids: BTreeMap<String, u32>,
    path_table: Vec<Vec<JsonArrayPathEntry>>,
    terms: BTreeMap<(String, String), Vec<Occurrence>>,
    clauses: Vec<Clause>,
}

impl Index {
    fn new(field: &str) -> Index {
        Index {
            field: field.to_string(),
            num_docs: 0,
            array_ids: BTreeMap::new(),
            path_table: vec![Vec::new()],
            terms: BTreeMap::new(),
            clauses: Vec::new(),
        }
    }

    fn add_document(&mut self, json: &str) {
        let value: Value = match serde_json::from_str(json) {
            Ok(value) => value,
            Err(error) => panic!("{}", error),
        };
        let mut writer = JsonPathWriter::new();
        let mut next_positions: BTreeMap<String, u32> = BTreeMap::new();
        self.index_value(&value, &mut writer, &mut next_positions);
        self.num_docs += 1;
    }

    fn index_value(
        &mut self,
        value: &Value,
        writer: &mut JsonPathWriter,
        next_positions: &mut BTreeMap<String, u32>,
    ) {
        match value {
            Value::Object(members) => {
                for (key, member) in members {
                    writer.push(key);
                    self.index_value(member, writer, next_positions);
                    writer.pop();
                }
            }
            Value::Array(elements) => {
                let next_id = self.array_ids.len() as u32 + 1;
                let array_id = *self.array_ids.entry(writer.as_str().to_string()).or_insert(next_id);
                writer.push_array_context(array_id);
                for (element_ord, element) in elements.iter().enumerate() {
                    writer.set_current_array_ordinal(element_ord as u32);
                    self.index_value(element, writer, next_positions);
                }
                writer.pop_array_context();
            }
            Value::String(text) => {
                let path = writer.as_str().to_string();
                let path_id = self.path_id(writer.array_entries());
                let doc = self.num_docs;
                let next = next_positions.entry(path.clone()).or_insert(0);
                for token in text.split_whitespace() {
                    self.terms
                        .entry((path.clone(), token.to_string()))
                        .or_default()
                        .push(Occurrence { doc, position: *next, path_id });
                    *next += 1;
                }
                // A phrase does not go on from one value to the next.
                *next += 1;
            }
            _ => {}
        }
    }

    fn path_id(&mut self, entries: &[JsonArrayPathEntry]) -> u32 {
        if let Some(id) = self.path_table.iter().position(|path| path == entries) {
            return id as u32;
        }
        self.path_table.push(entries.to_vec());
        self.path_table.len() as u32 - 1
    }

    fn occurrences(&self, path: &str, token: &str) -> &[Occurrence] {
        let mut writer = JsonPathWriter::with_expand_dots(true);
        writer.push(path);
        match self.terms.get(&(String::from(writer), token.to_string())) {
            Some(occurrences) => occurrences,
            None => &[],
        }
    }

    /// What the segment has for a term: its paths are read from its positions data.
    fn list_of(&self, occurrences: &[(u32, u32)]) -> Arc<PostingList> {
        let mut docs: Vec<u32> = Vec::new();
        let mut ids_of_docs: Vec<Vec<u32>> = Vec::new();
        for (doc, path_id) in occurrences {
            if docs.last() != Some(doc) {
                docs.push(*doc);
                ids_of_docs.push(Vec::new());
            }
            let ids = ids_of_docs.last_mut().unwrap();
            if *path_id != 0 && !ids.contains(path_id) {
                ids.push(*path_id);
            }
        }
        let table: Vec<JsonArrayPath> =
            self.path_table.iter().map(|path| Arc::from(path.clone())).collect();
        let data = positions_data(occurrences.len(), &ids_of_docs);
        let mut reader = match PositionReader::open(OwnedBytes::new(data), Some(Arc::new(table))) {
            Ok(reader) => reader,
            Err(error) => panic!("{:?}", error),
        };
        let mut json_paths = Vec::new();
        let mut json_path_indexes = Vec::new();
        for (doc_ord, doc) in docs.iter().enumerate() {
            let mut paths: Vec<JsonArrayPath> = Vec::new();
            if reader.fill_doc_json_metadata_refs(*doc, doc_ord as u32, &mut paths) {
                json_paths.push(Some(paths));
                json_path_indexes.push(Some(ids_of_docs[doc_ord].clone()));
            } else {
                json_paths.push(None);
                json_path_indexes.push(None);
            }
        }
        match PostingList::new(docs, json_paths, json_path_indexes) {
            Some(list) => Arc::new(list),
            None => panic!("documents out of order"),
        }
    }

    /// A clause for a term. Gives its place in the segment.
    fn term(&mut self, path: &str, token: &str) -> usize {
        let found: Vec<(u32, u32)> = self
            .occurrences(path, token)
            .iter()
            .map(|occurrence| (occurrence.doc, occurrence.path_id))
            .collect();
        let handle = self.clauses.len() as u32;
        let clause = if found.is_empty() {
            Clause::Missing
        } else {
            Clause::Term {
                handle,
                list: self.list_of(&found),
                json_constraint_key: Some(DOC_BODY_KEY),
                freq_reading_option: FreqReadingOption::ReadFreq,
            }
        };
        self.clauses.push(clause);
        self.clauses.len() - 1
    }

    /// A clause for a phrase: the tokens one after the other in the same value.
    fn phrase(&mut self, path: &str, tokens: &[&str]) -> usize {
        let mut found: Vec<(u32, u32)> = Vec::new();
        for first in self.occurrences(path, tokens[0]) {
            let goes_on = tokens.iter().enumerate().all(|(ord, token)| {
                self.occurrences(path, token).iter().any(|occurrence| {
                    occurrence.doc == first.doc
                        && occurrence.position == first.position + ord as u32
                        && occurrence.path_id == first.path_id
                })
            });
            if goes_on {
                found.push((first.doc, first.path_id));
            }
        }
        let handle = self.clauses.len() as u32;
        let clause = if found.is_empty() {
            Clause::Missing
        } else {
            Clause::Phrase {
                handle,
                list: self.list_of(&found),
                json_constraint_key: Some(DOC_BODY_KEY),
            }
        };
        self.clauses.push(clause);
        self.clauses.len() - 1
    }

    fn reader(self) -> SegmentReader {
        SegmentReader { num_docs: self.num_docs, clauses: self.clauses }
    }
}

fn write_vint(value: usize, out: &mut Vec<u8>) {
    let mut value = value;
    while value >= 128 {
        out.push((value % 128) as u8);
        value /= 128;
    }
    out.push(value as u8 + 128);
}

/// Positions, which do not matter here, and the path ids of each document.
fn positions_data(num_positions: usize, ids_of_docs: &[Vec<u32>]) -> Vec<u8> {
    let mut out = Vec::new();
    write_vint(0, &mut out);
    for _ in 0..num_positions {
        write_vint(1, &mut out);
    }
    let mut metadata = Vec::new();
    write_vint(1, &mut metadata);
    write_vint(ids_of_docs.len(), &mut metadata);
    write_vint(0, &mut metadata);
    for ids in ids_of_docs {
        write_vint(ids.len(), &mut metadata);
    }
    let all: Vec<u32> = ids_of_docs.concat();
    write_vint(all.len(), &mut metadata);
    write_vint(0, &mut metadata);
    for id in &all {
        write_vint(*id as usize, &mut metadata);
    }
    out.extend_from_slice(&metadata);
    out.push(JSON_METADATA_MARKER);
    out.extend_from_slice(&(metadata.len() as u32).to_be_bytes());
    out
}

fn leaf_query(clause: usize) -> Query {
    Query::Leaf(LeafQuery { clause, terms: Vec::new(), failure: None })
}

fn leaf_weight(clause: usize) -> Weight {
    match leaf_query(clause).weight(EnableScoring::Enabled) {
        Ok(weight) => weight,
        Err(error) => panic!("{:?}", error),
    }
}

/// The first documents that match, no more than `limit`.
fn search(reader: &SegmentReader, weight: &Weight, limit: usize) -> Vec<u32> {
    let mut scorer = match weight.scorer(reader) {
        Ok(scorer) => scorer,
        Err(error) => panic!("{:?}", error),
    };
    let mut found = Vec::new();
    let mut doc = scorer.doc();
    while doc != TERMINATED && found.len() < limit {
        found.push(doc);
        doc = scorer.advance();
    }
    found
}

fn search_query(reader: &SegmentReader, query: &JsonQuery, limit: usize) -> Vec<u32> {
    match query.weight(EnableScoring::Enabled) {
        Ok(weight) => search(reader, &weight, limit),
        Err(error) => panic!("{:?}", error),
    }
}

#[test]
fn test_json_array_constraint_and_query() {
    let mut index = Index::new("doc_body");
    index.add_document(
        r#"{"videoInfo":{"extraData":[{"name":"codec foo","type":"mp4"}]}}"#,
    );
    index.add_document(
        r#"{"videoInfo":{"extraData":[{"name":"codec foo","type":"jpg"},{"name":"codec bar","type":"mp4"}]}}"#,
    );

    let foo_term = index.term("videoInfo.extraData.name", "foo");
    let type_term = index.term("videoInfo.extraData.type", "mp4");
    let phrase = index.phrase("videoInfo.extraData.name", &["codec", "foo"]);
    let reader = index.reader();

    let boolean_query = Weight::Boolean(BooleanWeight::with_minimum_number_should_match(
        vec![
            (Occur::Must, leaf_weight(foo_term)),
            (Occur::Must, leaf_weight(type_term)),
        ],
        0,
        true,
        ScoreCombiner::Handle(0),
    ));
    let top_docs = search(&reader, &boolean_query, 10);
    assert_eq!(top_docs.len(), 1);
    assert_eq!(top_docs[0], 0u32);

    let boolean_phrase_query = Weight::Boolean(BooleanWeight::with_minimum_number_should_match(
        vec![
            (Occur::Must, leaf_weight(phrase)),
            (Occur::Must, leaf_weight(type_term)),
        ],
        0,
        true,
        ScoreCombiner::Handle(0),
    ));
    let top_docs = search(&reader, &boolean_phrase_query, 10);
    assert_eq!(top_docs.len(), 1);
    assert_eq!(top_docs[0], 0u32);
}

#[test]
fn test_json_query_enforces_same_array() {
    let mut index = Index::new("doc_body");
    index.add_document(
        r#"{"videoInfo":{"extraData":[{"name":"codecfoo","type":"mp4"}]}}"#,
    );
    index.add_document(
        r#"{"videoInfo":{"extraData":[{"name":"codecfoo","type":"jpg"},{"name":"codecbar","type":"mp4"}]}}"#,
    );
    let name_term = index.term("videoInfo.extraData.name", "codecfoo");
    let type_term = index.term("videoInfo.extraData.type", "mp4");
    let reader = index.reader();

    let query = JsonQuery::new(vec![leaf_query(name_term), leaf_query(type_term)]);
    let top_docs = search_query(&reader, &query, 10);
    assert_eq!(top_docs.len(), 1);
    assert_eq!(top_docs[0], 0u32);
}

#[test]
fn test_json_query_phrase_and_term() {
    let mut index = Index::new("doc_body");
    index.add_document(
        r#"{"videoInfo":{"extraData":[{"name":"codec foo","type":"mp4"}]}}"#,
    );
    index.add_document(
        r#"{"videoInfo":{"extraData":[{"name":"codec foo","type":"jpg"},{"name":"codec bar","type":"mp4"}]}}"#,
    );
    let phrase = index.phrase("videoInfo.extraData.name", &["codec", "foo"]);
    let type_term = index.term("videoInfo.extraData.type", "mp4");
    let reader = index.reader();

    let query = JsonQuery::new(vec![leaf_query(phrase), leaf_query(type_term)]);
    let top_docs = search_query(&reader, &query, 10);
    assert_eq!(top_docs.len(), 1);
    assert_eq!(top_docs[0], 0u32);
}

#[test]
fn test_phrase_json_paths_filtered_by_positions() {
    let mut index = Index::new("doc_body");
    // In element 0 the phrase and the type match.
    index.add_document(
        r#"{"videoInfo":{"extraData":[{"name":"codec foo","type":"mp4"}]}}"#,
    );
    // Element 0 has the phrase but not mp4, element 1 has mp4 but not the phrase.
    index.add_document(
        r#"{"videoInfo":{"extraData":[{"name":"codec foo","type":"jpg"},{"name":"codec bar","type":"mp4"}]}}"#,
    );
    let phrase = index.phrase("videoInfo.extraData.name", &["codec", "foo"]);
    let type_term = index.term("videoInfo.extraData.type", "mp4");
    let reader = index.reader();

    let query = JsonQuery::new(vec![leaf_query(phrase), leaf_query(type_term)]);
    let top_docs = search_query(&reader, &query, 10);
    assert_eq!(top_docs.len(), 1);
    assert_eq!(top_docs[0], 0u32);
}

#[test]
fn test_json_query_rejects_cross_element_match() {
    let mut index = Index::new("doc_body");
    // codecA + jpg, codecB + mp4: not codecA + mp4.
    index.add_document(
        r#"{"videoInfo":{"extraData":[{"attributes":{"type":"jpg"},"name":"codecA"},{"attributes":{"type":"mp4"},"name":"codecB"}]}}"#,
    );
    // codecA + mp4.
    index.add_document(
        r#"{"videoInfo":{"extraData":[{"attributes":{"type":"mp4"},"name":"codecA"}]}}"#,
    );
    let name_term = index.term("videoInfo.extraData.name", "codecA");
    let type_term = index.term("videoInfo.extraData.attributes.type", "mp4");
    let reader = index.reader();

    let query = JsonQuery::new(vec![leaf_query(name_term), leaf_query(type_term)]);
    let top_docs = search_query(&reader, &query, 10);
    assert_eq!(top_docs.len(), 1);
    assert_eq!(top_docs[0], 1u32);
}

/// Reads a conjunction of `field.path:token`.
fn parse_query(index: &mut Index, text: &str) -> JsonQuery {
    let mut subqueries = Vec::new();
    for clause in text.split(" AND ") {
        let (target, token) = clause.split_once(':').unwrap();
        let prefix = format!("{}.", index.field);
        let path = target.strip_prefix(prefix.as_str()).unwrap();
        let found = index.term(path, token);
        subqueries.push(leaf_query(found));
    }
    JsonQuery::new(subqueries)
}

#[test]
fn test_query_parser_builds_json_query() {
    let mut index = Index::new("doc_body");
    index.add_document(
        r#"{"videoInfo":{"extraData":[{"name":"codecfoo","type":"mp4"}]}}"#,
    );
    index.add_document(
        r#"{"videoInfo":{"extraData":[{"name":"codecfoo","type":"jpg"},{"name":"codecbar","type":"mp4"}]}}"#,
    );
    let query = parse_query(
        &mut index,
        "doc_body.videoInfo.extraData.name:codecfoo AND doc_body.videoInfo.extraData.type:mp4",
    );
    let reader = index.reader();
    let top_docs = search_query(&reader, &query, 10);
    assert_eq!(top_docs.len(), 1);
    assert_eq!(top_docs[0], 0u32);
}

#[test]
fn a_match_outside_arrays_does_not_restrict_the_others() {
    let mut index = Index::new("doc_body");
    let documents = [
        r#"{"shop":"main","cart":[{"type":"sneakers","color":"white"},{"type":"shirt","color":"red"}]}"#,
        r#"{"shop":"main","cart":[{"type":"sneakers","color":"red"}]}"#,
        r#"{"shop":"side","cart":[{"type":"sneakers","color":"red"}]}"#,
    ];
    for document in documents {
        index.add_document(document);
    }
    let shop = index.term("shop", "main");
    let sneakers = index.term("cart.type", "sneakers");
    let white = index.term("cart.color", "white");
    let red = index.term("cart.color", "red");
    let reader = index.reader();
    let matching = |clauses: &[usize]| {
        let subqueries: Vec<Query> = clauses.iter().map(|clause| leaf_query(*clause)).collect();
        search_query(&reader, &JsonQuery::new(subqueries), 10)
    };
    assert_eq!(matching(&[sneakers, white]), [0]);
    assert_eq!(matching(&[sneakers, red]), [1, 2]);
    assert_eq!(matching(&[shop, sneakers, red]), [1]);
    assert_eq!(matching(&[sneakers, red, shop]), [1]);
    assert_eq!(matching(&[sneakers, shop, red]), [1]);
    assert_eq!(matching(&[shop, sneakers]), [0, 1]);
    assert_eq!(matching(&[shop]), [0, 1]);
    assert!(matching(&[]).is_empty());
}

#[test]
fn nested_arrays_have_to_agree_on_every_level() {
    let mut index = Index::new("doc_body");
    index.add_document(
        r#"{"a":[{"b":[{"x":"1","y":"2"},{"x":"3","y":"4"}]},{"b":[{"x":"5","y":"2"}]}]}"#,
    );
    let x1 = index.term("a.b.x", "1");
    let x5 = index.term("a.b.x", "5");
    let y2 = index.term("a.b.y", "2");
    let y4 = index.term("a.b.y", "4");
    let absent = index.term("a.b.y", "9");
    let reader = index.reader();
    let matching = |clauses: &[usize]| {
        let subqueries: Vec<Query> = clauses.iter().map(|clause| leaf_query(*clause)).collect();
        search_query(&reader, &JsonQuery::new(subqueries), 10)
    };
    assert_eq!(matching(&[x1, y2]), [0]);
    assert_eq!(matching(&[x5, y2]), [0]);
    assert!(matching(&[x1, y4]).is_empty());
    assert!(matching(&[x5, y4]).is_empty());
    assert!(matching(&[x1, x5, y2]).is_empty());
    assert!(matching(&[x1, absent]).is_empty());
}

#[test]
fn the_terms_of_a_query_are_those_of_its_subqueries() {
    let term = |bytes: &[u8], needs_positions: bool| QueryTerm {
        term: Arc::new(bytes.to_vec()),
        needs_positions,
    };
    let inner = JsonQuery::new(vec![Query::Leaf(LeafQuery {
        clause: 1,
        terms: vec![term(b"b", true), term(b"c", true)],
        failure: None,
    })]);
    let query = JsonQuery::new(vec![
        Query::Leaf(LeafQuery { clause: 0, terms: vec![term(b"a", false)], failure: None }),
        Query::Json(inner),
        Query::Leaf(LeafQuery { clause: 2, terms: Vec::new(), failure: None }),
    ]);
    assert_eq!(query.subqueries_len(), 3);
    let copy = query.clone();
    for query in [&query, &copy] {
        let terms: Vec<(Vec<u8>, bool)> = query
            .query_terms()
            .iter()
            .map(|term| (term.term.to_vec(), term.needs_positions))
            .collect();
        assert_eq!(
            terms,
            [(b"a".to_vec(), false), (b"b".to_vec(), true), (b"c".to_vec(), true)]
        );
    }
}
