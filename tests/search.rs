use roogle::doc_table::DocTable;
use roogle::mem_index::MemIndex;
use roogle::doc_index::DocIndex;
use roogle::query_processor::QueryProcessor;
use roogle::query_result::{intersect, rank_results, QueryResult};
use roogle::query_token::{handle_phrase, handle_term, query_to_tokens, remove_stop_words, split_phrase, QueryToken};

fn engine(docs: &[(&str, &str)], stop_words: &[&str]) -> QueryProcessor {
    let mut qp = QueryProcessor::new(stop_words.iter().map(|s| s.to_string()).collect());
    for (name, text) in docs {
        qp.add_document(name, text.as_bytes());
    }
    qp
}

fn summary(results: &[QueryResult]) -> Vec<(usize, String, usize)> {
    results.iter().map(|r| (r.doc_id, r.doc_name.clone(), r.rank)).collect()
}

fn texts(tokens: &[QueryToken]) -> Vec<String> {
    tokens
        .iter()
        .map(|t| match t {
            QueryToken::Term { value } => format!("Term({})", value),
            QueryToken::Phrase { value } => format!("Phrase({})", value),
        })
        .collect()
}

#[test]
fn single_term_query() {
    let qp = engine(&[("A", "the cat sat"), ("B", "the dog sat")], &[]);
    assert_eq!(qp.num_docs(), 2);
    assert_eq!(qp.num_terms(), 4);
    assert_eq!(summary(&qp.search("cat")), vec![(0, "A".to_string(), 1)]);
    assert_eq!(
        summary(&qp.search("the")),
        vec![(0, "A".to_string(), 1), (1, "B".to_string(), 1)]
    );
}

#[test]
fn phrase_query_matches_adjacent_words() {
    let qp = engine(&[("D", "the hair is red")], &[]);
    assert_eq!(summary(&qp.search("\"the hair\"")), vec![(0, "D".to_string(), 2)]);
    assert!(qp.search("\"hair the\"").is_empty());
    assert!(qp.search("\"the is\"").is_empty());
    assert_eq!(summary(&qp.search("\"hair is red\"")), vec![(0, "D".to_string(), 3)]);
}

#[test]
fn phrase_rank_counts_every_occurrence_of_its_words() {
    let qp = engine(&[("a", "the hair the hair the"), ("b", "hair the")], &[]);
    assert_eq!(summary(&qp.search("\"the hair\"")), vec![(0, "a".to_string(), 5)]);
}

#[test]
fn absent_second_term_gives_nothing() {
    let qp = engine(&[("A", "the cat sat"), ("B", "the dog sat")], &[]);
    assert_eq!(qp.search("cat").len(), 1);
    assert!(qp.search("cat zebra").is_empty());
    assert!(qp.search("zebra").is_empty());
}

#[test]
fn stop_words_are_dropped_from_queries() {
    let qp = engine(&[("A", "the cat sat"), ("B", "the dog sat")], &["the"]);
    assert_eq!(summary(&qp.search("the cat")), summary(&qp.search("cat")));
    assert_eq!(summary(&qp.search("the cat")), vec![(0, "A".to_string(), 1)]);
    assert!(qp.search("the").is_empty());
    assert_eq!(summary(&qp.search("\"the cat\"")), vec![(0, "A".to_string(), 2)]);
}

#[test]
fn ranks_add_up_and_order_results() {
    let qp = engine(
        &[("one", "oh my"), ("two", "My oh my!"), ("three", "oh oh oh my")],
        &[],
    );
    assert_eq!(
        summary(&qp.search("oh my")),
        vec![(2, "three".to_string(), 4), (1, "two".to_string(), 3), (0, "one".to_string(), 2)]
    );
    assert_eq!(
        summary(&qp.search("OH")),
        vec![(2, "three".to_string(), 3), (0, "one".to_string(), 1), (1, "two".to_string(), 1)]
    );
}

#[test]
fn token_order_does_not_change_results() {
    let qp = engine(
        &[("a", "red fish blue fish"), ("b", "blue whale"), ("c", "red blue fish")],
        &[],
    );
    let r1 = summary(&qp.search("fish blue red"));
    let r2 = summary(&qp.search("red fish blue"));
    let r3 = summary(&qp.search("blue red fish"));
    assert_eq!(r1, r2);
    assert_eq!(r2, r3);
    assert_eq!(r1, vec![(0, "a".to_string(), 4), (2, "c".to_string(), 3)]);
}

#[test]
fn empty_query_has_no_results() {
    let qp = engine(&[("A", "anything")], &[]);
    assert!(qp.search("").is_empty());
    assert!(qp.search("   ").is_empty());
    assert!(qp.search("\"\"").is_empty());
}

#[test]
fn empty_engine() {
    let qp = engine(&[], &[]);
    assert_eq!(qp.num_docs(), 0);
    assert_eq!(qp.num_terms(), 0);
    assert!(qp.search("x").is_empty());
}

#[test]
fn tokenizes_terms_and_phrases() {
    let tokens = query_to_tokens("steve \"the hair\" hairington", &vec![]);
    assert_eq!(texts(&tokens), vec!["Term(steve)", "Phrase(the hair)", "Term(hairington)"]);
}

#[test]
fn tokenizer_trims_lowers_and_keeps_phrase_spacing() {
    let tokens = query_to_tokens("  Big  \"Red  Dog\"\n", &vec![]);
    assert_eq!(texts(&tokens), vec!["Term(big)", "Phrase(red  dog)"]);
    let open = query_to_tokens("a \"b c", &vec![]);
    assert_eq!(texts(&open), vec!["Term(a)", "Phrase(b c)"]);
    let empty_phrase = query_to_tokens("\"\"", &vec![]);
    assert_eq!(texts(&empty_phrase), vec!["Phrase()"]);
    let glued = query_to_tokens("ab\"cd\"", &vec![]);
    assert_eq!(texts(&glued), vec!["Phrase(cd)"]);
}

#[test]
fn stop_words_leave_phrases_whole() {
    let stop = vec!["the".to_string(), "a".to_string()];
    let tokens = query_to_tokens("The cat \"the hat\" a", &stop);
    assert_eq!(texts(&tokens), vec!["Term(cat)", "Phrase(the hat)"]);
    assert_eq!(remove_stop_words("a b", &stop), "b");
    assert_eq!(remove_stop_words("the\tcat", &stop), "cat");
    assert_eq!(remove_stop_words("cat \"the\ta\" the", &stop), "cat \"the\ta\"");
    assert_eq!(remove_stop_words("theme a", &stop), "theme");
    assert_eq!(remove_stop_words("x ", &stop), "x");
    assert_eq!(remove_stop_words("  x \t a  y\n", &stop), "x y");
    assert_eq!(remove_stop_words("the a", &stop), "");
}

#[test]
fn stop_words_split_at_any_white_space() {
    let stop = vec!["the".to_string()];
    let tokens = query_to_tokens("the\tcat", &stop);
    assert!(tokens == vec![QueryToken::Term { value: "cat".to_string() }]);
    let unfiltered = query_to_tokens("the\tcat", &vec![]);
    assert!(unfiltered == vec![QueryToken::Term { value: "the\tcat".to_string() }]);
    let qp = engine(&[("A", "the cat sat")], &["the"]);
    assert_eq!(summary(&qp.search("THE\tcat")), vec![(0, "A".to_string(), 1)]);
}

#[test]
fn tokens_compare_by_kind_and_text() {
    let t = QueryToken::Term { value: "x".to_string() };
    assert!(t == QueryToken::Term { value: "x".to_string() });
    assert!(t != QueryToken::Phrase { value: "x".to_string() });
    assert!(t != QueryToken::Term { value: "y".to_string() });
}

#[test]
fn token_push_and_is_empty() {
    let mut t = QueryToken::Term { value: String::new() };
    assert!(t.is_empty());
    t.push('x');
    assert!(!t.is_empty());
    assert_eq!(texts(&[t]), vec!["Term(x)"]);
    let mut p = QueryToken::Phrase { value: "a".to_string() };
    p.push(' ');
    assert_eq!(texts(&[p]), vec!["Phrase(a )"]);
}

#[test]
fn splits_phrases_on_white_space() {
    assert_eq!(split_phrase("  the \t hair\u{a0}is "), vec!["the", "hair", "is"]);
    assert!(split_phrase("   ").is_empty());
}

#[test]
fn term_and_phrase_search_directly() {
    let mut table = DocTable::new();
    let mut index = MemIndex::new();
    for (name, text) in [("x", "to be or not to be"), ("y", "be quick")] {
        let id = table.add(name);
        index.add(DocIndex::from_bytes(name, text.as_bytes()), id);
    }
    let mut be = summary(&handle_term("be", &index, &table));
    be.sort();
    assert_eq!(be, vec![(0, "x".to_string(), 2), (1, "y".to_string(), 1)]);
    let phrase = summary(&handle_phrase("to be", &index, &table));
    assert_eq!(phrase, vec![(0, "x".to_string(), 4)]);
    assert!(handle_phrase("be to be", &index, &table).len() == 0);
    assert!(handle_phrase(" ", &index, &table).is_empty());
    let token = QueryToken::Phrase { value: "be quick".to_string() };
    assert_eq!(summary(&token.search(&index, &table)), vec![(1, "y".to_string(), 2)]);
}

#[test]
fn intersect_keeps_common_documents_and_sums_ranks() {
    let mut a = vec![
        QueryResult::new(0, "a".to_string(), 1),
        QueryResult::new(1, "b".to_string(), 2),
        QueryResult::new(2, "c".to_string(), 3),
    ];
    let b = vec![QueryResult::new(2, "c".to_string(), 10), QueryResult::new(0, "a".to_string(), 5)];
    intersect(&mut a, &b);
    assert_eq!(summary(&a), vec![(0, "a".to_string(), 6), (2, "c".to_string(), 13)]);
    let mut c = vec![QueryResult::new(7, "z".to_string(), usize::MAX)];
    intersect(&mut c, &vec![QueryResult::new(7, "z".to_string(), 1)]);
    assert_eq!(c[0].rank, usize::MAX);
    let mut d = vec![QueryResult::new(1, "b".to_string(), 1)];
    intersect(&mut d, &vec![]);
    assert!(d.is_empty());
}

#[test]
fn results_sort_by_rank_then_id() {
    let v = vec![
        QueryResult::new(3, "d".to_string(), 1),
        QueryResult::new(1, "b".to_string(), 5),
        QueryResult::new(0, "a".to_string(), 1),
        QueryResult::new(2, "c".to_string(), 5),
    ];
    let r = rank_results(v);
    let ids: Vec<usize> = r.iter().map(|x| x.doc_id).collect();
    assert_eq!(ids, vec![1, 2, 0, 3]);
    assert!(r[0].precedes(&r[1]));
    assert!(!r[3].precedes(&r[2]));
}

#[test]
fn result_from_postings() {
    let mut table = DocTable::new();
    table.add("first");
    let r = QueryResult::from(0, &vec![4, 9, 12], &table);
    assert_eq!((r.doc_id, r.doc_name.as_str(), r.rank), (0, "first", 3));
    let n = QueryResult::new(5, "n".to_string(), 2);
    assert_eq!((n.doc_id, n.doc_name.as_str(), n.rank), (5, "n", 2));
}

#[test]
fn add_document_returns_ids_in_order() {
    let mut qp = QueryProcessor::new(vec![]);
    assert_eq!(qp.add_document("a", b"x"), 0);
    assert_eq!(qp.add_document("b", b"y x"), 1);
    assert_eq!(qp.num_docs(), 2);
    assert_eq!(qp.num_terms(), 2);
    assert_eq!(summary(&qp.search("x")), vec![(0, "a".to_string(), 1), (1, "b".to_string(), 1)]);
}
