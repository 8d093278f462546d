use roogle::crawler::FileSystemCrawler;
use roogle::doc_index::DocIndex;
use roogle::doc_table::DocTable;
use roogle::mem_index::MemIndex;

#[test]
fn extracts_terms_with_start_offsets() {
    let d = DocIndex::from_bytes("doc", b"My oh my!");
    assert_eq!(d.name(), "doc");
    assert_eq!(d.num_terms(), 2);
    assert_eq!(d.get("my"), Some(&vec![0, 6]));
    assert_eq!(d.get("oh"), Some(&vec![3]));
    assert_eq!(d.get("My"), None);
}

#[test]
fn extraction_is_repeatable() {
    let text = b"The cat, the hat; THE bat.\n(the) end";
    let a = DocIndex::from_bytes("a", text);
    let b = DocIndex::from_bytes("b", text);
    for t in ["the", "cat", "hat", "bat", "end"] {
        assert_eq!(a.get(t), b.get(t));
    }
    assert_eq!(a.get("the"), Some(&vec![0, 9, 18, 28]));
    assert_eq!(a.num_terms(), b.num_terms());
}

#[test]
fn leading_punctuation_moves_the_offset() {
    let d = DocIndex::from_bytes("doc", b"  \"quoted\" word");
    assert_eq!(d.get("quoted"), Some(&vec![3]));
    assert_eq!(d.get("word"), Some(&vec![11]));
}

#[test]
fn punctuation_only_words_and_whitespace_kinds() {
    let d = DocIndex::from_bytes("doc", b"a\t--\r\nb\x0bc");
    assert_eq!(d.num_terms(), 3);
    assert_eq!(d.get("a"), Some(&vec![0]));
    assert_eq!(d.get("b"), Some(&vec![6]));
    assert_eq!(d.get("c"), Some(&vec![8]));
}

#[test]
fn empty_document_has_no_terms() {
    let d = DocIndex::from_bytes("empty", b"");
    assert_eq!(d.num_terms(), 0);
    let e = DocIndex::new("blank");
    assert_eq!(e.num_terms(), 0);
    assert_eq!(e.name(), "blank");
}

#[test]
fn invalid_utf8_is_replaced() {
    let d = DocIndex::from_bytes("doc", b"ab\xffcd x");
    assert_eq!(d.get("ab\u{fffd}cd"), Some(&vec![0]));
    assert_eq!(d.get("x"), Some(&vec![6]));
}

#[test]
fn doc_table_gives_dense_ids() {
    let mut t = DocTable::new();
    assert_eq!(t.num_docs(), 0);
    assert_eq!(t.add("a.txt"), 0);
    assert_eq!(t.add("b.txt"), 1);
    assert_eq!(t.num_docs(), 2);
    assert_eq!(t.get_id("a.txt"), Some(0));
    assert_eq!(t.get_id("b.txt"), Some(1));
    assert_eq!(t.get_id("c.txt"), None);
    assert_eq!(t.get_name(0), Some("a.txt"));
    assert_eq!(t.get_name(1), Some("b.txt"));
    assert_eq!(t.get_name(2), None);
}

#[test]
fn doc_table_ids_round_trip() {
    let mut t = DocTable::new();
    for n in ["x", "y", "z"] {
        t.add(n);
    }
    for n in ["x", "y", "z"] {
        let id = t.get_id(n).unwrap();
        assert_eq!(t.get_name(id), Some(n));
    }
    assert_ne!(t.get_id("x"), t.get_id("y"));
}

#[test]
fn doc_table_adding_a_name_twice_gives_a_new_id() {
    let mut t = DocTable::new();
    assert_eq!(t.add("same"), 0);
    assert_eq!(t.add("other"), 1);
    assert_eq!(t.add("same"), 2);
    assert_eq!(t.num_docs(), 3);
    assert_eq!(t.get_id("same"), Some(2));
    assert_eq!(t.get_id("other"), Some(1));
    assert_eq!(t.get_name(0), Some("same"));
}

#[test]
fn mem_index_keeps_document_positions() {
    let mut m = MemIndex::new();
    m.add(DocIndex::from_bytes("a", b"the cat sat"), 0);
    m.add(DocIndex::from_bytes("b", b"the dog sat the end"), 1);
    assert_eq!(m.num_terms(), 5);
    let the = m.search("the").unwrap();
    assert_eq!(the.len(), 2);
    assert_eq!(the.get(0), Some(&vec![0]));
    assert_eq!(the.get(1), Some(&vec![0, 12]));
    assert_eq!(the.get(2), None);
    let cat = m.search("cat").unwrap();
    assert_eq!(cat.len(), 1);
    assert_eq!(cat.doc_id(0), 0);
    assert_eq!(cat.positions(0), &vec![4]);
    assert!(m.search("bird").is_none());
}

#[test]
fn mem_index_replaces_positions_of_a_re_added_id() {
    let mut m = MemIndex::new();
    m.add(DocIndex::from_bytes("a", b"x y"), 0);
    m.add(DocIndex::from_bytes("a", b"y y x"), 0);
    assert_eq!(m.search("y").unwrap().get(0), Some(&vec![0, 2]));
    assert_eq!(m.search("x").unwrap().get(0), Some(&vec![4]));
    assert_eq!(m.search("y").unwrap().len(), 1);
}

#[test]
fn crawler_walks_depth_first() {
    let mut c = FileSystemCrawler::new("root");
    assert_eq!(c.root(), "root");
    assert_eq!(c.next_dir(), Some("root".to_string()));
    c.visit("root/a".to_string(), true);
    c.visit("root/f1".to_string(), false);
    c.visit("root/b".to_string(), true);
    assert_eq!(c.next_dir(), Some("root/b".to_string()));
    c.visit("root/b/f2".to_string(), false);
    assert_eq!(c.next_dir(), Some("root/a".to_string()));
    assert_eq!(c.next_dir(), None);
    assert_eq!(c.files(), &vec!["root/f1".to_string(), "root/b/f2".to_string()]);
}
