use std::collections::HashMap;
use std::collections::HashSet;

use fulltext::adapter::{index_document, IndexingError};

#[test]
fn storage_read_failure_names_the_document() {
    let r = index_document(
        String::from("doc-one"),
        Err(String::from("object not found")),
    );
    match r {
        Err(IndexingError::StorageReadError { name, cause }) => {
            assert_eq!(name, "doc-one");
            assert_eq!(cause, "object not found");
        }
        _ => panic!("expected a storage read error"),
    }
}

#[test]
fn one_failed_read_leaves_other_documents_untouched() {
    let failed = index_document(String::from("doc-bad"), Err(String::from("io error")));
    assert!(matches!(
        failed,
        Err(IndexingError::StorageReadError { .. })
    ));
    let ok = index_document(
        String::from("doc-good"),
        Ok("still Works fine".as_bytes().to_vec()),
    );
    assert_eq!(ok.unwrap(), vec!["still", "works", "fine"]);
}

#[test]
fn decode_failure_names_the_document() {
    let r = index_document(String::from("doc-bin"), Ok(vec![0x66, 0x6f, 0xff, 0x6f]));
    match r {
        Err(IndexingError::DecodeError {
            name,
            valid_up_to,
        }) => {
            assert_eq!(name, "doc-bin");
            assert_eq!(valid_up_to, 2);
        }
        _ => panic!("expected a decode error"),
    }
}

#[test]
fn successful_read_yields_term_list() {
    let r = index_document(
        String::from("doc-two"),
        Ok("Plain text, nothing more.".as_bytes().to_vec()),
    );
    assert_eq!(r.unwrap(), vec!["plain", "text", "nothing", "more"]);
}

#[test]
fn test_indexing() {
    let text = r#"
            This is a sentence. It includes punctuation, too.
            And newlines.
        "#;
    let terms = index_document(String::from("foo"), Ok(text.as_bytes().to_vec())).unwrap();
    let mut index: HashMap<String, HashSet<String>> = HashMap::new();
    for t in &terms {
        index
            .entry(t.clone())
            .or_insert_with(HashSet::new)
            .insert(String::from("foo"));
    }
    assert!(!index.get(&String::from("this")).unwrap().is_empty());
    assert!(!index.get(&String::from("it")).unwrap().is_empty());
    assert!(!index.get(&String::from("punctuation")).unwrap().is_empty());
    assert!(!index.get(&String::from("newlines")).unwrap().is_empty());
}

#[test]
fn merged_index_contains_every_document_under_its_terms() {
    let docs = vec![
        ("doc_a", "alpha beta gamma"),
        ("doc_b", "Beta delta, beta!"),
        ("doc_c", "gamma gamma epsilon"),
        ("doc_d", "123 !!"),
    ];
    let mut term_lists: Vec<(&str, Vec<String>)> = Vec::new();
    let mut index: HashMap<String, HashSet<String>> = HashMap::new();
    for (name, text) in &docs {
        let terms = index_document(String::from(*name), Ok(text.as_bytes().to_vec())).unwrap();
        for t in &terms {
            index
                .entry(t.clone())
                .or_insert_with(HashSet::new)
                .insert(String::from(*name));
        }
        term_lists.push((name, terms));
    }
    for (name, terms) in &term_lists {
        for t in terms {
            assert!(index.get(t).unwrap().contains(*name));
        }
    }
    assert!(index.get("beta").unwrap().contains("doc_a"));
    assert!(index.get("beta").unwrap().contains("doc_b"));
    assert!(!index.get("beta").unwrap().contains("doc_c"));
}
