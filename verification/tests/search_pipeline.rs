//! End-to-end behavior of the vectorize / expand / score / rank pipeline.

use book_search::book::{Book, Tag};
use book_search::score::Score;
use book_search::search::{
    cosine_similarity, rank, s_search_book, search_within_limits_check, vectorize_book,
    vectorize_word, SearchError, StoreError,
};
use book_search::vector::TermVector;

fn mk_book(id: i32, title: &str, author: &str, tag_names: Vec<&str>, year: &str) -> Book {
    let mut tags: Vec<Tag> = Vec::new();
    let mut next_id = 1;
    for name in tag_names {
        tags.push(Tag { id: next_id, name: name.to_string() });
        next_id += 1;
    }
    Book {
        id,
        title: title.to_string(),
        author: author.to_string(),
        desc: String::new(),
        tags,
        year: year.to_string(),
        cover: String::new(),
    }
}

fn count(v: &TermVector, key: &str) -> u64 {
    v.count_of(&key.to_string())
}

fn has_key(v: &TermVector, key: &str) -> bool {
    let mut i = 0;
    while i < v.num_keys() {
        if v.key_at(i).as_str() == key {
            return true;
        }
        i += 1;
    }
    false
}

fn score_value(s: &Score) -> f64 {
    if s.qnorm_sq == 0 || s.dnorm_sq == 0 {
        0.0
    } else {
        s.dot as f64 / ((s.qnorm_sq as f64).sqrt() * (s.dnorm_sq as f64).sqrt())
    }
}

#[test]
fn vectorize_keeps_length_and_order() {
    let docs = vec![
        mk_book(1, "Rust Book", "Alice", vec![], "2020"),
        mk_book(2, "Cooking Pasta", "Bob", vec![], "1999"),
        mk_book(3, "Gardening", "Carol", vec![], "2005"),
    ];
    let vectors = vectorize_book(&docs);
    assert_eq!(vectors.len(), 3);
    assert_eq!(count(&vectors[0], "rust"), 1);
    assert_eq!(count(&vectors[0], "book"), 1);
    assert_eq!(count(&vectors[1], "cooking"), 1);
    assert_eq!(count(&vectors[2], "gardening"), 1);
}

#[test]
fn vectorize_empty_input_gives_empty_output() {
    let docs: Vec<Book> = Vec::new();
    let vectors = vectorize_book(&docs);
    assert_eq!(vectors.len(), 0);
}

#[test]
fn vectorize_counts_fields_as_specified() {
    // Title and author words are lowercased and split; a tag name is one
    // whole unit even with spaces; the year is counted once, as it stands.
    let docs = vec![mk_book(
        7,
        "Deep DEEP Space",
        "Ann Ann",
        vec!["Science Fiction"],
        "MMXX",
    )];
    let vectors = vectorize_book(&docs);
    let v = &vectors[0];
    assert_eq!(count(v, "deep"), 2);
    assert_eq!(count(v, "space"), 1);
    assert_eq!(count(v, "ann"), 2);
    assert_eq!(count(v, "science fiction"), 1);
    assert_eq!(count(v, "science"), 0);
    assert_eq!(count(v, "fiction"), 0);
    assert_eq!(count(v, "MMXX"), 1);
    assert_eq!(count(v, "mmxx"), 0);
}

#[test]
fn neighbor_padding_adds_zero_counts() {
    let docs = vec![
        mk_book(1, "rust a", "w", vec![], "2001"),
        mk_book(2, "pasta b", "w", vec![], "2002"),
        mk_book(3, "garden c", "w", vec![], "2003"),
    ];
    let vectors = vectorize_book(&docs);
    // vector 0 is padded from raw 1, vector 1 from raw 2, vector 2 from raw 0
    assert!(has_key(&vectors[0], "pasta"));
    assert_eq!(count(&vectors[0], "pasta"), 0);
    assert!(has_key(&vectors[1], "garden"));
    assert_eq!(count(&vectors[1], "garden"), 0);
    assert!(has_key(&vectors[2], "rust"));
    assert_eq!(count(&vectors[2], "rust"), 0);
    // padding is neighbor-only: vector 0 sees nothing of document 2
    assert!(!has_key(&vectors[0], "garden"));
}

#[test]
fn single_document_pads_against_itself() {
    let docs = vec![mk_book(1, "solo", "w", vec![], "2001")];
    let vectors = vectorize_book(&docs);
    assert_eq!(vectors[0].num_keys(), 3);
    assert_eq!(count(&vectors[0], "solo"), 1);
}

#[test]
fn expand_counts_keyword_and_substring_hits() {
    let docs = vec![mk_book(1, "Rust Rustacean", "A", vec![], "2020")];
    let vectors = vectorize_book(&docs);
    let q = vectorize_word("rust", &vectors);
    // 1 for the keyword itself, +1 for the key "rust" of the vector
    assert_eq!(q.count_of(&"rust".to_string()), 2);
    // "rustacean" contains "rust" as a substring
    assert_eq!(q.count_of(&"rustacean".to_string()), 1);
    assert_eq!(q.count_of(&"a".to_string()), 0);
}

#[test]
fn expand_uppercase_query_is_folded() {
    let docs = vec![mk_book(1, "RUST", "A", vec![], "2020")];
    let vectors = vectorize_book(&docs);
    assert_eq!(count(&vectors[0], "rust"), 1);
    let q = vectorize_word("RuSt", &vectors);
    assert_eq!(q.count_of(&"rust".to_string()), 2);
}

#[test]
fn cosine_of_vector_with_itself_is_one() {
    let docs = vec![mk_book(1, "Rust Book", "Alice", vec!["systems"], "2020")];
    let vectors = vectorize_book(&docs);
    let s = cosine_similarity(&vectors[0], &vectors[0]);
    assert_eq!(s.dot, s.qnorm_sq);
    assert_eq!(s.dot, s.dnorm_sq);
    assert!((score_value(&s) - 1.0).abs() < 1e-9);
}

#[test]
fn cosine_is_zero_for_zero_magnitude_or_disjoint() {
    let docs = vec![
        mk_book(1, "Rust Book", "Alice", vec![], "2020"),
        mk_book(2, "Cooking Pasta", "Bob", vec![], "1999"),
    ];
    let vectors = vectorize_book(&docs);
    // the two documents share no terms, so all common keys pair with count 0
    let s = cosine_similarity(&vectors[0], &vectors[1]);
    assert_eq!(s.dot, 0);
    assert_eq!(score_value(&s), 0.0);
    // an empty query vector has zero magnitude
    let q = vectorize_word("", &vectors);
    let z = cosine_similarity(&q, &vectors[0]);
    assert_eq!(z.qnorm_sq, 0);
    assert_eq!(score_value(&z), 0.0);
}

#[test]
fn rank_keeps_only_positive_scores_sorted_ascending() {
    let docs = vec![
        mk_book(1, "rust a b c", "w", vec![], "2001"),
        mk_book(2, "rust", "w", vec![], "2002"),
        mk_book(3, "rust rust rust", "w", vec![], "2003"),
        mk_book(4, "nothing here", "w", vec![], "2004"),
    ];
    let vectors = vectorize_book(&docs);
    let q = vectorize_word("rust", &vectors);
    let ranked = rank(&q, &vectors, &docs);
    assert_eq!(ranked.len(), 3);
    let mut prev = 0.0;
    for r in &ranked {
        let val = score_value(&r.score);
        assert!(val > 0.0);
        assert!(val >= prev);
        prev = val;
    }
    // ascending by score: the weakest match first, the strongest last
    assert_eq!(ranked[0].book.id, 1);
    assert_eq!(ranked[1].book.id, 2);
    assert_eq!(ranked[2].book.id, 3);
}

#[test]
fn scenario_single_document_exact_score() {
    let docs = vec![mk_book(1, "Rust Book", "A", vec![], "2020")];
    assert!(search_within_limits_check(&docs, "rust"));
    let res = s_search_book(Ok(docs), "rust").unwrap();
    assert_eq!(res.len(), 1);
    assert_eq!(res[0].book.id, 1);
    // query vector {rust: 2}; document vector {rust, book, a, 2020}, each 1
    assert_eq!(res[0].score.dot, 2);
    assert_eq!(res[0].score.qnorm_sq, 4);
    assert_eq!(res[0].score.dnorm_sq, 4);
    assert!((score_value(&res[0].score) - 0.5).abs() < 1e-9);
}

#[test]
fn scenario_disjoint_documents_only_match_survives() {
    let docs = vec![
        mk_book(1, "Rust Book", "Alice", vec![], "2020"),
        mk_book(2, "Cooking Pasta", "Bob", vec![], "1999"),
    ];
    let res = s_search_book(Ok(docs), "rust").unwrap();
    assert_eq!(res.len(), 1);
    assert_eq!(res[0].book.id, 1);
    assert!(score_value(&res[0].score) > 0.0);
}

#[test]
fn scenario_empty_query_gives_empty_result() {
    let docs = vec![
        mk_book(1, "Rust Book", "Alice", vec![], "2020"),
        mk_book(2, "Cooking Pasta", "Bob", vec![], "1999"),
    ];
    let res = s_search_book(Ok(docs), "").unwrap();
    assert_eq!(res.len(), 0);
}

#[test]
fn scenario_whitespace_query_gives_empty_result() {
    let docs = vec![mk_book(1, "Rust Book", "Alice", vec![], "2020")];
    let res = s_search_book(Ok(docs), " \t  ").unwrap();
    assert_eq!(res.len(), 0);
}

#[test]
fn scenario_store_failure_is_an_error() {
    let res = s_search_book(Err(StoreError {}), "rust");
    assert!(matches!(res, Err(SearchError::StoreUnavailable)));
}

#[test]
fn no_match_is_empty_success_not_error() {
    let docs = vec![mk_book(1, "Rust Book", "Alice", vec![], "2020")];
    let res = s_search_book(Ok(docs), "zzz");
    assert!(res.is_ok());
    assert_eq!(res.unwrap().len(), 0);
}

#[test]
fn limits_check_accepts_ordinary_input_and_rejects_huge_queries() {
    let docs = vec![
        mk_book(1, "Rust Book", "Alice", vec![], "2020"),
        mk_book(2, "Cooking Pasta", "Bob", vec![], "1999"),
    ];
    assert!(search_within_limits_check(&docs, "rust pasta"));
    assert!(search_within_limits_check(&docs, ""));
    // one document: 4 terms; budget is q * (1 + 2 * 8) for two documents,
    // so 120000 keywords overrun the 1000000 cap
    let huge = "a ".repeat(120000);
    assert!(!search_within_limits_check(&docs, &huge));
}

#[test]
fn tokens_split_on_any_unicode_whitespace() {
    let docs = vec![mk_book(1, "alpha\tbeta\u{00A0}gamma", "w", vec![], "2001")];
    let vectors = vectorize_book(&docs);
    assert_eq!(count(&vectors[0], "alpha"), 1);
    assert_eq!(count(&vectors[0], "beta"), 1);
    assert_eq!(count(&vectors[0], "gamma"), 1);
    assert!(!has_key(&vectors[0], "alpha\tbeta\u{00A0}gamma"));
}
