use shard_core::document::{Document, ParsedQuery};
use shard_core::field_index::{
    CardinalityEstimation, FieldCondition, Match, OperationError, PayloadBlockCondition,
    PrimaryCondition,
};
use shard_core::immutable_index::ImmutableInvertedIndex;
use shard_core::inverted_index::{IndexItem, InvertedIndex};
use shard_core::mutable_index::MutableInvertedIndex;

fn words(list: &[&str]) -> Vec<String> {
    list.iter().map(|word| word.to_string()).collect()
}

fn query(index: &InvertedIndex, list: &[&str]) -> ParsedQuery {
    ParsedQuery { tokens: list.iter().map(|word| index.get_token(word)).collect() }
}

fn add(index: &mut InvertedIndex, point: u32, list: &[&str]) {
    let document = index.document_from_tokens(&words(list));
    index.index_document(point, document).unwrap();
}

fn four_points() -> InvertedIndex {
    let mut index = InvertedIndex::new(true);
    add(&mut index, 0, &["a", "b"]);
    add(&mut index, 1, &["b", "c"]);
    add(&mut index, 2, &["a", "c"]);
    add(&mut index, 3, &["a", "b", "c"]);
    index
}

fn into_immutable(index: InvertedIndex) -> InvertedIndex {
    match index {
        InvertedIndex::Mutable(mutable) => {
            InvertedIndex::Immutable(ImmutableInvertedIndex::from(mutable))
        }
        InvertedIndex::Immutable(immutable) => InvertedIndex::Immutable(immutable),
    }
}

fn condition() -> FieldCondition {
    FieldCondition::text_match("text".to_string(), "a b".to_string())
}

fn bounds(estimation: &CardinalityEstimation) -> (usize, usize, usize) {
    (estimation.min, estimation.exp, estimation.max)
}

fn block(block: &PayloadBlockCondition) -> (String, String, usize) {
    let text = match &block.condition.matching {
        Some(Match::Text(text)) => text.text.clone(),
        None => panic!("a block without a text"),
    };
    (block.condition.key.clone(), text, block.cardinality)
}

#[test]
fn filter_finds_the_points_that_hold_all_words() {
    let index = four_points();
    assert_eq!(index.filter(&query(&index, &["a", "b"])), vec![0, 3]);
    assert_eq!(index.filter(&query(&index, &["c"])), vec![1, 2, 3]);
    assert_eq!(index.filter(&query(&index, &["z"])), Vec::<u32>::new());
    assert_eq!(index.filter(&query(&index, &["a", "b", "c"])), vec![3]);
    assert_eq!(index.points_count(), 4);
}

#[test]
fn filter_of_a_query_without_words_is_empty() {
    let index = four_points();
    assert_eq!(index.filter(&ParsedQuery { tokens: vec![] }), Vec::<u32>::new());
}

#[test]
fn filter_of_a_query_with_an_unknown_word_is_empty() {
    let index = four_points();
    assert_eq!(index.filter(&query(&index, &["a", "z"])), Vec::<u32>::new());
    assert_eq!(index.filter(&ParsedQuery { tokens: vec![Some(0), None] }), Vec::<u32>::new());
    // a token that no posting list was ever made for
    assert_eq!(index.filter(&ParsedQuery { tokens: vec![Some(99)] }), Vec::<u32>::new());
}

#[test]
fn every_word_of_an_indexed_point_finds_it() {
    let mut index = InvertedIndex::new(true);
    add(&mut index, 17, &["x", "y", "z"]);
    for word in ["x", "y", "z"] {
        assert!(index.filter(&query(&index, &[word])).contains(&17));
    }
}

#[test]
fn removed_point_is_not_found() {
    let mut index = four_points();
    assert!(index.remove_document(3));
    assert_eq!(index.filter(&query(&index, &["a", "b"])), vec![0]);
    assert_eq!(index.points_count(), 3);
    assert_eq!(index.filter(&query(&index, &["c"])), vec![1, 2]);
    assert!(index.values_is_empty(3));
    assert_eq!(index.values_count(3), 0);
}

#[test]
fn remove_of_absent_document_changes_nothing() {
    let mut index = four_points();
    assert!(!index.remove_document(4));
    assert!(!index.remove_document(4000));
    assert!(index.remove_document(1));
    assert!(!index.remove_document(1));
    assert_eq!(index.points_count(), 3);
    assert_eq!(index.filter(&query(&index, &["a"])), vec![0, 2, 3]);
}

#[test]
fn points_count_follows_inserts_and_removes() {
    let mut index = InvertedIndex::new(true);
    assert_eq!(index.points_count(), 0);
    add(&mut index, 5, &["a"]);
    add(&mut index, 2, &["a", "b"]);
    assert_eq!(index.points_count(), 2);
    assert!(index.remove_document(5));
    assert_eq!(index.points_count(), 1);
    add(&mut index, 5, &["c"]);
    add(&mut index, 9, &[]);
    assert_eq!(index.points_count(), 3);
    assert!(index.remove_document(2));
    assert!(index.remove_document(5));
    assert!(index.remove_document(9));
    assert_eq!(index.points_count(), 0);
}

#[test]
fn indexing_a_point_twice_counts_twice() {
    let mut index = InvertedIndex::new(true);
    add(&mut index, 1, &["a"]);
    add(&mut index, 1, &["b"]);
    assert_eq!(index.points_count(), 2);
    assert_eq!(index.values_count(1), 1);
    assert_eq!(index.filter(&query(&index, &["b"])), vec![1]);
}

#[test]
fn immutable_index_matches_by_postings() {
    let index = four_points();
    let ab = query(&index, &["a", "b"]);
    assert!(index.check_match(&ab, 0));
    assert!(!index.check_match(&ab, 1));
    let index = into_immutable(index);
    assert!(index.check_match(&ab, 0));
    assert!(!index.check_match(&ab, 1));
    assert!(index.check_match(&ab, 3));
    assert!(!index.check_match(&ab, 4));
    assert!(!index.check_match(&ParsedQuery { tokens: vec![Some(0), None] }, 0));
    assert!(!index.check_match(&ParsedQuery { tokens: vec![Some(99)] }, 0));
    assert_eq!(index.points_count(), 4);
    assert_eq!(index.filter(&ab), vec![0, 3]);
    assert_eq!(index.filter(&query(&index, &["c"])), vec![1, 2, 3]);
}

#[test]
fn immutable_and_mutable_index_agree_on_every_point() {
    let mutable = four_points();
    let immutable = into_immutable(four_points());
    for list in [vec!["a"], vec!["b", "c"], vec!["a", "b", "c"], vec!["z"], vec![]] {
        let parsed = query(&mutable, &list);
        for point in 0..4 {
            assert_eq!(
                mutable.check_match(&parsed, point),
                immutable.check_match(&parsed, point)
            );
        }
    }
}

#[test]
fn immutable_index_takes_no_documents() {
    let mut index = into_immutable(four_points());
    let document = index.document_from_tokens(&words(&["a"]));
    let refused = index.index_document(9, document);
    match refused {
        Err(OperationError::ServiceError { description }) => {
            assert_eq!(description, "Can't add values to immutable text index")
        }
        Ok(()) => panic!("the immutable index took a document"),
    }
    assert_eq!(index.points_count(), 4);
    assert!(index.values_is_empty(9));
}

#[test]
fn immutable_index_forgets_a_removed_point() {
    let mut index = into_immutable(four_points());
    assert_eq!(index.values_count(3), 3);
    assert!(!index.values_is_empty(3));
    assert!(index.remove_document(3));
    assert!(!index.remove_document(3));
    assert!(!index.remove_document(40));
    assert_eq!(index.points_count(), 3);
    assert!(index.values_is_empty(3));
    assert_eq!(index.values_count(3), 0);
    let ab = query(&index, &["a", "b"]);
    assert!(!index.check_match(&ab, 3));
    assert!(index.check_match(&ab, 0));
}

#[test]
fn values_of_a_point() {
    let mut index = four_points();
    add(&mut index, 6, &[]);
    assert_eq!(index.values_count(0), 2);
    assert_eq!(index.values_count(3), 3);
    assert_eq!(index.values_count(6), 0);
    assert_eq!(index.values_count(5), 0);
    assert!(!index.values_is_empty(0));
    assert!(index.values_is_empty(6));
    assert!(index.values_is_empty(5));
    assert!(index.values_is_empty(7));
    let index = into_immutable(index);
    assert_eq!(index.values_count(0), 2);
    assert_eq!(index.values_count(6), 0);
    assert!(!index.values_is_empty(6));
    assert!(index.values_is_empty(5));
    assert!(index.values_is_empty(7));
}

#[test]
fn tokens_are_numbered_as_they_come() {
    let mut index = InvertedIndex::new(true);
    let document = index.document_from_tokens(&words(&["pear", "apple", "pear", "fig"]));
    assert_eq!(document.tokens(), &[0, 0, 1, 2]);
    assert_eq!(index.get_token("pear"), Some(0));
    assert_eq!(index.get_token("apple"), Some(1));
    assert_eq!(index.get_token("fig"), Some(2));
    assert_eq!(index.get_token("plum"), None);
    let document = index.document_from_tokens(&words(&["plum", "apple"]));
    assert_eq!(document.tokens(), &[1, 3]);
    assert_eq!(index.get_token("plum"), Some(3));
    assert_eq!(index.points_count(), 0);
}

#[test]
fn new_index_is_empty() {
    for appendable in [true, false] {
        let index = InvertedIndex::new(appendable);
        assert_eq!(index.points_count(), 0);
        assert_eq!(index.get_token("a"), None);
        assert!(index.values_is_empty(0));
        assert_eq!(matches!(index, InvertedIndex::Mutable(_)), appendable);
    }
    assert_eq!(MutableInvertedIndex::default().points_count(), 0);
    assert_eq!(ImmutableInvertedIndex::default().points_count(), 0);
}

#[test]
fn estimate_of_one_word_is_the_length_of_its_list() {
    let index = four_points();
    let estimation = index.estimate_cardinality(&query(&index, &["c"]), &condition());
    assert_eq!(bounds(&estimation), (3, 3, 3));
    assert_eq!(estimation.primary_clauses.len(), 1);
    match &estimation.primary_clauses[0] {
        PrimaryCondition::Condition(condition) => {
            assert_eq!(condition.key, "text");
            match &condition.matching {
                Some(Match::Text(text)) => assert_eq!(text.text, "a b"),
                None => panic!("the condition lost its text"),
            }
        }
    }
}

#[test]
fn estimate_of_several_words() {
    let index = four_points();
    // 3 * 3 / 4
    let estimation = index.estimate_cardinality(&query(&index, &["a", "b"]), &condition());
    assert_eq!(bounds(&estimation), (0, 2, 3));
    // 3 * 3 * 3 / 16
    let estimation = index.estimate_cardinality(&query(&index, &["a", "b", "c"]), &condition());
    assert_eq!(bounds(&estimation), (0, 1, 3));
    let matches = index.filter(&query(&index, &["a", "b"])).len();
    assert!(0 <= matches && matches <= 3);
}

#[test]
fn estimate_takes_the_shortest_list_as_the_most() {
    let mut index = four_points();
    add(&mut index, 4, &["a", "d"]);
    // lists of 4 and 1 among 5 points
    let estimation = index.estimate_cardinality(&query(&index, &["a", "d"]), &condition());
    assert_eq!(bounds(&estimation), (0, 0, 1));
    let estimation = index.estimate_cardinality(&query(&index, &["d", "a"]), &condition());
    assert_eq!(bounds(&estimation), (0, 0, 1));
}

#[test]
fn estimate_of_nothing() {
    let index = four_points();
    let estimation = index.estimate_cardinality(&query(&index, &["a", "z"]), &condition());
    assert_eq!(bounds(&estimation), (0, 0, 0));
    let estimation = index.estimate_cardinality(&ParsedQuery { tokens: vec![] }, &condition());
    assert_eq!(bounds(&estimation), (0, 0, 0));
    let estimation =
        index.estimate_cardinality(&ParsedQuery { tokens: vec![Some(99)] }, &condition());
    assert_eq!(bounds(&estimation), (0, 0, 0));
    assert_eq!(estimation.primary_clauses.len(), 1);
}

#[test]
fn estimate_after_all_points_of_a_word_are_gone() {
    let mut index = InvertedIndex::new(true);
    add(&mut index, 0, &["a", "b"]);
    assert!(index.remove_document(0));
    let estimation = index.estimate_cardinality(&query(&index, &["a"]), &condition());
    assert_eq!(bounds(&estimation), (0, 0, 0));
    let estimation = index.estimate_cardinality(&query(&index, &["a", "b"]), &condition());
    assert_eq!(bounds(&estimation), (0, 0, 0));
    assert_eq!(index.filter(&query(&index, &["a"])), Vec::<u32>::new());
}

#[test]
fn payload_blocks_of_the_frequent_words() {
    let mut index = four_points();
    add(&mut index, 4, &["a", "d"]);
    let blocks = index.payload_blocks(3, "text".to_string());
    let blocks: Vec<(String, String, usize)> = blocks.iter().map(block).collect();
    assert_eq!(
        blocks,
        vec![
            ("text".to_string(), "a".to_string(), 4),
            ("text".to_string(), "b".to_string(), 3),
            ("text".to_string(), "c".to_string(), 3),
        ]
    );
    assert_eq!(index.payload_blocks(4, "text".to_string()).len(), 1);
    assert_eq!(index.payload_blocks(5, "text".to_string()).len(), 0);
    assert_eq!(index.payload_blocks(0, "text".to_string()).len(), 4);
}

#[test]
fn payload_blocks_leave_out_words_without_list() {
    let mut index = InvertedIndex::new(true);
    // "ghost" gets a token but is never indexed
    index.document_from_tokens(&words(&["ghost"]));
    add(&mut index, 0, &["a"]);
    assert!(index.remove_document(0));
    let blocks = index.payload_blocks(0, "k".to_string());
    let blocks: Vec<(String, String, usize)> = blocks.iter().map(block).collect();
    // the list of "a" is still there, and empty
    assert_eq!(blocks, vec![("k".to_string(), "a".to_string(), 0)]);
    assert_eq!(index.payload_blocks(1, "k".to_string()).len(), 0);
}

fn items() -> Vec<IndexItem> {
    vec![
        Ok((0, words(&["a", "b"]))),
        Ok((1, words(&["b", "c"]))),
        Ok((2, words(&["a", "c"]))),
        Ok((3, words(&["a", "b", "c"]))),
    ]
}

#[test]
fn build_index_in_mutable_form() {
    let mut index = InvertedIndex::new(true);
    add(&mut index, 77, &["old"]);
    index.build_index(&items()).unwrap();
    assert!(matches!(index, InvertedIndex::Mutable(_)));
    assert_eq!(index.points_count(), 4);
    assert_eq!(index.filter(&query(&index, &["a", "b"])), vec![0, 3]);
    assert_eq!(index.filter(&query(&index, &["c"])), vec![1, 2, 3]);
    // the points of the index before are gone, its words keep their tokens
    assert_eq!(index.get_token("old"), Some(0));
    assert_eq!(index.get_token("a"), Some(1));
    assert_eq!(index.filter(&query(&index, &["old"])), Vec::<u32>::new());
    assert!(index.values_is_empty(77));
    assert!(index.check_match(&query(&index, &["a", "b"]), 0));
    assert!(!index.check_match(&query(&index, &["a", "b"]), 1));
}

#[test]
fn build_index_in_immutable_form() {
    let mut index = InvertedIndex::new(false);
    index.build_index(&items()).unwrap();
    assert!(matches!(index, InvertedIndex::Immutable(_)));
    assert_eq!(index.points_count(), 4);
    assert_eq!(index.filter(&query(&index, &["a", "b"])), vec![0, 3]);
    assert_eq!(index.values_count(3), 3);
    assert!(index.check_match(&query(&index, &["a", "b"]), 0));
    assert!(!index.check_match(&query(&index, &["a", "b"]), 1));
}

#[test]
fn build_index_from_nothing() {
    let mut index = four_points();
    index.build_index(&Vec::new()).unwrap();
    assert_eq!(index.points_count(), 0);
    assert_eq!(index.filter(&query(&index, &["a"])), Vec::<u32>::new());
    assert_eq!(index.get_token("a"), Some(0));
}

#[test]
fn build_index_ends_with_the_first_error() {
    let mut index = four_points();
    let items: Vec<IndexItem> = vec![
        Ok((8, words(&["x"]))),
        Err(OperationError::service_error("first")),
        Ok((9, words(&["y"]))),
        Err(OperationError::service_error("second")),
    ];
    match index.build_index(&items) {
        Err(error) => assert_eq!(error.description(), "first"),
        Ok(()) => panic!("the build went past an error"),
    }
    // the index keeps its points
    assert_eq!(index.points_count(), 4);
    assert_eq!(index.filter(&query(&index, &["a", "b"])), vec![0, 3]);
    assert!(index.values_is_empty(8));
    // the words up to the error are known
    assert_eq!(index.get_token("x"), Some(3));
    assert_eq!(index.get_token("y"), None);
}

#[test]
fn mutable_index_on_its_own() {
    let mut index = MutableInvertedIndex::default();
    index.index_document(2, Document::new(vec![0, 4])).unwrap();
    index.index_document(0, Document::new(vec![4])).unwrap();
    assert_eq!(index.points_count(), 2);
    assert_eq!(index.values_count(2), 2);
    assert!(index.values_is_empty(1));
    assert!(index.check_match(&ParsedQuery { tokens: vec![Some(4)] }, 0));
    assert!(!index.check_match(&ParsedQuery { tokens: vec![Some(0)] }, 0));
    assert!(!index.check_match(&ParsedQuery { tokens: vec![Some(4)] }, 1));
    assert!(index.remove_document(2));
    assert!(!index.remove_document(2));
    assert!(!index.remove_document(1));
    assert_eq!(index.points_count(), 1);
    let built = ImmutableInvertedIndex::from(index);
    assert_eq!(built.points_count(), 1);
    assert_eq!(built.values_count(0), 1);
    assert!(built.values_is_empty(2));
    assert!(built.check_match(&ParsedQuery { tokens: vec![Some(4)] }, 0));
    assert!(!built.check_match(&ParsedQuery { tokens: vec![Some(4)] }, 2));
}
