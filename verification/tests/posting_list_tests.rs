use shard_core::document::{Document, ParsedQuery};
use shard_core::posting_list::PostingList;
use shard_core::postings_iterator::intersect_postings_iterator;
use shard_core::sorted::binary_search;

fn posting(ids: &[u32]) -> PostingList {
    let mut list = PostingList::new(ids[0]);
    for id in ids {
        list.insert(*id);
    }
    list
}

#[test]
fn new_holds_one_point() {
    let list = PostingList::new(7);
    assert_eq!(list.len(), 1);
    assert_eq!(list.iter(), vec![7]);
    assert!(list.contains(&7));
    assert!(!list.contains(&8));
}

#[test]
fn default_list_is_empty() {
    let list = PostingList::default();
    assert_eq!(list.len(), 0);
    assert!(!list.contains(&0));
}

#[test]
fn size_covers_the_ids() {
    let list = posting(&[1, 2, 3, 4, 5]);
    assert!(list.size() >= 5 * 4 + std::mem::size_of::<Vec<u32>>());
    assert!(PostingList::default().size() >= std::mem::size_of::<Vec<u32>>());
}

#[test]
fn insert_keeps_order() {
    let mut list = PostingList::new(5);
    list.insert(9);
    list.insert(1);
    list.insert(7);
    assert_eq!(list.iter(), vec![1, 5, 7, 9]);
    assert_eq!(list.len(), 4);
    assert_eq!(list.get(2), 7);
}

#[test]
fn insert_twice_changes_nothing() {
    let mut list = posting(&[1, 5, 9]);
    list.insert(5);
    list.insert(1);
    list.insert(9);
    assert_eq!(list.iter(), vec![1, 5, 9]);
}

#[test]
fn remove_takes_the_point_out() {
    let mut list = posting(&[1, 5, 9]);
    list.remove(5);
    assert_eq!(list.iter(), vec![1, 9]);
    assert!(!list.contains(&5));
    list.remove(1);
    list.remove(9);
    assert_eq!(list.len(), 0);
    assert_eq!(list.iter(), Vec::<u32>::new());
}

#[test]
fn remove_of_absent_point_changes_nothing() {
    let mut list = posting(&[1, 5, 9]);
    list.remove(4);
    list.remove(0);
    list.remove(10);
    assert_eq!(list.iter(), vec![1, 5, 9]);
}

#[test]
fn contains_at_the_ends() {
    let list = posting(&[0, 3, u32::MAX]);
    assert!(list.contains(&0));
    assert!(list.contains(&u32::MAX));
    assert!(!list.contains(&1));
    assert!(!list.contains(&(u32::MAX - 1)));
}

#[test]
fn binary_search_answers_like_the_slice_search() {
    let list: Vec<u32> = vec![2, 4, 4, 8, 16];
    assert_eq!(binary_search(&list, 8), Ok(3));
    assert_eq!(binary_search(&list, 1), Err(0));
    assert_eq!(binary_search(&list, 5), Err(3));
    assert_eq!(binary_search(&list, 17), Err(5));
    let found = binary_search(&list, 4).unwrap();
    assert!(found == 1 || found == 2);
    assert_eq!(binary_search(&Vec::new(), 4), Err(0));
}

#[test]
fn intersection_of_three_lists() {
    let a = posting(&[1, 2, 3, 5, 8, 13, 21]);
    let b = posting(&[2, 3, 5, 7, 11, 13]);
    let c = posting(&[0, 3, 5, 13, 40]);
    assert_eq!(intersect_postings_iterator(vec![&a, &b, &c]), vec![3, 5, 13]);
    assert_eq!(intersect_postings_iterator(vec![&c, &a, &b]), vec![3, 5, 13]);
}

#[test]
fn intersection_of_one_list_is_the_list() {
    let a = posting(&[4, 6, 9]);
    assert_eq!(intersect_postings_iterator(vec![&a]), vec![4, 6, 9]);
}

#[test]
fn intersection_of_no_list_is_empty() {
    assert_eq!(intersect_postings_iterator(Vec::new()), Vec::<u32>::new());
}

#[test]
fn intersection_with_disjoint_or_empty_list_is_empty() {
    let a = posting(&[1, 3, 5]);
    let b = posting(&[2, 4, 6]);
    let mut none = PostingList::new(1);
    none.remove(1);
    assert_eq!(intersect_postings_iterator(vec![&a, &b]), Vec::<u32>::new());
    assert_eq!(intersect_postings_iterator(vec![&a, &none]), Vec::<u32>::new());
    assert_eq!(intersect_postings_iterator(vec![&none, &a]), Vec::<u32>::new());
}

#[test]
fn document_is_sorted() {
    let document = Document::new(vec![3, 1, 2, 1]);
    assert_eq!(document.tokens(), &[1, 1, 2, 3]);
    assert_eq!(document.len(), 4);
    assert!(!document.is_empty());
    assert!(document.check(2));
    assert!(document.check(1));
    assert!(!document.check(0));
    assert!(!document.check(4));
}

#[test]
fn empty_document() {
    let document = Document::new(Vec::new());
    assert!(document.is_empty());
    assert_eq!(document.len(), 0);
    assert!(!document.check(0));
    let by_default = Document::default();
    assert!(by_default.is_empty());
}

#[test]
fn query_matches_document_that_holds_all_words() {
    let document = Document::new(vec![5, 1, 9]);
    assert!(ParsedQuery { tokens: vec![Some(1), Some(9)] }.check_match(&document));
    assert!(ParsedQuery { tokens: vec![Some(5)] }.check_match(&document));
    assert!(!ParsedQuery { tokens: vec![Some(1), Some(2)] }.check_match(&document));
    assert!(ParsedQuery { tokens: vec![] }.check_match(&document));
}

#[test]
fn query_with_unknown_word_matches_nothing() {
    let document = Document::new(vec![5, 1, 9]);
    let query = ParsedQuery { tokens: vec![Some(1), None] };
    assert!(!query.is_resolved());
    assert!(!query.check_match(&document));
    assert!(ParsedQuery { tokens: vec![Some(1)] }.is_resolved());
}
