use pagealloc::linked_list::LinkedList;
use std::collections::LinkedList as StdLibList;

// Collect the forward traversal of the list as owned values.
fn forward(l: &LinkedList<usize>) -> Vec<usize> {
    l.iter_mut().into_iter().map(|v| *v).collect()
}

// Collect the backward traversal of the list as owned values.
fn backward(l: &LinkedList<usize>) -> Vec<usize> {
    l.iter_mut_reverse().into_iter().map(|v| *v).collect()
}

// Inserting values one at a time through a forward cursor produces the
// same sequence as a reference doubly-linked container fed the same
// inserts, under both forward and reverse iteration, and the cached
// length tracks the traversal count after every mutation.
#[test]
fn test_linear_inserts() {
    let src = vec![1, 2, 3, 4, 5, 6, 7, 8, 9];

    let mut std_ll = StdLibList::new();
    let mut c = LinkedList::new().cursor_mut();
    for i in src {
        c.next();
        c.insert_after(i);
        std_ll.push_back(i);

        let ll = c.into_list();
        let expected: Vec<usize> = std_ll.iter().cloned().collect();
        let reversed: Vec<usize> = std_ll.iter().rev().cloned().collect();
        assert_eq!(forward(&ll), expected);
        assert_eq!(backward(&ll), reversed);
        assert_eq!(ll.len(), forward(&ll).len());
        c = ll.cursor_mut();
        c.seek_to_end();
    }
}

// Building a list from a sequence and iterating it forward reproduces
// the input sequence exactly.
#[test]
fn test_collect() {
    let src = vec![1, 2, 3, 4, 5, 6, 7, 8, 9];
    let std_ll: StdLibList<usize> = src.iter().cloned().collect();
    let ll = LinkedList::from_vec(src.clone());
    assert_eq!(forward(&ll), src);
    assert_eq!(
        backward(&ll),
        std_ll.iter().rev().cloned().collect::<Vec<usize>>()
    );
    assert_eq!(ll.len(), src.len());
}

#[test]
fn empty_list_has_no_values() {
    let ll: LinkedList<usize> = LinkedList::new();
    assert_eq!(ll.len(), 0);
    assert!(forward(&ll).is_empty());
    assert!(backward(&ll).is_empty());
    let mut c = ll.cursor_mut();
    assert!(c.value().is_none());
    assert!(c.reference().is_none());
    assert!(!c.next());
    assert!(!c.previous());
    assert!(c.remove().is_none());
}

#[test]
fn insert_before_keeps_cursor_on_its_value() {
    let mut c = LinkedList::from_vec(vec![10, 30]).cursor_mut();
    assert_eq!(c.list().len(), 2);
    c.next();
    assert_eq!(*c.value().unwrap(), 30);
    c.insert_before(20);
    assert_eq!(*c.value().unwrap(), 30);
    let ll = c.into_list();
    assert_eq!(forward(&ll), vec![10, 20, 30]);
}

#[test]
fn remove_moves_cursor_to_previous_else_next() {
    let mut c = LinkedList::from_vec(vec![1, 2, 3]).cursor_mut();
    c.next();
    let (v, _) = c.remove().unwrap();
    assert_eq!(v, 2);
    assert_eq!(*c.value().unwrap(), 1);

    let (v, _) = c.remove().unwrap();
    assert_eq!(v, 1);
    assert_eq!(*c.value().unwrap(), 3);

    let (v, _) = c.remove().unwrap();
    assert_eq!(v, 3);
    assert!(c.value().is_none());
    assert_eq!(c.into_list().len(), 0);
}

// A reference keeps resolving to the same value, by content, across
// unrelated insertions and removals elsewhere in the list, until the
// value itself is removed.
#[test]
fn reference_survives_unrelated_mutations() {
    let mut c = LinkedList::from_vec(vec![10, 20, 30]).cursor_mut();
    c.next();
    assert_eq!(*c.value().unwrap(), 20);
    let r = c.reference().unwrap();

    c.seek_to_start();
    c.insert_before(5);
    c.seek_to_end();
    c.insert_after(40);
    c.seek_to_end();
    let (gone, _) = c.remove().unwrap();
    assert_eq!(gone, 40);
    c.seek_to_start();
    let (gone, _) = c.remove().unwrap();
    assert_eq!(gone, 5);

    let ll = c.into_list();
    assert_eq!(forward(&ll), vec![10, 20, 30]);
    let mut c2 = r.cursor_mut(ll);
    assert_eq!(*c2.value().unwrap(), 20);
    assert!(c2.previous());
    assert_eq!(*c2.value().unwrap(), 10);
}

// The token returned by a removal names exactly the reference of the
// removed value.
#[test]
fn null_ref_invalidates_removed_reference() {
    let mut c = LinkedList::from_vec(vec![10, 20, 30]).cursor_mut();
    c.next();
    let r20 = c.reference().unwrap();
    c.previous();
    let r10 = c.reference().unwrap();
    c.next();
    let (v, null_ref) = c.remove().unwrap();
    assert_eq!(v, 20);
    assert!(null_ref.invalidates(&r20));
    assert!(!null_ref.invalidates(&r10));
}

#[test]
fn seek_and_set_value() {
    let mut c = LinkedList::from_vec(vec![7, 8, 9]).cursor_mut();
    c.seek_to_end();
    assert_eq!(*c.value().unwrap(), 9);
    c.set_value(90);
    c.seek_to_start();
    assert_eq!(*c.value().unwrap(), 7);
    let ll = c.into_list();
    assert_eq!(forward(&ll), vec![7, 8, 90]);
}

// Lists carry arbitrary owned values, not just integers.
#[test]
fn round_trip_with_owned_values() {
    let words: Vec<String> = vec!["page".to_string(), "free".to_string(), "list".to_string()];
    let ll = LinkedList::from_vec(words.clone());
    let collected: Vec<String> = ll.iter_mut().into_iter().cloned().collect();
    assert_eq!(collected, words);
    assert_eq!(ll.len(), 3);
}
