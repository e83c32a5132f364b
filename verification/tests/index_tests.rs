use std::collections::HashMap;

use sophia_index::index::insert_in_index;
use sophia_index::index::remove_from_index;
use sophia_index::index::IndexTriple;

#[test]
fn insert_reports_creation() {
    let mut hm: HashMap<u32, Vec<IndexTriple<u32>>> = HashMap::new();
    let w1 = IndexTriple { s: 1, p: 2, o: 3 };
    let w2 = IndexTriple { s: 1, p: 4, o: 5 };
    assert!(insert_in_index(&mut hm, 1, w1));
    assert!(!insert_in_index(&mut hm, 1, w2));
    assert!(insert_in_index(&mut hm, 2, w1));
    assert_eq!(hm.get(&1).unwrap().len(), 2);
    assert_eq!(hm.get(&2).unwrap().len(), 1);
}

#[test]
fn remove_from_two_element_bucket() {
    let mut hm: HashMap<u32, Vec<IndexTriple<u32>>> = HashMap::new();
    let w1 = IndexTriple { s: 1, p: 2, o: 3 };
    let w2 = IndexTriple { s: 1, p: 4, o: 5 };
    insert_in_index(&mut hm, 1, w1);
    insert_in_index(&mut hm, 1, w2);
    let destroyed = remove_from_index(&mut hm, 1, w1);
    assert!(!destroyed);
    assert_eq!(hm.get(&1).unwrap().len(), 1);
    assert_eq!(hm.get(&1).unwrap()[0], w2);
}

#[test]
fn remove_last_element_destroys_entry() {
    let mut hm: HashMap<u32, Vec<IndexTriple<u32>>> = HashMap::new();
    let w1 = IndexTriple { s: 1, p: 2, o: 3 };
    insert_in_index(&mut hm, 1, w1);
    let destroyed = remove_from_index(&mut hm, 1, w1);
    assert!(destroyed);
    assert!(!hm.contains_key(&1));
}
