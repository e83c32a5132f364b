use sophia_index::graph::HashGraph;
use sophia_index::graph::IndexedGraph;
use sophia_index::term::Term;

#[test]
fn insert_then_remove_then_gone() {
    let mut g = HashGraph::new();
    let a = Term::new("A".to_string());
    let b = Term::new("B".to_string());
    let c = Term::new("C".to_string());
    let tr = g.insert_indexed(&a, &b, &c).unwrap();
    assert_eq!(g.get_index(&a), Some(tr.s));
    assert_eq!(g.get_index(&b), Some(tr.p));
    assert_eq!(g.get_index(&c), Some(tr.o));
    let tr2 = g.remove_indexed(&a, &b, &c).unwrap();
    assert_eq!(tr, tr2);
    assert!(g.remove_indexed(&a, &b, &c).is_none());
    assert_eq!(g.get_index(&a), None);
    assert_eq!(g.get_index(&b), None);
    assert_eq!(g.get_index(&c), None);
}

#[test]
fn duplicate_insert_is_refused() {
    let mut g = HashGraph::new();
    let a = Term::new("A".to_string());
    let b = Term::new("B".to_string());
    let c = Term::new("C".to_string());
    assert!(g.insert_indexed(&a, &b, &c).is_some());
    assert!(g.insert_indexed(&a, &b, &c).is_none());
    assert!(g.remove_indexed(&a, &b, &c).is_some());
    assert!(g.insert_indexed(&a, &b, &c).is_some());
}

#[test]
fn same_term_three_positions_counts_three() {
    let mut g = HashGraph::new();
    let a = Term::new("A".to_string());
    let b = Term::new("B".to_string());
    let tr = g.insert_indexed(&a, &a, &a).unwrap();
    assert_eq!(tr.s, tr.p);
    assert_eq!(tr.p, tr.o);
    g.insert_indexed(&a, &b, &b).unwrap();
    assert!(g.remove_indexed(&a, &a, &a).is_some());
    assert!(g.get_index(&a).is_some());
    assert!(g.remove_indexed(&a, &b, &b).is_some());
    assert!(g.get_index(&a).is_none());
    assert!(g.get_index(&b).is_none());
}

#[test]
fn scenario_repeated_component_and_missing_removal() {
    let mut g = HashGraph::new();
    let a = Term::new("A".to_string());
    let b = Term::new("B".to_string());
    let c = Term::new("C".to_string());
    let tr = g.insert_indexed(&a, &b, &a).unwrap();
    assert_eq!(tr.s, tr.o);
    assert!(g.remove_indexed(&a, &b, &c).is_none());
    assert!(g.insert_indexed(&a, &b, &a).is_none());
    assert_eq!(g.get_index(&a), Some(tr.s));
    assert_eq!(g.get_index(&b), Some(tr.p));
}

#[test]
fn shared_terms_between_triples() {
    let mut g = HashGraph::new();
    let a = Term::new("A".to_string());
    let b = Term::new("B".to_string());
    let c = Term::new("C".to_string());
    let d = Term::new("D".to_string());
    let t1 = g.insert_indexed(&a, &b, &c).unwrap();
    let t2 = g.insert_indexed(&a, &b, &d).unwrap();
    assert_eq!(t1.s, t2.s);
    assert_eq!(t1.p, t2.p);
    assert_ne!(t1.o, t2.o);
    assert!(g.remove_indexed(&a, &b, &c).is_some());
    assert!(g.get_index(&a).is_some());
    assert!(g.get_index(&c).is_none());
    assert!(g.remove_indexed(&a, &b, &d).is_some());
    assert!(g.get_index(&a).is_none());
}

#[test]
fn get_term_resolves_stored_handles() {
    let mut g = HashGraph::new();
    let a = Term::new("A".to_string());
    let b = Term::new("B".to_string());
    let c = Term::new("C".to_string());
    let tr = g.insert_indexed(&a, &b, &c).unwrap();
    assert_eq!(g.get_term(tr.s).unwrap().as_text(), "A");
    assert_eq!(g.get_term(tr.p).unwrap().as_text(), "B");
    assert_eq!(g.get_term(tr.o).unwrap().as_text(), "C");
    assert!(g.get_term(0).is_none());
}

#[test]
fn shrink_to_fit_keeps_graph() {
    let mut g = HashGraph::new();
    let a = Term::new("A".to_string());
    let b = Term::new("B".to_string());
    let c = Term::new("C".to_string());
    let tr = g.insert_indexed(&a, &b, &c).unwrap();
    g.insert_indexed(&b, &b, &b).unwrap();
    g.remove_indexed(&b, &b, &b).unwrap();
    g.shrink_to_fit();
    assert_eq!(g.get_index(&a), Some(tr.s));
    assert!(g.insert_indexed(&a, &b, &c).is_none());
}

#[test]
fn boolean_adapters_report_change() {
    let mut g = HashGraph::new();
    let a = Term::new("A".to_string());
    let b = Term::new("B".to_string());
    let c = Term::new("C".to_string());
    assert!(g.insert(&a, &b, &c));
    assert!(!g.insert(&a, &b, &c));
    assert!(g.remove(&a, &b, &c));
    assert!(!g.remove(&a, &b, &c));
}
