use sophia_index::term::Term;
use sophia_index::term_index::assert_term_index_works;
use sophia_index::term_index::TermIndexMap;
use sophia_index::term_index::TermTable;

#[test]
fn term_index_works() {
    let mut ti = TermTable::new();
    let t1 = Term::new("http://example.org/".to_string());
    let t2 = Term::new("http://example.org/2".to_string());
    assert_term_index_works(&mut ti, &t1, &t2);
}

#[test]
fn intern_unseen_then_lookup() {
    let mut ti = TermTable::new();
    let a = Term::new("A".to_string());
    let h = ti.make_index(&a);
    assert_ne!(h, TermTable::null_index());
    assert_eq!(ti.get_index(&a), Some(h));
    assert_eq!(ti.get_term(h).unwrap().as_text(), "A");
}

#[test]
fn intern_twice_then_release_twice() {
    let mut ti = TermTable::new();
    let a = Term::new("A".to_string());
    let h = ti.make_index(&a);
    let h2 = ti.make_index(&a);
    assert_eq!(h, h2);
    ti.dec_ref(h);
    assert_eq!(ti.get_index(&a), Some(h));
    ti.dec_ref(h);
    assert_eq!(ti.get_index(&a), None);
    assert!(ti.get_term(h).is_none());
}

#[test]
fn inc_then_dec_is_noop() {
    let mut ti = TermTable::new();
    let a = Term::new("A".to_string());
    let h = ti.make_index(&a);
    ti.inc_ref(h);
    ti.dec_ref(h);
    assert_eq!(ti.get_index(&a), Some(h));
    ti.dec_ref(h);
    assert_eq!(ti.get_index(&a), None);
}

#[test]
fn distinct_terms_distinct_handles() {
    let mut ti = TermTable::new();
    let a = Term::new("A".to_string());
    let b = Term::new("B".to_string());
    let ha = ti.make_index(&a);
    let hb = ti.make_index(&b);
    assert_ne!(ha, hb);
}

#[test]
fn scenario_two_terms() {
    let mut ti = TermTable::new();
    let a = Term::new("A".to_string());
    let b = Term::new("B".to_string());
    let h0 = ti.make_index(&a);
    let h1 = ti.make_index(&b);
    assert_ne!(h0, h1);
    let h0b = ti.make_index(&a);
    assert_eq!(h0, h0b);
    ti.dec_ref(h0);
    assert_eq!(ti.get_index(&a), Some(h0));
    ti.dec_ref(h0);
    assert_eq!(ti.get_index(&a), None);
    assert!(ti.get_term(h0).is_none());
    assert_eq!(ti.get_index(&b), Some(h1));
}

#[test]
fn null_index_is_never_mapped() {
    let mut ti = TermTable::new();
    assert!(ti.get_term(TermTable::null_index()).is_none());
    let a = Term::new("A".to_string());
    let h = ti.make_index(&a);
    assert_ne!(h, TermTable::null_index());
    assert!(ti.get_term(TermTable::null_index()).is_none());
}

#[test]
fn shrink_to_fit_keeps_mapping() {
    let mut ti = TermTable::new();
    let a = Term::new("A".to_string());
    let b = Term::new("B".to_string());
    let ha = ti.make_index(&a);
    let hb = ti.make_index(&b);
    ti.dec_ref(hb);
    ti.shrink_to_fit();
    assert_eq!(ti.get_index(&a), Some(ha));
    assert_eq!(ti.get_index(&b), None);
    assert_eq!(ti.get_term(ha).unwrap().as_text(), "A");
}

#[test]
fn freed_slot_is_reused() {
    let mut ti = TermTable::new();
    let a = Term::new("A".to_string());
    let b = Term::new("B".to_string());
    let ha = ti.make_index(&a);
    ti.dec_ref(ha);
    let hb = ti.make_index(&b);
    assert_eq!(ha, hb);
    assert_eq!(ti.get_term(hb).unwrap().as_text(), "B");
}
