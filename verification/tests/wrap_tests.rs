use sophia_index::wrap::Even;
use sophia_index::wrap::Foo;

#[test]
fn constructor_succeeds() {
    assert!(Even::new(42).is_ok());
}

#[test]
fn constructor_fails() {
    assert!(Even::new(43).is_err());
}

#[test]
fn new_succeeds() {
    assert!(Foo::new("this foo is good".to_string()).is_ok());
}

#[test]
fn new_fails() {
    assert!(Foo::new("this bar is bad".to_string()).is_err());
}

#[test]
fn partial_eq() {
    let f1a = Foo::new("foo1".to_string()).unwrap();
    let f1b = Foo::new("foo1".to_string()).unwrap();
    let f2 = Foo::new("foo2".to_string()).unwrap();
    assert_eq!(f1a.as_str(), "foo1");
    assert_eq!(f1a.as_str(), "foo1");
    assert_eq!(f2.as_str(), "foo2");
    assert_ne!(f2.as_str(), "foo1");
    assert_eq!("foo1", f1a.as_str());
    assert_eq!("foo1", f1a.as_str());
    assert_eq!("foo2", f2.as_str());
    assert_ne!("foo1", f2.as_str());
    assert_eq!(f1a.as_str(), f1b.as_str());
}

#[test]
fn even_negative_values() {
    assert!(Even::new(-4).is_ok());
    assert!(Even::new(-3).is_err());
    assert!(Even::new(0).is_ok());
}

#[test]
fn even_into_inner() {
    let e = Even::new(42).unwrap();
    assert_eq!(e.into_inner(), 42);
}

#[test]
fn foo_marker_positions() {
    assert!(Foo::new("foo".to_string()).is_ok());
    assert!(Foo::new("xxfoo".to_string()).is_ok());
    assert!(Foo::new("fo".to_string()).is_err());
    assert!(Foo::new("".to_string()).is_err());
    assert!(Foo::new("fofofoo".to_string()).is_ok());
}

#[test]
fn foo_into_inner() {
    let f = Foo::new("a foo b".to_string()).unwrap();
    assert_eq!(f.into_inner(), "a foo b");
}
