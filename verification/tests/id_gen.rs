use lddtopo::id_gen::IdGen;

#[test]
fn new_works() {
    let id_gen = IdGen::new();
    assert_eq!(0, id_gen.next_id());
    assert!(id_gen.is_empty());
    assert!(id_gen.get_by_id(0).is_none());
}

#[test]
fn get_next_id_when_the_input_is_the_same_should_return_the_same_id() {
    let mut id_gen = IdGen::new();
    let str = "hello";
    let id = id_gen.get_next_id(str);
    assert_eq!(0, id);
    assert_eq!(0, id_gen.get_next_id(str));
    assert_eq!(0, id_gen.get_next_id(str));
}

#[test]
fn get_next_id_when_the_input_is_differt_should_return_new_id() {
    let mut id_gen = IdGen::new();
    let s1 = "hello";
    let s2 = "ello";
    let id1 = id_gen.get_next_id(s1);
    let id2 = id_gen.get_next_id(s2);
    assert_ne!(id1, id2);
}

#[test]
fn get_by_id_when_id_does_not_exist_should_return_none() {
    let id_gen = IdGen::new();
    let id = id_gen.get_by_id(12);
    assert!(id.is_none());
}

#[test]
fn get_by_id_when_id_exists_should_return_some() {
    let mut id_gen = IdGen::new();
    let str = "hello";
    let id = id_gen.get_next_id(str);
    match id_gen.get_by_id(id) {
        None => {
            panic!("expected to get str")
        }
        Some(s) => {
            assert_eq!(str, s);
        }
    };
}

#[test]
fn identifiers_are_dense_and_start_at_zero() {
    let mut id_gen = IdGen::new();
    assert_eq!(0, id_gen.get_next_id("libc.so.6"));
    assert_eq!(1, id_gen.get_next_id("libm.so.6"));
    assert_eq!(2, id_gen.get_next_id("libdl.so.2"));
    assert_eq!(3, id_gen.next_id());
    assert!(!id_gen.is_empty());
}

#[test]
fn interning_again_changes_nothing() {
    let mut id_gen = IdGen::new();
    let a = id_gen.get_next_id("a");
    let b = id_gen.get_next_id("b");
    assert_eq!(a, id_gen.get_next_id("a"));
    assert_eq!(b, id_gen.get_next_id("b"));
    assert_eq!(2, id_gen.next_id());
    assert_eq!(Some("a"), id_gen.get_by_id(a));
    assert_eq!(Some("b"), id_gen.get_by_id(b));
}

#[test]
fn every_identifier_resolves_to_its_name() {
    let names = ["libz.so.1", "", "libc++.so", "ld-linux-x86-64.so.2", "libé.so"];
    let mut id_gen = IdGen::new();
    let ids: Vec<u32> = names.iter().map(|n| id_gen.get_next_id(n)).collect();
    for (name, id) in names.iter().zip(ids.iter()) {
        assert_eq!(Some(*name), id_gen.get_by_id(*id));
    }
    assert!(id_gen.get_by_id(names.len() as u32).is_none());
    assert!(id_gen.get_by_id(u32::MAX).is_none());
}

#[test]
fn names_that_differ_in_case_or_length_are_different() {
    let mut id_gen = IdGen::new();
    let a = id_gen.get_next_id("lib");
    let b = id_gen.get_next_id("Lib");
    let c = id_gen.get_next_id("libs");
    assert_ne!(a, b);
    assert_ne!(a, c);
    assert_ne!(b, c);
}
