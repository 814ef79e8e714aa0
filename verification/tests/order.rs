use lddtopo::order::{insert_sorted, str_eq, str_lt};

#[test]
fn str_lt_is_the_order_of_str() {
    let samples =
        ["", "a", "A", "ab", "abc", "b", "lib10", "lib2", "é", "z", "日本", "\u{10ffff}", "a\0"];
    for a in samples {
        for b in samples {
            assert_eq!(a < b, str_lt(a, b), "{:?} < {:?}", a, b);
            assert_eq!(a == b, str_eq(a, b), "{:?} == {:?}", a, b);
        }
    }
}

#[test]
fn str_lt_puts_a_prefix_first() {
    assert!(str_lt("lib", "libc"));
    assert!(!str_lt("libc", "lib"));
    assert!(!str_lt("lib", "lib"));
    assert!(str_lt("", "a"));
    assert!(!str_lt("", ""));
}

#[test]
fn str_eq_tells_names_apart() {
    assert!(str_eq("libc.so.6", "libc.so.6"));
    assert!(!str_eq("libc.so.6", "libc.so.7"));
    assert!(!str_eq("libc.so", "libc.so.6"));
    assert!(str_eq("", ""));
}

#[test]
fn insert_sorted_keeps_the_list_ascending_and_free_of_repetitions() {
    let mut v: Vec<String> = Vec::new();
    let steps = [("m", true), ("a", true), ("z", true), ("m", false), ("b", true), ("a", false)];
    for (name, added) in steps {
        assert_eq!(added, insert_sorted(&mut v, name.to_string()));
    }
    assert_eq!(vec!["a", "b", "m", "z"], v);
}
