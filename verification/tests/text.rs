use swapi::text::{str_eq, str_le, str_lt};

fn samples() -> Vec<&'static str> {
    vec![
        "", "a", "A", "aa", "ab", "b", "ba", "Zed", "Luke", "Leia", "R2-D2", "male", "female",
        "n/a", "hermaphrodite", "none", "Male", "é", "e", "ez", "z", "日本", "日", "~", " ",
        "a b", "ab ", "😀", "\u{7f}", "\u{80}", "\u{7ff}", "\u{800}", "\u{ffff}", "\u{10000}",
    ]
}

#[test]
fn order_is_that_of_str() {
    for a in samples() {
        for b in samples() {
            assert_eq!(str_le(a, b), a <= b, "{:?} <= {:?}", a, b);
            assert_eq!(str_lt(a, b), a < b, "{:?} < {:?}", a, b);
            assert_eq!(str_eq(a, b), a == b, "{:?} == {:?}", a, b);
        }
    }
}

#[test]
fn a_proper_prefix_comes_first() {
    assert!(str_le("Luk", "Luke"));
    assert!(str_lt("Luk", "Luke"));
    assert!(!str_le("Luke", "Luk"));
    assert!(str_le("", "a"));
    assert!(!str_le("a", ""));
}

#[test]
fn the_first_difference_decides() {
    assert!(str_lt("Leia", "Luke"));
    assert!(!str_lt("Luke", "Leia"));
    assert!(str_lt("Luke", "Zed"));
    assert!(str_lt("female", "male"));
    assert!(str_lt("male", "n/a"));
}

#[test]
fn order_is_case_sensitive() {
    assert!(str_lt("Zed", "anakin"));
    assert!(!str_eq("male", "Male"));
    assert!(str_lt("Male", "male"));
}

#[test]
fn a_text_is_no_later_than_itself() {
    for a in samples() {
        assert!(str_le(a, a));
        assert!(str_eq(a, a));
        assert!(!str_lt(a, a));
    }
}

#[test]
fn of_two_texts_one_is_no_later() {
    for a in samples() {
        for b in samples() {
            assert!(str_le(a, b) || str_le(b, a));
            if str_le(a, b) && str_le(b, a) {
                assert_eq!(a, b);
            }
        }
    }
}

#[test]
fn order_is_transitive() {
    for a in samples() {
        for b in samples() {
            for c in samples() {
                if str_le(a, b) && str_le(b, c) {
                    assert!(str_le(a, c));
                }
            }
        }
    }
}
