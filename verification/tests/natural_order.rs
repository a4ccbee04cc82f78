use std::cmp::Ordering;
use template_store::natural::{natural_order_of, next_section, sort_name, NameOrder};

#[test]
fn numbers_are_compared_by_value() {
    assert_eq!(sort_name("item2", "item10"), Ordering::Less);
    assert_eq!(sort_name("item10", "item2"), Ordering::Greater);
    assert_eq!(sort_name("9", "10"), Ordering::Less);
}

#[test]
fn leading_zeros_do_not_change_the_value() {
    assert_eq!(sort_name("item02", "item2"), Ordering::Equal);
    assert_eq!(sort_name("010", "10"), Ordering::Equal);
    assert_eq!(sort_name("item02b", "item2a"), Ordering::Greater);
    assert_eq!(sort_name("item02a", "item2b"), Ordering::Less);
}

#[test]
fn a_prefix_comes_first() {
    assert_eq!(sort_name("a", "a1"), Ordering::Less);
    assert_eq!(sort_name("a1", "a"), Ordering::Greater);
    assert_eq!(sort_name("", "a"), Ordering::Less);
    assert_eq!(sort_name("", ""), Ordering::Equal);
}

#[test]
fn long_digit_runs_are_compared_by_value() {
    let big = "1000000000000000000000000000000";
    let bigger = "1000000000000000000000000000001";
    assert_eq!(sort_name(big, bigger), Ordering::Less);
    assert_eq!(sort_name("9", big), Ordering::Less);
    assert_eq!(sort_name(big, "0009"), Ordering::Greater);
    assert_eq!(sort_name("0001000000000000000000000000000000", big), Ordering::Equal);
}

#[test]
fn a_digit_run_decides_before_what_follows() {
    assert_eq!(sort_name("a10", "a9b"), Ordering::Greater);
    assert_eq!(sort_name("a9b", "a10"), Ordering::Less);
}

#[test]
fn runs_of_different_kind_fall_back_to_bytes() {
    assert_eq!(sort_name("10.txt", "a.txt"), Ordering::Less);
    assert_eq!(sort_name("a.txt", "10.txt"), Ordering::Greater);
    assert_eq!(sort_name(" 1", "1"), Ordering::Less);
    assert_eq!(sort_name("1x", "-x"), Ordering::Greater);
    assert_eq!(sort_name("x1", "x-"), Ordering::Less);
}

#[test]
fn sections_split_at_digit_boundaries() {
    let name = "ab12c".as_bytes();
    assert_eq!(next_section(name, 0), Some((0, 2, false)));
    assert_eq!(next_section(name, 2), Some((2, 4, true)));
    assert_eq!(next_section(name, 4), Some((4, 5, false)));
    assert_eq!(next_section(name, 5), None);
}

#[test]
fn sections_keep_multibyte_characters_whole() {
    let name = "é1".as_bytes();
    assert_eq!(next_section(name, 0), Some((0, 2, false)));
    assert_eq!(next_section(name, 2), Some((2, 3, true)));
}

#[test]
fn comparing_both_ways_gives_reverse_results() {
    let names = ["", "a", "a1", "a01", "a10", "a9b", "10", "9", "b", "é2", "é10", "x-1"];
    for a in names.iter() {
        for b in names.iter() {
            let ab = natural_order_of(a.as_bytes(), b.as_bytes());
            let ba = natural_order_of(b.as_bytes(), a.as_bytes());
            let reversed = match ab {
                NameOrder::Less => NameOrder::Greater,
                NameOrder::Equal => NameOrder::Equal,
                NameOrder::Greater => NameOrder::Less,
            };
            assert_eq!(ba, reversed);
        }
    }
}

#[test]
fn the_order_is_transitive() {
    let names = [
        "", "!", "!1", "0", "00", "1", "01", "10", "9", "1!", "1a", "a", "a!", "a0", "a1", "a01",
        "a10", "a9b", "aa", "b", "é2", "é10", "x-1", "x1",
    ];
    for a in names.iter() {
        for b in names.iter() {
            for c in names.iter() {
                let ab = natural_order_of(a.as_bytes(), b.as_bytes());
                let bc = natural_order_of(b.as_bytes(), c.as_bytes());
                let ac = natural_order_of(a.as_bytes(), c.as_bytes());
                if ab != NameOrder::Greater && bc != NameOrder::Greater {
                    assert_ne!(ac, NameOrder::Greater);
                    if ac == NameOrder::Equal {
                        assert_eq!(ab, NameOrder::Equal);
                        assert_eq!(bc, NameOrder::Equal);
                    }
                }
            }
        }
    }
}

#[test]
fn a_name_is_equal_to_itself() {
    for a in ["", "a", "007", "a1b2", "é"].iter() {
        assert_eq!(sort_name(a, a), Ordering::Equal);
    }
}
