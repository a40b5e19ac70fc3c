use gitlab_helper::sort::sort_by_key;
use gitlab_helper::text::{compare_strs, decimal_string, parse_u32, Order};
use gitlab_helper::models::Group;

fn group(id: u64, full_path: &str) -> Group {
    Group {
        id,
        name: full_path.to_string(),
        path: full_path.rsplit('/').next().unwrap().to_string(),
        full_path: full_path.to_string(),
        parent_id: None,
        description: None,
        visibility: None,
        web_url: None,
    }
}

#[test]
fn decimal_rendering() {
    assert_eq!(decimal_string(0), "0");
    assert_eq!(decimal_string(7), "7");
    assert_eq!(decimal_string(1234567890), "1234567890");
    assert_eq!(decimal_string(u64::MAX), "18446744073709551615");
}

#[test]
fn parse_page_numbers() {
    assert_eq!(parse_u32("0"), Some(0));
    assert_eq!(parse_u32("42"), Some(42));
    assert_eq!(parse_u32("+5"), Some(5));
    assert_eq!(parse_u32("007"), Some(7));
    assert_eq!(parse_u32("4294967295"), Some(u32::MAX));
    assert_eq!(parse_u32("4294967296"), None);
    assert_eq!(parse_u32(""), None);
    assert_eq!(parse_u32("+"), None);
    assert_eq!(parse_u32("-1"), None);
    assert_eq!(parse_u32("12a"), None);
    assert_eq!(parse_u32(" 1"), None);
}

#[test]
fn parse_reads_back_decimal() {
    for n in [0u32, 1, 9, 10, 99, 100, 65535, 4000000000, u32::MAX] {
        assert_eq!(parse_u32(&decimal_string(n as u64)), Some(n));
    }
}

#[test]
fn string_order_is_code_point_order() {
    assert_eq!(compare_strs("a", "b"), Order::Less);
    assert_eq!(compare_strs("b", "a"), Order::Greater);
    assert_eq!(compare_strs("abc", "abc"), Order::Equal);
    assert_eq!(compare_strs("ab", "abc"), Order::Less);
    assert_eq!(compare_strs("", "a"), Order::Less);
    assert_eq!(compare_strs("Z", "a"), Order::Less);
    assert_eq!(compare_strs("a-b", "a/b"), Order::Less);
    assert_eq!(compare_strs("é", "z"), Order::Greater);
    for (a, b) in [("a", "b"), ("x/y", "x-y"), ("é", "e"), ("", ""), ("ab", "a")] {
        let expected = match a.cmp(b) {
            std::cmp::Ordering::Less => Order::Less,
            std::cmp::Ordering::Equal => Order::Equal,
            std::cmp::Ordering::Greater => Order::Greater,
        };
        assert_eq!(compare_strs(a, b), expected);
    }
}

#[test]
fn sort_is_stable_by_key() {
    let v = vec![group(1, "b"), group(2, "a"), group(3, "b"), group(4, "a/x"), group(5, "a")];
    let sorted = sort_by_key(v);
    let ids: Vec<u64> = sorted.iter().map(|g| g.id).collect();
    assert_eq!(ids, vec![2, 5, 4, 1, 3]);
}

#[test]
fn sort_of_empty_and_single() {
    assert!(sort_by_key(Vec::<Group>::new()).is_empty());
    let one = sort_by_key(vec![group(9, "z")]);
    assert_eq!(one.len(), 1);
    assert_eq!(one[0].id, 9);
}
