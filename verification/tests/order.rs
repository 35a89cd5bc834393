use sdft::order::{path_order, PathOrder, PathSet};

fn platform_order(left: &str, right: &str) -> PathOrder {
    let left = std::path::Path::new(left);
    let right = std::path::Path::new(right);
    if left < right {
        PathOrder::Before
    } else if left == right {
        PathOrder::Same
    } else {
        PathOrder::After
    }
}

#[test]
fn paths_are_ordered_name_by_name() {
    assert_eq!(path_order(b"a/z", b"a.b"), PathOrder::Before);
    assert_eq!(path_order(b"a", b"a/b"), PathOrder::Before);
    assert_eq!(path_order(b"a b", b"a/b"), PathOrder::After);
    assert_eq!(path_order(b"x/y", b"x/y"), PathOrder::Same);
}

#[test]
fn order_agrees_with_the_platform() {
    let paths = [
        "a", "a/b", "a/b/c", "a b", "a.b", "a-b/c", "a/!", "b", "A/b", "ab", "a/ab", "a!/b", "\u{e9}/x",
    ];
    for left in paths {
        for right in paths {
            assert_eq!(
                path_order(left.as_bytes(), right.as_bytes()),
                platform_order(left, right),
                "{left:?} {right:?}"
            );
        }
    }
}

#[test]
fn a_set_holds_each_path_once_and_in_order() {
    let mut set = PathSet::new();
    assert_eq!(set.insert(b"b"), Some(0));
    assert_eq!(set.insert(b"a/z"), Some(0));
    assert_eq!(set.insert(b"a.b"), Some(1));
    assert_eq!(set.insert(b"c"), Some(3));
    assert_eq!(set.insert(b"a/z"), None);
    assert!(set.contains(b"a.b"));
    assert!(!set.contains(b"a"));
    assert!(!PathSet::new().contains(b""));
}
