use fluent::arc_str::ArcStr;
use std::ops::Bound;

#[test]
fn deref_impl_works() {
    let s = ArcStr::from_static("Hello, World!");

    let got: &str = s.as_str();

    assert_eq!(got, "Hello, World!");
}

#[test]
fn index_into_the_str_slice() {
    let s = ArcStr::from_static("Hello, World!");

    let got = &s.as_str()[..5];

    assert_eq!(got, "Hello");
}

fn assert_range_equal(left: &ArcStr, right: &str, range: (Bound<usize>, Bound<usize>)) {
    let got = left.slice(range);
    let should_be = right.get(range);

    assert_eq!(got.as_ref().map(|s| s.as_str()), should_be);
}

#[test]
fn create_a_sub_slice_into_the_string() {
    let text = ArcStr::from_static("💩🦀");
    let length = '💩'.len_utf8();

    // try indices immediately before/after a boundary
    assert_eq!(text.slice((Bound::Unbounded, Bound::Excluded(length))).unwrap().as_str(), "💩");
    assert!(text.slice((Bound::Unbounded, Bound::Included(length))).is_none());
    assert!(text.slice((Bound::Unbounded, Bound::Excluded(1))).is_none());

    // Note the deliberate out-of-bounds
    let max_index = text.as_str().len() + 1;

    // try every possible index and every possible range combination
    for start in 0..=max_index {
        for end in start..=max_index {
            assert_range_equal(&text, text.as_str(), (Bound::Included(start), Bound::Unbounded));
            assert_range_equal(&text, text.as_str(), (Bound::Included(start), Bound::Excluded(end)));
            assert_range_equal(&text, text.as_str(), (Bound::Included(start), Bound::Included(end)));
            assert_range_equal(&text, text.as_str(), (Bound::Unbounded, Bound::Included(end)));
            assert_range_equal(&text, text.as_str(), (Bound::Unbounded, Bound::Excluded(end)));
        }
    }
}

#[test]
fn arc_str_copies_and_checks_utf8() {
    let s = ArcStr::copy_from_slice("żółw");
    assert_eq!(s.len(), 7);
    assert!(!s.is_empty());
    assert!(ArcStr::new().is_empty());
    assert!(ArcStr::from_utf8(&[0xff, 0x00]).is_err());
    assert_eq!(ArcStr::from_utf8("abc".as_bytes()).unwrap().as_str(), "abc");
    assert_eq!(s.clone().as_str(), "żółw");
}
