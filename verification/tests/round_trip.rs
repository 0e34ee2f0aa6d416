use str_list::list::StrListBuf;

#[test]
fn round_trip_forward() {
    let values = vec!["alpha".to_string(), "beta".to_string(), "gamma".to_string()];
    let buf = StrListBuf::from_strs(&values);
    let list = buf.as_str_list();
    let mut it = list.iter();
    assert_eq!(it.next(), Some("alpha"));
    assert_eq!(it.next(), Some("beta"));
    assert_eq!(it.next(), Some("gamma"));
    assert_eq!(it.next(), None);
    assert_eq!(it.next(), None);
}

#[test]
fn round_trip_backward() {
    let values = vec!["alpha".to_string(), "beta".to_string(), "gamma".to_string()];
    let buf = StrListBuf::from_strs(&values);
    let list = buf.as_str_list();
    let mut it = list.iter();
    assert_eq!(it.next_back(), Some("gamma"));
    assert_eq!(it.next_back(), Some("beta"));
    assert_eq!(it.next_back(), Some("alpha"));
    assert_eq!(it.next_back(), None);
}

#[test]
fn round_trip_both_ends() {
    let mut buf = StrListBuf::new();
    buf.push("one");
    buf.push("two");
    buf.push("three");
    buf.push("four");
    let list = buf.as_str_list();
    let mut it = list.iter();
    assert_eq!(it.next(), Some("one"));
    assert_eq!(it.next_back(), Some("four"));
    assert_eq!(it.next(), Some("two"));
    assert_eq!(it.next_back(), Some("three"));
    assert_eq!(it.next(), None);
    assert_eq!(it.next_back(), None);
}

#[test]
fn round_trip_unicode() {
    let values = vec!["héllo".to_string(), "日本語".to_string(), "".to_string(), "🦀".to_string()];
    let buf = StrListBuf::from_strs(&values);
    let mut it = buf.as_str_list().iter();
    assert_eq!(it.next(), Some("héllo"));
    assert_eq!(it.next(), Some("日本語"));
    assert_eq!(it.next(), Some(""));
    assert_eq!(it.next(), Some("🦀"));
    assert_eq!(it.next(), None);
}

#[test]
fn from_strs_matches_manual_pushes() {
    let values = vec!["a".to_string(), "bb".to_string()];
    let built = StrListBuf::from_strs(&values);
    let mut manual = StrListBuf::new();
    manual.push("a");
    manual.push("bb");
    assert!(built.equals(&manual));
}

#[test]
fn pop_on_empty_returns_false() {
    let mut buf = StrListBuf::new();
    assert!(!buf.pop());
    assert!(buf.is_empty());
    assert!(!buf.pop());
    assert!(buf.is_empty());
}

#[test]
fn clear_makes_any_buffer_empty() {
    let mut buf = StrListBuf::new();
    buf.push("x");
    buf.push("y");
    assert!(!buf.is_empty());
    buf.clear();
    assert!(buf.is_empty());

    let mut empty = StrListBuf::new();
    empty.clear();
    assert!(empty.is_empty());
}

#[test]
fn element_count_tracks_pushes_and_pops() {
    let mut buf = StrListBuf::new();
    let mut expected: i64 = 0;
    let script: [(&str, bool); 8] = [
        ("a", true),
        ("b", true),
        ("", false),
        ("c", true),
        ("", false),
        ("", false),
        ("d", true),
        ("", false),
    ];
    for (value, is_push) in script {
        if is_push {
            buf.push(value);
            expected += 1;
        } else {
            let removed = buf.pop();
            assert_eq!(removed, expected > 0);
            if removed {
                expected -= 1;
            }
        }
    }
    let mut count: i64 = 0;
    let mut it = buf.as_str_list().iter();
    while it.next().is_some() {
        count += 1;
    }
    assert_eq!(count, expected);
    assert_eq!(buf.is_empty(), expected == 0);
}

#[test]
fn boxed_view_round_trip_is_identical() {
    let mut buf = StrListBuf::new();
    buf.push("left");
    buf.push("right");
    let copy = buf.as_str_list().to_str_list_buf();
    let boxed = buf.into_boxed_str_list();
    let back = boxed.to_str_list_buf();
    assert!(back.equals(&copy));
    let mut it = boxed.as_str_list().iter();
    assert_eq!(it.next(), Some("left"));
    assert_eq!(it.next(), Some("right"));
    assert_eq!(it.next(), None);
}

#[test]
fn scenario_push_pop_clear() {
    let mut buf = StrListBuf::new();
    buf.push("a");
    buf.push("bb");
    buf.push("c");
    {
        let mut it = buf.as_str_list().iter();
        assert_eq!(it.next(), Some("a"));
        assert_eq!(it.next(), Some("bb"));
        assert_eq!(it.next(), Some("c"));
        assert_eq!(it.next(), None);
    }
    assert!(buf.pop());
    {
        let mut it = buf.as_str_list().iter();
        assert_eq!(it.next(), Some("a"));
        assert_eq!(it.next(), Some("bb"));
        assert_eq!(it.next(), None);
    }
    assert!(!buf.is_empty());
    buf.clear();
    assert!(buf.is_empty());
}

#[test]
fn extend_from_matches_sequential_pushes() {
    let mut buf = StrListBuf::new();
    buf.push("a");
    let more = vec!["b".to_string(), "c".to_string()];
    buf.extend_from(&more);
    let all = vec!["a".to_string(), "b".to_string(), "c".to_string()];
    let expected = StrListBuf::from_strs(&all);
    assert!(buf.equals(&expected));
}

#[test]
fn empty_view_denotes_empty_list() {
    let view = str_list::list::StrList::empty();
    assert!(view.split_first().is_none());
    assert!(view.split_last().is_none());
    assert_eq!(view.render(), "[]");
    let buf = StrListBuf::new();
    assert!(view.equals(&buf.as_str_list()));
}

#[test]
fn to_owned_copy_is_independent_and_identical() {
    let mut buf = StrListBuf::new();
    buf.push("u");
    buf.push("v");
    let copy = buf.to_owned_copy();
    assert!(copy.equals(&buf));
    buf.push("w");
    assert!(!copy.equals(&buf));
}

#[test]
fn default_buffer_is_empty() {
    let buf = StrListBuf::default();
    assert!(buf.is_empty());
}

#[test]
fn with_capacity_starts_empty() {
    let buf = StrListBuf::with_capacity(64);
    assert!(buf.is_empty());
    let mut it = buf.as_str_list().iter();
    assert_eq!(it.next(), None);
}
