use tr::config::Translation;

#[test]
fn append_replace_when_it_is_short() {
    let mut tr = Translation {
        search: "abcde".to_string(),
        replace: "xyz".to_string(),
        complement: false,
        delete: false,
        squeeze: false,
    };
    tr.append_replace();
    assert_eq!("xyzzz", tr.replace);
}

#[test]
fn append_replace_when_it_is_long() {
    let mut tr = Translation {
        search: "a".to_string(),
        replace: "xyz".to_string(),
        complement: false,
        delete: false,
        squeeze: false,
    };
    tr.append_replace();
    assert_eq!("x", tr.replace);
}

#[test]
fn append_replace_when_it_is_exact_in_length() {
    let mut tr = Translation {
        search: "abc".to_string(),
        replace: "xyz".to_string(),
        complement: false,
        delete: false,
        squeeze: false,
    };
    tr.append_replace();
    assert_eq!("xyz", tr.replace);
}

#[test]
fn append_replace_empty_search_stays_empty() {
    let mut tr = Translation {
        search: "".to_string(),
        replace: "".to_string(),
        complement: false,
        delete: false,
        squeeze: false,
    };
    tr.append_replace();
    assert_eq!("", tr.replace);
}

#[test]
fn check_opts_rejects_empty_replace_without_flags() {
    let tr = Translation {
        search: "abc".to_string(),
        replace: "".to_string(),
        complement: false,
        delete: false,
        squeeze: false,
    };
    assert!(!tr.check_opts());
}

#[test]
fn check_opts_accepts_delete_squeeze_or_replace() {
    let base = |delete: bool, squeeze: bool, replace: &str| Translation {
        search: "abc".to_string(),
        replace: replace.to_string(),
        complement: false,
        delete,
        squeeze,
    };
    assert!(base(true, false, "").check_opts());
    assert!(base(false, true, "").check_opts());
    assert!(base(false, false, "x").check_opts());
}
