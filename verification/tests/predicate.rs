use hunt::names::{contains_substring, ends_with, file_name, is_hidden, starts_with, std_base,
    to_ascii_lower};
use hunt::search::{check_roots, is_result, Entry};
use hunt::searchresult::{SearchResult, SearchResults};
use hunt::structs::{FileType, Output, Search};
use hunt::traversal::{place_work, should_stop};

fn cfg(name: &[u8]) -> Search {
    Search::new(
        false,
        false,
        false,
        true,
        false,
        false,
        false,
        false,
        false,
        0,
        name.to_vec(),
        Vec::new(),
        Vec::new(),
        FileType::All,
        Vec::new(),
        Vec::new(),
    )
}

fn entry(path: &[u8], is_dir: bool) -> Entry {
    Entry { path: path.to_vec(), is_dir, attr_hidden: false, canonical: Some(path.to_vec()) }
}

#[test]
fn file_name_after_last_slash() {
    assert_eq!(file_name(&b"a/b/c.txt".to_vec()), b"c.txt".to_vec());
    assert_eq!(file_name(&b"plain".to_vec()), b"plain".to_vec());
    assert_eq!(file_name(&b"dir/".to_vec()), b"".to_vec());
    assert_eq!(file_name(&b"".to_vec()), b"".to_vec());
}

#[test]
fn std_base_component_rules() {
    assert_eq!(std_base(&b"a/b/".to_vec()), Some(b"b".to_vec()));
    assert_eq!(std_base(&b"./x".to_vec()), Some(b"x".to_vec()));
    assert_eq!(std_base(&b"..".to_vec()), None);
    assert_eq!(std_base(&b".".to_vec()), None);
    assert_eq!(std_base(&b"/".to_vec()), None);
    assert_eq!(std_base(&b"".to_vec()), None);
}

#[test]
fn ascii_folding() {
    assert_eq!(to_ascii_lower(&b"MiXeD123[;".to_vec()), b"mixed123[;".to_vec());
}

#[test]
fn prefix_suffix_checks() {
    assert!(starts_with(&b"target.txt".to_vec(), &b"tar".to_vec()));
    assert!(!starts_with(&b"target.txt".to_vec(), &b"arg".to_vec()));
    assert!(starts_with(&b"x".to_vec(), &b"".to_vec()));
    assert!(ends_with(&b"target.txt".to_vec(), &b".txt".to_vec()));
    assert!(!ends_with(&b"target.txt".to_vec(), &b".tx".to_vec()));
    assert!(ends_with(&b"".to_vec(), &b"".to_vec()));
}

#[test]
fn substring_search() {
    assert!(contains_substring(&b"hello".to_vec(), &b"ell".to_vec()));
    assert!(!contains_substring(&b"hello".to_vec(), &b"xyz".to_vec()));
    assert!(contains_substring(&b"hello".to_vec(), &b"".to_vec()));
    assert!(contains_substring(&b"".to_vec(), &b"".to_vec()));
    assert!(!contains_substring(&b"ab".to_vec(), &b"abc".to_vec()));
}

#[test]
fn hidden_by_dot_or_attribute() {
    assert!(is_hidden(&b"a/.git".to_vec(), false));
    assert!(!is_hidden(&b"a/git".to_vec(), false));
    assert!(is_hidden(&b"a/plain".to_vec(), true));
    assert!(!is_hidden(&b"".to_vec(), false));
}

#[test]
fn exact_match_classified() {
    let s = cfg(b"target.txt");
    let r = is_result(&entry(b"a/target.txt", false), &s);
    let (m, rec) = r.expect("entry not skipped");
    match m {
        Some(SearchResult::Exact(p)) => assert_eq!(p, b"a/target.txt".to_vec()),
        _ => panic!("expected an exact match"),
    }
    assert!(rec.is_none());
}

#[test]
fn contains_match_classified() {
    let s = cfg(b"target");
    let r = is_result(&entry(b"a/target.txt", false), &s);
    let (m, _) = r.expect("entry not skipped");
    match m {
        Some(SearchResult::Contains(p)) => assert_eq!(p, b"a/target.txt".to_vec()),
        _ => panic!("expected a containing match"),
    }
}

#[test]
fn exact_only_drops_containing() {
    let mut s = cfg(b"target");
    s.exact = true;
    let r = is_result(&entry(b"a/target.txt", false), &s);
    let (m, _) = r.expect("entry not skipped");
    assert!(m.is_none());
}

#[test]
fn case_insensitive_fold() {
    let mut s = cfg(b"readme.md");
    s.case_sensitive = false;
    let r = is_result(&entry(b"a/README.MD", false), &s);
    let (m, _) = r.expect("entry not skipped");
    assert!(matches!(m, Some(SearchResult::Exact(_))));

    let strict = cfg(b"readme.md");
    let r2 = is_result(&entry(b"a/README.MD", false), &strict);
    let (m2, _) = r2.expect("entry not skipped");
    assert!(m2.is_none());
}

#[test]
fn empty_query_matches_everything() {
    let s = cfg(b"");
    let r = is_result(&entry(b"a/anything", false), &s);
    let (m, _) = r.expect("entry not skipped");
    assert!(matches!(m, Some(SearchResult::Contains(_))));
}

#[test]
fn type_filter_applies() {
    let mut s = cfg(b"target");
    s.ftype = FileType::Dir;
    let (m, _) = is_result(&entry(b"a/target.d", false), &s).expect("entry not skipped");
    assert!(m.is_none());
    let (m2, rec2) = is_result(&entry(b"a/target.d", true), &s).expect("entry not skipped");
    assert!(matches!(m2, Some(SearchResult::Contains(_))));
    assert_eq!(rec2, Some(b"a/target.d".to_vec()));

    s.ftype = FileType::File;
    let (m3, _) = is_result(&entry(b"a/target.d", true), &s).expect("entry not skipped");
    assert!(m3.is_none());
}

#[test]
fn prefix_suffix_filters_apply() {
    let mut s = cfg(b"arget");
    s.starts = b"ta".to_vec();
    s.ends = b".txt".to_vec();
    let (m, _) = is_result(&entry(b"a/target.txt", false), &s).expect("entry not skipped");
    assert!(matches!(m, Some(SearchResult::Contains(_))));
    let (m2, _) = is_result(&entry(b"a/sarget.txt", false), &s).expect("entry not skipped");
    assert!(m2.is_none());
}

#[test]
fn hidden_entry_skipped_unless_enabled() {
    let s = cfg(b"secret");
    assert!(is_result(&entry(b"a/.secret", false), &s).is_none());
    let mut shown = cfg(b"secret");
    shown.hidden = true;
    let (m, _) = is_result(&entry(b"a/.secret", false), &shown).expect("entry not skipped");
    assert!(matches!(m, Some(SearchResult::Contains(_))));
}

#[test]
fn hidden_attribute_bit_skips() {
    let s = cfg(b"plain");
    let e = Entry {
        path: b"a/plain".to_vec(),
        is_dir: false,
        attr_hidden: true,
        canonical: Some(b"a/plain".to_vec()),
    };
    assert!(is_result(&e, &s).is_none());
}

#[test]
fn relative_ignore_matches_base_name() {
    let mut s = cfg(b"target");
    s.explicit_ignore = vec![b"./target.txt".to_vec()];
    assert!(is_result(&entry(b"a/target.txt", false), &s).is_none());
    let (m, _) = is_result(&entry(b"a/target.rs", false), &s).expect("entry not skipped");
    assert!(matches!(m, Some(SearchResult::Contains(_))));
}

#[test]
fn absolute_ignore_matches_canonical_path() {
    let mut s = cfg(b"target");
    s.explicit_ignore = vec![b"/home/u/a/target.txt".to_vec()];
    let e = Entry {
        path: b"a/target.txt".to_vec(),
        is_dir: false,
        attr_hidden: false,
        canonical: Some(b"/home/u/a/target.txt".to_vec()),
    };
    assert!(is_result(&e, &s).is_none());
    let other = Entry {
        path: b"a/target.txt".to_vec(),
        is_dir: false,
        attr_hidden: false,
        canonical: Some(b"/home/u/b/target.txt".to_vec()),
    };
    assert!(is_result(&other, &s).is_some());
}

#[test]
fn ignored_beats_hidden_traversal() {
    let mut s = cfg(b"secret");
    s.hidden = true;
    s.explicit_ignore = vec![b"./.secret".to_vec()];
    assert!(is_result(&entry(b"a/.secret", false), &s).is_none());
}

#[test]
fn unresolved_canonical_skips_when_ignoring() {
    let mut s = cfg(b"target");
    s.explicit_ignore = vec![b"./other".to_vec()];
    let e = Entry {
        path: b"a/target.txt".to_vec(),
        is_dir: false,
        attr_hidden: false,
        canonical: None,
    };
    assert!(is_result(&e, &s).is_none());
}

#[test]
fn directory_recursed_even_without_match() {
    let s = cfg(b"zzz");
    let (m, rec) = is_result(&entry(b"a/sub", true), &s).expect("entry not skipped");
    assert!(m.is_none());
    assert_eq!(rec, Some(b"a/sub".to_vec()));
}

#[test]
fn collector_partitions_and_merge() {
    let mut a = SearchResults::new();
    assert_eq!(a.exact.len(), 0);
    assert_eq!(a.contains.len(), 0);
    a.push(SearchResult::exact(b"x".to_vec()));
    a.push(SearchResult::contains(b"y".to_vec()));
    let mut b = SearchResults::with_capacity(4);
    b.push(SearchResult::exact(b"z".to_vec()));
    a.merge(b);
    assert_eq!(a.exact, vec![b"x".to_vec(), b"z".to_vec()]);
    assert_eq!(a.contains, vec![b"y".to_vec()]);
}

#[test]
fn roots_checked_in_order() {
    assert_eq!(check_roots(&vec![true, true]), None);
    assert_eq!(check_roots(&vec![true, false, false]), Some(1));
    assert_eq!(check_roots(&Vec::new()), None);
}

#[test]
fn file_type_argument() {
    assert_eq!(FileType::from_arg(&Some(b"d".to_vec())), Ok(FileType::Dir));
    assert_eq!(FileType::from_arg(&Some(b"f".to_vec())), Ok(FileType::File));
    assert_eq!(FileType::from_arg(&None), Ok(FileType::All));
    assert_eq!(FileType::from_arg(&Some(b"x".to_vec())), Err(()));
}

#[test]
fn stop_condition() {
    assert!(should_stop(false, 0, true));
    assert!(!should_stop(true, 0, true));
    assert!(!should_stop(false, 1, true));
    assert!(!should_stop(false, 0, false));
}

#[test]
fn work_kept_locally_then_published() {
    assert_eq!(place_work(None, 7u32), (Some(7), None));
    assert_eq!(place_work(Some(3u32), 7u32), (Some(3), Some(7)));
}

#[test]
fn output_modes() {
    let s0 = cfg(b"x");
    assert_eq!(s0.output, Output::Normal);
    let s1 = Search::new(
        false,
        false,
        false,
        true,
        false,
        false,
        false,
        false,
        false,
        1,
        b"x".to_vec(),
        Vec::new(),
        Vec::new(),
        FileType::All,
        Vec::new(),
        Vec::new(),
    );
    assert_eq!(s1.output, Output::Simple);
    let s2 = Search::new(
        false,
        false,
        false,
        true,
        false,
        false,
        false,
        false,
        false,
        2,
        b"x".to_vec(),
        Vec::new(),
        Vec::new(),
        FileType::All,
        Vec::new(),
        Vec::new(),
    );
    assert_eq!(s2.output, Output::SuperSimple);
}
