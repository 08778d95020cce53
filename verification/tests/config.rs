use hunt::structs::{Cli, FileType, Output};

fn base_cli() -> Cli {
    Cli {
        first: false,
        exact: false,
        canonicalize: false,
        case_sensitive: false,
        verbose: false,
        simple: 0,
        hidden: false,
        select: false,
        multiselect: false,
        starts_with: None,
        ends_with: None,
        file_type: None,
        ignore_dirs: None,
        name: None,
        search_in_dirs: Vec::new(),
    }
}

#[test]
fn plain_name_becomes_query() {
    let mut cli = base_cli();
    cli.name = Some(b"notes".to_vec());
    let s = cli.run().expect("valid input");
    assert_eq!(s.name, b"notes".to_vec());
    assert!(!s.limit);
    assert_eq!(s.dirs.len(), 0);
    assert!(!s.case_sensitive);
    assert_eq!(s.output, Output::Normal);
    assert!(matches!(s.ftype, FileType::All));
}

#[test]
fn dot_name_becomes_root() {
    let mut cli = base_cli();
    cli.name = Some(b".".to_vec());
    let s = cli.run().expect("valid input");
    assert_eq!(s.name, b"".to_vec());
    assert_eq!(s.dirs, vec![b".".to_vec()]);
    assert!(s.limit);
}

#[test]
fn separator_name_goes_first_among_roots() {
    let mut cli = base_cli();
    cli.name = Some(b"/home/u".to_vec());
    cli.search_in_dirs = vec![b"/tmp".to_vec()];
    let s = cli.run().expect("valid input");
    assert_eq!(s.name, b"".to_vec());
    assert_eq!(s.dirs, vec![b"/home/u".to_vec(), b"/tmp".to_vec()]);
    assert!(s.limit);
}

#[test]
fn uppercase_query_turns_case_sensitive() {
    let mut cli = base_cli();
    cli.name = Some(b"Readme".to_vec());
    cli.starts_with = Some(b"RE".to_vec());
    let s = cli.run().expect("valid input");
    assert!(s.case_sensitive);
    assert_eq!(s.starts, b"RE".to_vec());
}

#[test]
fn filters_folded_when_insensitive() {
    let mut cli = base_cli();
    cli.name = Some(b"readme".to_vec());
    cli.starts_with = Some(b"RE".to_vec());
    cli.ends_with = Some(b".MD".to_vec());
    let s = cli.run().expect("valid input");
    assert!(!s.case_sensitive);
    assert_eq!(s.starts, b"re".to_vec());
    assert_eq!(s.ends, b".md".to_vec());
}

#[test]
fn relative_ignores_anchored() {
    let mut cli = base_cli();
    cli.name = Some(b"x".to_vec());
    cli.ignore_dirs = Some(vec![b"target".to_vec(), b"/abs/dir".to_vec()]);
    let s = cli.run().expect("valid input");
    assert_eq!(s.explicit_ignore, vec![b"./target".to_vec(), b"/abs/dir".to_vec()]);
}

#[test]
fn canonicalize_leaves_ignores_for_caller() {
    let mut cli = base_cli();
    cli.name = Some(b"x".to_vec());
    cli.canonicalize = true;
    cli.ignore_dirs = Some(vec![b"target".to_vec()]);
    let s = cli.run().expect("valid input");
    assert!(s.canonicalize);
    assert_eq!(s.explicit_ignore, vec![b"target".to_vec()]);
}

#[test]
fn bad_type_filter_reported() {
    let mut cli = base_cli();
    cli.name = Some(b"x".to_vec());
    cli.file_type = Some(b"q".to_vec());
    assert_eq!(cli.run().err(), Some(b"q".to_vec()));
}

#[test]
fn type_filter_resolved() {
    let mut cli = base_cli();
    cli.name = Some(b"x".to_vec());
    cli.file_type = Some(b"d".to_vec());
    let s = cli.run().expect("valid input");
    assert!(matches!(s.ftype, FileType::Dir));
}

#[test]
fn flags_carried_through() {
    let mut cli = base_cli();
    cli.first = true;
    cli.exact = true;
    cli.verbose = true;
    cli.hidden = true;
    cli.select = true;
    cli.simple = 2;
    cli.name = Some(b"x".to_vec());
    let s = cli.run().expect("valid input");
    assert!(s.first && s.exact && s.verbose && s.hidden && s.select && !s.multiselect);
    assert_eq!(s.output, Output::SuperSimple);
}
