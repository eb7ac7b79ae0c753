use terminator::session::Command;
use terminator::session::PidLookup;
use terminator::session::parse_command;
use terminator::session::render_entries;
use terminator::session::resolve_additions;
use terminator::session::tokenize;
use terminator::store::TargetList;
use terminator::text::parse_usize;

fn toks(line: &[u8]) -> Vec<Vec<u8>> {
    tokenize(&line.to_vec())
}

#[test]
fn test_tokenize_splits_on_whitespace() {
    assert_eq!(
        toks(b"  list  sh wo "),
        vec![b"list".to_vec(), b"sh".to_vec(), b"wo".to_vec()]
    );
}

#[test]
fn test_tokenize_empty_line() {
    assert_eq!(toks(b""), Vec::<Vec<u8>>::new());
    assert_eq!(toks(b"   \t  \n"), Vec::<Vec<u8>>::new());
}

#[test]
fn test_tokenize_single_token() {
    assert_eq!(toks(b"show\n"), vec![b"show".to_vec()]);
}

#[test]
fn test_parse_command_is_case_insensitive() {
    assert!(matches!(parse_command(&toks(b"HELP")), Command::Help));
    assert!(matches!(parse_command(&toks(b"Show")), Command::Show));
    assert!(matches!(parse_command(&toks(b"QuIt")), Command::Quit));
    assert!(matches!(parse_command(&toks(b"q")), Command::Quit));
}

#[test]
fn test_parse_command_unknown_and_empty() {
    assert!(matches!(parse_command(&toks(b"frobnicate")), Command::Unknown));
    assert!(matches!(parse_command(&toks(b"")), Command::Unknown));
    assert!(matches!(parse_command(&toks(b"helpme")), Command::Unknown));
}

#[test]
fn test_parse_command_keeps_argument_tokens() {
    match parse_command(&toks(b"del 2 4")) {
        Command::Del(args) => {
            assert_eq!(args, vec![b"2".to_vec(), b"4".to_vec()]);
        }
        _ => panic!("expected a del command"),
    }
    match parse_command(&toks(b"list sh wo")) {
        Command::List(args) => {
            assert_eq!(args, vec![b"sh".to_vec(), b"wo".to_vec()]);
        }
        _ => panic!("expected a list command"),
    }
    match parse_command(&toks(b"add 123 456")) {
        Command::Add(args) => {
            assert_eq!(args, vec![b"123".to_vec(), b"456".to_vec()]);
        }
        _ => panic!("expected an add command"),
    }
}

#[test]
fn test_parse_usize() {
    assert_eq!(parse_usize(&b"0".to_vec()), Some(0));
    assert_eq!(parse_usize(&b"123".to_vec()), Some(123));
    assert_eq!(parse_usize(&b"".to_vec()), None);
    assert_eq!(parse_usize(&b"12a".to_vec()), None);
    assert_eq!(parse_usize(&b"-3".to_vec()), None);
    assert_eq!(parse_usize(&b"99999999999999999999999999".to_vec()), None);
}

#[test]
fn test_resolve_additions_skips_unresolved_pids() {
    let lookups = vec![
        PidLookup { pid: 5, name: Some(b"gcc".to_vec()) },
        PidLookup { pid: 7, name: None },
        PidLookup { pid: 9, name: Some(b"sh".to_vec()) },
    ];
    let (names, missing) = resolve_additions(&lookups);
    assert_eq!(names, vec![b"gcc".to_vec(), b"sh".to_vec()]);
    assert_eq!(missing, vec![7]);
}

#[test]
fn test_resolve_additions_rejects_unstorable_name() {
    let lookups = vec![PidLookup { pid: 3, name: Some(b"a\nb".to_vec()) }];
    let (names, missing) = resolve_additions(&lookups);
    assert!(names.is_empty());
    assert_eq!(missing, vec![3]);
}

#[test]
fn test_render_entries_uses_one_based_padded_indices() {
    let list = TargetList::load(&b"shell\nwork\n".to_vec());
    let lines = render_entries(&list);
    assert_eq!(lines, vec![b"01. shell".to_vec(), b"02. work".to_vec()]);
}

#[test]
fn test_render_entries_wide_index() {
    let mut content: Vec<u8> = Vec::new();
    for _ in 0..12 {
        content.extend(b"x\n");
    }
    let list = TargetList::load(&content);
    let lines = render_entries(&list);
    assert_eq!(lines[9], b"10. x".to_vec());
    assert_eq!(lines[11], b"12. x".to_vec());
}

#[test]
fn test_show_is_idempotent_without_mutation() {
    let content = b"alpha\nbeta\n".to_vec();
    let first = render_entries(&TargetList::load(&content));
    let second = render_entries(&TargetList::load(&content));
    assert_eq!(first, second);
}
