use terminator::store::TargetList;
use terminator::store::encode_line;
use terminator::store::valid_name_exec;

fn entries_of(list: &TargetList) -> Vec<Vec<u8>> {
    let mut r: Vec<Vec<u8>> = Vec::new();
    let mut i = 0;
    while i < list.len() {
        r.push(list.entry(i).clone());
        i += 1;
    }
    r
}

#[test]
fn test_append_then_load_round_trip() {
    let mut content: Vec<u8> = Vec::new();
    content.extend(encode_line(&b"alpha".to_vec()));
    content.extend(encode_line(&b"beta".to_vec()));
    content.extend(encode_line(&b"alpha".to_vec()));
    assert_eq!(content, b"alpha\nbeta\nalpha\n".to_vec());

    let list = TargetList::load(&content);
    assert_eq!(
        entries_of(&list),
        vec![b"alpha".to_vec(), b"beta".to_vec(), b"alpha".to_vec()]
    );
}

#[test]
fn test_load_empty_content() {
    let list = TargetList::load(&Vec::new());
    assert_eq!(list.len(), 0);
}

#[test]
fn test_load_without_trailing_newline() {
    let list = TargetList::load(&b"a\nb".to_vec());
    assert_eq!(entries_of(&list), vec![b"a".to_vec(), b"b".to_vec()]);
}

#[test]
fn test_load_keeps_empty_middle_line() {
    let list = TargetList::load(&b"a\n\nb\n".to_vec());
    assert_eq!(
        entries_of(&list),
        vec![b"a".to_vec(), b"".to_vec(), b"b".to_vec()]
    );
}

#[test]
fn test_to_content_round_trip() {
    let content = b"one\ntwo\nthree\n".to_vec();
    let list = TargetList::load(&content);
    assert_eq!(list.to_content(), content);
}

#[test]
fn test_push_name_appends_in_order() {
    let mut list = TargetList::new();
    list.push_name(b"first".to_vec());
    list.push_name(b"second".to_vec());
    assert_eq!(entries_of(&list), vec![b"first".to_vec(), b"second".to_vec()]);
    assert_eq!(list.to_content(), b"first\nsecond\n".to_vec());
}

#[test]
fn test_delete_two_indices() {
    let mut list = TargetList::load(&b"a\nb\nc\nd\n".to_vec());
    let (removed, rejected) = list.delete(&vec![2, 4]);
    assert_eq!(removed, 2);
    assert!(rejected.is_empty());
    assert_eq!(entries_of(&list), vec![b"a".to_vec(), b"c".to_vec()]);
    assert_eq!(list.to_content(), b"a\nc\n".to_vec());
}

#[test]
fn test_delete_order_of_indices_does_not_matter() {
    let mut list = TargetList::load(&b"a\nb\nc\nd\n".to_vec());
    let (removed, rejected) = list.delete(&vec![4, 2]);
    assert_eq!(removed, 2);
    assert!(rejected.is_empty());
    assert_eq!(entries_of(&list), vec![b"a".to_vec(), b"c".to_vec()]);
}

#[test]
fn test_delete_out_of_bounds_leaves_list_unchanged() {
    let mut list = TargetList::load(&b"a\nb\nc\n".to_vec());
    let (removed, rejected) = list.delete(&vec![99]);
    assert_eq!(removed, 0);
    assert_eq!(rejected, vec![99]);
    assert_eq!(
        entries_of(&list),
        vec![b"a".to_vec(), b"b".to_vec(), b"c".to_vec()]
    );
}

#[test]
fn test_delete_index_zero_is_rejected() {
    let mut list = TargetList::load(&b"a\nb\n".to_vec());
    let (removed, rejected) = list.delete(&vec![0]);
    assert_eq!(removed, 0);
    assert_eq!(rejected, vec![0]);
    assert_eq!(entries_of(&list), vec![b"a".to_vec(), b"b".to_vec()]);
}

#[test]
fn test_delete_repeated_index_removes_twice() {
    // The indices are processed largest first against the shrinking working
    // copy, so a repeated valid index removes a second entry.
    let mut list = TargetList::load(&b"a\nb\nc\n".to_vec());
    let (removed, rejected) = list.delete(&vec![2, 2]);
    assert_eq!(removed, 2);
    assert!(rejected.is_empty());
    assert_eq!(entries_of(&list), vec![b"a".to_vec()]);
}

#[test]
fn test_delete_mixed_valid_and_invalid() {
    let mut list = TargetList::load(&b"a\nb\nc\n".to_vec());
    let (removed, rejected) = list.delete(&vec![1, 7]);
    assert_eq!(removed, 1);
    assert_eq!(rejected, vec![7]);
    assert_eq!(entries_of(&list), vec![b"b".to_vec(), b"c".to_vec()]);
}

#[test]
fn test_delete_everything() {
    let mut list = TargetList::load(&b"a\nb\n".to_vec());
    let (removed, rejected) = list.delete(&vec![1, 2]);
    assert_eq!(removed, 2);
    assert!(rejected.is_empty());
    assert_eq!(list.len(), 0);
    assert_eq!(list.to_content(), Vec::<u8>::new());
}

#[test]
fn test_valid_name() {
    assert!(valid_name_exec(&b"firefox".to_vec()));
    assert!(valid_name_exec(&b"".to_vec()));
    assert!(!valid_name_exec(&b"bad\nname".to_vec()));
}
