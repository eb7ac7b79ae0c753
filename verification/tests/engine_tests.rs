use terminator::engine::BatchPlan;
use terminator::engine::ProcRecord;
use terminator::engine::SignalOutcome;
use terminator::engine::escalate_after;
use terminator::engine::filter_by_prefixes;
use terminator::engine::matching_processes;
use terminator::engine::plan_termination;
use terminator::engine::report_failure;
use terminator::store::TargetList;

fn rec(pid: usize, name: &[u8]) -> ProcRecord {
    ProcRecord { pid, name: name.to_vec() }
}

fn names_of(procs: &[ProcRecord]) -> Vec<Vec<u8>> {
    procs.iter().map(|p| p.name.clone()).collect()
}

#[test]
fn test_exact_match_ignores_longer_names() {
    let targets = TargetList::load(&b"shell\n".to_vec());
    let snap = vec![rec(1, b"shell"), rec(2, b"shells")];
    let picked = matching_processes(&snap, &targets);
    assert_eq!(picked.len(), 1);
    assert_eq!(picked[0].pid, 1);
    assert_eq!(picked[0].name, b"shell".to_vec());
}

#[test]
fn test_exact_match_is_case_sensitive() {
    let targets = TargetList::load(&b"shell\n".to_vec());
    let snap = vec![rec(1, b"Shell")];
    let picked = matching_processes(&snap, &targets);
    assert!(picked.is_empty());
}

#[test]
fn test_match_keeps_snapshot_order_and_duplicates() {
    let targets = TargetList::load(&b"a\nb\n".to_vec());
    let snap = vec![rec(3, b"b"), rec(1, b"a"), rec(2, b"a")];
    let picked = matching_processes(&snap, &targets);
    let pids: Vec<usize> = picked.iter().map(|p| p.pid).collect();
    assert_eq!(pids, vec![3, 1, 2]);
}

#[test]
fn test_empty_list_is_nothing_to_do() {
    let targets = TargetList::load(&Vec::new());
    let snap = vec![rec(1, b"shell")];
    assert!(matches!(plan_termination(&targets, &snap), BatchPlan::NothingToDo));
}

#[test]
fn test_nonempty_list_plans_the_matches() {
    let targets = TargetList::load(&b"shell\n".to_vec());
    let snap = vec![rec(1, b"shell"), rec(2, b"idle")];
    match plan_termination(&targets, &snap) {
        BatchPlan::Kill(victims) => {
            assert_eq!(victims.len(), 1);
            assert_eq!(victims[0].pid, 1);
        }
        BatchPlan::NothingToDo => panic!("expected a kill plan"),
    }
}

#[test]
fn test_prefix_filter_unions_the_prefixes() {
    let snap = vec![rec(1, b"shell"), rec(2, b"short"), rec(3, b"work"), rec(4, b"bin")];
    let filters = vec![b"sh".to_vec(), b"wo".to_vec()];
    let picked = filter_by_prefixes(&snap, &filters);
    assert_eq!(
        names_of(&picked),
        vec![b"shell".to_vec(), b"short".to_vec(), b"work".to_vec()]
    );
}

#[test]
fn test_prefix_filter_is_case_insensitive() {
    let snap = vec![rec(1, b"Shell"), rec(2, b"bin")];
    let picked = filter_by_prefixes(&snap, &vec![b"sH".to_vec()]);
    assert_eq!(names_of(&picked), vec![b"Shell".to_vec()]);
}

#[test]
fn test_prefix_filter_without_filters_lists_everything() {
    let snap = vec![rec(1, b"shell"), rec(2, b"bin")];
    let picked = filter_by_prefixes(&snap, &Vec::new());
    assert_eq!(names_of(&picked), vec![b"shell".to_vec(), b"bin".to_vec()]);
}

#[test]
fn test_escalation_is_taken_unless_confirmed() {
    assert!(!escalate_after(SignalOutcome::Succeeded));
    assert!(escalate_after(SignalOutcome::Failed));
    assert!(escalate_after(SignalOutcome::Unsupported));
}

#[test]
fn test_graceful_fallback_counts_as_success() {
    assert!(!report_failure(SignalOutcome::Failed, Some(SignalOutcome::Succeeded)));
    assert!(!report_failure(SignalOutcome::Unsupported, Some(SignalOutcome::Succeeded)));
}

#[test]
fn test_forceful_success_needs_no_fallback() {
    assert!(!report_failure(SignalOutcome::Succeeded, None));
}

#[test]
fn test_both_signals_rejected_is_reported() {
    assert!(report_failure(SignalOutcome::Failed, Some(SignalOutcome::Failed)));
    assert!(report_failure(SignalOutcome::Unsupported, Some(SignalOutcome::Unsupported)));
    assert!(report_failure(SignalOutcome::Failed, Some(SignalOutcome::Unsupported)));
}
