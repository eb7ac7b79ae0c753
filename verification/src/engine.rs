//! The termination engine and the live-process queries.
//!
//! A snapshot of live processes is handed in as plain records (pid and name
//! bytes). The engine decides which of them the batch run should signal:
//! exactly those whose name equals a stored entry, full name, case
//! sensitively. The `list` command's browsing filter, in contrast, matches
//! case-insensitively by prefix. Signal delivery itself happens outside;
//! the fixed forceful-then-graceful escalation policy is decided here.

use vstd::prelude::*;

use crate::store::TargetList;
use crate::text::bytes_eq;
use crate::text::copy_bytes;
use crate::text::lower;
use crate::text::seq_views;
use crate::text::starts_with_lower;

verus! {

/// One live process as the snapshot reports it.
pub struct ProcRecord {
    pub pid: usize,
    pub name: Vec<u8>,
}

impl View for ProcRecord {
    type V = (usize, Seq<u8>);

    open spec fn view(&self) -> (usize, Seq<u8>) {
        (self.pid, self.name@)
    }
}

/// The views of a sequence of process records.
pub open spec fn proc_views(s: Seq<ProcRecord>) -> Seq<(usize, Seq<u8>)> {
    s.map_values(|p: ProcRecord| p@)
}

/// Makes a copy of one process record.
pub fn copy_rec(p: &ProcRecord) -> (r: ProcRecord)
    ensures
        r@ == p@,
{
    ProcRecord { pid: p.pid, name: copy_bytes(&p.name) }
}

/// The snapshot processes whose name exactly equals some stored entry, in
/// snapshot order. Matching is by full name and case sensitive.
pub open spec fn matched(snap: Seq<(usize, Seq<u8>)>, ts: Seq<Seq<u8>>) -> Seq<(usize, Seq<u8>)>
    decreases snap.len(),
{
    if snap.len() == 0 {
        Seq::empty()
    } else {
        let rest = matched(snap.drop_last(), ts);
        if ts.contains(snap.last().1) {
            rest.push(snap.last())
        } else {
            rest
        }
    }
}

/// Whether some stored entry equals `name`.
pub fn contains_name(list: &TargetList, name: &Vec<u8>) -> (r: bool)
    ensures
        r == list@.contains(name@),
{
    let mut i: usize = 0;
    while i < list.len()
        invariant
            i <= list@.len(),
            forall|j: int| 0 <= j < i ==> list@[j] != name@,
        decreases list@.len() - i,
    {
        if bytes_eq(list.entry(i), name) {
            proof {
                assert(list@[i as int] == name@);
            }
            return true;
        }
        i = i + 1;
    }
    proof {
        if list@.contains(name@) {
            let w = choose|w: int| 0 <= w < list@.len() && list@[w] == name@;
            assert(list@[w] != name@);
        }
    }
    false
}

/// Selects the snapshot processes to terminate: those whose name exactly
/// equals a stored entry.
pub fn matching_processes(snap: &Vec<ProcRecord>, list: &TargetList) -> (r: Vec<ProcRecord>)
    ensures
        proc_views(r@) == matched(proc_views(snap@), list@),
{
    let mut r: Vec<ProcRecord> = Vec::new();
    let mut i: usize = 0;
    proof {
        assert(proc_views(snap@).subrange(0, 0) =~= Seq::<(usize, Seq<u8>)>::empty());
        assert(proc_views(r@) =~= matched(proc_views(snap@).subrange(0, 0), list@));
    }
    while i < snap.len()
        invariant
            i <= snap@.len(),
            proc_views(r@) == matched(proc_views(snap@).subrange(0, i as int), list@),
        decreases snap@.len() - i,
    {
        proof {
            assert(proc_views(snap@).subrange(0, i + 1).drop_last() =~= proc_views(
                snap@,
            ).subrange(0, i as int));
            assert(proc_views(snap@).subrange(0, i + 1).last() == snap@[i as int]@);
        }
        let ghost before = proc_views(r@);
        if contains_name(list, &snap[i].name) {
            r.push(copy_rec(&snap[i]));
            proof {
                assert(proc_views(r@) =~= before.push(snap@[i as int]@));
            }
        }
        i = i + 1;
    }
    proof {
        assert(proc_views(snap@).subrange(0, snap@.len() as int) =~= proc_views(snap@));
    }
    r
}

/// The batch decision for one run of the termination engine.
pub enum BatchPlan {
    /// The stored list is empty: report "nothing to do" and finish
    /// successfully, with no signal sent.
    NothingToDo,
    /// Attempt to terminate exactly these snapshot processes.
    Kill(Vec<ProcRecord>),
}

/// Decides one batch run from a freshly loaded list and a fresh snapshot.
pub fn plan_termination(list: &TargetList, snap: &Vec<ProcRecord>) -> (r: BatchPlan)
    ensures
        (r matches BatchPlan::NothingToDo) <==> list@.len() == 0,
        r matches BatchPlan::Kill(v) ==> proc_views(v@) == matched(proc_views(snap@), list@),
{
    if list.len() == 0 {
        BatchPlan::NothingToDo
    } else {
        BatchPlan::Kill(matching_processes(snap, list))
    }
}

/// The reported outcome of delivering one signal to one process.
#[derive(Clone, Copy, PartialEq, Eq, Structural, Debug)]
pub enum SignalOutcome {
    /// Delivery was confirmed successful.
    Succeeded,
    /// Delivery was attempted and reported unsuccessful.
    Failed,
    /// The platform or process does not support the signal.
    Unsupported,
}

/// Whether an attempt that saw these outcomes failed to terminate the
/// process: the forceful signal was not confirmed, and neither was the
/// graceful fallback (a fallback that was never sent counts as nothing).
pub open spec fn termination_failed(first: SignalOutcome, second: Option<SignalOutcome>) -> bool {
    first != SignalOutcome::Succeeded && second != Some(SignalOutcome::Succeeded)
}

/// The escalation policy: after the forceful signal, send the graceful one
/// exactly when the forceful one was not confirmed successful.
pub fn escalate_after(first: SignalOutcome) -> (r: bool)
    ensures
        r == (first != SignalOutcome::Succeeded),
{
    match first {
        SignalOutcome::Succeeded => false,
        SignalOutcome::Failed => true,
        SignalOutcome::Unsupported => true,
    }
}

/// Whether the operator must be told that a process survived both signals.
/// Failures are reported per process and never abort the batch.
pub fn report_failure(first: SignalOutcome, second: Option<SignalOutcome>) -> (r: bool)
    ensures
        r == termination_failed(first, second),
{
    match second {
        Option::Some(s) => {
            let second_ok = match s {
                SignalOutcome::Succeeded => true,
                SignalOutcome::Failed => false,
                SignalOutcome::Unsupported => false,
            };
            let first_ok = match first {
                SignalOutcome::Succeeded => true,
                SignalOutcome::Failed => false,
                SignalOutcome::Unsupported => false,
            };
            !first_ok && !second_ok
        },
        Option::None => {
            match first {
                SignalOutcome::Succeeded => false,
                SignalOutcome::Failed => true,
                SignalOutcome::Unsupported => true,
            }
        },
    }
}

/// Escalation: a process that rejects the forceful signal but accepts the
/// graceful one still counts as terminated, so no failure is reported.
pub proof fn lemma_escalation_rescues(first: SignalOutcome)
    requires
        first != SignalOutcome::Succeeded,
    ensures
        !termination_failed(first, Some(SignalOutcome::Succeeded)),
{
}

/// An element is in `s.push(x)` exactly when it is `x` or already in `s`.
proof fn lemma_push_contains<A>(s: Seq<A>, x: A, q: A)
    ensures
        s.push(x).contains(q) <==> (s.contains(q) || q == x),
{
    if s.push(x).contains(q) {
        let w = choose|w: int| 0 <= w < s.push(x).len() && s.push(x)[w] == q;
        if w < s.len() {
            assert(s[w] == q);
            assert(s.contains(q));
        }
    }
    if s.contains(q) {
        let w = choose|w: int| 0 <= w < s.len() && s[w] == q;
        assert(s.push(x)[w] == q);
        assert(s.push(x).contains(q));
    }
    if q == x {
        assert(s.push(x)[s.len() as int] == q);
        assert(s.push(x).contains(q));
    }
}

/// An element is in a nonempty `s` exactly when it is the last element or
/// in the rest.
proof fn lemma_unsnoc_contains<A>(s: Seq<A>, q: A)
    requires
        s.len() > 0,
    ensures
        s.contains(q) <==> (s.drop_last().contains(q) || q == s.last()),
{
    if s.contains(q) {
        let w = choose|w: int| 0 <= w < s.len() && s[w] == q;
        if w < s.len() - 1 {
            assert(s.drop_last()[w] == q);
            assert(s.drop_last().contains(q));
        }
    }
    if s.drop_last().contains(q) {
        let w = choose|w: int| 0 <= w < s.drop_last().len() && s.drop_last()[w] == q;
        assert(s[w] == q);
        assert(s.contains(q));
    }
    if q == s.last() {
        assert(s[s.len() - 1] == q);
        assert(s.contains(q));
    }
}

/// Exact-match termination: a process appears in the kill selection exactly
/// when it is in the snapshot and its full name equals a stored entry. A
/// name that merely extends or shortens an entry is untouched.
pub proof fn lemma_matched_membership(
    snap: Seq<(usize, Seq<u8>)>,
    ts: Seq<Seq<u8>>,
    q: (usize, Seq<u8>),
)
    ensures
        matched(snap, ts).contains(q) <==> (snap.contains(q) && ts.contains(q.1)),
    decreases snap.len(),
{
    if snap.len() == 0 {
    } else {
        let rest = matched(snap.drop_last(), ts);
        lemma_matched_membership(snap.drop_last(), ts, q);
        lemma_unsnoc_contains(snap, q);
        if ts.contains(snap.last().1) {
            lemma_push_contains(rest, snap.last(), q);
        } else {
            if q == snap.last() {
                assert(!ts.contains(q.1));
            }
        }
    }
}

/// Whether `name` starts, after ASCII lower-casing both sides, with one of
/// the given prefixes.
pub open spec fn matches_any_prefix(name: Seq<u8>, fs: Seq<Seq<u8>>) -> bool {
    exists|i: int| 0 <= i < fs.len() && lower(#[trigger] fs[i]).is_prefix_of(lower(name))
}

/// The snapshot processes whose name matches one of the prefixes, in
/// snapshot order, each listed once.
pub open spec fn prefix_filtered(snap: Seq<(usize, Seq<u8>)>, fs: Seq<Seq<u8>>) -> Seq<
    (usize, Seq<u8>),
>
    decreases snap.len(),
{
    if snap.len() == 0 {
        Seq::empty()
    } else {
        let rest = prefix_filtered(snap.drop_last(), fs);
        if matches_any_prefix(snap.last().1, fs) {
            rest.push(snap.last())
        } else {
            rest
        }
    }
}

/// Whether `name` starts, case-insensitively, with one of the filters.
pub fn matches_any(name: &Vec<u8>, filters: &Vec<Vec<u8>>) -> (r: bool)
    ensures
        r == matches_any_prefix(name@, seq_views(filters@)),
{
    let mut j: usize = 0;
    while j < filters.len()
        invariant
            j <= filters@.len(),
            forall|m: int| 0 <= m < j ==> !lower(seq_views(filters@)[m]).is_prefix_of(
                lower(name@),
            ),
        decreases filters@.len() - j,
    {
        if starts_with_lower(name, &filters[j]) {
            proof {
                assert(seq_views(filters@)[j as int] == filters@[j as int]@);
            }
            return true;
        }
        j = j + 1;
    }
    proof {
        if matches_any_prefix(name@, seq_views(filters@)) {
            let w = choose|w: int|
                0 <= w < seq_views(filters@).len() && lower(
                    seq_views(filters@)[w],
                ).is_prefix_of(lower(name@));
            assert(!lower(seq_views(filters@)[w]).is_prefix_of(lower(name@)));
        }
    }
    false
}

/// The `list` command's browsing filter: with no filters, the whole
/// snapshot; otherwise the processes whose name case-insensitively starts
/// with at least one of the given prefixes.
pub fn filter_by_prefixes(snap: &Vec<ProcRecord>, filters: &Vec<Vec<u8>>) -> (r: Vec<ProcRecord>)
    ensures
        filters@.len() == 0 ==> proc_views(r@) == proc_views(snap@),
        filters@.len() > 0 ==> proc_views(r@) == prefix_filtered(
            proc_views(snap@),
            seq_views(filters@),
        ),
{
    let mut r: Vec<ProcRecord> = Vec::new();
    if filters.len() == 0 {
        let mut i: usize = 0;
        proof {
            assert(proc_views(r@) =~= proc_views(snap@).subrange(0, 0));
        }
        while i < snap.len()
            invariant
                i <= snap@.len(),
                proc_views(r@) == proc_views(snap@).subrange(0, i as int),
            decreases snap@.len() - i,
        {
            r.push(copy_rec(&snap[i]));
            proof {
                assert(proc_views(snap@).subrange(0, i + 1) =~= proc_views(snap@).subrange(
                    0,
                    i as int,
                ).push(snap@[i as int]@));
                assert(proc_views(r@) =~= proc_views(snap@).subrange(0, i + 1));
            }
            i = i + 1;
        }
        proof {
            assert(proc_views(snap@).subrange(0, snap@.len() as int) =~= proc_views(snap@));
        }
        r
    } else {
        let mut i: usize = 0;
        proof {
            assert(proc_views(snap@).subrange(0, 0) =~= Seq::<(usize, Seq<u8>)>::empty());
            assert(proc_views(r@) =~= prefix_filtered(
                proc_views(snap@).subrange(0, 0),
                seq_views(filters@),
            ));
        }
        while i < snap.len()
            invariant
                i <= snap@.len(),
                proc_views(r@) == prefix_filtered(
                    proc_views(snap@).subrange(0, i as int),
                    seq_views(filters@),
                ),
            decreases snap@.len() - i,
        {
            proof {
                assert(proc_views(snap@).subrange(0, i + 1).drop_last() =~= proc_views(
                    snap@,
                ).subrange(0, i as int));
                assert(proc_views(snap@).subrange(0, i + 1).last() == snap@[i as int]@);
            }
            let ghost before = proc_views(r@);
            if matches_any(&snap[i].name, filters) {
                r.push(copy_rec(&snap[i]));
                proof {
                    assert(proc_views(r@) =~= before.push(snap@[i as int]@));
                }
            }
            i = i + 1;
        }
        proof {
            assert(proc_views(snap@).subrange(0, snap@.len() as int) =~= proc_views(snap@));
        }
        r
    }
}

} // verus!
