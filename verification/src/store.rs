//! The target-list store: an ordered list of process names, persisted as
//! newline-delimited text in a single backing file.
//!
//! The library never touches the file itself. It parses content that was
//! read ([`TargetList::load`]), produces content to be written back
//! ([`TargetList::to_content`], [`encode_line`]), and performs the
//! index-addressed deletion on the in-memory list ([`TargetList::delete`]).
//! The laws at the end relate these operations: writing and re-reading the
//! store gives back exactly the same list.

use vstd::prelude::*;

use crate::text::seq_views;

verus! {

/// A name can be stored on one line exactly when it contains no newline byte.
pub open spec fn valid_name(s: Seq<u8>) -> bool {
    forall|i: int| 0 <= i < s.len() ==> #[trigger] s[i] != 10u8
}

/// Well-formed backing content: empty, or ending in a newline. Everything
/// this library writes has this shape, and appending a further line to such
/// content never corrupts the last stored entry.
pub open spec fn wf_content(c: Seq<u8>) -> bool {
    c.len() == 0 || c.last() == 10u8
}

/// The entries stored in backing content `c`: the maximal runs of bytes
/// between newline bytes, in file order. A final run without a trailing
/// newline still counts as an entry; a trailing newline does not open an
/// empty one.
pub open spec fn lines_of(c: Seq<u8>) -> Seq<Seq<u8>>
    decreases c.len(),
{
    if c.len() == 0 {
        Seq::empty()
    } else if c.first() == 10u8 {
        seq![Seq::<u8>::empty()] + lines_of(c.drop_first())
    } else {
        let rest = lines_of(c.drop_first());
        if rest.len() == 0 {
            seq![seq![c.first()]]
        } else {
            seq![seq![c.first()] + rest.first()] + rest.drop_first()
        }
    }
}

/// The backing content that stores the entries `ns`: each entry followed by
/// one newline byte.
pub open spec fn join_lines(ns: Seq<Seq<u8>>) -> Seq<u8>
    decreases ns.len(),
{
    if ns.len() == 0 {
        Seq::empty()
    } else {
        join_lines(ns.drop_last()) + ns.last() + seq![10u8]
    }
}

/// Descending insertion into an already descending sequence.
pub open spec fn insert_desc(s: Seq<usize>, v: usize) -> Seq<usize>
    decreases s.len(),
{
    if s.len() == 0 {
        seq![v]
    } else if v >= s.first() {
        seq![v] + s
    } else {
        seq![s.first()] + insert_desc(s.drop_first(), v)
    }
}

/// Descending insertion sort.
pub open spec fn sort_desc(s: Seq<usize>) -> Seq<usize>
    decreases s.len(),
{
    if s.len() == 0 {
        Seq::empty()
    } else {
        insert_desc(sort_desc(s.drop_first()), s.first())
    }
}

/// Non-strictly descending order.
pub open spec fn sorted_desc(s: Seq<usize>) -> bool {
    forall|i: int, j: int| 0 <= i <= j < s.len() ==> s[i] >= s[j]
}

/// The deletion algorithm, applied to the requested 1-based display indices
/// in the order given (callers pass them sorted descending, largest first,
/// so one removal never shifts a not-yet-processed position). Returns the
/// surviving entries and the requested indices that were rejected because
/// they named no position of the list as it stood when they were processed.
pub open spec fn delete_desc(ns: Seq<Seq<u8>>, idx: Seq<usize>) -> (Seq<Seq<u8>>, Seq<usize>)
    decreases idx.len(),
{
    if idx.len() == 0 {
        (ns, Seq::empty())
    } else {
        let k = idx.first();
        if 1 <= k && k <= ns.len() {
            delete_desc(ns.remove(k - 1), idx.drop_first())
        } else {
            let r = delete_desc(ns, idx.drop_first());
            (r.0, seq![k] + r.1)
        }
    }
}

/// The in-memory view of the persisted target list: an ordered sequence of
/// process names, addressed by the operator with 1-based display indices
/// (display index 1 is the first stored line).
pub struct TargetList {
    entries: Vec<Vec<u8>>,
}

impl View for TargetList {
    type V = Seq<Seq<u8>>;

    closed spec fn view(&self) -> Seq<Seq<u8>> {
        seq_views(self.entries@)
    }
}

impl TargetList {
    /// Every entry fits on one line of the backing file.
    pub open spec fn wf(&self) -> bool {
        forall|i: int| 0 <= i < self@.len() ==> valid_name(#[trigger] self@[i])
    }

    /// An empty list.
    pub fn new() -> (r: TargetList)
        ensures
            r@ == Seq::<Seq<u8>>::empty(),
            r.wf(),
    {
        let r = TargetList { entries: Vec::new() };
        proof {
            assert(r@ =~= Seq::<Seq<u8>>::empty());
        }
        r
    }

    /// Parses backing content, freshly read from the file, into the list it
    /// stores.
    pub fn load(content: &Vec<u8>) -> (r: TargetList)
        ensures
            r@ == lines_of(content@),
            r.wf(),
    {
        let entries = parse_from(content, 0);
        proof {
            assert(content@.skip(0) =~= content@);
            lemma_lines_of_valid(content@);
        }
        TargetList { entries }
    }

    /// The number of stored entries.
    pub fn len(&self) -> (r: usize)
        ensures
            r == self@.len(),
    {
        self.entries.len()
    }

    /// The entry at 0-based position `i`.
    pub fn entry(&self, i: usize) -> (r: &Vec<u8>)
        requires
            i < self@.len(),
        ensures
            r@ == self@[i as int],
    {
        &self.entries[i]
    }

    /// Appends one name at the end of the list.
    pub fn push_name(&mut self, name: Vec<u8>)
        requires
            old(self).wf(),
            valid_name(name@),
        ensures
            final(self)@ == old(self)@.push(name@),
            final(self).wf(),
    {
        let ghost old_view = self@;
        self.entries.push(name);
        proof {
            assert(self@ =~= old_view.push(name@));
        }
    }

    /// Serializes the list back to backing content, one entry per line.
    pub fn to_content(&self) -> (r: Vec<u8>)
        requires
            self.wf(),
        ensures
            r@ == join_lines(self@),
            wf_content(r@),
    {
        let mut r: Vec<u8> = Vec::new();
        let mut i: usize = 0;
        proof {
            assert(self@.subrange(0, 0) =~= Seq::<Seq<u8>>::empty());
        }
        while i < self.entries.len()
            invariant
                i <= self@.len(),
                self@.len() == self.entries@.len(),
                r@ == join_lines(self@.subrange(0, i as int)),
            decreases self@.len() - i,
        {
            let e = &self.entries[i];
            let mut j: usize = 0;
            proof {
                assert(self@[i as int].subrange(0, 0) =~= Seq::<u8>::empty());
                assert(r@ + self@[i as int].subrange(0, 0) =~= r@);
            }
            while j < e.len()
                invariant
                    i < self@.len(),
                    self@.len() == self.entries@.len(),
                    e == self.entries@[i as int],
                    j <= e@.len(),
                    e@ == self@[i as int],
                    r@ == join_lines(self@.subrange(0, i as int)) + self@[i as int].subrange(
                        0,
                        j as int,
                    ),
                decreases e@.len() - j,
            {
                r.push(e[j]);
                proof {
                    assert(self@[i as int].subrange(0, j + 1) =~= self@[i as int].subrange(
                        0,
                        j as int,
                    ).push(e@[j as int]));
                }
                j = j + 1;
            }
            r.push(10);
            proof {
                assert(self@[i as int].subrange(0, self@[i as int].len() as int) =~= self@[
                    i as int
                ]);
                lemma_join_push(self@.subrange(0, i as int), self@[i as int]);
                assert(self@.subrange(0, i + 1) =~= self@.subrange(0, i as int).push(self@[
                    i as int
                ]));
                assert(r@ =~= join_lines(self@.subrange(0, i as int)) + self@[i as int] + seq![
                    10u8
                ]);
            }
            i = i + 1;
        }
        proof {
            assert(self@.subrange(0, self@.len() as int) =~= self@);
            lemma_join_wf(self@);
        }
        r
    }

    /// Removes the entries at the requested 1-based display indices, in one
    /// pass over the indices sorted descending. Returns the count of entries
    /// actually removed together with the rejected indices, in the order
    /// they were processed.
    pub fn delete(&mut self, idx: &Vec<usize>) -> (r: (usize, Vec<usize>))
        requires
            old(self).wf(),
        ensures
            final(self)@ == delete_desc(old(self)@, sort_desc(idx@)).0,
            r.1@ == delete_desc(old(self)@, sort_desc(idx@)).1,
            r.0 + r.1@.len() == idx@.len(),
            final(self).wf(),
    {
        let sorted = sort_desc_from(idx, 0);
        proof {
            assert(idx@.skip(0) =~= idx@);
            lemma_sort_desc_len(idx@);
        }
        let ghost s_all = sorted@;
        let ghost orig = self@;
        let mut removed: usize = 0;
        let mut rejected: Vec<usize> = Vec::new();
        let mut i: usize = 0;
        proof {
            assert(s_all.skip(0) =~= s_all);
            assert(rejected@ + delete_desc(self@, s_all).1 =~= delete_desc(self@, s_all).1);
        }
        while i < sorted.len()
            invariant
                i <= s_all.len(),
                sorted@ == s_all,
                self.wf(),
                removed + rejected@.len() == i,
                delete_desc(orig, s_all).0 == delete_desc(self@, s_all.skip(i as int)).0,
                delete_desc(orig, s_all).1 == rejected@ + delete_desc(
                    self@,
                    s_all.skip(i as int),
                ).1,
            decreases s_all.len() - i,
        {
            let k = sorted[i];
            proof {
                assert(s_all.skip(i as int).first() == s_all[i as int]);
                assert(s_all.skip(i as int).drop_first() =~= s_all.skip(i + 1));
            }
            if 1 <= k && k <= self.entries.len() {
                let ghost before = self@;
                let _ = self.entries.remove(k - 1);
                proof {
                    assert(self@ =~= before.remove(k - 1));
                    assert forall|m: int| 0 <= m < self@.len() implies valid_name(
                        #[trigger] self@[m],
                    ) by {
                        if m < k - 1 {
                            assert(self@[m] == before[m]);
                        } else {
                            assert(self@[m] == before[m + 1]);
                        }
                    }
                }
                removed = removed + 1;
            } else {
                let ghost before_rej = rejected@;
                rejected.push(k);
                proof {
                    assert(before_rej + (seq![k] + delete_desc(self@, s_all.skip(i + 1)).1) =~= (
                    before_rej.push(k)) + delete_desc(self@, s_all.skip(i + 1)).1);
                }
            }
            i = i + 1;
        }
        proof {
            assert(s_all.skip(s_all.len() as int) =~= Seq::<usize>::empty());
            assert(rejected@ + Seq::<usize>::empty() =~= rejected@);
        }
        (removed, rejected)
    }
}

/// The bytes to append to the backing file so that `name` becomes the last
/// stored entry: the name and one newline byte.
pub fn encode_line(name: &Vec<u8>) -> (r: Vec<u8>)
    requires
        valid_name(name@),
    ensures
        r@ == name@ + seq![10u8],
{
    let mut r = crate::text::copy_bytes(name);
    r.push(10);
    proof {
        assert(r@ =~= name@ + seq![10u8]);
    }
    r
}

/// Whether a name fits on one line of the backing file.
pub fn valid_name_exec(name: &Vec<u8>) -> (r: bool)
    ensures
        r == valid_name(name@),
{
    let mut i: usize = 0;
    while i < name.len()
        invariant
            i <= name@.len(),
            forall|j: int| 0 <= j < i ==> #[trigger] name@[j] != 10u8,
        decreases name@.len() - i,
    {
        if name[i] == 10 {
            return false;
        }
        i = i + 1;
    }
    true
}

/// Recursive worker for [`TargetList::load`]: parses `c[i..]`.
fn parse_from(c: &Vec<u8>, i: usize) -> (r: Vec<Vec<u8>>)
    requires
        i <= c@.len(),
    ensures
        seq_views(r@) == lines_of(c@.skip(i as int)),
    decreases c@.len() - i,
{
    if i == c.len() {
        let r: Vec<Vec<u8>> = Vec::new();
        proof {
            assert(c@.skip(i as int) =~= Seq::<u8>::empty());
            assert(seq_views(r@) =~= Seq::<Seq<u8>>::empty());
        }
        r
    } else if c[i] == 10 {
        let mut r = parse_from(c, i + 1);
        let ghost rec = r@;
        let empty_line: Vec<u8> = Vec::new();
        r.insert(0, empty_line);
        proof {
            assert(c@.skip(i as int).first() == 10u8);
            assert(c@.skip(i as int).drop_first() =~= c@.skip(i + 1));
            assert(seq_views(r@) =~= seq![Seq::<u8>::empty()] + seq_views(rec));
        }
        r
    } else {
        let b = c[i];
        let mut r = parse_from(c, i + 1);
        let ghost rec = r@;
        proof {
            assert(c@.skip(i as int).first() == c@[i as int]);
            assert(c@.skip(i as int).drop_first() =~= c@.skip(i + 1));
        }
        if r.len() == 0 {
            let mut line: Vec<u8> = Vec::new();
            line.push(b);
            let mut out: Vec<Vec<u8>> = Vec::new();
            out.push(line);
            proof {
                assert(lines_of(c@.skip(i + 1)).len() == 0);
                assert(seq_views(out@) =~= seq![seq![c@[i as int]]]);
            }
            out
        } else {
            let mut first_line = r.remove(0);
            let ghost tail = r@;
            first_line.insert(0, b);
            r.insert(0, first_line);
            proof {
                let rest = lines_of(c@.skip(i + 1));
                assert(rest.len() > 0);
                assert(first_line@ =~= seq![c@[i as int]] + rest.first());
                assert(seq_views(r@) =~= seq![seq![c@[i as int]] + rest.first()]
                    + rest.drop_first());
            }
            r
        }
    }
}

/// Recursive worker for the descending insertion sort: inserts `v` into the
/// already sorted tail `s[i..]`.
fn insert_desc_from(s: &Vec<usize>, i: usize, v: usize) -> (r: Vec<usize>)
    requires
        i <= s@.len(),
    ensures
        r@ == insert_desc(s@.skip(i as int), v),
    decreases s@.len() - i,
{
    if i == s.len() {
        let mut r: Vec<usize> = Vec::new();
        r.push(v);
        proof {
            assert(s@.skip(i as int) =~= Seq::<usize>::empty());
            assert(r@ =~= seq![v]);
        }
        r
    } else if v >= s[i] {
        let mut r: Vec<usize> = Vec::new();
        r.push(v);
        let mut j: usize = i;
        while j < s.len()
            invariant
                i <= j <= s@.len(),
                r@ == seq![v] + s@.subrange(i as int, j as int),
            decreases s@.len() - j,
        {
            r.push(s[j]);
            proof {
                assert(s@.subrange(i as int, j + 1) =~= s@.subrange(i as int, j as int).push(
                    s@[j as int],
                ));
                assert(r@ =~= seq![v] + s@.subrange(i as int, j + 1));
            }
            j = j + 1;
        }
        proof {
            assert(s@.subrange(i as int, s@.len() as int) =~= s@.skip(i as int));
            assert(s@.skip(i as int).first() == s@[i as int]);
        }
        r
    } else {
        let mut r = insert_desc_from(s, i + 1, v);
        r.insert(0, s[i]);
        proof {
            assert(s@.skip(i as int).first() == s@[i as int]);
            assert(s@.skip(i as int).drop_first() =~= s@.skip(i + 1));
            assert(r@ =~= seq![s@[i as int]] + insert_desc(s@.skip(i + 1), v));
        }
        r
    }
}

/// Recursive worker for the descending insertion sort: sorts `s[i..]`.
fn sort_desc_from(s: &Vec<usize>, i: usize) -> (r: Vec<usize>)
    requires
        i <= s@.len(),
    ensures
        r@ == sort_desc(s@.skip(i as int)),
    decreases s@.len() - i,
{
    if i == s.len() {
        let r: Vec<usize> = Vec::new();
        proof {
            assert(s@.skip(i as int) =~= Seq::<usize>::empty());
        }
        r
    } else {
        let rest = sort_desc_from(s, i + 1);
        let r = insert_desc_from(&rest, 0, s[i]);
        proof {
            assert(rest@.skip(0) =~= rest@);
            assert(s@.skip(i as int).first() == s@[i as int]);
            assert(s@.skip(i as int).drop_first() =~= s@.skip(i + 1));
        }
        r
    }
}

/// Inserting into a descending sequence keeps it descending and adds one
/// element.
proof fn lemma_insert_desc_sorted(s: Seq<usize>, v: usize)
    requires
        sorted_desc(s),
    ensures
        sorted_desc(insert_desc(s, v)),
        insert_desc(s, v).len() == s.len() + 1,
    decreases s.len(),
{
    if s.len() == 0 {
    } else if v >= s.first() {
        assert forall|i: int, j: int|
            0 <= i <= j < insert_desc(s, v).len() implies insert_desc(s, v)[i] >= insert_desc(
            s,
            v,
        )[j] by {
            if i > 0 {
                assert(insert_desc(s, v)[i] == s[i - 1]);
                assert(insert_desc(s, v)[j] == s[j - 1]);
            } else if j > 0 {
                assert(insert_desc(s, v)[j] == s[j - 1]);
                assert(s.first() >= s[j - 1]);
            }
        }
    } else {
        let s1 = s.drop_first();
        assert forall|i: int, j: int| 0 <= i <= j < s1.len() implies s1[i] >= s1[j] by {
            assert(s1[i] == s[i + 1]);
            assert(s1[j] == s[j + 1]);
        }
        lemma_insert_desc_sorted(s1, v);
        let r = insert_desc(s1, v);
        assert forall|m: int| 0 <= m < r.len() implies s.first() >= r[m] by {
            lemma_insert_desc_elem(s1, v, m);
            if r[m] == v {
            } else {
                let w = choose|w: int| 0 <= w < s1.len() && s1[w] == r[m];
                assert(s[w + 1] == s1[w]);
            }
        }
        assert forall|i: int, j: int|
            0 <= i <= j < insert_desc(s, v).len() implies insert_desc(s, v)[i] >= insert_desc(
            s,
            v,
        )[j] by {
            if i > 0 {
                assert(insert_desc(s, v)[i] == r[i - 1]);
                assert(insert_desc(s, v)[j] == r[j - 1]);
            } else if j > 0 {
                assert(insert_desc(s, v)[j] == r[j - 1]);
            }
        }
    }
}

/// Every element of `insert_desc(s, v)` is `v` or an element of `s`.
proof fn lemma_insert_desc_elem(s: Seq<usize>, v: usize, m: int)
    requires
        0 <= m < insert_desc(s, v).len(),
    ensures
        insert_desc(s, v)[m] == v || exists|w: int|
            0 <= w < s.len() && s[w] == insert_desc(s, v)[m],
    decreases s.len(),
{
    if s.len() == 0 {
    } else if v >= s.first() {
        if m > 0 {
            assert(insert_desc(s, v)[m] == s[m - 1]);
        }
    } else {
        if m > 0 {
            lemma_insert_desc_elem(s.drop_first(), v, m - 1);
            assert(insert_desc(s, v)[m] == insert_desc(s.drop_first(), v)[m - 1]);
            if insert_desc(s.drop_first(), v)[m - 1] != v {
                let w = choose|w: int|
                    0 <= w < s.drop_first().len() && s.drop_first()[w] == insert_desc(
                        s.drop_first(),
                        v,
                    )[m - 1];
                assert(s[w + 1] == s.drop_first()[w]);
            }
        } else {
            assert(insert_desc(s, v)[0] == s[0]);
        }
    }
}

/// The descending insertion sort keeps the length and sorts.
pub proof fn lemma_sort_desc_sorted(s: Seq<usize>)
    ensures
        sorted_desc(sort_desc(s)),
    decreases s.len(),
{
    if s.len() == 0 {
    } else {
        lemma_sort_desc_sorted(s.drop_first());
        lemma_insert_desc_sorted(sort_desc(s.drop_first()), s.first());
    }
}

/// Sorting does not change how many indices were requested.
proof fn lemma_sort_desc_len(s: Seq<usize>)
    ensures
        sort_desc(s).len() == s.len(),
    decreases s.len(),
{
    if s.len() == 0 {
    } else {
        lemma_sort_desc_len(s.drop_first());
        lemma_insert_desc_sorted_len(sort_desc(s.drop_first()), s.first());
    }
}

/// Length part of descending insertion, with no order requirement.
proof fn lemma_insert_desc_sorted_len(s: Seq<usize>, v: usize)
    ensures
        insert_desc(s, v).len() == s.len() + 1,
    decreases s.len(),
{
    if s.len() == 0 {
    } else if v >= s.first() {
    } else {
        lemma_insert_desc_sorted_len(s.drop_first(), v);
    }
}

/// Sorting the requested indices is a permutation: no requested index is
/// dropped or invented, repeats kept.
pub proof fn lemma_sort_desc_permutes(s: Seq<usize>)
    ensures
        sort_desc(s).to_multiset() == s.to_multiset(),
    decreases s.len(),
{
    broadcast use vstd::seq_lib::group_to_multiset_ensures;
    broadcast use vstd::multiset::group_multiset_axioms;

    if s.len() == 0 {
        assert(sort_desc(s).to_multiset() =~= s.to_multiset());
    } else {
        let s1 = s.drop_first();
        lemma_sort_desc_permutes(s1);
        lemma_insert_desc_multiset(sort_desc(s1), s.first());
        vstd::seq_lib::lemma_multiset_commutative(seq![s.first()], s1);
        assert(seq![s.first()] + s1 =~= s);
        assert(seq![s.first()] =~= Seq::<usize>::empty().push(s.first()));
        assert(sort_desc(s).to_multiset() =~= s.to_multiset());
    }
}

/// Descending insertion adds exactly one occurrence of the new element.
proof fn lemma_insert_desc_multiset(s: Seq<usize>, v: usize)
    ensures
        insert_desc(s, v).to_multiset() == s.to_multiset().insert(v),
    decreases s.len(),
{
    broadcast use vstd::seq_lib::group_to_multiset_ensures;
    broadcast use vstd::multiset::group_multiset_axioms;

    if s.len() == 0 {
        assert(seq![v] =~= Seq::<usize>::empty().push(v));
        assert(insert_desc(s, v).to_multiset() =~= s.to_multiset().insert(v));
    } else if v >= s.first() {
        vstd::seq_lib::lemma_multiset_commutative(seq![v], s);
        assert(seq![v] =~= Seq::<usize>::empty().push(v));
        assert(insert_desc(s, v).to_multiset() =~= s.to_multiset().insert(v));
    } else {
        let s1 = s.drop_first();
        lemma_insert_desc_multiset(s1, v);
        vstd::seq_lib::lemma_multiset_commutative(seq![s.first()], insert_desc(s1, v));
        vstd::seq_lib::lemma_multiset_commutative(seq![s.first()], s1);
        assert(seq![s.first()] + s1 =~= s);
        assert(seq![s.first()] =~= Seq::<usize>::empty().push(s.first()));
        assert(insert_desc(s, v).to_multiset() =~= s.to_multiset().insert(v));
    }
}

/// Whether the requested indices name the 1-based display position `p`.
pub open spec fn requests_pos(idx: Seq<usize>, p: int) -> bool {
    exists|i: int| 0 <= i < idx.len() && idx[i] == p
}

/// The entries left when exactly the listed 1-based display positions are
/// removed: the entries at the unlisted positions, in their original order.
pub open spec fn surviving(ns: Seq<Seq<u8>>, idx: Seq<usize>) -> Seq<Seq<u8>>
    decreases ns.len(),
{
    if ns.len() == 0 {
        Seq::empty()
    } else {
        let rest = surviving(ns.drop_last(), idx);
        if requests_pos(idx, ns.len() as int) {
            rest
        } else {
            rest.push(ns.last())
        }
    }
}

/// Position tests outside the list are irrelevant: two index lists that
/// agree on the positions of `ns` keep the same entries.
proof fn lemma_surviving_agree(ns: Seq<Seq<u8>>, idx1: Seq<usize>, idx2: Seq<usize>)
    requires
        forall|p: int|
            1 <= p <= ns.len() ==> (#[trigger] requests_pos(idx1, p) <==> requests_pos(idx2, p)),
    ensures
        surviving(ns, idx1) == surviving(ns, idx2),
    decreases ns.len(),
{
    if ns.len() == 0 {
    } else {
        lemma_surviving_agree(ns.drop_last(), idx1, idx2);
        assert(requests_pos(idx1, ns.len() as int) <==> requests_pos(idx2, ns.len() as int));
    }
}

/// With no position of the list requested, everything survives.
proof fn lemma_surviving_none(ns: Seq<Seq<u8>>, idx: Seq<usize>)
    requires
        forall|p: int| 1 <= p <= ns.len() ==> !(#[trigger] requests_pos(idx, p)),
    ensures
        surviving(ns, idx) == ns,
    decreases ns.len(),
{
    if ns.len() == 0 {
        assert(surviving(ns, idx) =~= ns);
    } else {
        lemma_surviving_none(ns.drop_last(), idx);
        assert(!requests_pos(idx, ns.len() as int));
        assert(surviving(ns, idx) =~= ns.drop_last().push(ns.last()));
        assert(ns.drop_last().push(ns.last()) =~= ns);
    }
}

/// Removing the largest requested position first commutes with testing the
/// remaining, strictly smaller positions against the shortened list.
proof fn lemma_surviving_step(ns: Seq<Seq<u8>>, k: usize, idx1: Seq<usize>)
    requires
        1 <= k <= ns.len(),
        forall|i: int| 0 <= i < idx1.len() ==> #[trigger] idx1[i] < k,
    ensures
        surviving(ns, seq![k] + idx1) == surviving(ns.remove(k - 1), idx1),
    decreases ns.len(),
{
    let idx = seq![k] + idx1;
    if ns.len() == k {
        assert(idx[0] == k);
        assert(requests_pos(idx, ns.len() as int));
        assert(ns.remove(k - 1) =~= ns.drop_last());
        assert forall|p: int|
            1 <= p <= ns.drop_last().len() implies (#[trigger] requests_pos(idx, p)
            <==> requests_pos(idx1, p)) by {
            if requests_pos(idx, p) {
                let w = choose|w: int| 0 <= w < idx.len() && idx[w] == p;
                if w == 0 {
                    assert(p == k);
                    assert(false);
                } else {
                    assert(idx1[w - 1] == p);
                    assert(requests_pos(idx1, p));
                }
            }
            if requests_pos(idx1, p) {
                let w = choose|w: int| 0 <= w < idx1.len() && idx1[w] == p;
                assert(idx[w + 1] == p);
                assert(requests_pos(idx, p));
            }
        }
        lemma_surviving_agree(ns.drop_last(), idx, idx1);
    } else {
        assert(k < ns.len());
        if requests_pos(idx, ns.len() as int) {
            let w = choose|w: int| 0 <= w < idx.len() && idx[w] == ns.len() as int;
            if w == 0 {
                assert(false);
            } else {
                assert(idx1[w - 1] == ns.len() as int);
                assert(false);
            }
        }
        let shortened = ns.remove(k - 1);
        assert(shortened.len() == ns.len() - 1);
        if requests_pos(idx1, ns.len() - 1) {
            let w = choose|w: int| 0 <= w < idx1.len() && idx1[w] == ns.len() - 1;
            assert(idx1[w] < k);
            assert(false);
        }
        assert(shortened.last() == ns.last());
        assert(shortened.drop_last() =~= ns.drop_last().remove(k - 1));
        lemma_surviving_step(ns.drop_last(), k, idx1);
        assert(surviving(ns, idx) == surviving(ns.drop_last(), idx).push(ns.last()));
        assert(surviving(shortened, idx1) == surviving(shortened.drop_last(), idx1).push(
            shortened.last(),
        ));
    }
}

/// Deletion correctness, order part: for strictly descending requested
/// indices that all name positions of the list, the surviving entries are
/// exactly those at the unrequested positions, in their original relative
/// order.
pub proof fn lemma_delete_preserves_order(ns: Seq<Seq<u8>>, idx: Seq<usize>)
    requires
        forall|i: int, j: int| 0 <= i < j < idx.len() ==> idx[i] > idx[j],
        forall|i: int| 0 <= i < idx.len() ==> 1 <= #[trigger] idx[i] && idx[i] <= ns.len(),
    ensures
        delete_desc(ns, idx).0 == surviving(ns, idx),
    decreases idx.len(),
{
    if idx.len() == 0 {
        assert forall|p: int| 1 <= p <= ns.len() implies !(#[trigger] requests_pos(idx, p)) by {
            if requests_pos(idx, p) {
                let w = choose|w: int| 0 <= w < idx.len() && idx[w] == p;
                assert(false);
            }
        }
        lemma_surviving_none(ns, idx);
    } else {
        let k = idx.first();
        let idx1 = idx.drop_first();
        assert forall|i: int| 0 <= i < idx1.len() implies #[trigger] idx1[i] < k by {
            assert(idx1[i] == idx[i + 1]);
        }
        lemma_surviving_step(ns, k, idx1);
        assert(seq![k] + idx1 =~= idx);
        assert forall|i: int, j: int| 0 <= i < j < idx1.len() implies idx1[i] > idx1[j] by {
            assert(idx1[i] == idx[i + 1]);
            assert(idx1[j] == idx[j + 1]);
        }
        assert forall|i: int|
            0 <= i < idx1.len() implies 1 <= #[trigger] idx1[i] && idx1[i] <= ns.remove(
            k - 1,
        ).len() by {
            assert(idx1[i] == idx[i + 1]);
        }
        lemma_delete_preserves_order(ns.remove(k - 1), idx1);
    }
}

/// Nonempty content stores at least one entry.
proof fn lemma_lines_nonempty(c: Seq<u8>)
    requires
        c.len() > 0,
    ensures
        lines_of(c).len() >= 1,
{
    if c.first() == 10u8 {
    } else {
        let rest = lines_of(c.drop_first());
        if rest.len() == 0 {
        } else {
        }
    }
}

/// No stored entry contains a newline byte: parsing content always yields a
/// well-formed list.
pub proof fn lemma_lines_of_valid(c: Seq<u8>)
    ensures
        forall|i: int| 0 <= i < lines_of(c).len() ==> valid_name(#[trigger] lines_of(c)[i]),
    decreases c.len(),
{
    if c.len() == 0 {
    } else if c.first() == 10u8 {
        lemma_lines_of_valid(c.drop_first());
        assert forall|i: int| 0 <= i < lines_of(c).len() implies valid_name(
            #[trigger] lines_of(c)[i],
        ) by {
            if i > 0 {
                assert(lines_of(c)[i] == lines_of(c.drop_first())[i - 1]);
            }
        }
    } else {
        lemma_lines_of_valid(c.drop_first());
        let rest = lines_of(c.drop_first());
        if rest.len() == 0 {
            assert(lines_of(c) =~= seq![seq![c.first()]]);
            assert forall|i: int| 0 <= i < lines_of(c).len() implies valid_name(
                #[trigger] lines_of(c)[i],
            ) by {
                assert(lines_of(c)[i] == seq![c.first()]);
                assert forall|j: int| 0 <= j < seq![c.first()].len() implies #[trigger] seq![
                    c.first()
                ][j] != 10u8 by {
                    assert(seq![c.first()][j] == c.first());
                }
            }
        } else {
            assert forall|i: int| 0 <= i < lines_of(c).len() implies valid_name(
                #[trigger] lines_of(c)[i],
            ) by {
                if i == 0 {
                    assert(valid_name(rest[0]));
                    let head = seq![c.first()] + rest.first();
                    assert(lines_of(c)[0] == head);
                    assert forall|j: int| 0 <= j < head.len() implies #[trigger] head[j]
                        != 10u8 by {
                        if j == 0 {
                            assert(head[j] == c.first());
                        } else {
                            assert(head[j] == rest.first()[j - 1]);
                        }
                    }
                } else {
                    assert(lines_of(c)[i] == rest.drop_first()[i - 1]);
                    assert(rest.drop_first()[i - 1] == rest[i]);
                }
            }
        }
    }
}

/// Parsing splits at a well-formed boundary: content that ends in a newline,
/// followed by anything, parses to the two parts parsed separately.
pub proof fn lemma_lines_concat(a: Seq<u8>, b: Seq<u8>)
    requires
        wf_content(a),
    ensures
        lines_of(a + b) == lines_of(a) + lines_of(b),
    decreases a.len(),
{
    if a.len() == 0 {
        assert(a + b =~= b);
        assert(lines_of(a) + lines_of(b) =~= lines_of(b));
    } else if a.first() == 10u8 {
        let a1 = a.drop_first();
        if a1.len() > 0 {
            assert(a1.last() == a.last());
        }
        lemma_lines_concat(a1, b);
        assert((a + b).first() == 10u8);
        assert((a + b).drop_first() =~= a1 + b);
        assert(lines_of(a + b) =~= lines_of(a) + lines_of(b));
    } else {
        assert(a.last() == 10u8);
        if a.len() == 1 {
            assert(a.first() == a.last());
            assert(false);
        }
        let a1 = a.drop_first();
        assert(a1.len() > 0);
        assert(a1.last() == a.last());
        lemma_lines_concat(a1, b);
        lemma_lines_nonempty(a1);
        assert((a + b).first() == a.first());
        assert((a + b).drop_first() =~= a1 + b);
        let rest_ab = lines_of(a1 + b);
        let rest_a = lines_of(a1);
        assert(rest_ab.len() >= rest_a.len());
        assert(rest_ab.first() == rest_a.first());
        assert(rest_ab.drop_first() =~= rest_a.drop_first() + lines_of(b));
        assert(lines_of(a + b) =~= lines_of(a) + lines_of(b));
    }
}

/// One stored line parses back to exactly its name.
pub proof fn lemma_lines_single(l: Seq<u8>)
    requires
        valid_name(l),
    ensures
        lines_of(l + seq![10u8]) == seq![l],
    decreases l.len(),
{
    let s = l + seq![10u8];
    if l.len() == 0 {
        assert(s.first() == 10u8);
        assert(s.drop_first() =~= Seq::<u8>::empty());
        assert(l =~= Seq::<u8>::empty());
        assert(lines_of(Seq::<u8>::empty()) == Seq::<Seq<u8>>::empty());
        assert(lines_of(s) == seq![Seq::<u8>::empty()] + lines_of(s.drop_first()));
        assert(lines_of(s) =~= seq![l]);
    } else {
        assert(s.first() == l.first());
        assert(l[0] != 10u8);
        let l1 = l.drop_first();
        assert forall|j: int| 0 <= j < l1.len() implies #[trigger] l1[j] != 10u8 by {
            assert(l1[j] == l[j + 1]);
        }
        lemma_lines_single(l1);
        assert(s.drop_first() =~= l1 + seq![10u8]);
        let rest = lines_of(s.drop_first());
        assert(rest == lines_of(l1 + seq![10u8]));
        assert(rest == seq![l1]);
        assert(rest.len() == 1);
        assert(rest.first() == l1);
        assert(rest.drop_first() =~= Seq::<Seq<u8>>::empty());
        assert(lines_of(s) == seq![seq![s.first()] + rest.first()] + rest.drop_first());
        assert(seq![s.first()] + rest.first() =~= l);
        assert(lines_of(s) =~= seq![l]);
    }
}

/// Serialized content is always well formed.
pub proof fn lemma_join_wf(ns: Seq<Seq<u8>>)
    ensures
        wf_content(join_lines(ns)),
{
    if ns.len() == 0 {
    } else {
        let c = join_lines(ns.drop_last()) + ns.last() + seq![10u8];
        assert(join_lines(ns) == c);
        assert(c.last() == 10u8);
    }
}

/// Serializing one more entry appends its line.
pub proof fn lemma_join_push(ns: Seq<Seq<u8>>, l: Seq<u8>)
    ensures
        join_lines(ns.push(l)) == join_lines(ns) + l + seq![10u8],
{
    assert(ns.push(l).drop_last() =~= ns);
    assert(ns.push(l).last() == l);
}

/// Write/read round trip: serializing any well-formed list and parsing the
/// result gives back exactly the same entries, in the same order.
pub proof fn lemma_store_round_trip(ns: Seq<Seq<u8>>)
    requires
        forall|i: int| 0 <= i < ns.len() ==> valid_name(#[trigger] ns[i]),
    ensures
        lines_of(join_lines(ns)) == ns,
    decreases ns.len(),
{
    if ns.len() == 0 {
    } else {
        let ns1 = ns.drop_last();
        assert forall|i: int| 0 <= i < ns1.len() implies valid_name(#[trigger] ns1[i]) by {
            assert(ns1[i] == ns[i]);
        }
        lemma_store_round_trip(ns1);
        lemma_join_wf(ns1);
        lemma_lines_concat(join_lines(ns1), ns.last() + seq![10u8]);
        lemma_lines_single(ns.last());
        assert(join_lines(ns) =~= join_lines(ns1) + (ns.last() + seq![10u8]));
        assert(lines_of(join_lines(ns)) == lines_of(join_lines(ns1) + (ns.last() + seq![10u8])));
        assert(ns1 + seq![ns.last()] =~= ns);
    }
}

/// Append/read round trip: appending one encoded line to well-formed content
/// and re-reading yields the prior entries followed by the new name, so
/// display indices keep counting up in append order.
pub proof fn lemma_append_round_trip(c: Seq<u8>, n: Seq<u8>)
    requires
        wf_content(c),
        valid_name(n),
    ensures
        lines_of(c + (n + seq![10u8])) == lines_of(c).push(n),
        wf_content(c + (n + seq![10u8])),
{
    lemma_lines_concat(c, n + seq![10u8]);
    lemma_lines_single(n);
    assert(lines_of(c) + seq![n] =~= lines_of(c).push(n));
    assert((c + (n + seq![10u8])).last() == 10u8);
}

/// Loading is a function of the backing content alone: without a mutation in
/// between, repeated `show` commands render identical sequences.
pub proof fn lemma_load_deterministic(c1: Seq<u8>, c2: Seq<u8>)
    requires
        c1 == c2,
    ensures
        lines_of(c1) == lines_of(c2),
{
}

/// Deletion bounds: when none of the requested indices names a position of
/// the list, every index is rejected and the list is left unchanged.
pub proof fn lemma_delete_all_out_of_bounds(ns: Seq<Seq<u8>>, idx: Seq<usize>)
    requires
        forall|i: int| 0 <= i < idx.len() ==> !(1 <= #[trigger] idx[i] && idx[i] <= ns.len()),
    ensures
        delete_desc(ns, idx).0 == ns,
        delete_desc(ns, idx).1 == idx,
    decreases idx.len(),
{
    if idx.len() == 0 {
        assert(delete_desc(ns, idx).1 =~= idx);
    } else {
        let idx1 = idx.drop_first();
        assert forall|i: int|
            0 <= i < idx1.len() implies !(1 <= #[trigger] idx1[i] && idx1[i] <= ns.len()) by {
            assert(idx1[i] == idx[i + 1]);
        }
        lemma_delete_all_out_of_bounds(ns, idx1);
        assert(seq![idx.first()] + idx1 =~= idx);
    }
}

/// Deletion correctness, counting part: strictly descending indices that all
/// name positions of the list are all honoured, and exactly that many
/// entries disappear.
pub proof fn lemma_delete_in_bounds(ns: Seq<Seq<u8>>, idx: Seq<usize>)
    requires
        forall|i: int, j: int| 0 <= i < j < idx.len() ==> idx[i] > idx[j],
        forall|i: int| 0 <= i < idx.len() ==> 1 <= #[trigger] idx[i] && idx[i] <= ns.len(),
    ensures
        delete_desc(ns, idx).1 == Seq::<usize>::empty(),
        delete_desc(ns, idx).0.len() == ns.len() - idx.len(),
    decreases idx.len(),
{
    if idx.len() == 0 {
    } else {
        let k = idx.first();
        let ns1 = ns.remove(k - 1);
        let idx1 = idx.drop_first();
        assert forall|i: int, j: int| 0 <= i < j < idx1.len() implies idx1[i] > idx1[j] by {
            assert(idx1[i] == idx[i + 1]);
            assert(idx1[j] == idx[j + 1]);
        }
        assert forall|i: int|
            0 <= i < idx1.len() implies 1 <= #[trigger] idx1[i] && idx1[i] <= ns1.len() by {
            assert(idx1[i] == idx[i + 1]);
            assert(idx[i + 1] < idx[0]);
        }
        lemma_delete_in_bounds(ns1, idx1);
    }
}

} // verus!
