//! The interactive curation session: turning one line of operator input
//! into a command, and the per-command computations that need no help from
//! the operating system.
//!
//! The surrounding binary owns the read-print loop; it hands each input
//! line here as bytes, receives a [`Command`], carries out the file and
//! snapshot work, and hands intermediate results back to the functions
//! below.

use vstd::prelude::*;

use crate::store::TargetList;
use crate::store::valid_name;
use crate::text::copy_bytes;
use crate::text::lower;
use crate::text::padded_index;
use crate::text::seq_views;

verus! {

/// ASCII whitespace, as token separators: space, horizontal tab, line feed,
/// form feed and carriage return.
pub open spec fn is_space(b: u8) -> bool {
    b == 32 || b == 9 || b == 10 || b == 12 || b == 13
}

/// The whitespace-separated tokens of one input line: the maximal nonempty
/// runs of non-whitespace bytes, in order.
pub open spec fn tokens_of(s: Seq<u8>) -> Seq<Seq<u8>>
    decreases s.len(),
{
    if s.len() == 0 {
        Seq::empty()
    } else if is_space(s.first()) {
        tokens_of(s.drop_first())
    } else {
        let rest = tokens_of(s.drop_first());
        if s.len() > 1 && !is_space(s[1]) {
            seq![seq![s.first()] + rest.first()] + rest.drop_first()
        } else {
            seq![seq![s.first()]] + rest
        }
    }
}

/// Input that starts mid-token always tokenizes to at least one token.
proof fn lemma_tokens_nonempty(s: Seq<u8>)
    requires
        s.len() > 0,
        !is_space(s.first()),
    ensures
        tokens_of(s).len() >= 1,
{
}

/// Whether a byte separates tokens.
fn is_space_exec(b: u8) -> (r: bool)
    ensures
        r == is_space(b),
{
    b == 32 || b == 9 || b == 10 || b == 12 || b == 13
}

/// Splits one input line into its whitespace-separated tokens.
pub fn tokenize(line: &Vec<u8>) -> (r: Vec<Vec<u8>>)
    ensures
        seq_views(r@) == tokens_of(line@),
{
    let r = tokenize_from(line, 0);
    proof {
        assert(line@.skip(0) =~= line@);
    }
    r
}

/// Recursive worker for [`tokenize`]: tokenizes `line[i..]`.
fn tokenize_from(line: &Vec<u8>, i: usize) -> (r: Vec<Vec<u8>>)
    requires
        i <= line@.len(),
    ensures
        seq_views(r@) == tokens_of(line@.skip(i as int)),
    decreases line@.len() - i,
{
    if i == line.len() {
        let r: Vec<Vec<u8>> = Vec::new();
        proof {
            assert(line@.skip(i as int) =~= Seq::<u8>::empty());
            assert(seq_views(r@) =~= Seq::<Seq<u8>>::empty());
        }
        r
    } else if is_space_exec(line[i]) {
        let r = tokenize_from(line, i + 1);
        proof {
            assert(line@.skip(i as int).first() == line@[i as int]);
            assert(line@.skip(i as int).drop_first() =~= line@.skip(i + 1));
        }
        r
    } else {
        let b = line[i];
        let mut r = tokenize_from(line, i + 1);
        let ghost rec = r@;
        proof {
            assert(line@.skip(i as int).first() == line@[i as int]);
            assert(line@.skip(i as int).drop_first() =~= line@.skip(i + 1));
        }
        if i + 1 < line.len() && !is_space_exec(line[i + 1]) {
            proof {
                assert(line@.skip(i + 1).first() == line@[i + 1]);
                lemma_tokens_nonempty(line@.skip(i + 1));
                assert(line@.skip(i as int).len() > 1);
                assert(line@.skip(i as int)[1] == line@[i + 1]);
            }
            let mut first_tok = r.remove(0);
            first_tok.insert(0, b);
            r.insert(0, first_tok);
            proof {
                let rest = tokens_of(line@.skip(i + 1));
                assert(first_tok@ =~= seq![line@[i as int]] + rest.first());
                assert(seq_views(r@) =~= seq![seq![line@[i as int]] + rest.first()]
                    + rest.drop_first());
            }
            r
        } else {
            proof {
                assert(!(line@.skip(i as int).len() > 1 && !is_space(line@.skip(i as int)[1])));
            }
            let mut tok: Vec<u8> = Vec::new();
            tok.push(b);
            r.insert(0, tok);
            proof {
                assert(seq_views(r@) =~= seq![seq![line@[i as int]]] + tokens_of(
                    line@.skip(i + 1),
                ));
            }
            r
        }
    }
}

/// The keyword of the `help` command.
pub open spec fn kw_help() -> Seq<u8> {
    seq![104u8, 101u8, 108u8, 112u8]
}

/// The keyword of the `list` command.
pub open spec fn kw_list() -> Seq<u8> {
    seq![108u8, 105u8, 115u8, 116u8]
}

/// The keyword of the `show` command.
pub open spec fn kw_show() -> Seq<u8> {
    seq![115u8, 104u8, 111u8, 119u8]
}

/// The long keyword of the quit command.
pub open spec fn kw_quit() -> Seq<u8> {
    seq![113u8, 117u8, 105u8, 116u8]
}

/// The short keyword of the quit command.
pub open spec fn kw_q() -> Seq<u8> {
    seq![113u8]
}

/// The keyword of the `add` command.
pub open spec fn kw_add() -> Seq<u8> {
    seq![97u8, 100u8, 100u8]
}

/// The keyword of the `del` command.
pub open spec fn kw_del() -> Seq<u8> {
    seq![100u8, 101u8, 108u8]
}

/// One parsed operator command. Argument tokens are passed through as they
/// were typed.
pub enum Command {
    /// Print the command reference; no state change.
    Help,
    /// Browse live processes, optionally filtered by name prefixes.
    List(Vec<Vec<u8>>),
    /// Print the stored list with 1-based display indices.
    Show,
    /// Resolve the given pid tokens and append the names to the store.
    Add(Vec<Vec<u8>>),
    /// Remove the entries at the given 1-based display indices.
    Del(Vec<Vec<u8>>),
    /// End the session.
    Quit,
    /// Anything else, the empty line too: reported, session continues.
    Unknown,
}

/// Compares a token against a one-byte word.
fn eq1(t: &Vec<u8>, b0: u8) -> (r: bool)
    ensures
        r == (t@ == seq![b0]),
{
    if t.len() != 1 {
        proof {
            assert(seq![b0].len() == 1);
        }
        return false;
    }
    let r = t[0] == b0;
    proof {
        assert(seq![b0][0] == b0);
        if r {
            assert(t@ =~= seq![b0]);
        }
    }
    r
}

/// Compares a token against a three-byte word.
fn eq3(t: &Vec<u8>, b0: u8, b1: u8, b2: u8) -> (r: bool)
    ensures
        r == (t@ == seq![b0, b1, b2]),
{
    if t.len() != 3 {
        proof {
            assert(seq![b0, b1, b2].len() == 3);
        }
        return false;
    }
    let r = t[0] == b0 && t[1] == b1 && t[2] == b2;
    proof {
        assert(seq![b0, b1, b2][0] == b0);
        assert(seq![b0, b1, b2][1] == b1);
        assert(seq![b0, b1, b2][2] == b2);
        if r {
            assert(t@ =~= seq![b0, b1, b2]);
        }
    }
    r
}

/// Compares a token against a four-byte word.
fn eq4(t: &Vec<u8>, b0: u8, b1: u8, b2: u8, b3: u8) -> (r: bool)
    ensures
        r == (t@ == seq![b0, b1, b2, b3]),
{
    if t.len() != 4 {
        proof {
            assert(seq![b0, b1, b2, b3].len() == 4);
        }
        return false;
    }
    let r = t[0] == b0 && t[1] == b1 && t[2] == b2 && t[3] == b3;
    proof {
        assert(seq![b0, b1, b2, b3][0] == b0);
        assert(seq![b0, b1, b2, b3][1] == b1);
        assert(seq![b0, b1, b2, b3][2] == b2);
        assert(seq![b0, b1, b2, b3][3] == b3);
        if r {
            assert(t@ =~= seq![b0, b1, b2, b3]);
        }
    }
    r
}

/// Copies the argument tokens, everything after the keyword.
fn copy_args(tokens: &Vec<Vec<u8>>) -> (r: Vec<Vec<u8>>)
    requires
        tokens@.len() >= 1,
    ensures
        seq_views(r@) == seq_views(tokens@).skip(1),
{
    let mut r: Vec<Vec<u8>> = Vec::new();
    let mut i: usize = 1;
    proof {
        assert(seq_views(r@) =~= seq_views(tokens@).subrange(1, 1));
    }
    while i < tokens.len()
        invariant
            1 <= i <= tokens@.len(),
            seq_views(r@) == seq_views(tokens@).subrange(1, i as int),
        decreases tokens@.len() - i,
    {
        r.push(copy_bytes(&tokens[i]));
        proof {
            assert(seq_views(tokens@).subrange(1, i + 1) =~= seq_views(tokens@).subrange(
                1,
                i as int,
            ).push(tokens@[i as int]@));
            assert(seq_views(r@) =~= seq_views(tokens@).subrange(1, i + 1));
        }
        i = i + 1;
    }
    proof {
        assert(seq_views(tokens@).subrange(1, tokens@.len() as int) =~= seq_views(
            tokens@,
        ).skip(1));
    }
    r
}

/// Dispatches one tokenized input line. The first token is matched
/// case-insensitively against the command table; everything else is
/// reported as unrecognized and the session goes on.
pub fn parse_command(tokens: &Vec<Vec<u8>>) -> (r: Command)
    ensures
        tokens@.len() == 0 ==> (r matches Command::Unknown),
        tokens@.len() > 0 ==> {
            let t0 = lower(seq_views(tokens@)[0]);
            let args = seq_views(tokens@).skip(1);
            &&& t0 == kw_help() ==> (r matches Command::Help)
            &&& t0 == kw_list() ==> (r matches Command::List(a) && seq_views(a@) == args)
            &&& t0 == kw_show() ==> (r matches Command::Show)
            &&& t0 == kw_add() ==> (r matches Command::Add(a) && seq_views(a@) == args)
            &&& t0 == kw_del() ==> (r matches Command::Del(a) && seq_views(a@) == args)
            &&& (t0 == kw_q() || t0 == kw_quit()) ==> (r matches Command::Quit)
            &&& !(t0 == kw_help() || t0 == kw_list() || t0 == kw_show() || t0 == kw_add() || t0
                == kw_del() || t0 == kw_q() || t0 == kw_quit()) ==> (r matches Command::Unknown)
        },
{
    if tokens.len() == 0 {
        return Command::Unknown;
    }
    let t0 = crate::text::to_lower(&tokens[0]);
    proof {
        assert(seq_views(tokens@)[0] == tokens@[0]@);
    }
    if eq4(&t0, 104, 101, 108, 112) {
        Command::Help
    } else if eq4(&t0, 108, 105, 115, 116) {
        Command::List(copy_args(tokens))
    } else if eq4(&t0, 115, 104, 111, 119) {
        Command::Show
    } else if eq3(&t0, 97, 100, 100) {
        Command::Add(copy_args(tokens))
    } else if eq3(&t0, 100, 101, 108) {
        Command::Del(copy_args(tokens))
    } else if eq1(&t0, 113) || eq4(&t0, 113, 117, 105, 116) {
        Command::Quit
    } else {
        Command::Unknown
    }
}

/// The snapshot's answer to one pid lookup during `add`.
pub struct PidLookup {
    pub pid: usize,
    pub name: Option<Vec<u8>>,
}

/// The names that the lookups resolved and that fit on one stored line, in
/// lookup order.
pub open spec fn resolved_names(ls: Seq<PidLookup>) -> Seq<Seq<u8>>
    decreases ls.len(),
{
    if ls.len() == 0 {
        Seq::empty()
    } else {
        let rest = resolved_names(ls.drop_last());
        match ls.last().name {
            Option::Some(n) => if valid_name(n@) {
                rest.push(n@)
            } else {
                rest
            },
            Option::None => rest,
        }
    }
}

/// The pids whose lookup resolved no storable name, in lookup order.
pub open spec fn unresolved_pids(ls: Seq<PidLookup>) -> Seq<usize>
    decreases ls.len(),
{
    if ls.len() == 0 {
        Seq::empty()
    } else {
        let rest = unresolved_pids(ls.drop_last());
        match ls.last().name {
            Option::Some(n) => if valid_name(n@) {
                rest
            } else {
                rest.push(ls.last().pid)
            },
            Option::None => rest.push(ls.last().pid),
        }
    }
}

/// Splits the lookup answers of one `add` command into the names to append
/// and the pids to report as not found. A pid that resolves no name is
/// reported and skipped; the rest of the command still goes through. A name
/// that cannot sit on one line of the backing file cannot be stored and is
/// reported the same way.
pub fn resolve_additions(ls: &Vec<PidLookup>) -> (r: (Vec<Vec<u8>>, Vec<usize>))
    ensures
        seq_views(r.0@) == resolved_names(ls@),
        forall|i: int| 0 <= i < r.0@.len() ==> valid_name(#[trigger] r.0@[i]@),
        r.1@ == unresolved_pids(ls@),
{
    let mut names: Vec<Vec<u8>> = Vec::new();
    let mut missing: Vec<usize> = Vec::new();
    let mut i: usize = 0;
    proof {
        assert(ls@.subrange(0, 0) =~= Seq::<PidLookup>::empty());
        assert(seq_views(names@) =~= resolved_names(ls@.subrange(0, 0)));
        assert(missing@ =~= unresolved_pids(ls@.subrange(0, 0)));
    }
    while i < ls.len()
        invariant
            i <= ls@.len(),
            seq_views(names@) == resolved_names(ls@.subrange(0, i as int)),
            missing@ == unresolved_pids(ls@.subrange(0, i as int)),
            forall|m: int| 0 <= m < names@.len() ==> valid_name(#[trigger] names@[m]@),
        decreases ls@.len() - i,
    {
        proof {
            assert(ls@.subrange(0, i + 1).drop_last() =~= ls@.subrange(0, i as int));
            assert(ls@.subrange(0, i + 1).last() == ls@[i as int]);
        }
        let ghost names_before = seq_views(names@);
        let entry = &ls[i];
        match &entry.name {
            Option::Some(n) => {
                if crate::store::valid_name_exec(n) {
                    names.push(copy_bytes(n));
                    proof {
                        assert(seq_views(names@) =~= names_before.push(n@));
                    }
                } else {
                    missing.push(entry.pid);
                }
            },
            Option::None => {
                missing.push(entry.pid);
            },
        }
        i = i + 1;
    }
    proof {
        assert(ls@.subrange(0, ls@.len() as int) =~= ls@);
    }
    (names, missing)
}

/// One rendered line of the `show` listing: the 1-based display index,
/// zero-padded to two digits, a dot, a space, the stored name.
pub open spec fn show_line(i: nat, name: Seq<u8>) -> Seq<u8> {
    padded_index(i + 1) + seq![46u8, 32u8] + name
}

/// Renders the stored list for `show`, one line per entry, display indices
/// counting from 1 in stored order.
pub fn render_entries(list: &TargetList) -> (r: Vec<Vec<u8>>)
    ensures
        r@.len() == list@.len(),
        forall|i: int| 0 <= i < list@.len() ==> r@[i]@ == show_line(i as nat, list@[i]),
{
    let mut r: Vec<Vec<u8>> = Vec::new();
    let mut i: usize = 0;
    while i < list.len()
        invariant
            i <= list@.len(),
            r@.len() == i,
            forall|m: int| 0 <= m < i ==> r@[m]@ == show_line(m as nat, list@[m]),
        decreases list@.len() - i,
    {
        let mut line = crate::text::render_index(i + 1);
        line.push(46);
        line.push(32);
        let mut name_copy = copy_bytes(list.entry(i));
        line.append(&mut name_copy);
        proof {
            assert(line@ =~= show_line(i as nat, list@[i as int]));
        }
        r.push(line);
        i = i + 1;
    }
    r
}

} // verus!
