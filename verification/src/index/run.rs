//! A run of the indexer, decision by decision: what is done with each change, and how the run
//! ends. Reading files and sending requests is left to the caller, who hands back what happened.

use super::diff::{Change, DiffEntry};
use super::walk::{is_indexed, should_index};
use crate::text::{cat2, decimal, decimal_of, lemma_texts_push, lines_of, lines_text, same, texts};
use crate::table::{lemma_rows_where_contains, rows_where};
use vstd::prelude::*;

verus! {

// ---------------------------------------------------------------------------------------------
// Which run.
// ---------------------------------------------------------------------------------------------

/// What a run indexes.
#[derive(Debug)]
pub enum IndexRun {
    /// Every file.
    Full,
    /// Nothing: the last index was of this very commit.
    UpToDate,
    /// What changed since this commit.
    Since(String),
}

/// Chooses what a run indexes: where a last index is known, what changed since; else everything.
pub fn choose_run(last_sha: Option<String>, head_sha: &str) -> (r: IndexRun)
    ensures
        match last_sha {
            None => r is Full,
            Some(l) => if l@ == head_sha@ {
                r is UpToDate
            } else {
                r is Since && r->0@ == l@
            },
        },
{
    match last_sha {
        None => IndexRun::Full,
        Some(l) => if same(l.as_str(), head_sha) {
            IndexRun::UpToDate
        } else {
            IndexRun::Since(l)
        },
    }
}

/// The lines of a text that are not empty.
pub open spec fn is_listed() -> spec_fn(Seq<char>) -> bool {
    |l: Seq<char>| l.len() > 0
}

/// The files that `git ls-files` lists.
pub fn listed_files(output: &str) -> (r: Vec<String>)
    ensures
        texts(r@) == rows_where(lines_text(output@), is_listed()),
{
    let lines = lines_of(output);
    let ghost all = texts(lines@);
    let mut out: Vec<String> = Vec::new();
    assert(all.take(0) =~= Seq::<Seq<char>>::empty());
    assert(texts(out@) =~= Seq::<Seq<char>>::empty());
    for i in 0..lines.len()
        invariant
            all == texts(lines@),
            texts(out@) == rows_where(all.take(i as int), is_listed()),
    {
        proof {
            assert(all.take(i + 1).drop_last() =~= all.take(i as int));
            assert(all.take(i + 1).last() == all[i as int]);
        }
        if !lines[i].as_str().is_empty() {
            let ghost out0 = out@;
            let l = lines[i].clone();
            out.push(l);
            proof {
                lemma_texts_push(out0, l);
            }
        }
    }
    assert(all.take(all.len() as int) =~= all);
    out
}

/// The argument that limits `git log`, where there is a limit.
pub fn log_limit(max: usize) -> (r: Option<String>)
    ensures
        match r {
            None => max == 0,
            Some(a) => max > 0 && a@ == "-n"@ + decimal(max as nat),
        },
{
    if max > 0 {
        Some(cat2("-n", decimal_of(max as u64).as_str()))
    } else {
        None
    }
}

// ---------------------------------------------------------------------------------------------
// One change.
// ---------------------------------------------------------------------------------------------

/// What has become of a change.
#[derive(Debug, Clone, Copy, PartialEq, Eq, Structural)]
pub enum Outcome {
    Indexed,
    Skipped,
    Failed,
}

/// What the caller does next for a change.
#[derive(Debug)]
pub enum Action {
    /// Delete the document of this key.
    Delete(String),
    /// Find the size of this file.
    Measure(String),
    /// Read this file.
    Read(String),
    /// Post this file with this content.
    Post(String, String),
    /// The change is done with.
    Done(Outcome),
}

/// What an action says.
#[verifier::ext_equal]
pub enum Next {
    Delete(Seq<char>),
    Measure(Seq<char>),
    Read(Seq<char>),
    Post(Seq<char>, Seq<char>),
    Done(Outcome),
}

impl View for Action {
    type V = Next;

    open spec fn view(&self) -> Next {
        match self {
            Action::Delete(k) => Next::Delete(k@),
            Action::Measure(p) => Next::Measure(p@),
            Action::Read(p) => Next::Read(p@),
            Action::Post(p, c) => Next::Post(p@, c@),
            Action::Done(o) => Next::Done(*o),
        }
    }
}

/// What has happened since the last action.
#[derive(Debug)]
pub enum Event {
    /// The document was deleted, or not.
    Deleted(bool),
    /// The size of the file.
    Measured(u64),
    /// The file could not be read.
    Unreadable,
    /// The file is no UTF-8 text.
    NotText,
    /// The content of the file.
    Content(String),
    /// The file was posted, or not.
    Posted(bool),
}

/// The file that a change leaves in the repository, if any.
pub open spec fn file_of(c: Change) -> Option<Seq<char>> {
    match c {
        Change::Added(p) => Some(p),
        Change::Modified(p) => Some(p),
        Change::Copied(p) => Some(p),
        Change::Renamed { old, new } => Some(new),
        Change::Deleted(p) => None,
    }
}

/// What is done first for a change: the document of a deleted file and of a renamed file's old name
/// is deleted; a file that is there is measured.
pub open spec fn first_of(c: Change) -> Next {
    match c {
        Change::Deleted(p) => Next::Delete(p),
        Change::Renamed { old, new } => Next::Delete(old),
        Change::Added(p) => Next::Measure(p),
        Change::Modified(p) => Next::Measure(p),
        Change::Copied(p) => Next::Measure(p),
    }
}

/// What is done for a change after an event. The deletion of a deleted file's document decides the
/// change; that of a renamed file's old document decides nothing. A file that is not indexed, or
/// is no text, is skipped; one that cannot be read has failed.
pub open spec fn next_of(c: Change, e: Event) -> Next {
    match file_of(c) {
        None => match e {
            Event::Deleted(true) => Next::Done(Outcome::Indexed),
            _ => Next::Done(Outcome::Failed),
        },
        Some(path) => match e {
            Event::Deleted(_) => Next::Measure(path),
            Event::Measured(size) => if is_indexed(path, size) {
                Next::Read(path)
            } else {
                Next::Done(Outcome::Skipped)
            },
            Event::Unreadable => Next::Done(Outcome::Failed),
            Event::NotText => Next::Done(Outcome::Skipped),
            Event::Content(text) => Next::Post(path, text@),
            Event::Posted(true) => Next::Done(Outcome::Indexed),
            Event::Posted(false) => Next::Done(Outcome::Failed),
        },
    }
}

/// What is done first for a change.
pub fn first_action(entry: &DiffEntry) -> (r: Action)
    ensures
        r@ == first_of(entry@),
{
    match entry {
        DiffEntry::Deleted(p) => Action::Delete(p.clone()),
        DiffEntry::Renamed { old, new } => Action::Delete(old.clone()),
        DiffEntry::Added(p) => Action::Measure(p.clone()),
        DiffEntry::Modified(p) => Action::Measure(p.clone()),
        DiffEntry::Copied(p) => Action::Measure(p.clone()),
    }
}

/// What is done for a change after an event.
pub fn next_action(entry: &DiffEntry, event: Event) -> (r: Action)
    ensures
        r@ == next_of(entry@, event),
{
    let path: String = match entry {
        DiffEntry::Deleted(p) => {
            return match event {
                Event::Deleted(true) => Action::Done(Outcome::Indexed),
                _ => Action::Done(Outcome::Failed),
            };
        },
        DiffEntry::Renamed { old, new } => new.clone(),
        DiffEntry::Added(p) => p.clone(),
        DiffEntry::Modified(p) => p.clone(),
        DiffEntry::Copied(p) => p.clone(),
    };
    match event {
        Event::Deleted(_) => Action::Measure(path),
        Event::Measured(size) => if should_index(path.as_str(), size) {
            Action::Read(path)
        } else {
            Action::Done(Outcome::Skipped)
        },
        Event::Unreadable => Action::Done(Outcome::Failed),
        Event::NotText => Action::Done(Outcome::Skipped),
        Event::Content(text) => Action::Post(path, text),
        Event::Posted(ok) => if ok {
            Action::Done(Outcome::Indexed)
        } else {
            Action::Done(Outcome::Failed)
        },
    }
}

/// What answers an action.
pub open spec fn answers(a: Next, e: Event) -> bool {
    match a {
        Next::Delete(_) => e is Deleted,
        Next::Measure(_) => e is Measured,
        Next::Read(_) => e is Unreadable || e is NotText || e is Content,
        Next::Post(_, _) => e is Posted,
        Next::Done(_) => false,
    }
}

/// How many actions may still follow.
pub open spec fn steps_left(a: Next) -> nat {
    match a {
        Next::Delete(_) => 4,
        Next::Measure(_) => 3,
        Next::Read(_) => 2,
        Next::Post(_, _) => 1,
        Next::Done(_) => 0,
    }
}

/// Law: a change is done with after at most four actions: each event that answers an action leads
/// closer to the end. A file is posted only after its size was found to be one that is indexed.
pub proof fn law_change_ends(c: Change, a: Next, e: Event)
    requires
        answers(a, e),
        a is Delete || file_of(c) is Some,
    ensures
        steps_left(next_of(c, e)) < steps_left(a),
        steps_left(first_of(c)) <= 4,
        next_of(c, e) is Read ==> a is Measure && e is Measured && is_indexed(
            file_of(c)->0,
            e->Measured_0,
        ),
        next_of(c, e) is Post ==> a is Read,
{
}

// ---------------------------------------------------------------------------------------------
// The end of a run.
// ---------------------------------------------------------------------------------------------

/// How many changes had which outcome.
#[derive(Debug, Clone, Copy)]
pub struct Tally {
    pub ok: usize,
    pub skipped: usize,
    pub failed: usize,
}

/// How often a tally has counted an outcome.
pub open spec fn counter(t: Tally, outcome: Outcome) -> usize {
    match outcome {
        Outcome::Indexed => t.ok,
        Outcome::Skipped => t.skipped,
        Outcome::Failed => t.failed,
    }
}

/// A tally with one more outcome.
pub open spec fn counted(t: Tally, outcome: Outcome) -> Tally {
    match outcome {
        Outcome::Indexed => Tally { ok: (t.ok + 1) as usize, ..t },
        Outcome::Skipped => Tally { skipped: (t.skipped + 1) as usize, ..t },
        Outcome::Failed => Tally { failed: (t.failed + 1) as usize, ..t },
    }
}

/// The tally of a whole run: a new one that counted every outcome.
pub open spec fn tally_of(outcomes: Seq<Outcome>) -> Tally
    decreases outcomes.len(),
{
    if outcomes.len() == 0 {
        Tally { ok: 0, skipped: 0, failed: 0 }
    } else {
        counted(tally_of(outcomes.drop_last()), outcomes.last())
    }
}

/// Whether a run went well: nothing failed.
pub open spec fn went_well(t: Tally) -> bool {
    t.failed == 0
}

/// How often an outcome occurs in a list.
pub open spec fn occurrences(outcomes: Seq<Outcome>, outcome: Outcome) -> nat
    decreases outcomes.len(),
{
    if outcomes.len() == 0 {
        0
    } else {
        occurrences(outcomes.drop_last(), outcome) + if outcomes.last() == outcome {
            1nat
        } else {
            0nat
        }
    }
}

/// Law: a run goes well if and only if none of its changes failed. Its tally counts each outcome as
/// often as it occurs, and the three counts add up to the number of changes.
pub proof fn law_run_is_tallied(outcomes: Seq<Outcome>)
    requires
        outcomes.len() <= usize::MAX,
    ensures
        went_well(tally_of(outcomes)) <==> forall|i: int|
            0 <= i < outcomes.len() ==> #[trigger] outcomes[i] != Outcome::Failed,
        forall|o: Outcome| #[trigger] counter(tally_of(outcomes), o) == occurrences(outcomes, o),
        tally_of(outcomes).ok + tally_of(outcomes).skipped + tally_of(outcomes).failed == outcomes.len(),
    decreases outcomes.len(),
{
    if outcomes.len() > 0 {
        let head = outcomes.drop_last();
        let t = tally_of(head);
        law_run_is_tallied(head);
        assert(outcomes[outcomes.len() - 1] == outcomes.last());
        if outcomes.last() != Outcome::Failed {
            assert forall|i: int|
                0 <= i < outcomes.len() && went_well(t) implies #[trigger] outcomes[i] != Outcome::Failed by {
                if i < head.len() {
                    assert(head[i] == outcomes[i]);
                }
            }
            if !went_well(t) {
                let i = choose|i: int| 0 <= i < head.len() && #[trigger] head[i] == Outcome::Failed;
                assert(outcomes[i] == Outcome::Failed);
            }
        }
        assert forall|o: Outcome| #[trigger] counter(tally_of(outcomes), o) == occurrences(outcomes, o) by {
            assert(counter(t, o) == occurrences(head, o));
        }
    }
}

impl Tally {
    pub fn new() -> (r: Self)
        ensures
            r.ok == 0,
            r.skipped == 0,
            r.failed == 0,
    {
        Tally { ok: 0, skipped: 0, failed: 0 }
    }

    /// Counts one more outcome.
    pub fn count(&mut self, outcome: Outcome)
        requires
            counter(*old(self), outcome) < usize::MAX,
        ensures
            *final(self) == counted(*old(self), outcome),
    {
        match outcome {
            Outcome::Indexed => {
                self.ok = self.ok + 1;
            },
            Outcome::Skipped => {
                self.skipped = self.skipped + 1;
            },
            Outcome::Failed => {
                self.failed = self.failed + 1;
            },
        }
    }

    /// The tally of a whole run.
    pub fn of(outcomes: &Vec<Outcome>) -> (r: Self)
        ensures
            r == tally_of(outcomes@),
    {
        let mut t = Tally::new();
        assert(outcomes@.take(0) =~= Seq::<Outcome>::empty());
        for i in 0..outcomes.len()
            invariant
                t == tally_of(outcomes@.take(i as int)),
        {
            let ghost before = outcomes@.take(i as int);
            proof {
                law_run_is_tallied(before);
                assert(outcomes@.take(i + 1).drop_last() =~= before);
                assert(outcomes@.take(i + 1).last() == outcomes@[i as int]);
            }
            t.count(outcomes[i]);
        }
        assert(outcomes@.take(outcomes@.len() as int) =~= outcomes@);
        t
    }

    /// The line that reports a run.
    pub fn report(&self, total: usize) -> (r: String)
        ensures
            r@ == "engram-index: total="@ + decimal(total as nat) + " ok="@ + decimal(self.ok as nat)
                + " skipped="@ + decimal(self.skipped as nat) + " failed="@ + decimal(
                self.failed as nat,
            ),
    {
        let mut s = cat2("engram-index: total=", decimal_of(total as u64).as_str());
        s.push_str(" ok=");
        s.push_str(decimal_of(self.ok as u64).as_str());
        s.push_str(" skipped=");
        s.push_str(decimal_of(self.skipped as u64).as_str());
        s.push_str(" failed=");
        s.push_str(decimal_of(self.failed as u64).as_str());
        s
    }

    /// The line that reports an index of the history, where nothing is skipped.
    pub fn history_report(&self, total: usize) -> (r: String)
        ensures
            r@ == "engram-index: history total="@ + decimal(total as nat) + " ok="@ + decimal(
                self.ok as nat,
            ) + " failed="@ + decimal(self.failed as nat),
    {
        let mut s = cat2("engram-index: history total=", decimal_of(total as u64).as_str());
        s.push_str(" ok=");
        s.push_str(decimal_of(self.ok as u64).as_str());
        s.push_str(" failed=");
        s.push_str(decimal_of(self.failed as u64).as_str());
        s
    }

    /// Whether the run went well: it is an error if anything failed, and then the marker of the
    /// last index stays where it was. `what` says what failed.
    pub fn verdict(&self, what: &str) -> (r: Result<(), String>)
        ensures
            r is Ok <==> went_well(*self),
            r is Err ==> r->Err_0@ == decimal(self.failed as nat) + what@,
    {
        if self.failed > 0 {
            Err(cat2(decimal_of(self.failed as u64).as_str(), what))
        } else {
            Ok(())
        }
    }
}

/// Law: a file that was added, changed or copied is measured, read and sent, with its text, under its path, if
/// it is to be indexed at all; it counts as indexed exactly where the service took it.
pub proof fn law_changed_file_is_sent(c: Change, path: Seq<char>, size: u64, text: String, taken: bool)
    requires
        c == Change::Added(path) || c == Change::Modified(path) || c == Change::Copied(path),
    ensures
        first_of(c) == Next::Measure(path),
        next_of(c, Event::Measured(size)) == if is_indexed(path, size) {
            Next::Read(path)
        } else {
            Next::Done(Outcome::Skipped)
        },
        next_of(c, Event::Content(text)) == Next::Post(path, text@),
        next_of(c, Event::Posted(taken)) == Next::Done(
            if taken {
                Outcome::Indexed
            } else {
                Outcome::Failed
            },
        ),
        next_of(c, Event::Unreadable) == Next::Done(Outcome::Failed),
        next_of(c, Event::NotText) == Next::Done(Outcome::Skipped),
{
}

/// Law: a file that was deleted is deleted from the service and nothing is sent; a file that was renamed is
/// deleted under its old path, and sent under its new one whatever came of that.
pub proof fn law_gone_file_is_deleted(
    path: Seq<char>,
    old_path: Seq<char>,
    done: bool,
    size: u64,
    text: String,
    taken: bool,
)
    ensures
        first_of(Change::Deleted(path)) == Next::Delete(path),
        next_of(Change::Deleted(path), Event::Deleted(done)) == Next::Done(
            if done {
                Outcome::Indexed
            } else {
                Outcome::Failed
            },
        ),
        ({
            let c = Change::Renamed { old: old_path, new: path };
            &&& first_of(c) == Next::Delete(old_path)
            &&& next_of(c, Event::Deleted(done)) == Next::Measure(path)
            &&& is_indexed(path, size) ==> next_of(c, Event::Measured(size)) == Next::Read(path)
            &&& next_of(c, Event::Content(text)) == Next::Post(path, text@)
            &&& next_of(c, Event::Posted(taken)) == Next::Done(
                if taken {
                    Outcome::Indexed
                } else {
                    Outcome::Failed
                },
            )
        }),
{
}

/// Law: the files that are listed are the lines that say something, all of them and in their order.
pub proof fn law_listed_files(lines: Seq<Seq<char>>, line: Seq<char>, f: Seq<char>)
    ensures
        rows_where(lines, is_listed()).contains(f) <==> lines.contains(f) && f.len() > 0,
        line.len() > 0 ==> rows_where(lines.push(line), is_listed()) == rows_where(lines, is_listed()).push(line),
{
    lemma_rows_where_contains(lines, is_listed());
    assert(lines.push(line).drop_last() =~= lines);
}

} // verus!
