//! The lines of `git diff --name-status -M`.

use crate::table::{lemma_rows_push, rows};
use crate::text::{
    cut, cut_text, has_prefix, lemma_cut_at, lemma_cut_none, lines_of, lines_text, same, starts_with, texts,
    trim_end_char, trim_end_char_text,
};
use vstd::prelude::*;

verus! {

/// A change of one file.
#[derive(Debug, PartialEq, Eq)]
pub enum DiffEntry {
    Added(String),
    Modified(String),
    Deleted(String),
    Renamed { old: String, new: String },
    Copied(String),
}

/// What a change says.
#[verifier::ext_equal]
pub enum Change {
    Added(Seq<char>),
    Modified(Seq<char>),
    Deleted(Seq<char>),
    Renamed { old: Seq<char>, new: Seq<char> },
    Copied(Seq<char>),
}

impl View for DiffEntry {
    type V = Change;

    open spec fn view(&self) -> Change {
        match self {
            DiffEntry::Added(p) => Change::Added(p@),
            DiffEntry::Modified(p) => Change::Modified(p@),
            DiffEntry::Deleted(p) => Change::Deleted(p@),
            DiffEntry::Renamed { old, new } => Change::Renamed { old: old@, new: new@ },
            DiffEntry::Copied(p) => Change::Copied(p@),
        }
    }
}

/// The change that a line without its line end says: a status, then one path after a tab, or two
/// for a rename or a copy.
pub open spec fn change_of(line: Seq<char>) -> Option<Change> {
    match cut_text(line, '\t') {
        None => None,
        Some((status, rest)) => match cut_text(rest, '\t') {
            None => if status == "A"@ {
                Some(Change::Added(rest))
            } else if status == "M"@ {
                Some(Change::Modified(rest))
            } else if status == "D"@ {
                Some(Change::Deleted(rest))
            } else {
                None
            },
            Some((old, new)) => if has_prefix(status, "R"@) {
                Some(Change::Renamed { old, new })
            } else if has_prefix(status, "C"@) {
                Some(Change::Copied(new))
            } else {
                None
            },
        },
    }
}

/// A line without the line feeds, then the carriage returns, at its end.
pub open spec fn without_line_end(line: Seq<char>) -> Seq<char> {
    trim_end_char_text(trim_end_char_text(line, '\n'), '\r')
}

/// Parses one line of a diff. A blank line and a status that is not known give nothing.
pub fn parse_diff_line(line: &str) -> (r: Option<DiffEntry>)
    ensures
        match r {
            Some(e) => change_of(without_line_end(line@)) == Some(e@),
            None => change_of(without_line_end(line@)) is None,
        },
{
    let bare = trim_end_char(line, '\n');
    let line = trim_end_char(bare.as_str(), '\r');
    match cut(line.as_str(), '\t') {
        None => None,
        Some((status, rest)) => match cut(rest.as_str(), '\t') {
            None => if same(status.as_str(), "A") {
                Some(DiffEntry::Added(rest))
            } else if same(status.as_str(), "M") {
                Some(DiffEntry::Modified(rest))
            } else if same(status.as_str(), "D") {
                Some(DiffEntry::Deleted(rest))
            } else {
                None
            },
            Some((old, new)) => if starts_with(status.as_str(), "R") {
                Some(DiffEntry::Renamed { old, new })
            } else if starts_with(status.as_str(), "C") {
                Some(DiffEntry::Copied(new))
            } else {
                None
            },
        },
    }
}

/// The changes that some lines say.
pub open spec fn changes_of(lines: Seq<Seq<char>>) -> Seq<Change>
    decreases lines.len(),
{
    if lines.len() == 0 {
        Seq::empty()
    } else {
        let before = changes_of(lines.drop_last());
        match change_of(without_line_end(lines.last())) {
            Some(c) => before.push(c),
            None => before,
        }
    }
}

/// The changes that the output of a diff lists.
pub fn parse_diff(output: &str) -> (r: Vec<DiffEntry>)
    ensures
        rows(r@) == changes_of(lines_text(output@)),
{
    let lines = lines_of(output);
    let ghost all = texts(lines@);
    let mut out: Vec<DiffEntry> = Vec::new();
    assert(all.take(0) =~= Seq::<Seq<char>>::empty());
    assert(rows(out@) =~= Seq::<Change>::empty());
    for i in 0..lines.len()
        invariant
            all == texts(lines@),
            rows(out@) == changes_of(all.take(i as int)),
    {
        proof {
            assert(all.take(i + 1).drop_last() =~= all.take(i as int));
            assert(all.take(i + 1).last() == all[i as int]);
        }
        match parse_diff_line(lines[i].as_str()) {
            Some(e) => {
                let ghost out0 = out@;
                out.push(e);
                proof {
                    lemma_rows_push(out0, e);
                }
            },
            None => {},
        }
    }
    assert(all.take(all.len() as int) =~= all);
    out
}

proof fn lemma_one_path(status: Seq<char>, path: Seq<char>)
    requires
        !status.contains('\t'),
        !path.contains('\t'),
    ensures
        cut_text(status + seq!['\t'] + path, '\t') == Some((status, path)),
        cut_text(path, '\t') is None,
{
    let line = status + seq!['\t'] + path;
    let n = status.len() as int;
    assert forall|k: int| 0 <= k < n implies line[k] != '\t' by {
        assert(line[k] == status[k]);
    }
    lemma_cut_at(line, '\t', n);
    assert(line.take(n) =~= status);
    assert(line.skip(n + 1) =~= path);
    lemma_cut_none(path, '\t');
}

/// Law: a line of a diff tells the file that was added, changed or deleted: its status, a tab, and the path.
pub proof fn law_change_of_one_path(path: Seq<char>)
    requires
        !path.contains('\t'),
    ensures
        change_of("A"@ + seq!['\t'] + path) == Some(Change::Added(path)),
        change_of("M"@ + seq!['\t'] + path) == Some(Change::Modified(path)),
        change_of("D"@ + seq!['\t'] + path) == Some(Change::Deleted(path)),
{
    reveal_strlit("A");
    reveal_strlit("M");
    reveal_strlit("D");
    assert("A"@[0] == 'A' && "M"@[0] == 'M' && "D"@[0] == 'D');
    lemma_one_path("A"@, path);
    lemma_one_path("M"@, path);
    lemma_one_path("D"@, path);
}

/// Law: a line of a diff whose status begins with an R tells a rename from its first path to its second, and
/// one whose status begins with a C tells that its second path is new; the number behind the letter does not
/// matter.
pub proof fn law_change_of_two_paths(mark: Seq<char>, old: Seq<char>, new: Seq<char>)
    requires
        !mark.contains('\t'),
        !old.contains('\t'),
    ensures
        change_of("R"@ + mark + seq!['\t'] + (old + seq!['\t'] + new)) == Some(Change::Renamed { old, new }),
        change_of("C"@ + mark + seq!['\t'] + (old + seq!['\t'] + new)) == Some(Change::Copied(new)),
{
    reveal_strlit("R");
    reveal_strlit("C");
    assert("R"@[0] == 'R' && "C"@[0] == 'C');
    let rest = old + seq!['\t'] + new;
    lemma_first_tab(old, new);
    assert forall|s: Seq<char>| s == "R"@ + mark || s == "C"@ + mark implies #[trigger] cut_text(
        s + seq!['\t'] + rest,
        '\t',
    ) == Some((s, rest)) by {
        assert forall|k: int| 0 <= k < s.len() implies s[k] != '\t' by {
            if k > 0 {
                assert(s[k] == mark[k - 1]);
            }
        }
        lemma_first_tab(s, rest);
    }
    assert(("R"@ + mark).subrange(0, 1) =~= "R"@);
    assert(("C"@ + mark).subrange(0, 1) =~= "C"@);
    assert(("C"@ + mark)[0] == 'C');
    assert(("C"@ + mark).subrange(0, 1)[0] != "R"@[0]);
    assert(cut_text("R"@ + mark + seq!['\t'] + rest, '\t') == Some(("R"@ + mark, rest)));
    assert(cut_text("C"@ + mark + seq!['\t'] + rest, '\t') == Some(("C"@ + mark, rest)));
}

proof fn lemma_first_tab(a: Seq<char>, b: Seq<char>)
    requires
        !a.contains('\t'),
    ensures
        cut_text(a + seq!['\t'] + b, '\t') == Some((a, b)),
{
    let line = a + seq!['\t'] + b;
    let n = a.len() as int;
    assert forall|k: int| 0 <= k < n implies line[k] != '\t' by {
        assert(line[k] == a[k]);
    }
    lemma_cut_at(line, '\t', n);
    assert(line.take(n) =~= a);
    assert(line.skip(n + 1) =~= b);
}

/// Law: the changes that a diff lists are what its lines say one by one, in their order, with nothing between
/// them; a line that says no change is passed over.
pub proof fn law_changes_line_by_line(lines: Seq<Seq<char>>, line: Seq<char>)
    ensures
        changes_of(Seq::empty()).len() == 0,
        change_of(without_line_end(line)) is None ==> changes_of(lines.push(line)) == changes_of(lines),
        change_of(without_line_end(line)) is Some ==> changes_of(lines.push(line)) == changes_of(lines).push(
            change_of(without_line_end(line))->0,
        ),
        line.len() > 0 && line.last() != '\n' && line.last() != '\r' ==> without_line_end(line) == line,
{
    assert(lines.push(line).drop_last() =~= lines);
}

} // verus!
