//! The output of `git log`, parsed into commits, and the document that a commit becomes.

use crate::json::{json_quote, json_quoted, quote_each, quoted_each};
use crate::table::{lemma_rows_push, rows};
use crate::text::{
    cat2, contains_text, cut, cut_text, join, join_texts, law_join_holds_each, lemma_cut_at,
    lemma_holds_middle, lemma_holds_part, lemma_split_join, lemma_split_joined, lemma_split_whole,
    lemma_texts_push, lines_of, lines_text, occurs_at, parse_int64, parse_signed, signed_decimal,
    signed_decimal_of, split_on, split_text, take_chars, take_text, texts, trim, trim_text,
};
use vstd::prelude::*;

verus! {

/// One commit with the files it changed.
#[derive(Debug, Clone, PartialEq)]
pub struct CommitRecord {
    pub sha: String,
    /// Name and address, as in `Name <email>`.
    pub author: String,
    pub email: String,
    pub timestamp: i64,
    pub subject: String,
    pub body: String,
    pub files: Vec<String>,
}

/// What a commit holds.
#[verifier::ext_equal]
pub struct Commit {
    pub sha: Seq<char>,
    pub author: Seq<char>,
    pub email: Seq<char>,
    pub timestamp: i64,
    pub subject: Seq<char>,
    pub body: Seq<char>,
    pub files: Seq<Seq<char>>,
}

impl View for CommitRecord {
    type V = Commit;

    open spec fn view(&self) -> Commit {
        Commit {
            sha: self.sha@,
            author: self.author@,
            email: self.email@,
            timestamp: self.timestamp,
            subject: self.subject@,
            body: self.body@,
            files: texts(self.files@),
        }
    }
}

/// The format that [`parse_git_log`] reads: each commit starts with SOH, its header fields are
/// separated by US, the header ends with RS, and the changed files follow, one per line.
pub const GIT_LOG_FORMAT: &'static str = "\u{01}%H\u{1f}%an <%ae>\u{1f}%ae\u{1f}%ct\u{1f}%s\u{1f}%b\u{1e}";

/// The lines of a text without the white space around them, blank ones left out.
pub open spec fn trimmed_lines(lines: Seq<Seq<char>>) -> Seq<Seq<char>>
    decreases lines.len(),
{
    if lines.len() == 0 {
        Seq::empty()
    } else {
        let before = trimmed_lines(lines.drop_last());
        if trim_text(lines.last()).len() > 0 {
            before.push(trim_text(lines.last()))
        } else {
            before
        }
    }
}

/// The number in a text, or 0 where there is none.
pub open spec fn number_or_zero(s: Seq<char>) -> i64 {
    match parse_int64(s) {
        Some(n) => n as i64,
        None => 0,
    }
}

/// The commit that one record says, if it has a header with at least six fields.
pub open spec fn commit_of(rec: Seq<char>) -> Option<Commit> {
    match cut_text(rec, '\u{1e}') {
        None => None,
        Some((header, files)) => {
            let f = split_text(header, '\u{1f}');
            if f.len() < 6 {
                None
            } else {
                Some(
                    Commit {
                        sha: trim_text(f[0]),
                        author: trim_text(f[1]),
                        email: trim_text(f[2]),
                        timestamp: number_or_zero(trim_text(f[3])),
                        subject: trim_text(f[4]),
                        body: trim_text(f[5]),
                        files: trimmed_lines(lines_text(files)),
                    },
                )
            }
        },
    }
}

pub open spec fn commits_of(recs: Seq<Seq<char>>) -> Seq<Commit>
    decreases recs.len(),
{
    if recs.len() == 0 {
        Seq::empty()
    } else {
        let before = commits_of(recs.drop_last());
        match commit_of(recs.last()) {
            Some(c) => before.push(c),
            None => before,
        }
    }
}

fn trim_lines(blob: &str) -> (r: Vec<String>)
    ensures
        texts(r@) == trimmed_lines(lines_text(blob@)),
{
    let lines = lines_of(blob);
    let ghost all = texts(lines@);
    let mut out: Vec<String> = Vec::new();
    assert(all.take(0) =~= Seq::<Seq<char>>::empty());
    assert(texts(out@) =~= Seq::<Seq<char>>::empty());
    for i in 0..lines.len()
        invariant
            all == texts(lines@),
            texts(out@) == trimmed_lines(all.take(i as int)),
    {
        proof {
            assert(all.take(i + 1).drop_last() =~= all.take(i as int));
            assert(all.take(i + 1).last() == all[i as int]);
        }
        let t = trim(lines[i].as_str());
        if !t.as_str().is_empty() {
            let ghost out0 = out@;
            out.push(t);
            proof {
                lemma_texts_push(out0, t);
            }
        }
    }
    assert(all.take(all.len() as int) =~= all);
    out
}

fn parse_record(rec: &str) -> (r: Option<CommitRecord>)
    ensures
        match r {
            Some(c) => commit_of(rec@) == Some(c@),
            None => commit_of(rec@) is None,
        },
{
    match cut(rec, '\u{1e}') {
        None => None,
        Some((header, blob)) => {
            let f = split_on(header.as_str(), '\u{1f}');
            let ghost fields = split_text(header@, '\u{1f}');
            assert(texts(f@).len() == f@.len());
            if f.len() < 6 {
                return None;
            }
            assert(forall|i: int| 0 <= i < f@.len() ==> (#[trigger] f@[i])@ == fields[i]);
            let ts = trim(f[3].as_str());
            let timestamp: i64 = match parse_signed(ts.as_str()) {
                Some(n) => n,
                None => 0,
            };
            let c = CommitRecord {
                sha: trim(f[0].as_str()),
                author: trim(f[1].as_str()),
                email: trim(f[2].as_str()),
                timestamp,
                subject: trim(f[4].as_str()),
                body: trim(f[5].as_str()),
                files: trim_lines(blob.as_str()),
            };
            assert(c@ =~= commit_of(rec@)->0);
            Some(c)
        },
    }
}

/// Parses the output of `git log --no-merges --name-only` in [`GIT_LOG_FORMAT`]: one commit for
/// each record that has a full header, in order.
pub fn parse_git_log(output: &str) -> (r: Vec<CommitRecord>)
    ensures
        rows(r@) == commits_of(split_text(output@, '\u{01}')),
{
    let recs = split_on(output, '\u{01}');
    let ghost all = texts(recs@);
    let mut out: Vec<CommitRecord> = Vec::new();
    assert(all.take(0) =~= Seq::<Seq<char>>::empty());
    assert(rows(out@) =~= Seq::<Commit>::empty());
    for i in 0..recs.len()
        invariant
            all == texts(recs@),
            rows(out@) == commits_of(all.take(i as int)),
    {
        proof {
            assert(all.take(i + 1).drop_last() =~= all.take(i as int));
            assert(all.take(i + 1).last() == all[i as int]);
        }
        match parse_record(recs[i].as_str()) {
            Some(c) => {
                let ghost out0 = out@;
                out.push(c);
                proof {
                    lemma_rows_push(out0, c);
                }
            },
            None => {},
        }
    }
    assert(all.take(all.len() as int) =~= all);
    out
}

impl Commit {
    /// The key of a commit's document.
    pub open spec fn key(self) -> Seq<char> {
        "commit:"@ + self.sha
    }

    /// The title of a commit's document: the start of its subject, or its key where that is empty.
    pub open spec fn title(self) -> Seq<char> {
        if self.subject.len() == 0 {
            self.key()
        } else {
            take_text(self.subject, 72)
        }
    }

    /// The content of a commit's document: subject, body and changed files, as far as there are
    /// any.
    pub open spec fn content(self) -> Seq<char> {
        self.subject + if self.body.len() > 0 {
            "\n\n"@ + self.body
        } else {
            Seq::empty()
        } + if self.files.len() > 0 {
            "\n\nChanged files:\n"@ + join_texts(self.files, "\n"@)
        } else {
            Seq::empty()
        }
    }

    /// The meta data of a commit's document, as JSON.
    pub open spec fn meta(self) -> Seq<char> {
        "{\"files\":["@ + join_texts(quoted_each(self.files), ","@)
            + "],\"kind\":\"commit\",\"sha\":"@ + json_quoted(self.sha) + ",\"ts\":"@ + signed_decimal(
            self.timestamp as int,
        ) + "}"@
    }

    /// Who wrote a commit's document: the author's address, or `git` where that is empty.
    pub open spec fn writer(self) -> Seq<char> {
        if self.email.len() == 0 {
            "git"@
        } else {
            self.email
        }
    }
}

impl CommitRecord {
    /// The key of the commit's document, which never changes.
    pub fn key(&self) -> (r: String)
        ensures
            r@ == self@.key(),
    {
        cat2("commit:", self.sha.as_str())
    }

    /// The title of the commit's document: at most 72 characters of the subject, or the key.
    pub fn title(&self) -> (r: String)
        ensures
            r@ == self@.title(),
    {
        let s = take_chars(self.subject.as_str(), 72);
        if s.as_str().is_empty() {
            self.key()
        } else {
            s
        }
    }

    /// The content of the commit's document: subject, body and the changed files.
    pub fn content(&self) -> (r: String)
        ensures
            r@ == self@.content(),
    {
        let mut body = String::new();
        if !self.body.as_str().is_empty() {
            body.push_str("\n\n");
            body.push_str(self.body.as_str());
        }
        let mut files = String::new();
        assert(texts(self.files@).len() == self.files@.len());
        if self.files.len() > 0 {
            files.push_str("\n\nChanged files:\n");
            files.push_str(join(&self.files, "\n").as_str());
        }
        let mut c = self.subject.clone();
        c.push_str(body.as_str());
        c.push_str(files.as_str());
        proof {
            assert(body@ =~= if self@.body.len() > 0 {
                "\n\n"@ + self@.body
            } else {
                Seq::empty()
            });
            assert(files@ =~= if self@.files.len() > 0 {
                "\n\nChanged files:\n"@ + join_texts(self@.files, "\n"@)
            } else {
                Seq::empty()
            });
        }
        c
    }

    /// The meta data of the commit's document, as JSON.
    pub fn meta(&self) -> (r: String)
        ensures
            r@ == self@.meta(),
    {
        let mut m = "{\"files\":[".to_owned();
        let quoted = quote_each(&self.files);
        m.push_str(join(&quoted, ",").as_str());
        m.push_str("],\"kind\":\"commit\",\"sha\":");
        m.push_str(json_quote(self.sha.as_str()).as_str());
        m.push_str(",\"ts\":");
        m.push_str(signed_decimal_of(self.timestamp).as_str());
        m.push_str("}");
        m
    }

    /// Who wrote the commit's document.
    pub fn writer(&self) -> (r: String)
        ensures
            r@ == self@.writer(),
    {
        if self.email.as_str().is_empty() {
            "git".to_owned()
        } else {
            self.email.clone()
        }
    }
}

// ---------------------------------------------------------------------------------------------
// Laws.
// ---------------------------------------------------------------------------------------------

/// One commit as `git log` writes it: its six header fields, and the list of files.
#[verifier::ext_equal]
pub struct Logged {
    pub fields: Seq<Seq<char>>,
    pub files: Seq<char>,
}

impl Logged {
    /// What stands after the start of the record.
    pub open spec fn text(self) -> Seq<char> {
        join_texts(self.fields, seq!['\u{1f}']) + seq!['\u{1e}'] + self.files
    }

    /// Whether there are six fields and neither they nor the files hold what separates them.
    pub open spec fn is_clean(self) -> bool {
        &&& self.fields.len() == 6
        &&& forall|i: int|
            0 <= i < 6 ==> !(#[trigger] self.fields[i]).contains('\u{01}') && !self.fields[i].contains(
                '\u{1e}',
            ) && !self.fields[i].contains('\u{1f}')
        &&& !self.files.contains('\u{01}')
    }

    /// The commit that was written.
    pub open spec fn commit(self) -> Commit {
        Commit {
            sha: trim_text(self.fields[0]),
            author: trim_text(self.fields[1]),
            email: trim_text(self.fields[2]),
            timestamp: number_or_zero(trim_text(self.fields[3])),
            subject: trim_text(self.fields[4]),
            body: trim_text(self.fields[5]),
            files: trimmed_lines(lines_text(self.files)),
        }
    }
}

/// A whole log.
pub open spec fn log_text(commits: Seq<Logged>) -> Seq<char>
    decreases commits.len(),
{
    if commits.len() == 0 {
        Seq::empty()
    } else {
        log_text(commits.drop_last()) + seq!['\u{01}'] + commits.last().text()
    }
}

/// The commits of a log.
pub open spec fn logged_commits(commits: Seq<Logged>) -> Seq<Commit> {
    Seq::new(commits.len(), |i: int| commits[i].commit())
}

proof fn lemma_join_free(parts: Seq<Seq<char>>, sep: char, c: char)
    requires
        sep != c,
        forall|i: int| 0 <= i < parts.len() ==> !(#[trigger] parts[i]).contains(c),
    ensures
        !join_texts(parts, seq![sep]).contains(c),
    decreases parts.len(),
{
    let t = join_texts(parts, seq![sep]);
    if parts.len() > 1 {
        let head = parts.drop_last();
        assert forall|i: int| 0 <= i < head.len() implies !(#[trigger] head[i]).contains(c) by {
            assert(head[i] == parts[i]);
        }
        lemma_join_free(head, sep, c);
        let h = join_texts(head, seq![sep]);
        assert(!parts[parts.len() - 1].contains(c));
        if t.contains(c) {
            let k = choose|k: int| 0 <= k < t.len() && t[k] == c;
            if k < h.len() {
                assert(h[k] == c);
            } else if k > h.len() {
                assert(parts.last()[k - h.len() - 1] == c);
            }
        }
    }
}

proof fn lemma_record_read(l: Logged)
    requires
        l.is_clean(),
    ensures
        commit_of(l.text()) == Some(l.commit()),
        !l.text().contains('\u{01}'),
{
    let header = join_texts(l.fields, seq!['\u{1f}']);
    let t = l.text();
    lemma_join_free(l.fields, '\u{1f}', '\u{1e}');
    lemma_join_free(l.fields, '\u{1f}', '\u{01}');
    assert forall|k: int| 0 <= k < header.len() implies t[k] != '\u{1e}' by {
        assert(header[k] == t[k]);
        assert(header.contains(header[k]));
    }
    lemma_cut_at(t, '\u{1e}', header.len() as int);
    assert(t.take(header.len() as int) =~= header);
    assert(t.skip(header.len() as int + 1) =~= l.files);
    lemma_split_joined(l.fields, '\u{1f}');
    if t.contains('\u{01}') {
        let k = choose|k: int| 0 <= k < t.len() && t[k] == '\u{01}';
        if k < header.len() {
            assert(header[k] == '\u{01}');
        } else if k > header.len() {
            assert(l.files[k - header.len() - 1] == '\u{01}');
        }
    }
}

/// Law: a log that holds what the format says is read back commit by commit, in order, with nothing
/// lost but the white space around the fields.
pub proof fn law_log_is_read_back(commits: Seq<Logged>)
    requires
        forall|i: int| 0 <= i < commits.len() ==> (#[trigger] commits[i]).is_clean(),
    ensures
        commits_of(split_text(log_text(commits), '\u{01}')) == logged_commits(commits),
    decreases commits.len(),
{
    if commits.len() == 0 {
        let e = Seq::<char>::empty();
        let recs = split_text(e, '\u{01}');
        assert(recs =~= seq![e]);
        assert(recs.drop_last() =~= Seq::<Seq<char>>::empty());
        assert(commits_of(recs.drop_last()) =~= Seq::<Commit>::empty());
        assert(commit_of(e) is None);
        assert(commits_of(recs) =~= Seq::<Commit>::empty());
        assert(log_text(commits) =~= e);
        assert(logged_commits(commits) =~= Seq::<Commit>::empty());
    } else {
        let head = commits.drop_last();
        assert forall|i: int| 0 <= i < head.len() implies (#[trigger] head[i]).is_clean() by {
            assert(head[i] == commits[i]);
        }
        law_log_is_read_back(head);
        assert(commits[commits.len() - 1].is_clean());
        let r = commits.last().text();
        lemma_record_read(commits.last());
        lemma_split_join(log_text(head), r, '\u{01}');
        lemma_split_whole(r, '\u{01}');
        let recs = split_text(log_text(commits), '\u{01}');
        assert(recs.drop_last() =~= split_text(log_text(head), '\u{01}'));
        assert(recs.last() == r);
        assert(logged_commits(commits) =~= logged_commits(head).push(commits.last().commit()));
    }
}

proof fn lemma_trimmed_lines(lines: Seq<Seq<char>>)
    ensures
        forall|f: Seq<char>| #[trigger]
            trimmed_lines(lines).contains(f) <==> f.len() > 0 && exists|i: int|
                0 <= i < lines.len() && trim_text(#[trigger] lines[i]) == f,
    decreases lines.len(),
{
    if lines.len() > 0 {
        let head = lines.drop_last();
        let before = trimmed_lines(head);
        let all = trimmed_lines(lines);
        lemma_trimmed_lines(head);
        assert(lines[lines.len() - 1] == lines.last());
        assert forall|f: Seq<char>| #[trigger] all.contains(f) <==> f.len() > 0 && exists|i: int|
            0 <= i < lines.len() && trim_text(#[trigger] lines[i]) == f by {
            if all.contains(f) {
                let k = choose|k: int| 0 <= k < all.len() && all[k] == f;
                if k < before.len() {
                    assert(before[k] == f);
                    assert(before.contains(f));
                    let i = choose|i: int| 0 <= i < head.len() && trim_text(#[trigger] head[i]) == f;
                    assert(trim_text(lines[i]) == f);
                } else {
                    assert(trim_text(lines[lines.len() - 1]) == f);
                }
            }
            if f.len() > 0 && exists|i: int| 0 <= i < lines.len() && trim_text(#[trigger] lines[i]) == f {
                let i = choose|i: int| 0 <= i < lines.len() && trim_text(#[trigger] lines[i]) == f;
                if i < head.len() {
                    assert(trim_text(head[i]) == f);
                    assert(before.contains(f));
                    let k = choose|k: int| 0 <= k < before.len() && before[k] == f;
                    assert(all[k] == f);
                } else {
                    assert(all[before.len() as int] == f);
                }
            }
        }
    }
}

/// Law: the files of a commit are the lines that are not blank, trimmed, and no others.
pub proof fn law_commit_files(files: Seq<char>, f: Seq<char>)
    ensures
        trimmed_lines(lines_text(files)).contains(f) <==> f.len() > 0 && exists|i: int|
            0 <= i < lines_text(files).len() && trim_text(#[trigger] lines_text(files)[i]) == f,
{
    lemma_trimmed_lines(lines_text(files));
}

/// Law: the document of a commit holds its subject, its body and every file that it changed, under a key that
/// tells its sha, with the mail address of its author.
pub proof fn law_commit_document(c: Commit, i: int)
    ensures
        contains_text(c.content(), c.subject),
        contains_text(c.content(), c.body),
        0 <= i < c.files.len() ==> contains_text(c.content(), c.files[i]),
        contains_text(c.meta(), json_quoted(c.sha)),
        contains_text(c.meta(), "\"kind\":\"commit\""@),
        c.key() == "commit:"@ + c.sha,
        c.subject.len() > 0 ==> c.title() == take_text(c.subject, 72),
        c.email.len() > 0 ==> c.writer() == c.email,
{
    let none = Seq::<char>::empty();
    let body = if c.body.len() > 0 {
        "\n\n"@ + c.body
    } else {
        none
    };
    let files = if c.files.len() > 0 {
        "\n\nChanged files:\n"@ + join_texts(c.files, "\n"@)
    } else {
        none
    };
    assert(c.content() == c.subject + body + files);
    lemma_holds_middle(none, c.subject, body + files);
    assert(none + c.subject + (body + files) =~= c.content());
    if c.body.len() > 0 {
        lemma_holds_middle(c.subject + "\n\n"@, c.body, files);
        assert(c.subject + "\n\n"@ + c.body + files =~= c.content());
    } else {
        lemma_holds_middle(none, none, c.content());
        assert(none + none + c.content() =~= c.content());
        assert(c.body =~= none);
    }
    if 0 <= i < c.files.len() {
        let joined = join_texts(c.files, "\n"@);
        law_join_holds_each(c.files, "\n"@, i);
        lemma_holds_part(c.subject + body + "\n\nChanged files:\n"@, joined, none, c.files[i]);
        assert(c.subject + body + "\n\nChanged files:\n"@ + joined + none =~= c.content());
    }
    let a = "{\"files\":["@ + join_texts(quoted_each(c.files), ","@);
    let m = "],\"kind\":\"commit\",\"sha\":"@;
    let z = ",\"ts\":"@ + signed_decimal(c.timestamp as int) + "}"@;
    lemma_holds_middle(a + m, json_quoted(c.sha), z);
    assert(a + m + json_quoted(c.sha) + z =~= c.meta());
    reveal_strlit("],\"kind\":\"commit\",\"sha\":");
    reveal_strlit("\"kind\":\"commit\"");
    assert(m.subrange(2, 17) =~= "\"kind\":\"commit\""@);
    assert(occurs_at(m, "\"kind\":\"commit\""@, 2));
    lemma_holds_part(a, m, json_quoted(c.sha) + z, "\"kind\":\"commit\""@);
    assert(a + m + (json_quoted(c.sha) + z) =~= c.meta());
}

} // verus!
