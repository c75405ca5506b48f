//! The text that a tool shows.

use super::types::{CodeHit, CommitHit, Digest, TraceHop};
use crate::text::{
    cat2, contains_text, decimal, decimal_of, digit_char, digits_value, join, join_texts,
    law_decimal_round_trip, law_join_holds_each, lemma_holds_middle, lemma_holds_part, lemma_texts_push,
    occurs_at, signed_decimal, signed_decimal_of, take_chars, take_text, texts,
};
use vstd::prelude::*;

verus! {

/// A number of hundredths, written with two decimals.
pub open spec fn hundredths(n: int) -> Seq<char> {
    let m = if n < 0 {
        -n
    } else {
        n
    };
    let digits = decimal((m / 100) as nat) + "."@ + seq![digit_char(m / 10 % 10), digit_char(m % 10)];
    if n < 0 {
        "-"@ + digits
    } else {
        digits
    }
}

/// Writes a number of hundredths with two decimals.
pub fn hundredths_of(n: i64) -> (r: String)
    ensures
        r@ == hundredths(n as int),
{
    let m: u64 = if n < 0 {
        (-(n as i128)) as u64
    } else {
        n as u64
    };
    let mut digits = decimal_of(m / 100);
    digits.push_str(".");
    digits.push_str(decimal_of(m / 10 % 10).as_str());
    digits.push_str(decimal_of(m % 10).as_str());
    assert(digits@ =~= decimal((m / 100) as nat) + "."@ + seq![
        digit_char(m as int / 10 % 10),
        digit_char(m as int % 10),
    ]);
    if n < 0 {
        cat2("-", digits.as_str())
    } else {
        digits
    }
}

/// Where a chunk of code stands: its path, and its lines as far as they are known.
pub open spec fn place_of(h: CodeHit) -> Seq<char> {
    match (h.line_start, h.line_end) {
        (Some(s), Some(e)) => h.path@ + ":"@ + signed_decimal(s as int) + "-"@ + signed_decimal(e as int),
        (Some(s), None) => h.path@ + ":"@ + signed_decimal(s as int),
        _ => h.path@,
    }
}

/// A chunk of code: its place and score, then the start of its text.
pub open spec fn hit_text(h: CodeHit) -> Seq<char> {
    place_of(h) + "  (score "@ + hundredths(h.score as int) + ")\n"@ + take_text(h.snippet@, 400)
}

pub open spec fn hits_text(hits: Seq<CodeHit>) -> Seq<char> {
    if hits.len() == 0 {
        "No results."@
    } else {
        join_texts(hits.map_values(|h: CodeHit| hit_text(h)), "\n\n"@)
    }
}

fn format_hit(h: &CodeHit) -> (r: String)
    ensures
        r@ == hit_text(*h),
{
    let mut s = h.path.clone();
    match (h.line_start, h.line_end) {
        (Some(a), Some(b)) => {
            s.push_str(":");
            s.push_str(signed_decimal_of(a).as_str());
            s.push_str("-");
            s.push_str(signed_decimal_of(b).as_str());
        },
        (Some(a), None) => {
            s.push_str(":");
            s.push_str(signed_decimal_of(a).as_str());
        },
        _ => {},
    }
    assert(s@ == place_of(*h));
    s.push_str("  (score ");
    s.push_str(hundredths_of(h.score).as_str());
    s.push_str(")\n");
    s.push_str(take_chars(h.snippet.as_str(), 400).as_str());
    s
}

/// The text of a code search.
pub fn format_hits(hits: &Vec<CodeHit>) -> (r: String)
    ensures
        r@ == hits_text(hits@),
{
    if hits.len() == 0 {
        return "No results.".to_owned();
    }
    let ghost all = hits@.map_values(|h: CodeHit| hit_text(h));
    let mut parts: Vec<String> = Vec::new();
    assert(texts(parts@) =~= all.take(0));
    for i in 0..hits.len()
        invariant
            all == hits@.map_values(|h: CodeHit| hit_text(h)),
            texts(parts@) == all.take(i as int),
    {
        let ghost parts0 = parts@;
        let t = format_hit(&hits[i]);
        parts.push(t);
        proof {
            lemma_texts_push(parts0, t);
            assert(all[i as int] == t@);
            assert(all.take(i + 1) =~= all.take(i as int).push(all[i as int]));
        }
    }
    assert(all.take(all.len() as int) =~= all);
    join(&parts, "\n\n")
}

/// A digest: its label or key and its score, then the start of its body.
pub open spec fn digest_text(d: Digest) -> Seq<char> {
    "["@ + match d.label {
        Some(l) => l@,
        None => d.tree_key@,
    } + "]  (score "@ + hundredths(d.score as int) + ")\n"@ + take_text(d.body@, 600)
}

pub open spec fn digests_text(items: Seq<Digest>) -> Seq<char> {
    if items.len() == 0 {
        "No digest available (the repo may not be consolidated yet)."@
    } else {
        join_texts(items.map_values(|d: Digest| digest_text(d)), "\n\n"@)
    }
}

fn format_digest(d: &Digest) -> (r: String)
    ensures
        r@ == digest_text(*d),
{
    let mut s = "[".to_owned();
    match &d.label {
        Some(l) => s.push_str(l.as_str()),
        None => s.push_str(d.tree_key.as_str()),
    }
    s.push_str("]  (score ");
    s.push_str(hundredths_of(d.score).as_str());
    s.push_str(")\n");
    s.push_str(take_chars(d.body.as_str(), 600).as_str());
    s
}

/// The text of some digests.
pub fn format_digests(items: &Vec<Digest>) -> (r: String)
    ensures
        r@ == digests_text(items@),
{
    if items.len() == 0 {
        return "No digest available (the repo may not be consolidated yet).".to_owned();
    }
    let ghost all = items@.map_values(|d: Digest| digest_text(d));
    let mut parts: Vec<String> = Vec::new();
    assert(texts(parts@) =~= all.take(0));
    for i in 0..items.len()
        invariant
            all == items@.map_values(|d: Digest| digest_text(d)),
            texts(parts@) == all.take(i as int),
    {
        let ghost parts0 = parts@;
        let t = format_digest(&items[i]);
        parts.push(t);
        proof {
            lemma_texts_push(parts0, t);
            assert(all[i as int] == t@);
            assert(all.take(i + 1) =~= all.take(i as int).push(all[i as int]));
        }
    }
    assert(all.take(all.len() as int) =~= all);
    join(&parts, "\n\n")
}

/// A commit: its key, author and score, then its title.
pub open spec fn commit_text(c: CommitHit) -> Seq<char> {
    c.key@ + "  by "@ + c.author@ + "  (score "@ + hundredths(c.score as int) + ")\n"@ + c.title@
}

pub open spec fn commits_text(hits: Seq<CommitHit>) -> Seq<char> {
    if hits.len() == 0 {
        "No matching commits (is the history namespace indexed?)."@
    } else {
        join_texts(hits.map_values(|c: CommitHit| commit_text(c)), "\n\n"@)
    }
}

fn format_commit(c: &CommitHit) -> (r: String)
    ensures
        r@ == commit_text(*c),
{
    let mut s = cat2(c.key.as_str(), "  by ");
    s.push_str(c.author.as_str());
    s.push_str("  (score ");
    s.push_str(hundredths_of(c.score).as_str());
    s.push_str(")\n");
    s.push_str(c.title.as_str());
    s
}

/// The text of some commits.
pub fn format_commits(hits: &Vec<CommitHit>) -> (r: String)
    ensures
        r@ == commits_text(hits@),
{
    if hits.len() == 0 {
        return "No matching commits (is the history namespace indexed?).".to_owned();
    }
    let ghost all = hits@.map_values(|c: CommitHit| commit_text(c));
    let mut parts: Vec<String> = Vec::new();
    assert(texts(parts@) =~= all.take(0));
    for i in 0..hits.len()
        invariant
            all == hits@.map_values(|c: CommitHit| commit_text(c)),
            texts(parts@) == all.take(i as int),
    {
        let ghost parts0 = parts@;
        let t = format_commit(&hits[i]);
        parts.push(t);
        proof {
            lemma_texts_push(parts0, t);
            assert(all[i as int] == t@);
            assert(all.take(i + 1) =~= all.take(i as int).push(all[i as int]));
        }
    }
    assert(all.take(all.len() as int) =~= all);
    join(&parts, "\n\n")
}

/// A hop: its path, kind, symbol, confidence and depth, then its document, or where it leads to
/// none, its path and symbol.
pub open spec fn hop_text(h: TraceHop) -> Seq<char> {
    h.path@ + "  "@ + h.edge_kind@ + "  "@ + h.sym@ + "  conf="@ + hundredths(h.confidence as int)
        + "  depth="@ + decimal(h.depth as nat) + "\n"@ + if h.document_id@.len() == 0 {
        h.path@ + " "@ + h.sym@
    } else {
        h.document_id@
    }
}

pub open spec fn trace_text(hops: Seq<TraceHop>) -> Seq<char> {
    if hops.len() == 0 {
        "No graph edges found."@
    } else {
        join_texts(hops.map_values(|h: TraceHop| hop_text(h)), "\n\n"@)
    }
}

fn format_hop(h: &TraceHop) -> (r: String)
    ensures
        r@ == hop_text(*h),
{
    let mut id = String::new();
    if h.document_id.as_str().is_empty() {
        id.push_str(h.path.as_str());
        id.push_str(" ");
        id.push_str(h.sym.as_str());
        assert(id@ =~= h.path@ + " "@ + h.sym@);
    } else {
        id.push_str(h.document_id.as_str());
        assert(id@ =~= h.document_id@);
    }
    let mut s = cat2(h.path.as_str(), "  ");
    s.push_str(h.edge_kind.as_str());
    s.push_str("  ");
    s.push_str(h.sym.as_str());
    s.push_str("  conf=");
    s.push_str(hundredths_of(h.confidence).as_str());
    s.push_str("  depth=");
    s.push_str(decimal_of(h.depth as u64).as_str());
    s.push_str("\n");
    s.push_str(id.as_str());
    s
}

/// The text of a walk.
pub fn format_trace(hops: &Vec<TraceHop>) -> (r: String)
    ensures
        r@ == trace_text(hops@),
{
    if hops.len() == 0 {
        return "No graph edges found.".to_owned();
    }
    let ghost all = hops@.map_values(|h: TraceHop| hop_text(h));
    let mut parts: Vec<String> = Vec::new();
    assert(texts(parts@) =~= all.take(0));
    for i in 0..hops.len()
        invariant
            all == hops@.map_values(|h: TraceHop| hop_text(h)),
            texts(parts@) == all.take(i as int),
    {
        let ghost parts0 = parts@;
        let t = format_hop(&hops[i]);
        parts.push(t);
        proof {
            lemma_texts_push(parts0, t);
            assert(all[i as int] == t@);
            assert(all.take(i + 1) =~= all.take(i as int).push(all[i as int]));
        }
    }
    assert(all.take(all.len() as int) =~= all);
    join(&parts, "\n\n")
}

/// Law: a number of hundredths is written with its two last digits behind the point: the digits together say
/// the number, and one below zero has a sign before it.
pub proof fn law_hundredths(n: int)
    requires
        0 <= n,
    ensures
        ({
            let t = hundredths(n);
            let whole = t.take(t.len() - 3);
            &&& t.len() > 3
            &&& t[t.len() - 3] == '.'
            &&& digits_value(whole + t.skip(t.len() - 2)) == n
        }),
        n > 0 ==> hundredths(-n) == seq!['-'] + hundredths(n),
{
    reveal_strlit(".");
    reveal_strlit("-");
    assert("-"@ =~= seq!['-']);
    let a = decimal((n / 100) as nat);
    let x = digit_char(n / 10 % 10);
    let y = digit_char(n % 10);
    let t = hundredths(n);
    assert(t =~= a + seq!['.', x, y]);
    law_decimal_round_trip((n / 100) as nat);
    let whole = t.take(t.len() - 3);
    assert(whole =~= a);
    assert(t.skip(t.len() - 2) =~= seq![x, y]);
    let all = whole + t.skip(t.len() - 2);
    assert(all =~= a.push(x).push(y));
    assert(all.drop_last() =~= a.push(x));
    assert(a.push(x).drop_last() =~= a);
    assert(digits_value(a.push(x)) == 10 * (n / 100) + n / 10 % 10);
    assert(n == 100 * (n / 100) + 10 * (n / 10 % 10) + n % 10) by (nonlinear_arith)
        requires
            0 <= n,
    ;
}

/// Law: every hit is shown, with its file, and its snippet as far as it has four hundred characters; where the
/// lines are known, they stand behind the file.
pub proof fn law_hits_are_shown(hits: Seq<CodeHit>, i: int)
    requires
        0 <= i < hits.len(),
    ensures
        contains_text(hits_text(hits), hits[i].path@),
        contains_text(hits_text(hits), take_text(hits[i].snippet@, 400)),
        contains_text(hits_text(hits), "(score "@ + hundredths(hits[i].score as int) + ")"@),
        hits[i].line_start is Some && hits[i].line_end is Some ==> contains_text(
            hits_text(hits),
            hits[i].path@ + ":"@ + signed_decimal(hits[i].line_start->0 as int) + "-"@ + signed_decimal(
                hits[i].line_end->0 as int,
            ),
        ),
{
    let none = Seq::<char>::empty();
    let parts = hits.map_values(|h: CodeHit| hit_text(h));
    let h = hits[i];
    let one = hit_text(h);
    assert(parts[i] == one);
    let all = hits_text(hits);
    law_join_holds_each(parts, "\n\n"@, i);
    let p = place_of(h);
    let score = "(score "@ + hundredths(h.score as int) + ")"@;
    let snippet = take_text(h.snippet@, 400);
    reveal_strlit("  (score ");
    reveal_strlit("(score ");
    reveal_strlit(")\n");
    reveal_strlit(")");
    assert(one =~= p + seq![' ', ' '] + score + seq!['\n'] + snippet);
    lemma_holds_middle(none, p, seq![' ', ' '] + score + seq!['\n'] + snippet);
    assert(none + p + (seq![' ', ' '] + score + seq!['\n'] + snippet) =~= one);
    lemma_holds_middle(p + seq![' ', ' '], score, seq!['\n'] + snippet);
    assert(p + seq![' ', ' '] + score + (seq!['\n'] + snippet) =~= one);
    lemma_holds_middle(p + seq![' ', ' '] + score + seq!['\n'], snippet, none);
    assert(p + seq![' ', ' '] + score + seq!['\n'] + snippet + none =~= one);
    let tail = p.skip(h.path@.len() as int);
    lemma_holds_middle(none, h.path@, tail);
    assert(none + h.path@ + tail =~= p);
    lemma_holds_part(none, p, seq![' ', ' '] + score + seq!['\n'] + snippet, h.path@);
    lemma_in_whole(all, one, h.path@);
    lemma_in_whole(all, one, score);
    lemma_in_whole(all, one, snippet);
    lemma_in_whole(all, one, p);
}

proof fn lemma_in_whole(all: Seq<char>, part: Seq<char>, p: Seq<char>)
    requires
        contains_text(all, part),
        contains_text(part, p),
    ensures
        contains_text(all, p),
{
    let i = choose|i: int| occurs_at(all, part, i);
    let a = all.take(i);
    let b = all.skip(i + part.len());
    assert(a + part + b =~= all) by {
        assert forall|k: int| 0 <= k < all.len() implies (a + part + b)[k] == all[k] by {
            if i <= k < i + part.len() {
                assert(all.subrange(i, i + part.len())[k - i] == all[k]);
            }
        }
    }
    lemma_holds_part(a, part, b, p);
}

/// Law: every digest is shown, with its label, or the key of its tree where it has none, and its text as far as
/// it has six hundred characters.
pub proof fn law_digests_are_shown(items: Seq<Digest>, i: int)
    requires
        0 <= i < items.len(),
    ensures
        contains_text(digests_text(items), take_text(items[i].body@, 600)),
        items[i].label is Some ==> contains_text(digests_text(items), items[i].label->0@),
        items[i].label is None ==> contains_text(digests_text(items), items[i].tree_key@),
{
    let none = Seq::<char>::empty();
    let parts = items.map_values(|d: Digest| digest_text(d));
    let d = items[i];
    let one = digest_text(d);
    assert(parts[i] == one);
    law_join_holds_each(parts, "\n\n"@, i);
    let name = match d.label {
        Some(l) => l@,
        None => d.tree_key@,
    };
    let mid = "]  (score "@ + hundredths(d.score as int) + ")\n"@;
    let body = take_text(d.body@, 600);
    assert(one =~= "["@ + name + mid + body);
    lemma_holds_middle("["@, name, mid + body);
    assert("["@ + name + (mid + body) =~= one);
    lemma_holds_middle("["@ + name + mid, body, none);
    assert("["@ + name + mid + body + none =~= one);
    lemma_in_whole(digests_text(items), one, name);
    lemma_in_whole(digests_text(items), one, body);
}

/// Law: every commit is shown, with its key, its author and its title.
pub proof fn law_commits_are_shown(hits: Seq<CommitHit>, i: int)
    requires
        0 <= i < hits.len(),
    ensures
        contains_text(commits_text(hits), hits[i].key@),
        contains_text(commits_text(hits), hits[i].author@),
        contains_text(commits_text(hits), hits[i].title@),
{
    let none = Seq::<char>::empty();
    let parts = hits.map_values(|c: CommitHit| commit_text(c));
    let c = hits[i];
    let one = commit_text(c);
    assert(parts[i] == one);
    law_join_holds_each(parts, "\n\n"@, i);
    let by = "  by "@;
    let mid = "  (score "@ + hundredths(c.score as int) + ")\n"@;
    assert(one =~= c.key@ + by + c.author@ + mid + c.title@);
    lemma_holds_middle(none, c.key@, by + c.author@ + mid + c.title@);
    assert(none + c.key@ + (by + c.author@ + mid + c.title@) =~= one);
    lemma_holds_middle(c.key@ + by, c.author@, mid + c.title@);
    assert(c.key@ + by + c.author@ + (mid + c.title@) =~= one);
    lemma_holds_middle(c.key@ + by + c.author@ + mid, c.title@, none);
    assert(c.key@ + by + c.author@ + mid + c.title@ + none =~= one);
    lemma_in_whole(commits_text(hits), one, c.key@);
    lemma_in_whole(commits_text(hits), one, c.author@);
    lemma_in_whole(commits_text(hits), one, c.title@);
}

/// Law: every hop is shown, with its file, its symbol, the kind of its edge and its document where it has one.
#[verifier::rlimit(60)]
pub proof fn law_hops_are_shown(hops: Seq<TraceHop>, i: int)
    requires
        0 <= i < hops.len(),
    ensures
        contains_text(trace_text(hops), hops[i].path@),
        contains_text(trace_text(hops), hops[i].sym@),
        contains_text(trace_text(hops), hops[i].edge_kind@),
        contains_text(trace_text(hops), hops[i].document_id@),
        contains_text(trace_text(hops), "conf="@ + hundredths(hops[i].confidence as int)),
        contains_text(trace_text(hops), "depth="@ + decimal(hops[i].depth as nat)),
{
    let none = Seq::<char>::empty();
    let parts = hops.map_values(|h: TraceHop| hop_text(h));
    let h = hops[i];
    let one = hop_text(h);
    let all = trace_text(hops);
    assert(parts[i] == one);
    law_join_holds_each(parts, "\n\n"@, i);
    reveal_strlit("  ");
    reveal_strlit("  conf=");
    reveal_strlit("conf=");
    reveal_strlit("  depth=");
    reveal_strlit("depth=");
    let gap = "  "@;
    let conf = "conf="@ + hundredths(h.confidence as int);
    let depth = "depth="@ + decimal(h.depth as nat);
    let last = if h.document_id@.len() == 0 {
        h.path@ + " "@ + h.sym@
    } else {
        h.document_id@
    };
    let end = "\n"@ + last;
    assert(one =~= h.path@ + gap + h.edge_kind@ + gap + h.sym@ + gap + conf + gap + depth + end);
    lemma_holds_middle(none, h.path@, gap + h.edge_kind@ + gap + h.sym@ + gap + conf + gap + depth + end);
    assert(none + h.path@ + (gap + h.edge_kind@ + gap + h.sym@ + gap + conf + gap + depth + end) =~= one);
    lemma_holds_middle(h.path@ + gap, h.edge_kind@, gap + h.sym@ + gap + conf + gap + depth + end);
    assert(h.path@ + gap + h.edge_kind@ + (gap + h.sym@ + gap + conf + gap + depth + end) =~= one);
    lemma_holds_middle(h.path@ + gap + h.edge_kind@ + gap, h.sym@, gap + conf + gap + depth + end);
    assert(h.path@ + gap + h.edge_kind@ + gap + h.sym@ + (gap + conf + gap + depth + end) =~= one);
    lemma_holds_middle(h.path@ + gap + h.edge_kind@ + gap + h.sym@ + gap, conf, gap + depth + end);
    assert(h.path@ + gap + h.edge_kind@ + gap + h.sym@ + gap + conf + (gap + depth + end) =~= one);
    lemma_holds_middle(h.path@ + gap + h.edge_kind@ + gap + h.sym@ + gap + conf + gap, depth, end);
    lemma_in_whole(all, one, h.path@);
    lemma_in_whole(all, one, h.edge_kind@);
    lemma_in_whole(all, one, h.sym@);
    lemma_in_whole(all, one, conf);
    lemma_in_whole(all, one, depth);
    if h.document_id@.len() == 0 {
        lemma_holds_middle(none, none, all);
        assert(none + none + all =~= all);
        assert(h.document_id@ =~= none);
    } else {
        let front = h.path@ + gap + h.edge_kind@ + gap + h.sym@ + gap + conf + gap + depth + "\n"@;
        lemma_holds_middle(front, h.document_id@, none);
        assert(front + h.document_id@ + none =~= one);
        lemma_in_whole(all, one, h.document_id@);
    }
}

} // verus!
