//! The cold pipeline: chunks become leaves of summary trees, and full or stale buffers of nodes
//! are folded into summaries, level by level.

use crate::config::Config;
use crate::embed::Embedder;
use crate::ingest::{is_file_meta, meta_is_file};
use crate::jobs::JobProcessor;
use crate::llm::{recorded, summarize_audited, AuditSink, ChatClient, ChatResult, SummarizeCtx, SummaryCall};
use crate::model::{Doc, Error, MemoryDoc};
use crate::store::chunks::{doc_chunks, ChunkDetail, ChunkRow};
use crate::store::docs::{doc_has_id, loose_leaf_of};
use crate::store::jobs::Job;
use crate::store::trees::{
    buffer_nodes, buffer_of, buffer_view, in_buffer, is_stale, law_seal, lemma_sorted_nodes, link_is,
    links_added, node_added, node_among, node_is, node_refused, node_sealed, sealed_state, NewTreeNode,
    NodeDraft,
};
use crate::store::{copy_embedding, Link, Node, State, Store, TreeNode};
use crate::table::{
    any_row, except, first_row, lemma_removed_apart, lemma_rows_push, lemma_rows_where_all,
    lemma_rows_where_contains, lemma_rows_where_none, rewritten, rows, rows_where,
};
use crate::text::{
    before_last, cat2, char_count, contains_text, decimal, decimal_of, has_prefix, join, join_texts,
    law_join_holds_each, lemma_last_of_join, lemma_sorted_set, lemma_split_join, lemma_split_nonempty,
    lemma_split_whole, lemma_texts_push, lines_of, lines_text, occurs_at, opt_text, same, sorted_set,
    sorted_set_text, split_last, split_text, starts_with, take_chars, take_text, texts, trim, trim_text,
};
use vstd::prelude::*;

verus! {

/// How many levels a cascade may climb.
pub const MAX_CASCADE_DEPTH: i64 = 32;

/// What one pass of the cold pipeline works with.
pub struct TreeCtx<'a, E: Embedder, C: ChatClient, A: AuditSink> {
    pub embedder: &'a E,
    pub chat: &'a C,
    pub audit: &'a A,
    pub cfg: &'a Config,
}

// ---------------------------------------------------------------------------------------------
// Rules.
// ---------------------------------------------------------------------------------------------

/// An estimate of a text's tokens: a quarter of its characters, at least one.
pub open spec fn approx_tokens_text(s: Seq<char>) -> u64 {
    if s.len() / 4 >= 1 {
        (s.len() / 4) as u64
    } else {
        1
    }
}

/// An estimate of a text's tokens: a quarter of its characters, at least one.
pub fn approx_tokens(s: &str) -> (r: u64)
    ensures
        r == approx_tokens_text(s@),
{
    let n: usize = char_count(s) / 4;
    if n >= 1 {
        n as u64
    } else {
        1
    }
}

/// The tokens of a buffer.
pub open spec fn token_sum(buf: Seq<Node>) -> nat
    decreases buf.len(),
{
    if buf.len() == 0 {
        0
    } else {
        token_sum(buf.drop_last()) + buf.last().token_count as nat
    }
}

/// Whether a buffer holds a node of at least the flush age.
pub open spec fn has_aged(buf: Seq<Node>, flush_age: u64, now: u64) -> bool {
    exists|i: int| 0 <= i < buf.len() && (#[trigger] buf[i]).created_at + flush_age <= now
}

/// Whether a buffer is to be sealed: it holds enough tokens (leaves) or nodes (summaries), or a
/// node of at least the flush age.
pub open spec fn gate(cfg: Config, level: i64, buf: Seq<Node>, now: u64) -> bool {
    &&& buf.len() > 0
    &&& {
        ||| if level == 0 {
            token_sum(buf) >= cfg.seal_input_token_budget
        } else {
            buf.len() >= cfg.seal_fanout
        }
        ||| has_aged(buf, cfg.seal_flush_age_micros, now)
    }
}

/// Whether a buffer is to be sealed.
pub fn gate_exceeded(cfg: &Config, level: i64, buf: &Vec<TreeNode>, now: u64) -> (r: bool)
    ensures
        r == gate(*cfg, level, rows(buf@), now),
{
    let ghost all = rows(buf@);
    if buf.len() == 0 {
        return false;
    }
    let budget: u128 = cfg.seal_input_token_budget as u128;
    let mut enough: bool = budget == 0;
    let mut sum: u128 = 0;
    let mut aged: bool = false;
    assert(all.take(0) =~= Seq::<Node>::empty());
    for i in 0..buf.len()
        invariant
            all == rows(buf@),
            budget == cfg.seal_input_token_budget,
            enough == (token_sum(all.take(i as int)) >= budget),
            !enough ==> sum == token_sum(all.take(i as int)),
            sum <= 0x2_0000_0000_0000_0000,
            aged == has_aged(all.take(i as int), cfg.seal_flush_age_micros, now),
    {
        let ghost next = all.take(i + 1);
        proof {
            assert(next.drop_last() =~= all.take(i as int));
            assert(next.last() == buf@[i as int]@);
            assert forall|k: int| 0 <= k < i implies next[k] == all.take(i as int)[k] by {}
        }
        if !enough {
            sum = sum + buf[i].token_count as u128;
            if sum >= budget {
                enough = true;
            }
        }
        let old_enough: bool = buf[i].created_at as u128 + cfg.seal_flush_age_micros as u128
            <= now as u128;
        proof {
            if old_enough {
                assert(next[i as int].created_at + cfg.seal_flush_age_micros <= now);
            }
            if has_aged(all.take(i as int), cfg.seal_flush_age_micros, now) {
                let k = choose|k: int|
                    0 <= k < i && (#[trigger] all.take(i as int)[k]).created_at
                        + cfg.seal_flush_age_micros <= now;
                assert(next[k].created_at + cfg.seal_flush_age_micros <= now);
            }
            if has_aged(next, cfg.seal_flush_age_micros, now) {
                let k = choose|k: int|
                    0 <= k < next.len() && (#[trigger] next[k]).created_at
                        + cfg.seal_flush_age_micros <= now;
                if k < i {
                    assert(all.take(i as int)[k].created_at + cfg.seal_flush_age_micros <= now);
                }
            }
        }
        if old_enough {
            aged = true;
        }
    }
    assert(all.take(all.len() as int) =~= all);
    let size: bool = if level == 0 {
        enough
    } else {
        buf.len() >= cfg.seal_fanout
    };
    size || aged
}

/// The bodies of a buffer.
pub open spec fn bodies(buf: Seq<Node>) -> Seq<Seq<char>> {
    buf.map_values(|n: Node| n.body)
}

fn bodies_of(buf: &Vec<TreeNode>) -> (r: Vec<String>)
    ensures
        texts(r@) == bodies(rows(buf@)),
{
    let mut out: Vec<String> = Vec::new();
    for i in 0..buf.len()
        invariant
            out@.len() == i,
            forall|j: int| 0 <= j < i ==> (#[trigger] out@[j])@ == rows(buf@)[j].body,
    {
        out.push(buf[i].body.clone());
    }
    assert(texts(out@) =~= bodies(rows(buf@)));
    out
}

/// What the language model is asked to make of a buffer.
pub open spec fn prompt_text(buf: Seq<Node>, max_tokens: nat) -> Seq<char> {
    "Consolidate these "@ + decimal(buf.len())
        + " memory items into a single concise summary (at most "@ + decimal(max_tokens)
        + " tokens). Preserve names, dates, and specifics.\n\n"@ + join_texts(
        bodies(buf),
        "\n---\n"@,
    )
}

/// What the language model is asked to make of a buffer.
pub fn summary_prompt(buf: &Vec<TreeNode>, max_tokens: usize) -> (r: String)
    ensures
        r@ == prompt_text(rows(buf@), max_tokens as nat),
{
    let joined = join(&bodies_of(buf), "\n---\n");
    assert(rows(buf@).len() == buf@.len());
    let mut p = cat2("Consolidate these ", decimal_of(buf.len() as u64).as_str());
    p.push_str(" memory items into a single concise summary (at most ");
    p.push_str(decimal_of(max_tokens as u64).as_str());
    p.push_str(" tokens). Preserve names, dates, and specifics.\n\n");
    p.push_str(joined.as_str());
    p
}

/// The first line of a text, or nothing.
pub open spec fn first_line(s: Seq<char>) -> Seq<char> {
    if lines_text(s).len() > 0 {
        lines_text(s)[0]
    } else {
        ""@
    }
}

fn first_line_of(s: &str) -> (r: String)
    ensures
        r@ == first_line(s@),
{
    let lines = lines_of(s);
    assert(texts(lines@).len() == lines@.len());
    if lines.len() > 0 {
        assert(texts(lines@)[0] == lines@[0]@);
        lines[0].clone()
    } else {
        "".to_owned()
    }
}

/// The first lines of a buffer's bodies, each followed by a semicolon, until there are enough
/// characters.
pub open spec fn first_lines(bodies: Seq<Seq<char>>, max_chars: int) -> Seq<char>
    decreases bodies.len(),
{
    if bodies.len() == 0 {
        Seq::empty()
    } else {
        let before = first_lines(bodies.drop_last(), max_chars);
        let line = trim_text(first_line(bodies.last()));
        if bodies.len() > 1 && before.len() >= max_chars {
            before
        } else if line.len() > 0 {
            before + line + "; "@
        } else {
            before
        }
    }
}

/// The summary of a buffer that is made without the language model.
pub open spec fn fallback_text(bodies: Seq<Seq<char>>, max_chars: int) -> Seq<char> {
    take_text(first_lines(bodies, max_chars), max_chars)
}

/// The summary of a buffer that is made without the language model: the first lines of its
/// bodies, cut at `max_chars` characters.
pub fn fallback_summary(bodies: &Vec<String>, max_chars: usize) -> (r: String)
    ensures
        r@ == fallback_text(texts(bodies@), max_chars as int),
{
    let ghost all = texts(bodies@);
    let mut s = String::new();
    assert(all.take(0) =~= Seq::<Seq<char>>::empty());
    for i in 0..bodies.len()
        invariant
            all == texts(bodies@),
            s@ == first_lines(all.take(i as int), max_chars as int),
    {
        assert(all.take(i + 1).drop_last() =~= all.take(i as int));
        assert(all.take(i + 1).last() == bodies@[i as int]@);
        if i == 0 || char_count(s.as_str()) < max_chars {
            let line = trim(first_line_of(bodies[i].as_str()).as_str());
            if !line.as_str().is_empty() {
                s.push_str(line.as_str());
                s.push_str("; ");
            }
        }
    }
    assert(all.take(all.len() as int) =~= all);
    take_chars(s.as_str(), max_chars)
}

/// The labels of a buffer's nodes.
pub open spec fn labels_among(buf: Seq<Node>) -> Seq<Seq<char>>
    decreases buf.len(),
{
    if buf.len() == 0 {
        Seq::empty()
    } else {
        match buf.last().label {
            Some(l) => labels_among(buf.drop_last()).push(l),
            None => labels_among(buf.drop_last()),
        }
    }
}

/// The label of a summary: its first line (up to 80 characters) in source and module trees, the
/// labels of what it summarises in the global tree, none elsewhere.
pub open spec fn label_text(tree_kind: Seq<char>, buf: Seq<Node>, summary: Seq<char>) -> Option<Seq<char>> {
    if tree_kind == "source"@ || tree_kind == "module"@ {
        Some(take_text(first_line(summary), 80))
    } else if tree_kind == "global"@ {
        let labels = sorted_set_text(labels_among(buf));
        if labels.len() == 0 {
            None
        } else {
            Some(join_texts(labels, " · "@))
        }
    } else {
        None
    }
}

/// The label of a summary.
pub fn label_for(tree_kind: &str, buf: &Vec<TreeNode>, summary: &str) -> (r: Option<String>)
    ensures
        opt_text(r) == label_text(tree_kind@, rows(buf@), summary@),
{
    let ghost all = rows(buf@);
    if same(tree_kind, "source") || same(tree_kind, "module") {
        Some(take_chars(first_line_of(summary).as_str(), 80))
    } else if same(tree_kind, "global") {
        let mut labels: Vec<String> = Vec::new();
        assert(all.take(0) =~= Seq::<Node>::empty());
        assert(texts(labels@) =~= Seq::<Seq<char>>::empty());
        for i in 0..buf.len()
            invariant
                all == rows(buf@),
                texts(labels@) == labels_among(all.take(i as int)),
        {
            assert(all.take(i + 1).drop_last() =~= all.take(i as int));
            assert(all.take(i + 1).last() == buf@[i as int]@);
            match &buf[i].label {
                Some(l) => {
                    let ghost labels0 = labels@;
                    let c = l.clone();
                    labels.push(c);
                    proof {
                        lemma_texts_push(labels0, c);
                    }
                },
                None => {},
            }
        }
        assert(all.take(all.len() as int) =~= all);
        let sorted = sorted_set(&labels);
        assert(texts(sorted@).len() == sorted@.len());
        if sorted.len() == 0 {
            None
        } else {
            Some(join(&sorted, " · "))
        }
    } else {
        None
    }
}

/// The directory of a file, or a dot for a file at the root.
pub open spec fn dir_text(path: Seq<char>) -> Seq<char> {
    if split_text(path, '/').len() > 1 {
        before_last(path, '/')
    } else {
        "."@
    }
}

/// The directory of a file, or a dot for a file at the root.
pub fn dir_key(path: &str) -> (r: String)
    ensures
        r@ == dir_text(path@),
{
    match split_last(path, '/') {
        Some(d) => d,
        None => ".".to_owned(),
    }
}

// ---------------------------------------------------------------------------------------------
// Sealing.
// ---------------------------------------------------------------------------------------------

/// Four times a number, as far as numbers go.
pub open spec fn fourfold(n: usize) -> usize {
    if n <= usize::MAX / 4 {
        (n * 4) as usize
    } else {
        usize::MAX
    }
}

/// The summary of a buffer, given what the language model answered: its text, or what can be
/// made without it.
pub open spec fn summary_given(answer: Result<ChatResult, Error>, buf: Seq<Node>, cfg: Config) -> Seq<char> {
    match answer {
        Ok(r) => r.text@,
        Err(_) => fallback_text(bodies(buf), fourfold(cfg.max_summary_output_tokens) as int),
    }
}

/// The summary of a buffer, given what the language model answered.
pub fn summary_from(answer: Result<ChatResult, Error>, buf: &Vec<TreeNode>, cfg: &Config) -> (r: String)
    ensures
        r@ == summary_given(answer, rows(buf@), *cfg),
{
    match answer {
        Ok(r) => r.text,
        Err(_) => {
            let max: usize = if cfg.max_summary_output_tokens <= usize::MAX / 4 {
                cfg.max_summary_output_tokens * 4
            } else {
                usize::MAX
            };
            fallback_summary(&bodies_of(buf), max)
        },
    }
}

/// What a seal depends on besides the store: the summary, its embedding (or why it could not be
/// embedded) and the signature of the embedder, and the id of the new node.
#[verifier::ext_equal]
pub struct Seal {
    pub summary: Seq<char>,
    pub embedding: Result<Seq<u32>, Error>,
    pub signature: Seq<char>,
    pub id: Seq<char>,
}

/// The summary node of a seal.
pub open spec fn seal_draft(
    ns: Seq<char>,
    kind: Seq<char>,
    key: Seq<char>,
    level: i64,
    buf: Seq<Node>,
    c: Seal,
) -> NodeDraft {
    NodeDraft {
        namespace: ns,
        tree_kind: kind,
        tree_key: key,
        level: (level + 1) as i64,
        sealed: false,
        label: label_text(kind, buf, c.summary),
        body: c.summary,
        doc_id: None,
        token_count: approx_tokens_text(c.summary),
        embedding: c.embedding->Ok_0,
        signature: c.signature,
    }
}

/// The ids of a buffer's nodes.
pub open spec fn node_ids(buf: Seq<Node>) -> Seq<Seq<char>> {
    buf.map_values(|n: Node| n.node_id)
}

/// A buffer: namespace, kind, key and level.
pub type Buffer = (Seq<char>, Seq<char>, Seq<char>, i64);

/// The call of the language model for a buffer.
pub open spec fn summary_call(cfg: Config, b: Buffer) -> SummaryCall {
    SummaryCall {
        namespace: b.0,
        tree_kind: b.1,
        tree_key: b.2,
        level: b.3,
        model: cfg.llm_model@,
        provider: cfg.llm_provider@,
    }
}

/// Whether a seal may come out of what the language model and the embedder answer for the nodes
/// of a buffer. The model is asked once, and the audit log is told of its answer.
pub open spec fn may_seal<E: Embedder, C: ChatClient, A: AuditSink>(
    embedder: &E,
    chat: &C,
    audit: &A,
    cfg: Config,
    b: Buffer,
    buf: Seq<Node>,
    c: Seal,
) -> bool {
    &&& exists|p: &str, answer: Result<ChatResult, Error>|
        p@ == prompt_text(buf, cfg.max_summary_output_tokens as nat) && #[trigger] call_ensures(
            C::summarize,
            (chat, p, cfg.max_summary_output_tokens),
            answer,
        ) && c.summary == summary_given(answer, buf, cfg) && recorded(
            audit,
            summary_call(cfg, b),
            answer,
        )
    &&& exists|t: &str, e: Result<Vec<u32>, Error>|
        t@ == c.summary && #[trigger] call_ensures(E::embed, (embedder, t), e) && c.embedding
            == match e {
            Ok(v) => Ok::<Seq<u32>, Error>(v@),
            Err(x) => Err(x),
        }
    &&& exists|s: String| #[trigger] call_ensures(E::signature, (embedder,), s) && c.signature == s@
}

/// The error of an outcome, if it is one.
pub open spec fn error_of(r: Result<(), Error>) -> Option<Error> {
    match r {
        Ok(_) => None,
        Err(e) => Some(e),
    }
}

/// Why a node is not stored: its id is taken, or its tree has run out of numbers.
pub open spec fn refusal(nodes: Seq<Node>, id: Seq<char>) -> Error {
    if any_row(nodes, node_is(id)) {
        Error::Conflict
    } else {
        Error::Limit
    }
}

/// Why a seal fails, if it does: the summary could not be embedded, or not be stored.
pub open spec fn seal_failure(s: State, draft: NodeDraft, c: Seal) -> Option<Error> {
    match c.embedding {
        Err(e) => Some(e),
        Ok(_) => if node_refused(s.nodes, draft, c.id) {
            Some(refusal(s.nodes, c.id))
        } else {
            None
        },
    }
}

/// Whether a cascade from `level` may lead from store `s` to store `t`, with this outcome.
/// Where the buffer is to be sealed, a summary is made and embedded, a node is added over the
/// buffer, and the cascade goes on one level up; where the summary cannot be embedded or stored,
/// it ends in that error.
pub open spec fn cascades<E: Embedder, C: ChatClient, A: AuditSink>(
    embedder: &E,
    chat: &C,
    audit: &A,
    cfg: Config,
    s: State,
    t: State,
    r: Option<Error>,
    ns: Seq<char>,
    kind: Seq<char>,
    key: Seq<char>,
    level: i64,
    now: u64,
) -> bool
    decreases MAX_CASCADE_DEPTH - level,
{
    let buf = buffer_nodes(s, ns, kind, key, level);
    if level >= MAX_CASCADE_DEPTH || !gate(cfg, level, buf, now) {
        t == s && r is None
    } else {
        exists|c: Seal| #[trigger]
            may_seal(embedder, chat, audit, cfg, (ns, kind, key, level), buf, c) && {
                let draft = seal_draft(ns, kind, key, level, buf, c);
                match seal_failure(s, draft, c) {
                    Some(e) => t == s && r == Some(e),
                    None => cascades(
                        embedder,
                        chat,
                        audit,
                        cfg,
                        sealed_state(s, draft, node_ids(buf), c.id, now),
                        t,
                        r,
                        ns,
                        kind,
                        key,
                        (level + 1) as i64,
                        now,
                    ),
                }
            }
    }
}

/// Whether `b` says what `a` says.
pub open spec fn same_words(a: Node, b: Node) -> bool {
    b == (Node { sealed: b.sealed, sealed_at: b.sealed_at, ..a })
}

/// Whether every sealed node of `s` is still there in `t`, sealed, and says the same.
pub open spec fn history_kept(s: State, t: State) -> bool {
    forall|i: int|
        0 <= i < s.nodes.len() && (#[trigger] s.nodes[i]).sealed ==> exists|j: int|
            0 <= j < t.nodes.len() && #[trigger] same_words(s.nodes[i], t.nodes[j])
                && t.nodes[j].sealed
}

/// Whether nothing but the trees has changed.
pub open spec fn only_trees(s: State, t: State) -> bool {
    t == (State { nodes: t.nodes, links: t.links, ..s })
}

pub proof fn lemma_history_refl(s: State)
    ensures
        history_kept(s, s),
{
    assert forall|i: int| 0 <= i < s.nodes.len() && (#[trigger] s.nodes[i]).sealed implies exists|
        j: int,
    |
        0 <= j < s.nodes.len() && #[trigger] same_words(s.nodes[i], s.nodes[j])
            && s.nodes[j].sealed by {
        assert(same_words(s.nodes[i], s.nodes[i]));
    }
}

pub proof fn lemma_history_trans(s: State, t: State, u: State)
    requires
        history_kept(s, t),
        history_kept(t, u),
    ensures
        history_kept(s, u),
{
    assert forall|i: int| 0 <= i < s.nodes.len() && (#[trigger] s.nodes[i]).sealed implies exists|
        j: int,
    |
        0 <= j < u.nodes.len() && #[trigger] same_words(s.nodes[i], u.nodes[j])
            && u.nodes[j].sealed by {
        let k = choose|k: int|
            0 <= k < t.nodes.len() && #[trigger] same_words(s.nodes[i], t.nodes[k])
                && t.nodes[k].sealed;
        let j = choose|j: int|
            0 <= j < u.nodes.len() && #[trigger] same_words(t.nodes[k], u.nodes[j])
                && u.nodes[j].sealed;
        assert(same_words(s.nodes[i], u.nodes[j]));
    }
}

proof fn lemma_seal_keeps_history(
    s: State,
    draft: NodeDraft,
    children: Seq<Seq<char>>,
    id: Seq<char>,
    now: u64,
)
    ensures
        history_kept(s, sealed_state(s, draft, children, id, now)),
{
    let t = sealed_state(s, draft, children, id, now);
    assert forall|i: int| 0 <= i < s.nodes.len() && (#[trigger] s.nodes[i]).sealed implies exists|
        j: int,
    |
        0 <= j < t.nodes.len() && #[trigger] same_words(s.nodes[i], t.nodes[j])
            && t.nodes[j].sealed by {
        assert(same_words(s.nodes[i], t.nodes[i]));
    }
}

proof fn lemma_push_keeps_history(s: State, n: Node)
    ensures
        history_kept(s, State { nodes: s.nodes.push(n), ..s }),
{
    let t = State { nodes: s.nodes.push(n), ..s };
    assert forall|i: int| 0 <= i < s.nodes.len() && (#[trigger] s.nodes[i]).sealed implies exists|
        j: int,
    |
        0 <= j < t.nodes.len() && #[trigger] same_words(s.nodes[i], t.nodes[j])
            && t.nodes[j].sealed by {
        assert(same_words(s.nodes[i], t.nodes[i]));
    }
}

/// Law: a cascade never loses, unseals or rewrites a sealed node, and changes nothing but the
/// trees.
pub proof fn law_cascade_keeps_history<E: Embedder, C: ChatClient, A: AuditSink>(
    embedder: &E,
    chat: &C,
    audit: &A,
    cfg: Config,
    s: State,
    t: State,
    r: Option<Error>,
    ns: Seq<char>,
    kind: Seq<char>,
    key: Seq<char>,
    level: i64,
    now: u64,
)
    requires
        cascades(embedder, chat, audit, cfg, s, t, r, ns, kind, key, level, now),
    ensures
        history_kept(s, t),
        only_trees(s, t),
    decreases MAX_CASCADE_DEPTH - level,
{
    let buf = buffer_nodes(s, ns, kind, key, level);
    if level >= MAX_CASCADE_DEPTH || !gate(cfg, level, buf, now) {
        lemma_history_refl(s);
    } else {
        let c = choose|c: Seal| #[trigger]
            may_seal(embedder, chat, audit, cfg, (ns, kind, key, level), buf, c) && {
                let draft = seal_draft(ns, kind, key, level, buf, c);
                match seal_failure(s, draft, c) {
                    Some(e) => t == s && r == Some(e),
                    None => cascades(
                        embedder,
                        chat,
                        audit,
                        cfg,
                        sealed_state(s, draft, node_ids(buf), c.id, now),
                        t,
                        r,
                        ns,
                        kind,
                        key,
                        (level + 1) as i64,
                        now,
                    ),
                }
            };
        let draft = seal_draft(ns, kind, key, level, buf, c);
        if seal_failure(s, draft, c) is Some {
            lemma_history_refl(s);
        } else {
            let mid = sealed_state(s, draft, node_ids(buf), c.id, now);
            law_cascade_keeps_history(
                embedder,
                chat,
                audit,
                cfg,
                mid,
                t,
                r,
                ns,
                kind,
                key,
                (level + 1) as i64,
                now,
            );
            lemma_seal_keeps_history(s, draft, node_ids(buf), c.id, now);
            lemma_history_trans(s, mid, t);
        }
    }
}

/// Law: a language model that fails never ends a cascade. Where one ends in an error, a summary was
/// made, by the model or without it, and the error is why it could not be embedded or stored; what
/// was sealed until then stays sealed.
pub proof fn law_cascade_outlives_the_model<E: Embedder, C: ChatClient, A: AuditSink>(
    embedder: &E,
    chat: &C,
    audit: &A,
    cfg: Config,
    s: State,
    t: State,
    e: Error,
    ns: Seq<char>,
    kind: Seq<char>,
    key: Seq<char>,
    level: i64,
    now: u64,
)
    requires
        cascades(embedder, chat, audit, cfg, s, t, Some(e), ns, kind, key, level, now),
    ensures
        exists|l: i64, c: Seal| #[trigger]
            may_seal(
                embedder,
                chat,
                audit,
                cfg,
                (ns, kind, key, l),
                buffer_nodes(t, ns, kind, key, l),
                c,
            ) && seal_failure(
                t,
                seal_draft(ns, kind, key, l, buffer_nodes(t, ns, kind, key, l), c),
                c,
            ) == Some(e),
    decreases MAX_CASCADE_DEPTH - level,
{
    let buf = buffer_nodes(s, ns, kind, key, level);
    let c = choose|c: Seal| #[trigger]
        may_seal(embedder, chat, audit, cfg, (ns, kind, key, level), buf, c) && {
            let draft = seal_draft(ns, kind, key, level, buf, c);
            match seal_failure(s, draft, c) {
                Some(x) => t == s && x == e,
                None => cascades(
                    embedder,
                    chat,
                    audit,
                    cfg,
                    sealed_state(s, draft, node_ids(buf), c.id, now),
                    t,
                    Some(e),
                    ns,
                    kind,
                    key,
                    (level + 1) as i64,
                    now,
                ),
            }
        };
    let draft = seal_draft(ns, kind, key, level, buf, c);
    if seal_failure(s, draft, c) is None {
        law_cascade_outlives_the_model(
            embedder,
            chat,
            audit,
            cfg,
            sealed_state(s, draft, node_ids(buf), c.id, now),
            t,
            e,
            ns,
            kind,
            key,
            (level + 1) as i64,
            now,
        );
    }
}

fn ids_of(buf: &Vec<TreeNode>) -> (r: Vec<String>)
    ensures
        texts(r@) == node_ids(rows(buf@)),
{
    let mut out: Vec<String> = Vec::new();
    for i in 0..buf.len()
        invariant
            out@.len() == i,
            forall|j: int| 0 <= j < i ==> (#[trigger] out@[j])@ == rows(buf@)[j].node_id,
    {
        out.push(buf[i].node_id.clone());
    }
    assert(texts(out@) =~= node_ids(rows(buf@)));
    out
}

/// Folds a buffer into one summary by the language model, or without it where it fails; then
/// gives the summary its label.
fn summarize<E: Embedder, C: ChatClient, A: AuditSink>(
    ctx: &TreeCtx<'_, E, C, A>,
    namespace: &str,
    tree_kind: &str,
    tree_key: &str,
    level: i64,
    buf: &Vec<TreeNode>,
) -> (r: (String, Option<String>))
    ensures
        exists|p: &str, answer: Result<ChatResult, Error>|
            p@ == prompt_text(rows(buf@), ctx.cfg.max_summary_output_tokens as nat)
                && #[trigger] call_ensures(
                C::summarize,
                (ctx.chat, p, ctx.cfg.max_summary_output_tokens),
                answer,
            ) && r.0@ == summary_given(answer, rows(buf@), *ctx.cfg) && recorded(
                ctx.audit,
                summary_call(*ctx.cfg, (namespace@, tree_kind@, tree_key@, level)),
                answer,
            ),
        opt_text(r.1) == label_text(tree_kind@, rows(buf@), r.0@),
{
    let prompt = summary_prompt(buf, ctx.cfg.max_summary_output_tokens);
    let sctx = SummarizeCtx {
        namespace,
        tree_kind,
        tree_key,
        level,
        model: ctx.cfg.llm_model.as_str(),
        provider: ctx.cfg.llm_provider.as_str(),
    };
    let p = prompt.as_str();
    let answer = summarize_audited(
        ctx.chat,
        ctx.audit,
        &sctx,
        p,
        ctx.cfg.max_summary_output_tokens,
    );
    let ghost given = answer;
    assert(call_ensures(C::summarize, (ctx.chat, p, ctx.cfg.max_summary_output_tokens), given));
    assert(sctx@ =~= summary_call(*ctx.cfg, (namespace@, tree_kind@, tree_key@, level)));
    let summary = summary_from(answer, buf, ctx.cfg);
    let label = label_for(tree_kind, buf, summary.as_str());
    (summary, label)
}

/// Seals the buffer at `level` if it is to be sealed, then goes on one level up.
pub fn seal_cascade<E: Embedder, C: ChatClient, A: AuditSink>(
    store: &mut Store,
    ctx: &TreeCtx<'_, E, C, A>,
    namespace: &str,
    tree_kind: &str,
    tree_key: &str,
    level: i64,
    now: u64,
) -> (r: Result<(), Error>)
    requires
        old(store)@.wf(),
    ensures
        final(store)@.wf(),
        cascades(
            ctx.embedder,
            ctx.chat,
            ctx.audit,
            *ctx.cfg,
            old(store)@,
            final(store)@,
            error_of(r),
            namespace@,
            tree_kind@,
            tree_key@,
            level,
            now,
        ),
    decreases MAX_CASCADE_DEPTH - level,
{
    if level >= MAX_CASCADE_DEPTH {
        return Ok(());
    }
    let ghost before = store@;
    let buf = store.unsealed_nodes(namespace, tree_kind, tree_key, level);
    let ghost b = rows(buf@);
    if !gate_exceeded(ctx.cfg, level, &buf, now) {
        return Ok(());
    }
    let (summary, label) = summarize(ctx, namespace, tree_kind, tree_key, level, &buf);
    let text = summary.as_str();
    let embedded = ctx.embedder.embed(text);
    let ghost given = embedded;
    assert(call_ensures(E::embed, (ctx.embedder, text), given));
    let signature = ctx.embedder.signature();
    let id = crate::store::random_id();
    let ghost c = Seal {
        summary: summary@,
        embedding: match given {
            Ok(v) => Ok(v@),
            Err(x) => Err(x),
        },
        signature: signature@,
        id: id@,
    };
    let ghost draft = seal_draft(namespace@, tree_kind@, tree_key@, level, b, c);
    assert(may_seal(ctx.embedder, ctx.chat, ctx.audit, *ctx.cfg, (namespace@, tree_kind@, tree_key@, level), b, c));
    let emb = match embedded {
        Ok(v) => v,
        Err(e) => {
            return Err(e);
        },
    };
    let label_str: Option<&str> = match &label {
        Some(l) => Some(l.as_str()),
        None => None,
    };
    let parent = NewTreeNode {
        namespace,
        tree_kind,
        tree_key,
        level: level + 1,
        sealed: false,
        label: label_str,
        body: text,
        doc_id: None,
        token_count: approx_tokens(text),
        embedding: &emb,
        signature: signature.as_str(),
    };
    assert(parent@ =~= draft);
    let child_ids = ids_of(&buf);
    match store.seal_buffer_as(&parent, &child_ids, id.as_str(), now) {
        Ok(()) => {},
        Err(e) => {
            return Err(e);
        },
    }
    let ghost mid = store@;
    let r = seal_cascade(store, ctx, namespace, tree_kind, tree_key, level + 1, now);
    proof {
        assert(mid == sealed_state(before, draft, node_ids(b), c.id, now));
    }
    r
}

// ---------------------------------------------------------------------------------------------
// Leaves.
// ---------------------------------------------------------------------------------------------

/// A leaf to be appended: the tree, the text and its embedding.
#[verifier::ext_equal]
pub struct Leaf {
    pub kind: Seq<char>,
    pub key: Seq<char>,
    pub body: Seq<char>,
    pub embedding: Seq<u32>,
}

/// A leaf to be appended.
#[derive(Debug)]
pub struct NewLeaf {
    pub kind: String,
    pub key: String,
    pub body: String,
    pub embedding: Vec<u32>,
}

impl View for NewLeaf {
    type V = Leaf;

    open spec fn view(&self) -> Leaf {
        Leaf {
            kind: self.kind@,
            key: self.key@,
            body: self.body@,
            embedding: self.embedding@,
        }
    }
}

/// The leaf of a document's chunk as it is stored.
pub open spec fn leaf_draft(ns: Seq<char>, doc_id: Seq<char>, l: Leaf, signature: Seq<char>) -> NodeDraft {
    NodeDraft {
        namespace: ns,
        tree_kind: l.kind,
        tree_key: l.key,
        level: 0,
        sealed: false,
        label: None,
        body: l.body,
        doc_id: Some(doc_id),
        token_count: approx_tokens_text(l.body),
        embedding: l.embedding,
        signature,
    }
}

/// Whether appending a leaf may lead from store `s` to store `t`, with this outcome.
pub open spec fn appends<E: Embedder, C: ChatClient, A: AuditSink>(
    embedder: &E,
    chat: &C,
    audit: &A,
    cfg: Config,
    s: State,
    t: State,
    r: Option<Error>,
    ns: Seq<char>,
    doc_id: Seq<char>,
    l: Leaf,
    now: u64,
) -> bool {
    exists|signature: String, id: Seq<char>|
        #![trigger call_ensures(E::signature, (embedder,), signature), node_added(s.nodes, leaf_draft(ns, doc_id, l, signature@), id, now)]
        call_ensures(E::signature, (embedder,), signature) && {
            let draft = leaf_draft(ns, doc_id, l, signature@);
            if node_refused(s.nodes, draft, id) {
                t == s && r == Some(refusal(s.nodes, id))
            } else {
                cascades(
                    embedder,
                    chat,
                    audit,
                    cfg,
                    State { nodes: s.nodes.push(node_added(s.nodes, draft, id, now)), ..s },
                    t,
                    r,
                    ns,
                    l.kind,
                    l.key,
                    0,
                    now,
                )
            }
        }
}

/// Appends a leaf to a tree and runs the seal cascade on it.
pub fn append_leaf<E: Embedder, C: ChatClient, A: AuditSink>(
    store: &mut Store,
    ctx: &TreeCtx<'_, E, C, A>,
    namespace: &str,
    tree_kind: &str,
    tree_key: &str,
    body: &str,
    doc_id: &str,
    embedding: &Vec<u32>,
    now: u64,
) -> (r: Result<(), Error>)
    requires
        old(store)@.wf(),
    ensures
        final(store)@.wf(),
        appends(
            ctx.embedder,
            ctx.chat,
            ctx.audit,
            *ctx.cfg,
            old(store)@,
            final(store)@,
            error_of(r),
            namespace@,
            doc_id@,
            (Leaf { kind: tree_kind@, key: tree_key@, body: body@, embedding: embedding@ }),
            now,
        ),
{
    let ghost before = store@;
    let ghost l = Leaf { kind: tree_kind@, key: tree_key@, body: body@, embedding: embedding@ };
    let signature = ctx.embedder.signature();
    let id = crate::store::random_id();
    let node = NewTreeNode {
        namespace,
        tree_kind,
        tree_key,
        level: 0,
        sealed: false,
        label: None,
        body,
        doc_id: Some(doc_id),
        token_count: approx_tokens(body),
        embedding,
        signature: signature.as_str(),
    };
    assert(node@ =~= leaf_draft(namespace@, doc_id@, l, signature@));
    let ghost added = node_added(before.nodes, node@, id@, now);
    match store.append_node_as(&node, id.as_str(), now) {
        Ok(()) => {},
        Err(e) => {
            return Err(e);
        },
    }
    seal_cascade(store, ctx, namespace, tree_kind, tree_key, 0, now)
}

/// The trees of one chunk's topics: of code, those of symbols and imports; of prose, all.
pub open spec fn topic_keys(is_code: bool, entities: Seq<Seq<char>>) -> Seq<Seq<char>>
    decreases entities.len(),
{
    if entities.len() == 0 {
        Seq::empty()
    } else {
        let before = topic_keys(is_code, entities.drop_last());
        if !is_code || has_prefix(entities.last(), "sym:"@) || has_prefix(
            entities.last(),
            "import:"@,
        ) {
            before.push(entities.last())
        } else {
            before
        }
    }
}

/// The leaves that one chunk becomes: in the tree of its directory (code) or its author (prose),
/// in the global tree, and in the trees of its topics.
pub open spec fn chunk_leaves(is_code: bool, owner: Seq<char>, ch: ChunkDetail) -> Seq<Leaf> {
    let topics = topic_keys(is_code, ch.entities);
    seq![
        Leaf {
            kind: if is_code {
                "module"@
            } else {
                "source"@
            },
            key: owner,
            body: ch.text,
            embedding: ch.embedding,
        },
        Leaf { kind: "global"@, key: "global"@, body: ch.text, embedding: ch.embedding },
    ] + topics.map_values(
        |k: Seq<char>|
            Leaf { kind: "topic"@, key: k, body: ch.text, embedding: ch.embedding },
    )
}

/// The leaves that the chunks of a document become.
pub open spec fn doc_leaves(is_code: bool, owner: Seq<char>, chunks: Seq<ChunkDetail>) -> Seq<Leaf>
    decreases chunks.len(),
{
    if chunks.len() == 0 {
        Seq::empty()
    } else {
        doc_leaves(is_code, owner, chunks.drop_last()) + chunk_leaves(
            is_code,
            owner,
            chunks.last(),
        )
    }
}

fn push_leaf(out: &mut Vec<NewLeaf>, kind: &str, key: &str, ch: &ChunkRow)
    ensures
        rows(final(out)@) == rows(old(out)@).push(
            (Leaf { kind: kind@, key: key@, body: ch@.text, embedding: ch@.embedding }),
        ),
{
    let ghost before = out@;
    let l = NewLeaf {
        kind: kind.to_owned(),
        key: key.to_owned(),
        body: ch.text.clone(),
        embedding: copy_embedding(&ch.embedding),
    };
    out.push(l);
    proof {
        lemma_rows_push(before, l);
    }
}

/// The leaves that the chunks of a document become.
pub fn plan_leaves(is_code: bool, owner: &str, chunks: &Vec<ChunkRow>) -> (r: Vec<NewLeaf>)
    ensures
        rows(r@) == doc_leaves(is_code, owner@, rows(chunks@)),
{
    let ghost all = rows(chunks@);
    let mut out: Vec<NewLeaf> = Vec::new();
    assert(all.take(0) =~= Seq::<ChunkDetail>::empty());
    assert(rows(out@) =~= Seq::<Leaf>::empty());
    for i in 0..chunks.len()
        invariant
            all == rows(chunks@),
            rows(out@) == doc_leaves(is_code, owner@, all.take(i as int)),
    {
        assert(all.take(i + 1).drop_last() =~= all.take(i as int));
        let ch = &chunks[i];
        assert(all.take(i + 1).last() == ch@);
        let ghost before = rows(out@);
        push_leaf(
            &mut out,
            if is_code {
                "module"
            } else {
                "source"
            },
            owner,
            ch,
        );
        push_leaf(&mut out, "global", "global", ch);
        let ghost es = texts(ch.entities@);
        let ghost head = rows(out@);
        let ghost f = |k: Seq<char>|
            Leaf { kind: "topic"@, key: k, body: ch@.text, embedding: ch@.embedding };
        assert(es.take(0) =~= Seq::<Seq<char>>::empty());
        assert(head + topic_keys(is_code, es.take(0)).map_values(f) =~= head);
        for k in 0..ch.entities.len()
            invariant
                es == texts(ch.entities@),
                f == (|k: Seq<char>|
                    Leaf { kind: "topic"@, key: k, body: ch@.text, embedding: ch@.embedding }),
                rows(out@) == head + topic_keys(is_code, es.take(k as int)).map_values(f),
        {
            assert(es.take(k + 1).drop_last() =~= es.take(k as int));
            assert(es.take(k + 1).last() == ch.entities@[k as int]@);
            let e = ch.entities[k].as_str();
            let ghost topics = topic_keys(is_code, es.take(k as int));
            if !is_code || starts_with(e, "sym:") || starts_with(e, "import:") {
                push_leaf(&mut out, "topic", e, ch);
                proof {
                    assert(topics.push(e@).map_values(f) =~= topics.map_values(f).push(f(e@)));
                    assert(rows(out@) =~= head + topic_keys(is_code, es.take(k + 1)).map_values(
                        f,
                    ));
                }
            }
        }
        assert(es.take(es.len() as int) =~= es);
        assert(rows(out@) =~= before + chunk_leaves(is_code, owner@, ch@));
    }
    assert(all.take(all.len() as int) =~= all);
    out
}

/// Whether one more leaf may lead from store `mid` to store `t`, with this outcome; after a failure
/// it is not appended.
pub open spec fn appends_next<E: Embedder, C: ChatClient, A: AuditSink>(
    embedder: &E,
    chat: &C,
    audit: &A,
    cfg: Config,
    mid: State,
    so_far: Option<Error>,
    t: State,
    r: Option<Error>,
    ns: Seq<char>,
    doc_id: Seq<char>,
    l: Leaf,
    now: u64,
) -> bool {
    if so_far is None {
        appends(embedder, chat, audit, cfg, mid, t, r, ns, doc_id, l, now)
    } else {
        t == mid && r == so_far
    }
}

/// Whether appending all of `leaves` may lead from store `s` to store `t`, with this
/// outcome; the first failure ends it.
pub open spec fn appends_all<E: Embedder, C: ChatClient, A: AuditSink>(
    embedder: &E,
    chat: &C,
    audit: &A,
    cfg: Config,
    s: State,
    t: State,
    r: Option<Error>,
    ns: Seq<char>,
    doc_id: Seq<char>,
    leaves: Seq<Leaf>,
    now: u64,
) -> bool
    decreases leaves.len(),
{
    if leaves.len() == 0 {
        t == s && r is None
    } else {
        exists|mid: State, so_far: Option<Error>|
            appends_all(
                embedder,
                chat,
                audit,
                cfg,
                s,
                mid,
                so_far,
                ns,
                doc_id,
                leaves.drop_last(),
                now,
            ) && #[trigger] appends_next(
                embedder,
                chat,
                audit,
                cfg,
                mid,
                so_far,
                t,
                r,
                ns,
                doc_id,
                leaves.last(),
                now,
            )
    }
}

/// The store without the loose leaves of a document.
pub open spec fn without_loose_leaves(s: State, ns: Seq<char>, doc_id: Seq<char>) -> State {
    State { nodes: rows_where(s.nodes, except(loose_leaf_of(ns, doc_id))), ..s }
}

/// Whether a document is code.
pub open spec fn doc_is_code(doc: Option<Doc>) -> bool {
    match doc {
        Some(d) => meta_is_file(d.meta),
        None => false,
    }
}

/// Whether a document that was processed gets a page of its own in the vault: there is one, and
/// it is not a file whose consolidation is off.
pub fn is_mirrored(doc: &Option<MemoryDoc>, cfg: &Config) -> (r: bool)
    ensures
        r == (doc is Some && !(doc_is_code(Some((*doc)->0@)) && !cfg.consolidate_code)),
{
    match doc {
        Some(d) => cfg.consolidate_code || !is_file_meta(&d.meta),
        None => false,
    }
}

/// The key of the tree that a document's chunks belong to: the directory of its file, or its
/// author.
pub open spec fn doc_owner(doc: Option<Doc>) -> Seq<char> {
    match doc {
        Some(d) => if meta_is_file(d.meta) {
            dir_text(d.key)
        } else {
            d.author
        },
        None => "unknown"@,
    }
}

/// Whether processing a document may lead from store `s` to store `t`, with this outcome:
/// its loose leaves go, and unless it is code that is not to be consolidated, its chunks become
/// leaves.
pub open spec fn processes<E: Embedder, C: ChatClient, A: AuditSink>(
    embedder: &E,
    chat: &C,
    audit: &A,
    cfg: Config,
    s: State,
    t: State,
    r: Option<Error>,
    ns: Seq<char>,
    doc_id: Seq<char>,
    now: u64,
) -> bool {
    let doc = first_row(s.docs, doc_has_id(ns, doc_id));
    let clean = without_loose_leaves(s, ns, doc_id);
    if doc_is_code(doc) && !cfg.consolidate_code {
        t == clean && r is None
    } else {
        appends_all(
            embedder,
            chat,
            audit,
            cfg,
            clean,
            t,
            r,
            ns,
            doc_id,
            doc_leaves(doc_is_code(doc), doc_owner(doc), doc_chunks(s, ns, doc_id)),
            now,
        )
    }
}

proof fn lemma_clean_keeps_history(s: State, ns: Seq<char>, doc_id: Seq<char>)
    ensures
        history_kept(s, without_loose_leaves(s, ns, doc_id)),
{
    let q = except(loose_leaf_of(ns, doc_id));
    let t = without_loose_leaves(s, ns, doc_id);
    lemma_rows_where_contains(s.nodes, q);
    assert forall|i: int| 0 <= i < s.nodes.len() && (#[trigger] s.nodes[i]).sealed implies exists|
        j: int,
    |
        0 <= j < t.nodes.len() && #[trigger] same_words(s.nodes[i], t.nodes[j])
            && t.nodes[j].sealed by {
        let n = s.nodes[i];
        assert(s.nodes.contains(n));
        assert(q(n));
        assert(t.nodes.contains(n));
        let j = choose|j: int| 0 <= j < t.nodes.len() && t.nodes[j] == n;
        assert(same_words(n, t.nodes[j]));
    }
}

proof fn lemma_appends_keeps_history<E: Embedder, C: ChatClient, A: AuditSink>(
    embedder: &E,
    chat: &C,
    audit: &A,
    cfg: Config,
    s: State,
    t: State,
    r: Option<Error>,
    ns: Seq<char>,
    doc_id: Seq<char>,
    l: Leaf,
    now: u64,
)
    requires
        appends(embedder, chat, audit, cfg, s, t, r, ns, doc_id, l, now),
    ensures
        history_kept(s, t),
        only_trees(s, t),
{
    let (signature, id) = choose|signature: String, id: Seq<char>|
        #![trigger call_ensures(E::signature, (embedder,), signature), node_added(s.nodes, leaf_draft(ns, doc_id, l, signature@), id, now)]
        call_ensures(E::signature, (embedder,), signature) && {
            let draft = leaf_draft(ns, doc_id, l, signature@);
            if node_refused(s.nodes, draft, id) {
                t == s && r == Some(refusal(s.nodes, id))
            } else {
                cascades(
                    embedder,
                    chat,
                    audit,
                    cfg,
                    State { nodes: s.nodes.push(node_added(s.nodes, draft, id, now)), ..s },
                    t,
                    r,
                    ns,
                    l.kind,
                    l.key,
                    0,
                    now,
                )
            }
        };
    let draft = leaf_draft(ns, doc_id, l, signature@);
    if node_refused(s.nodes, draft, id) {
        lemma_history_refl(s);
    } else {
        let n = node_added(s.nodes, draft, id, now);
        let mid = State { nodes: s.nodes.push(n), ..s };
        lemma_push_keeps_history(s, n);
        law_cascade_keeps_history(embedder, chat, audit, cfg, mid, t, r, ns, l.kind, l.key, 0, now);
        lemma_history_trans(s, mid, t);
    }
}

proof fn lemma_appends_all_keeps_history<E: Embedder, C: ChatClient, A: AuditSink>(
    embedder: &E,
    chat: &C,
    audit: &A,
    cfg: Config,
    s: State,
    t: State,
    r: Option<Error>,
    ns: Seq<char>,
    doc_id: Seq<char>,
    leaves: Seq<Leaf>,
    now: u64,
)
    requires
        appends_all(embedder, chat, audit, cfg, s, t, r, ns, doc_id, leaves, now),
    ensures
        history_kept(s, t),
        only_trees(s, t),
    decreases leaves.len(),
{
    if leaves.len() == 0 {
        lemma_history_refl(s);
    } else {
        let (mid, so_far) = choose|mid: State, so_far: Option<Error>|
            appends_all(
                embedder,
                chat,
                audit,
                cfg,
                s,
                mid,
                so_far,
                ns,
                doc_id,
                leaves.drop_last(),
                now,
            ) && #[trigger] appends_next(
                embedder,
                chat,
                audit,
                cfg,
                mid,
                so_far,
                t,
                r,
                ns,
                doc_id,
                leaves.last(),
                now,
            );
        lemma_appends_all_keeps_history(
            embedder,
            chat,
            audit,
            cfg,
            s,
            mid,
            so_far,
            ns,
            doc_id,
            leaves.drop_last(),
            now,
        );
        if so_far is None {
            lemma_appends_keeps_history(
                embedder,
                chat,
                audit,
                cfg,
                mid,
                t,
                r,
                ns,
                doc_id,
                leaves.last(),
                now,
            );
            lemma_history_trans(s, mid, t);
        }
    }
}

/// Law: processing a document, for the first time or again, never loses, unseals or rewrites a
/// sealed node, and changes nothing but the trees.
pub proof fn law_process_keeps_history<E: Embedder, C: ChatClient, A: AuditSink>(
    embedder: &E,
    chat: &C,
    audit: &A,
    cfg: Config,
    s: State,
    t: State,
    r: Option<Error>,
    ns: Seq<char>,
    doc_id: Seq<char>,
    now: u64,
)
    requires
        processes(embedder, chat, audit, cfg, s, t, r, ns, doc_id, now),
    ensures
        history_kept(s, t),
        only_trees(s, t),
{
    let doc = first_row(s.docs, doc_has_id(ns, doc_id));
    let clean = without_loose_leaves(s, ns, doc_id);
    lemma_clean_keeps_history(s, ns, doc_id);
    if !(doc_is_code(doc) && !cfg.consolidate_code) {
        lemma_appends_all_keeps_history(
            embedder,
            chat,
            audit,
            cfg,
            clean,
            t,
            r,
            ns,
            doc_id,
            doc_leaves(doc_is_code(doc), doc_owner(doc), doc_chunks(s, ns, doc_id)),
            now,
        );
        lemma_history_trans(s, clean, t);
    }
}

/// Law: where code is not to be consolidated, processing a file leaves nothing of it loose in the
/// trees, whatever earlier settings put there, and changes nothing else.
pub proof fn law_gated_code_leaves_no_leaf<E: Embedder, C: ChatClient, A: AuditSink>(
    embedder: &E,
    chat: &C,
    audit: &A,
    cfg: Config,
    s: State,
    t: State,
    r: Option<Error>,
    ns: Seq<char>,
    doc_id: Seq<char>,
    now: u64,
)
    requires
        processes(embedder, chat, audit, cfg, s, t, r, ns, doc_id, now),
        doc_is_code(first_row(s.docs, doc_has_id(ns, doc_id))),
        !cfg.consolidate_code,
    ensures
        r is None,
        !any_row(t.nodes, loose_leaf_of(ns, doc_id)),
        rows_where(s.nodes, except(loose_leaf_of(ns, doc_id))) == t.nodes,
        t == (State { nodes: t.nodes, ..s }),
{
    lemma_rows_where_contains(s.nodes, except(loose_leaf_of(ns, doc_id)));
    assert forall|i: int| 0 <= i < t.nodes.len() implies !loose_leaf_of(ns, doc_id)(#[trigger] t.nodes[i]) by {
        assert(except(loose_leaf_of(ns, doc_id))(t.nodes[i]));
    }
}

/// The nodes that sum up others.
pub open spec fn is_summary() -> spec_fn(Node) -> bool {
    |n: Node| n.level > 0
}

/// How many summaries a store holds.
pub open spec fn summary_count(s: State) -> nat {
    rows_where(s.nodes, is_summary()).len()
}

/// The loose leaves of a document in one tree.
pub open spec fn loose_leaf_in(ns: Seq<char>, doc_id: Seq<char>, kind: Seq<char>, key: Seq<char>) -> spec_fn(
    Node,
) -> bool {
    |n: Node| loose_leaf_of(ns, doc_id)(n) && n.tree_kind == kind && n.tree_key == key
}

/// The bodies of a document's loose leaves in one tree, in the order in which they are stored.
pub open spec fn loose_bodies(
    s: State,
    ns: Seq<char>,
    doc_id: Seq<char>,
    kind: Seq<char>,
    key: Seq<char>,
) -> Seq<Seq<char>> {
    bodies(rows_where(s.nodes, loose_leaf_in(ns, doc_id, kind, key)))
}

/// The bodies of those of `leaves` that belong to one tree.
pub open spec fn leaf_bodies(leaves: Seq<Leaf>, kind: Seq<char>, key: Seq<char>) -> Seq<Seq<char>>
    decreases leaves.len(),
{
    if leaves.len() == 0 {
        Seq::empty()
    } else {
        let before = leaf_bodies(leaves.drop_last(), kind, key);
        if leaves.last().kind == kind && leaves.last().key == key {
            before.push(leaves.last().body)
        } else {
            before
        }
    }
}

/// The leaves that processing a document appends: none for code that is not to be consolidated.
pub open spec fn leaves_of(cfg: Config, s: State, ns: Seq<char>, doc_id: Seq<char>) -> Seq<Leaf> {
    let doc = first_row(s.docs, doc_has_id(ns, doc_id));
    if doc_is_code(doc) && !cfg.consolidate_code {
        Seq::empty()
    } else {
        doc_leaves(doc_is_code(doc), doc_owner(doc), doc_chunks(s, ns, doc_id))
    }
}

proof fn lemma_rewritten_count(
    s: Seq<Node>,
    q: spec_fn(Node) -> bool,
    f: spec_fn(Node) -> Node,
    p: spec_fn(Node) -> bool,
)
    requires
        forall|n: Node| p(#[trigger] f(n)) == p(n),
    ensures
        rows_where(rewritten(s, q, f), p).len() == rows_where(s, p).len(),
    decreases s.len(),
{
    if s.len() > 0 {
        lemma_rewritten_count(s.drop_last(), q, f, p);
        assert(rewritten(s, q, f).drop_last() =~= rewritten(s.drop_last(), q, f));
        assert(p(f(s.last())) == p(s.last()));
    }
}

/// A cascade that makes no summary changes nothing.
proof fn lemma_cascade_counted<E: Embedder, C: ChatClient, A: AuditSink>(
    embedder: &E,
    chat: &C,
    audit: &A,
    cfg: Config,
    s: State,
    t: State,
    r: Option<Error>,
    ns: Seq<char>,
    kind: Seq<char>,
    key: Seq<char>,
    level: i64,
    now: u64,
)
    requires
        cascades(embedder, chat, audit, cfg, s, t, r, ns, kind, key, level, now),
        0 <= level,
    ensures
        summary_count(s) <= summary_count(t),
        summary_count(s) == summary_count(t) ==> t == s,
    decreases MAX_CASCADE_DEPTH - level,
{
    let buf = buffer_nodes(s, ns, kind, key, level);
    if level < MAX_CASCADE_DEPTH && gate(cfg, level, buf, now) {
        let c = choose|c: Seal| #[trigger]
            may_seal(embedder, chat, audit, cfg, (ns, kind, key, level), buf, c) && {
                let draft = seal_draft(ns, kind, key, level, buf, c);
                match seal_failure(s, draft, c) {
                    Some(e) => t == s && r == Some(e),
                    None => cascades(
                        embedder,
                        chat,
                        audit,
                        cfg,
                        sealed_state(s, draft, node_ids(buf), c.id, now),
                        t,
                        r,
                        ns,
                        kind,
                        key,
                        (level + 1) as i64,
                        now,
                    ),
                }
            };
        let draft = seal_draft(ns, kind, key, level, buf, c);
        if seal_failure(s, draft, c) is None {
            let mid = sealed_state(s, draft, node_ids(buf), c.id, now);
            let n = node_added(s.nodes, draft, c.id, now);
            let grown = s.nodes.push(n);
            lemma_rewritten_count(grown, node_among(node_ids(buf)), node_sealed(now), is_summary());
            assert(grown.drop_last() =~= s.nodes);
            assert(is_summary()(n));
            lemma_cascade_counted(
                embedder,
                chat,
                audit,
                cfg,
                mid,
                t,
                r,
                ns,
                kind,
                key,
                (level + 1) as i64,
                now,
            );
        }
    }
}

/// Whether a node is this leaf of a document, not absorbed yet.
spec fn is_leaf(n: Node, ns: Seq<char>, doc_id: Seq<char>, l: Leaf) -> bool {
    loose_leaf_in(ns, doc_id, l.kind, l.key)(n) && n.body == l.body
}

proof fn lemma_append_counted<E: Embedder, C: ChatClient, A: AuditSink>(
    embedder: &E,
    chat: &C,
    audit: &A,
    cfg: Config,
    s: State,
    t: State,
    r: Option<Error>,
    ns: Seq<char>,
    doc_id: Seq<char>,
    l: Leaf,
    now: u64,
)
    requires
        appends(embedder, chat, audit, cfg, s, t, r, ns, doc_id, l, now),
    ensures
        summary_count(s) <= summary_count(t),
        r is None && summary_count(s) == summary_count(t) ==> {
            &&& t == (State { nodes: t.nodes, ..s })
            &&& t.nodes.len() == s.nodes.len() + 1
            &&& t.nodes.drop_last() == s.nodes
            &&& is_leaf(t.nodes.last(), ns, doc_id, l)
        },
{
    let (signature, id) = choose|signature: String, id: Seq<char>|
        #![trigger call_ensures(E::signature, (embedder,), signature), node_added(s.nodes, leaf_draft(ns, doc_id, l, signature@), id, now)]
        call_ensures(E::signature, (embedder,), signature) && {
            let draft = leaf_draft(ns, doc_id, l, signature@);
            if node_refused(s.nodes, draft, id) {
                t == s && r == Some(refusal(s.nodes, id))
            } else {
                cascades(
                    embedder,
                    chat,
                    audit,
                    cfg,
                    State { nodes: s.nodes.push(node_added(s.nodes, draft, id, now)), ..s },
                    t,
                    r,
                    ns,
                    l.kind,
                    l.key,
                    0,
                    now,
                )
            }
        };
    let draft = leaf_draft(ns, doc_id, l, signature@);
    if !node_refused(s.nodes, draft, id) {
        let n = node_added(s.nodes, draft, id, now);
        let mid = State { nodes: s.nodes.push(n), ..s };
        assert(mid.nodes.drop_last() =~= s.nodes);
        lemma_cascade_counted(embedder, chat, audit, cfg, mid, t, r, ns, l.kind, l.key, 0, now);
    }
}

proof fn lemma_appends_all_counted<E: Embedder, C: ChatClient, A: AuditSink>(
    embedder: &E,
    chat: &C,
    audit: &A,
    cfg: Config,
    s: State,
    t: State,
    r: Option<Error>,
    ns: Seq<char>,
    doc_id: Seq<char>,
    leaves: Seq<Leaf>,
    now: u64,
)
    requires
        appends_all(embedder, chat, audit, cfg, s, t, r, ns, doc_id, leaves, now),
    ensures
        summary_count(s) <= summary_count(t),
        r is None && summary_count(s) == summary_count(t) ==> {
            &&& t == (State { nodes: t.nodes, ..s })
            &&& rows_where(t.nodes, except(loose_leaf_of(ns, doc_id))) == rows_where(
                s.nodes,
                except(loose_leaf_of(ns, doc_id)),
            )
            &&& forall|kind: Seq<char>, key: Seq<char>| #[trigger]
                loose_bodies(t, ns, doc_id, kind, key) == loose_bodies(s, ns, doc_id, kind, key)
                    + leaf_bodies(leaves, kind, key)
        },
    decreases leaves.len(),
{
    if leaves.len() == 0 {
        assert forall|kind: Seq<char>, key: Seq<char>| #[trigger]
            loose_bodies(t, ns, doc_id, kind, key) == loose_bodies(s, ns, doc_id, kind, key)
                + leaf_bodies(leaves, kind, key) by {
            assert(loose_bodies(s, ns, doc_id, kind, key) + leaf_bodies(leaves, kind, key)
                =~= loose_bodies(s, ns, doc_id, kind, key));
        }
    } else {
        let (mid, so_far) = choose|mid: State, so_far: Option<Error>|
            appends_all(
                embedder,
                chat,
                audit,
                cfg,
                s,
                mid,
                so_far,
                ns,
                doc_id,
                leaves.drop_last(),
                now,
            ) && #[trigger] appends_next(
                embedder,
                chat,
                audit,
                cfg,
                mid,
                so_far,
                t,
                r,
                ns,
                doc_id,
                leaves.last(),
                now,
            );
        let head = leaves.drop_last();
        lemma_appends_all_counted(embedder, chat, audit, cfg, s, mid, so_far, ns, doc_id, head, now);
        if so_far is None {
            let l = leaves.last();
            lemma_append_counted(embedder, chat, audit, cfg, mid, t, r, ns, doc_id, l, now);
            if r is None && summary_count(s) == summary_count(t) {
                let n = t.nodes.last();
                assert forall|kind: Seq<char>, key: Seq<char>| #[trigger]
                    loose_bodies(t, ns, doc_id, kind, key) == loose_bodies(s, ns, doc_id, kind, key)
                        + leaf_bodies(leaves, kind, key) by {
                    let q = loose_leaf_in(ns, doc_id, kind, key);
                    let before = loose_bodies(mid, ns, doc_id, kind, key);
                    assert(before == loose_bodies(s, ns, doc_id, kind, key) + leaf_bodies(
                        head,
                        kind,
                        key,
                    ));
                    if q(n) {
                        assert(rows_where(t.nodes, q) == rows_where(mid.nodes, q).push(n));
                        assert(loose_bodies(t, ns, doc_id, kind, key) =~= before.push(l.body));
                    }
                    assert(loose_bodies(t, ns, doc_id, kind, key) =~= loose_bodies(
                        s,
                        ns,
                        doc_id,
                        kind,
                        key,
                    ) + leaf_bodies(leaves, kind, key));
                }
            }
        }
    }
}

/// Law: where no buffer comes to be sealed, so that no summary is made, processing a document leaves
/// in each tree one loose leaf for each of its chunks that belongs there, with the chunk's text and in
/// the order of the chunks, and no other loose leaf of it; every other node and every link is as it
/// was.
pub proof fn law_process_without_seal<E: Embedder, C: ChatClient, A: AuditSink>(
    embedder: &E,
    chat: &C,
    audit: &A,
    cfg: Config,
    s: State,
    t: State,
    ns: Seq<char>,
    doc_id: Seq<char>,
    now: u64,
)
    requires
        processes(embedder, chat, audit, cfg, s, t, None, ns, doc_id, now),
        summary_count(s) == summary_count(t),
    ensures
        forall|kind: Seq<char>, key: Seq<char>| #[trigger]
            loose_bodies(t, ns, doc_id, kind, key) == leaf_bodies(
                leaves_of(cfg, s, ns, doc_id),
                kind,
                key,
            ),
        rows_where(t.nodes, except(loose_leaf_of(ns, doc_id))) == rows_where(
            s.nodes,
            except(loose_leaf_of(ns, doc_id)),
        ),
        t == (State { nodes: t.nodes, ..s }),
{
    let doc = first_row(s.docs, doc_has_id(ns, doc_id));
    let clean = without_loose_leaves(s, ns, doc_id);
    let q = except(loose_leaf_of(ns, doc_id));
    let leaves = leaves_of(cfg, s, ns, doc_id);
    lemma_rows_where_contains(s.nodes, q);
    lemma_rows_where_all(clean.nodes, q);
    lemma_removed_apart(s.nodes, loose_leaf_of(ns, doc_id), is_summary());
    assert forall|kind: Seq<char>, key: Seq<char>| #[trigger]
        loose_bodies(clean, ns, doc_id, kind, key) == Seq::<Seq<char>>::empty() by {
        let p = loose_leaf_in(ns, doc_id, kind, key);
        assert forall|i: int| 0 <= i < clean.nodes.len() implies !p(#[trigger] clean.nodes[i]) by {
            assert(q(clean.nodes[i]));
        }
        lemma_rows_where_none(clean.nodes, p);
        assert(loose_bodies(clean, ns, doc_id, kind, key) =~= Seq::<Seq<char>>::empty());
    }
    if !(doc_is_code(doc) && !cfg.consolidate_code) {
        lemma_appends_all_counted(embedder, chat, audit, cfg, clean, t, None, ns, doc_id, leaves, now);
    }
    assert forall|kind: Seq<char>, key: Seq<char>| #[trigger]
        loose_bodies(t, ns, doc_id, kind, key) == leaf_bodies(leaves, kind, key) by {
        assert(loose_bodies(clean, ns, doc_id, kind, key) + leaf_bodies(leaves, kind, key)
            =~= leaf_bodies(leaves, kind, key));
        if doc_is_code(doc) && !cfg.consolidate_code {
            assert(leaf_bodies(leaves, kind, key) =~= Seq::<Seq<char>>::empty());
        }
    }
}

/// Law: processing a document again, where no summary is made in between, leaves each tree with as
/// many loose leaves of it as before, with the same texts; every other node and every link is as it
/// was.
pub proof fn law_process_twice<E: Embedder, C: ChatClient, A: AuditSink>(
    embedder: &E,
    chat: &C,
    audit: &A,
    cfg: Config,
    s: State,
    t: State,
    u: State,
    ns: Seq<char>,
    doc_id: Seq<char>,
    now: u64,
    later: u64,
)
    requires
        processes(embedder, chat, audit, cfg, s, t, None, ns, doc_id, now),
        processes(embedder, chat, audit, cfg, t, u, None, ns, doc_id, later),
        summary_count(s) == summary_count(t),
        summary_count(t) == summary_count(u),
    ensures
        forall|kind: Seq<char>, key: Seq<char>| #[trigger]
            loose_bodies(u, ns, doc_id, kind, key) == loose_bodies(t, ns, doc_id, kind, key),
        rows_where(u.nodes, except(loose_leaf_of(ns, doc_id))) == rows_where(
            s.nodes,
            except(loose_leaf_of(ns, doc_id)),
        ),
        u == (State { nodes: u.nodes, ..s }),
{
    law_process_without_seal(embedder, chat, audit, cfg, s, t, ns, doc_id, now);
    law_process_without_seal(embedder, chat, audit, cfg, t, u, ns, doc_id, later);
    assert(doc_chunks(s, ns, doc_id) == doc_chunks(t, ns, doc_id));
    assert forall|kind: Seq<char>, key: Seq<char>| #[trigger]
        loose_bodies(u, ns, doc_id, kind, key) == loose_bodies(t, ns, doc_id, kind, key) by {
        assert(leaves_of(cfg, s, ns, doc_id) == leaves_of(cfg, t, ns, doc_id));
    }
}

/// The cold pipeline for one document: its loose leaves go, and its chunks become leaves of the
/// trees they belong to, each of which is sealed as far as it is due.
pub fn process_doc<E: Embedder, C: ChatClient, A: AuditSink>(
    store: &mut Store,
    ctx: &TreeCtx<'_, E, C, A>,
    namespace: &str,
    document_id: &str,
    now: u64,
) -> (r: Result<(), Error>)
    requires
        old(store)@.wf(),
    ensures
        final(store)@.wf(),
        processes(
            ctx.embedder,
            ctx.chat,
            ctx.audit,
            *ctx.cfg,
            old(store)@,
            final(store)@,
            error_of(r),
            namespace@,
            document_id@,
            now,
        ),
{
    let ghost before = store@;
    let doc = store.get_doc(namespace, document_id);
    let chunks = store.chunks_for_doc(namespace, document_id);
    store.delete_unsealed_leaves_for_doc(namespace, document_id);
    let ghost clean = store@;
    assert(clean == without_loose_leaves(before, namespace@, document_id@));
    let is_code: bool = match &doc {
        Some(d) => is_file_meta(&d.meta),
        None => false,
    };
    if is_code && !ctx.cfg.consolidate_code {
        return Ok(());
    }
    let owner: String = match &doc {
        Some(d) => if is_code {
            dir_key(d.key.as_str())
        } else {
            d.author.clone()
        },
        None => "unknown".to_owned(),
    };
    let leaves = plan_leaves(is_code, owner.as_str(), &chunks);
    let ghost ls = rows(leaves@);
    assert(ls.take(0) =~= Seq::<Leaf>::empty());
    for i in 0..leaves.len()
        invariant
            store@.wf(),
            before == old(store)@,
            ls == rows(leaves@),
            ls == doc_leaves(
                doc_is_code(first_row(before.docs, doc_has_id(namespace@, document_id@))),
                doc_owner(first_row(before.docs, doc_has_id(namespace@, document_id@))),
                doc_chunks(before, namespace@, document_id@),
            ),
            clean == without_loose_leaves(before, namespace@, document_id@),
            !(doc_is_code(first_row(before.docs, doc_has_id(namespace@, document_id@)))
                && !ctx.cfg.consolidate_code),
            appends_all(
                ctx.embedder,
                ctx.chat,
                ctx.audit,
                *ctx.cfg,
                clean,
                store@,
                None,
                namespace@,
                document_id@,
                ls.take(i as int),
                now,
            ),
    {
        let ghost mid = store@;
        let l = &leaves[i];
        proof {
            assert(ls.take(i + 1).drop_last() =~= ls.take(i as int));
            assert(ls.take(i + 1).last() == l@);
        }
        let r = append_leaf(
            store,
            ctx,
            namespace,
            l.kind.as_str(),
            l.key.as_str(),
            l.body.as_str(),
            document_id,
            &l.embedding,
            now,
        );
        assert(l@ =~= (Leaf {
            kind: l.kind@,
            key: l.key@,
            body: l.body@,
            embedding: l.embedding@,
        }));
        assert(appends_next(
            ctx.embedder,
            ctx.chat,
            ctx.audit,
            *ctx.cfg,
            mid,
            None,
            store@,
            error_of(r),
            namespace@,
            document_id@,
            ls.take(i + 1).last(),
            now,
        ));
        assert(appends_all(
            ctx.embedder,
            ctx.chat,
            ctx.audit,
            *ctx.cfg,
            clean,
            store@,
            error_of(r),
            namespace@,
            document_id@,
            ls.take(i + 1),
            now,
        ));
        match r {
            Ok(()) => {},
            Err(e) => {
                proof {
                    lemma_failed_stays_failed(
                        ctx.embedder,
                        ctx.chat,
                        ctx.audit,
                        *ctx.cfg,
                        clean,
                        store@,
                        Some(e),
                        namespace@,
                        document_id@,
                        ls,
                        i + 1,
                        now,
                    );
                }
                return Err(e);
            },
        }
    }
    assert(ls.take(ls.len() as int) =~= ls);
    Ok(())
}

/// Once a leaf has failed, the rest are not appended.
proof fn lemma_failed_stays_failed<E: Embedder, C: ChatClient, A: AuditSink>(
    embedder: &E,
    chat: &C,
    audit: &A,
    cfg: Config,
    s: State,
    t: State,
    r: Option<Error>,
    ns: Seq<char>,
    doc_id: Seq<char>,
    leaves: Seq<Leaf>,
    n: int,
    now: u64,
)
    requires
        0 <= n <= leaves.len(),
        r is Some,
        appends_all(embedder, chat, audit, cfg, s, t, r, ns, doc_id, leaves.take(n), now),
    ensures
        appends_all(embedder, chat, audit, cfg, s, t, r, ns, doc_id, leaves, now),
    decreases leaves.len() - n,
{
    if n == leaves.len() {
        assert(leaves.take(n) =~= leaves);
    } else {
        assert(leaves.take(n + 1).drop_last() =~= leaves.take(n));
        let l = leaves.take(n + 1).last();
        assert(appends_next(embedder, chat, audit, cfg, t, r, t, r, ns, doc_id, l, now));
        assert(appends_all(
            embedder,
            chat,
            audit,
            cfg,
            s,
            t,
            r,
            ns,
            doc_id,
            leaves.take(n + 1),
            now,
        ));
        lemma_failed_stays_failed(embedder, chat, audit, cfg, s, t, r, ns, doc_id, leaves, n + 1, now);
    }
}

/// The processor that consolidates documents into trees.
pub struct TreeProcessor<E: Embedder, C: ChatClient, A: AuditSink> {
    pub embedder: E,
    pub chat: C,
    pub audit: A,
    pub cfg: Config,
}

impl<E: Embedder, C: ChatClient, A: AuditSink> TreeProcessor<E, C, A> {
    /// Seals every buffer that has come of age.
    pub fn sweep(&self, store: &mut Store, now: u64) -> (r: Result<(), Error>)
        requires
            old(store)@.wf(),
        ensures
            final(store)@.wf(),
            sweeps(
                &self.embedder,
                &self.chat,
                &self.audit,
                self.cfg,
                old(store)@,
                final(store)@,
                error_of(r),
                now,
            ),
    {
        let ctx = TreeCtx {
            embedder: &self.embedder,
            chat: &self.chat,
            audit: &self.audit,
            cfg: &self.cfg,
        };
        sweep_stale(store, &ctx, now)
    }
}

impl<E: Embedder, C: ChatClient, A: AuditSink> JobProcessor for TreeProcessor<E, C, A> {
    fn process(&self, store: &mut Store, job: &Job, now: u64) -> (r: Result<(), Error>)
        ensures
            processes(
                &self.embedder,
                &self.chat,
                &self.audit,
                self.cfg,
                old(store)@,
                final(store)@,
                error_of(r),
                job.namespace@,
                job.document_id@,
                now,
            ),
    {
        let ctx = TreeCtx {
            embedder: &self.embedder,
            chat: &self.chat,
            audit: &self.audit,
            cfg: &self.cfg,
        };
        process_doc(store, &ctx, job.namespace.as_str(), job.document_id.as_str(), now)
    }
}

// ---------------------------------------------------------------------------------------------
// The sweep.
// ---------------------------------------------------------------------------------------------

/// Whether a cascade from one more buffer may lead from store `mid` to store `t`, with this outcome;
/// after a failure there is none.
pub open spec fn cascades_next<E: Embedder, C: ChatClient, A: AuditSink>(
    embedder: &E,
    chat: &C,
    audit: &A,
    cfg: Config,
    mid: State,
    so_far: Option<Error>,
    t: State,
    r: Option<Error>,
    b: Buffer,
    now: u64,
) -> bool {
    if so_far is None {
        cascades(embedder, chat, audit, cfg, mid, t, r, b.0, b.1, b.2, b.3, now)
    } else {
        t == mid && r == so_far
    }
}

/// Whether cascading from all of `buffers` may lead from store `s` to store `t`, with this
/// outcome; the first failure ends it.
pub open spec fn cascades_all<E: Embedder, C: ChatClient, A: AuditSink>(
    embedder: &E,
    chat: &C,
    audit: &A,
    cfg: Config,
    s: State,
    t: State,
    r: Option<Error>,
    buffers: Seq<Buffer>,
    now: u64,
) -> bool
    decreases buffers.len(),
{
    if buffers.len() == 0 {
        t == s && r is None
    } else {
        exists|mid: State, so_far: Option<Error>|
            cascades_all(
                embedder,
                chat,
                audit,
                cfg,
                s,
                mid,
                so_far,
                buffers.drop_last(),
                now,
            ) && #[trigger] cascades_next(
                embedder,
                chat,
                audit,
                cfg,
                mid,
                so_far,
                t,
                r,
                buffers.last(),
                now,
            )
    }
}

/// Whether a list holds every buffer that has come of age, once each, and no other.
pub open spec fn lists_stale(s: State, buffers: Seq<Buffer>, older_than: u64) -> bool {
    &&& forall|i: int| 0 <= i < buffers.len() ==> is_stale(s, #[trigger] buffers[i], older_than)
    &&& forall|b: Buffer| #[trigger] is_stale(s, b, older_than) ==> buffers.contains(b)
    &&& forall|i: int, j: int|
        0 <= i < j < buffers.len() ==> #[trigger] buffers[i] != #[trigger] buffers[j]
}

/// Whether a sweep may lead from store `s` to store `t`, with this outcome: every buffer
/// that has come of age is sealed, in some order.
pub open spec fn sweeps<E: Embedder, C: ChatClient, A: AuditSink>(
    embedder: &E,
    chat: &C,
    audit: &A,
    cfg: Config,
    s: State,
    t: State,
    r: Option<Error>,
    now: u64,
) -> bool {
    if cfg.seal_flush_age_micros > now {
        t == s && r is None
    } else {
        exists|buffers: Seq<Buffer>|
            lists_stale(s, buffers, (now - cfg.seal_flush_age_micros) as u64)
                && #[trigger] cascades_all(embedder, chat, audit, cfg, s, t, r, buffers, now)
    }
}

proof fn lemma_cascades_all_keeps_history<E: Embedder, C: ChatClient, A: AuditSink>(
    embedder: &E,
    chat: &C,
    audit: &A,
    cfg: Config,
    s: State,
    t: State,
    r: Option<Error>,
    buffers: Seq<Buffer>,
    now: u64,
)
    requires
        cascades_all(embedder, chat, audit, cfg, s, t, r, buffers, now),
    ensures
        history_kept(s, t),
        only_trees(s, t),
    decreases buffers.len(),
{
    if buffers.len() == 0 {
        lemma_history_refl(s);
    } else {
        let (mid, so_far) = choose|mid: State, so_far: Option<Error>|
            cascades_all(
                embedder,
                chat,
                audit,
                cfg,
                s,
                mid,
                so_far,
                buffers.drop_last(),
                now,
            ) && #[trigger] cascades_next(
                embedder,
                chat,
                audit,
                cfg,
                mid,
                so_far,
                t,
                r,
                buffers.last(),
                now,
            );
        lemma_cascades_all_keeps_history(
            embedder,
            chat,
            audit,
            cfg,
            s,
            mid,
            so_far,
            buffers.drop_last(),
            now,
        );
        if so_far is None {
            let b = buffers.last();
            law_cascade_keeps_history(embedder, chat, audit, cfg, mid, t, r, b.0, b.1, b.2, b.3, now);
            lemma_history_trans(s, mid, t);
        }
    }
}

/// Law: a sweep never loses, unseals or rewrites a sealed node, and changes nothing but the trees.
pub proof fn law_sweep_keeps_history<E: Embedder, C: ChatClient, A: AuditSink>(
    embedder: &E,
    chat: &C,
    audit: &A,
    cfg: Config,
    s: State,
    t: State,
    r: Option<Error>,
    now: u64,
)
    requires
        sweeps(embedder, chat, audit, cfg, s, t, r, now),
    ensures
        history_kept(s, t),
        only_trees(s, t),
{
    if cfg.seal_flush_age_micros > now {
        lemma_history_refl(s);
    } else {
        let buffers = choose|buffers: Seq<Buffer>|
            lists_stale(s, buffers, (now - cfg.seal_flush_age_micros) as u64) && #[trigger] cascades_all(
                embedder,
                chat,
                audit,
                cfg,
                s,
                t,
                r,
                buffers,
                now,
            );
        lemma_cascades_all_keeps_history(embedder, chat, audit, cfg, s, t, r, buffers, now);
    }
}

proof fn lemma_sweep_failed<E: Embedder, C: ChatClient, A: AuditSink>(
    embedder: &E,
    chat: &C,
    audit: &A,
    cfg: Config,
    s: State,
    t: State,
    r: Option<Error>,
    buffers: Seq<Buffer>,
    n: int,
    now: u64,
)
    requires
        0 <= n <= buffers.len(),
        r is Some,
        cascades_all(embedder, chat, audit, cfg, s, t, r, buffers.take(n), now),
    ensures
        cascades_all(embedder, chat, audit, cfg, s, t, r, buffers, now),
    decreases buffers.len() - n,
{
    if n == buffers.len() {
        assert(buffers.take(n) =~= buffers);
    } else {
        assert(buffers.take(n + 1).drop_last() =~= buffers.take(n));
        let b = buffers.take(n + 1).last();
        assert(cascades_next(embedder, chat, audit, cfg, t, r, t, r, b, now));
        assert(cascades_all(embedder, chat, audit, cfg, s, t, r, buffers.take(n + 1), now));
        lemma_sweep_failed(embedder, chat, audit, cfg, s, t, r, buffers, n + 1, now);
    }
}

/// Seals every buffer whose oldest unsealed node has come of age.
pub fn sweep_stale<E: Embedder, C: ChatClient, A: AuditSink>(
    store: &mut Store,
    ctx: &TreeCtx<'_, E, C, A>,
    now: u64,
) -> (r: Result<(), Error>)
    requires
        old(store)@.wf(),
    ensures
        final(store)@.wf(),
        sweeps(
            ctx.embedder,
            ctx.chat,
            ctx.audit,
            *ctx.cfg,
            old(store)@,
            final(store)@,
            error_of(r),
            now,
        ),
{
    if ctx.cfg.seal_flush_age_micros > now {
        return Ok(());
    }
    let ghost before = store@;
    let older_than: u64 = now - ctx.cfg.seal_flush_age_micros;
    let due = store.due_stale_buffers(older_than);
    let ghost bs = due@.map_values(|b: (String, String, String, i64)| buffer_view(b));
    proof {
        assert forall|b: Buffer| #[trigger] is_stale(before, b, older_than) implies bs.contains(
            b,
        ) by {
            let i = choose|i: int| 0 <= i < due@.len() && buffer_view(#[trigger] due@[i]) == b;
            assert(bs[i] == b);
        }
        assert(lists_stale(before, bs, older_than));
        assert(bs.take(0) =~= Seq::<Buffer>::empty());
    }
    for i in 0..due.len()
        invariant
            store@.wf(),
            before == old(store)@,
            bs == due@.map_values(|b: (String, String, String, i64)| buffer_view(b)),
            lists_stale(before, bs, older_than),
            older_than == now - ctx.cfg.seal_flush_age_micros,
            ctx.cfg.seal_flush_age_micros <= now,
            cascades_all(
                ctx.embedder,
                ctx.chat,
                ctx.audit,
                *ctx.cfg,
                before,
                store@,
                None,
                bs.take(i as int),
                now,
            ),
    {
        let ghost mid = store@;
        proof {
            assert(bs.take(i + 1).drop_last() =~= bs.take(i as int));
            assert(bs.take(i + 1).last() == buffer_view(due@[i as int]));
        }
        let r = seal_cascade(
            store,
            ctx,
            due[i].0.as_str(),
            due[i].1.as_str(),
            due[i].2.as_str(),
            due[i].3,
            now,
        );
        assert(cascades_next(
            ctx.embedder,
            ctx.chat,
            ctx.audit,
            *ctx.cfg,
            mid,
            None,
            store@,
            error_of(r),
            bs.take(i + 1).last(),
            now,
        ));
        assert(cascades_all(
            ctx.embedder,
            ctx.chat,
            ctx.audit,
            *ctx.cfg,
            before,
            store@,
            error_of(r),
            bs.take(i + 1),
            now,
        ));
        match r {
            Ok(()) => {},
            Err(e) => {
                proof {
                    lemma_sweep_failed(
                        ctx.embedder,
                        ctx.chat,
                        ctx.audit,
                        *ctx.cfg,
                        before,
                        store@,
                        Some(e),
                        bs,
                        i + 1,
                        now,
                    );
                }
                return Err(e);
            },
        }
    }
    assert(bs.take(bs.len() as int) =~= bs);
    Ok(())
}

// ---------------------------------------------------------------------------------------------
// What a seal does.
// ---------------------------------------------------------------------------------------------

/// Whether a text holds the bodies of some nodes, one after the other: the body of each stands at its place,
/// and no two overlap.
pub open spec fn holds_bodies(text: Seq<char>, buf: Seq<Node>, places: Seq<int>) -> bool {
    &&& places.len() == buf.len()
    &&& forall|i: int|
        0 <= i < buf.len() ==> 0 <= #[trigger] places[i] && places[i] + buf[i].body.len() <= text.len()
            && text.subrange(places[i], places[i] + buf[i].body.len()) == buf[i].body
    &&& forall|i: int, j: int|
        0 <= i < j < buf.len() ==> #[trigger] places[i] + buf[i].body.len() <= #[trigger] places[j]
}

proof fn lemma_joined_bodies(buf: Seq<Node>, sep: Seq<char>) -> (places: Seq<int>)
    ensures
        holds_bodies(join_texts(bodies(buf), sep), buf, places),
    decreases buf.len(),
{
    let all = join_texts(bodies(buf), sep);
    if buf.len() == 0 {
        Seq::empty()
    } else {
        let head = buf.drop_last();
        let before = join_texts(bodies(head), sep);
        assert(bodies(buf).drop_last() =~= bodies(head));
        assert(bodies(buf).last() == buf.last().body);
        if head.len() == 0 {
            let places = seq![0int];
            assert(all == buf[0].body);
            assert(all.subrange(0, all.len() as int) =~= buf[0].body);
            places
        } else {
            let some = lemma_joined_bodies(head, sep);
            let at = (before.len() + sep.len()) as int;
            let places = some.push(at);
            assert(all == before + sep + buf.last().body);
            assert forall|i: int| 0 <= i < buf.len() implies 0 <= #[trigger] places[i] && places[i]
                + buf[i].body.len() <= all.len() && all.subrange(places[i], places[i] + buf[i].body.len())
                == buf[i].body by {
                if i < head.len() {
                    assert(places[i] == some[i] && head[i] == buf[i]);
                    assert(all.subrange(some[i], some[i] + buf[i].body.len()) =~= before.subrange(
                        some[i],
                        some[i] + buf[i].body.len(),
                    ));
                } else {
                    assert(all.subrange(at, at + buf[i].body.len()) =~= buf[i].body);
                }
            }
            assert forall|i: int, j: int| 0 <= i < j < buf.len() implies #[trigger] places[i]
                + buf[i].body.len() <= #[trigger] places[j] by {
                assert(places[i] == some[i] && head[i] == buf[i]);
                if j < head.len() {
                    assert(places[j] == some[j]);
                }
            }
            places
        }
    }
}

/// Law: what the language model is asked holds the body of every node of the buffer, in the order of the
/// buffer, and says how many there are and how long the summary may be.
pub proof fn law_prompt_holds_every_body(buf: Seq<Node>, max_tokens: nat)
    ensures
        exists|places: Seq<int>| #[trigger] holds_bodies(prompt_text(buf, max_tokens), buf, places),
        contains_text(prompt_text(buf, max_tokens), decimal(buf.len())),
        contains_text(prompt_text(buf, max_tokens), decimal(max_tokens)),
{
    let a = "Consolidate these "@;
    let b = " memory items into a single concise summary (at most "@;
    let c = " tokens). Preserve names, dates, and specifics.\n\n"@;
    let front = a + decimal(buf.len()) + b + decimal(max_tokens) + c;
    let joined = join_texts(bodies(buf), "\n---\n"@);
    let p = prompt_text(buf, max_tokens);
    assert(p == front + joined);
    let some = lemma_joined_bodies(buf, "\n---\n"@);
    let n = front.len() as int;
    let places = Seq::new(buf.len(), |i: int| some[i] + n);
    assert forall|i: int| 0 <= i < buf.len() implies 0 <= #[trigger] places[i] && places[i] + buf[i].body.len()
        <= p.len() && p.subrange(places[i], places[i] + buf[i].body.len()) == buf[i].body by {
        assert(places[i] == some[i] + n);
        assert(p.subrange(places[i], places[i] + buf[i].body.len()) =~= joined.subrange(
            some[i],
            some[i] + buf[i].body.len(),
        ));
    }
    assert forall|i: int, j: int| 0 <= i < j < buf.len() implies #[trigger] places[i] + buf[i].body.len()
        <= #[trigger] places[j] by {
        assert(some[i] + buf[i].body.len() <= some[j]);
    }
    assert(holds_bodies(p, buf, places));
    let x = a.len() as int;
    let d = decimal(buf.len());
    assert(p.subrange(x, x + d.len()) =~= d);
    assert(occurs_at(p, d, x));
    let y = (a + d + b).len() as int;
    let e = decimal(max_tokens);
    assert(p.subrange(y, y + e.len()) =~= e);
    assert(occurs_at(p, e, y));
}

/// Whether the language model was asked to fold these nodes into one summary, with the body of each before
/// it, and `summary` is what became of its answer: the answer itself, or, where the model failed, what is
/// made of the bodies without it, at most four characters for each token asked for.
pub open spec fn folded<C: ChatClient>(
    chat: &C,
    cfg: Config,
    buf: Seq<Node>,
    summary: Seq<char>,
    prompt: &str,
    answer: Result<ChatResult, Error>,
) -> bool {
    &&& exists|places: Seq<int>| #[trigger] holds_bodies(prompt@, buf, places)
    &&& call_ensures(C::summarize, (chat, prompt, cfg.max_summary_output_tokens), answer)
    &&& match answer {
        Ok(given) => summary == given.text@,
        Err(_) => summary == fallback_text(
            Seq::new(buf.len(), |i: int| buf[i].body),
            if 4 * cfg.max_summary_output_tokens <= usize::MAX {
                4 * cfg.max_summary_output_tokens
            } else {
                usize::MAX as int
            },
        ),
    }
}

/// Law: the summary of a buffer is what the language model answers when it is shown every body of the
/// buffer; it is embedded as it stands, by the embedder that gives the node its signature.
pub proof fn law_seal_asks_with_every_body<E: Embedder, C: ChatClient, A: AuditSink>(
    embedder: &E,
    chat: &C,
    audit: &A,
    cfg: Config,
    b: Buffer,
    buf: Seq<Node>,
    c: Seal,
)
    requires
        may_seal(embedder, chat, audit, cfg, b, buf, c),
    ensures
        exists|prompt: &str, answer: Result<ChatResult, Error>| #[trigger]
            folded(chat, cfg, buf, c.summary, prompt, answer),
        exists|t: &str, e: Result<Vec<u32>, Error>|
            t@ == c.summary && #[trigger] call_ensures(E::embed, (embedder, t), e) && match e {
                Ok(v) => c.embedding is Ok && c.embedding->Ok_0 == v@,
                Err(x) => c.embedding == Err::<Seq<u32>, Error>(x),
            },
        exists|name: String| #[trigger] call_ensures(E::signature, (embedder,), name) && c.signature == name@,
{
    let (p, answer) = choose|p: &str, answer: Result<ChatResult, Error>|
        p@ == prompt_text(buf, cfg.max_summary_output_tokens as nat) && #[trigger] call_ensures(
            C::summarize,
            (chat, p, cfg.max_summary_output_tokens),
            answer,
        ) && c.summary == summary_given(answer, buf, cfg) && recorded(audit, summary_call(cfg, b), answer);
    law_prompt_holds_every_body(buf, cfg.max_summary_output_tokens as nat);
    assert(bodies(buf) =~= Seq::new(buf.len(), |i: int| buf[i].body));
    assert(folded(chat, cfg, buf, c.summary, p, answer));
}

/// Whether every node of `s` is still in its place in `t` and says the same, sealed if it was sealed, and
/// every link is still there.
spec fn nodes_kept(s: State, t: State) -> bool {
    &&& s.nodes.len() <= t.nodes.len()
    &&& forall|i: int|
        0 <= i < s.nodes.len() ==> same_words(#[trigger] s.nodes[i], t.nodes[i]) && (s.nodes[i].sealed
            ==> t.nodes[i].sealed)
    &&& forall|l: Link| #[trigger] s.links.contains(l) ==> t.links.contains(l)
}

proof fn lemma_links_kept(links: Seq<Link>, parent: Seq<char>, children: Seq<Seq<char>>)
    ensures
        forall|l: Link| #[trigger] links.contains(l) ==> links_added(links, parent, children).contains(l),
    decreases children.len(),
{
    if children.len() > 0 {
        lemma_links_kept(links, parent, children.drop_last());
        let before = links_added(links, parent, children.drop_last());
        let after = links_added(links, parent, children);
        assert forall|l: Link| #[trigger] links.contains(l) implies after.contains(l) by {
            let k = choose|k: int| 0 <= k < before.len() && before[k] == l;
            assert(after[k] == l);
        }
    }
}

proof fn lemma_cascade_keeps_nodes<E: Embedder, C: ChatClient, A: AuditSink>(
    embedder: &E,
    chat: &C,
    audit: &A,
    cfg: Config,
    s: State,
    t: State,
    r: Option<Error>,
    ns: Seq<char>,
    kind: Seq<char>,
    key: Seq<char>,
    level: i64,
    now: u64,
)
    requires
        cascades(embedder, chat, audit, cfg, s, t, r, ns, kind, key, level, now),
    ensures
        nodes_kept(s, t),
    decreases MAX_CASCADE_DEPTH - level,
{
    let buf = buffer_nodes(s, ns, kind, key, level);
    if level < MAX_CASCADE_DEPTH && gate(cfg, level, buf, now) {
        let c = choose|c: Seal| #[trigger]
            may_seal(embedder, chat, audit, cfg, (ns, kind, key, level), buf, c) && {
                let draft = seal_draft(ns, kind, key, level, buf, c);
                match seal_failure(s, draft, c) {
                    Some(e) => t == s && r == Some(e),
                    None => cascades(
                        embedder,
                        chat,
                        audit,
                        cfg,
                        sealed_state(s, draft, node_ids(buf), c.id, now),
                        t,
                        r,
                        ns,
                        kind,
                        key,
                        (level + 1) as i64,
                        now,
                    ),
                }
            };
        let draft = seal_draft(ns, kind, key, level, buf, c);
        if seal_failure(s, draft, c) is None {
            let mid = sealed_state(s, draft, node_ids(buf), c.id, now);
            lemma_cascade_keeps_nodes(
                embedder,
                chat,
                audit,
                cfg,
                mid,
                t,
                r,
                ns,
                kind,
                key,
                (level + 1) as i64,
                now,
            );
            lemma_links_kept(s.links, c.id, node_ids(buf));
            assert forall|i: int| 0 <= i < s.nodes.len() implies same_words(#[trigger] s.nodes[i], t.nodes[i]) && (
            s.nodes[i].sealed ==> t.nodes[i].sealed) by {
                assert(same_words(s.nodes[i], mid.nodes[i]));
                assert(same_words(mid.nodes[i], t.nodes[i]));
            }
        }
    }
}

/// Whether node `k` of a store sums up a buffer: it stands one level above, holds the summary, and every node
/// of the buffer is sealed and linked to it.
pub open spec fn sums_up(t: State, b: Buffer, buf: Seq<Node>, k: int, c: Seal, now: u64) -> bool {
    &&& 0 <= k < t.nodes.len()
    &&& t.nodes[k].namespace == b.0 && t.nodes[k].tree_kind == b.1 && t.nodes[k].tree_key == b.2
    &&& t.nodes[k].level == b.3 + 1
    &&& t.nodes[k].body == c.summary
    &&& c.embedding is Ok && t.nodes[k].embedding == c.embedding->Ok_0
    &&& t.nodes[k].signature == c.signature
    &&& t.nodes[k].label == label_text(b.1, buf, c.summary)
    &&& t.nodes[k].token_count == approx_tokens_text(c.summary)
    &&& t.nodes[k].doc_id is None
    &&& t.nodes[k].created_at == now
    &&& forall|i: int|
        0 <= i < buf.len() ==> t.links.contains(
            Link { parent_id: t.nodes[k].node_id, child_id: (#[trigger] buf[i]).node_id },
        )
}

/// Law: a buffer that is full or has aged is folded into one summary node one level above it: the model is
/// asked with the bodies of all unsealed nodes of the level, its answer is the body of a new node, and those
/// nodes are sealed and linked to it. Only where the summary cannot be embedded or stored does everything stay
/// as it was, and the error is told.
pub proof fn law_full_buffer_is_summed_up<E: Embedder, C: ChatClient, A: AuditSink>(
    embedder: &E,
    chat: &C,
    audit: &A,
    cfg: Config,
    s: State,
    t: State,
    r: Option<Error>,
    ns: Seq<char>,
    kind: Seq<char>,
    key: Seq<char>,
    level: i64,
    now: u64,
)
    requires
        s.wf(),
        cascades(embedder, chat, audit, cfg, s, t, r, ns, kind, key, level, now),
        0 <= level < 32,
        buffer_nodes(s, ns, kind, key, level).len() > 0,
        (level == 0 && token_sum(buffer_nodes(s, ns, kind, key, level)) >= cfg.seal_input_token_budget) || (level
            > 0 && buffer_nodes(s, ns, kind, key, level).len() >= cfg.seal_fanout) || exists|i: int|
            0 <= i < buffer_nodes(s, ns, kind, key, level).len() && (#[trigger] buffer_nodes(
                s,
                ns,
                kind,
                key,
                level,
            )[i]).created_at + cfg.seal_flush_age_micros <= now,
    ensures
        exists|c: Seal| #[trigger]
            may_seal(
                embedder,
                chat,
                audit,
                cfg,
                (ns, kind, key, level),
                buffer_nodes(s, ns, kind, key, level),
                c,
            ) && ((t == s && r is Some) || (exists|k: int| #[trigger]
                sums_up(t, (ns, kind, key, level), buffer_nodes(s, ns, kind, key, level), k, c, now)
                    && s.nodes.len() <= k) && forall|i: int|
                0 <= i < s.nodes.len() && (#[trigger] s.nodes[i]).namespace == ns && s.nodes[i].tree_kind == kind
                    && s.nodes[i].tree_key == key && s.nodes[i].level == level ==> t.nodes[i].sealed
                    && t.nodes[i].body == s.nodes[i].body),
{
    let b = (ns, kind, key, level);
    let buf = buffer_nodes(s, ns, kind, key, level);
    assert(gate(cfg, level, buf, now));
    let c = choose|c: Seal| #[trigger]
        may_seal(embedder, chat, audit, cfg, (ns, kind, key, level), buf, c) && {
            let draft = seal_draft(ns, kind, key, level, buf, c);
            match seal_failure(s, draft, c) {
                Some(e) => t == s && r == Some(e),
                None => cascades(
                    embedder,
                    chat,
                    audit,
                    cfg,
                    sealed_state(s, draft, node_ids(buf), c.id, now),
                    t,
                    r,
                    ns,
                    kind,
                    key,
                    (level + 1) as i64,
                    now,
                ),
            }
        };
    let draft = seal_draft(ns, kind, key, level, buf, c);
    if seal_failure(s, draft, c) is None {
        let ids = node_ids(buf);
        let mid = sealed_state(s, draft, ids, c.id, now);
        lemma_cascade_keeps_nodes(
            embedder,
            chat,
            audit,
            cfg,
            mid,
            t,
            r,
            ns,
            kind,
            key,
            (level + 1) as i64,
            now,
        );
        let k = s.nodes.len() as int;
        law_buffer(s, ns, kind, key, level);
        assert(!ids.contains(c.id)) by {
            if ids.contains(c.id) {
                let z = choose|z: int| 0 <= z < ids.len() && ids[z] == c.id;
                assert(buf.contains(buf[z]));
                let y = choose|y: int| 0 <= y < s.nodes.len() && s.nodes[y] == buf[z];
                assert(node_is(c.id)(s.nodes[y]));
            }
        }
        law_seal(s, draft, ids, c.id, now);
        assert(mid.nodes[k] == node_added(s.nodes, draft, c.id, now));
        assert(same_words(mid.nodes[k], t.nodes[k]));
        assert forall|i: int| 0 <= i < buf.len() implies t.links.contains(
            Link { parent_id: t.nodes[k].node_id, child_id: (#[trigger] buf[i]).node_id },
        ) by {
            let id = buf[i].node_id;
            assert(ids[i] == id);
            assert(ids.contains(id));
            let z = choose|z: int| 0 <= z < mid.links.len() && link_is(c.id, id)(#[trigger] mid.links[z]);
            assert(mid.links.contains(mid.links[z]));
            assert(mid.links[z] == (Link { parent_id: c.id, child_id: id }));
        }
        assert(sums_up(t, b, buf, k, c, now));
        assert forall|i: int|
            0 <= i < s.nodes.len() && (#[trigger] s.nodes[i]).namespace == ns && s.nodes[i].tree_kind == kind
                && s.nodes[i].tree_key == key && s.nodes[i].level == level implies t.nodes[i].sealed
            && t.nodes[i].body == s.nodes[i].body by {
            assert(same_words(mid.nodes[i], t.nodes[i]));
            if !s.nodes[i].sealed {
                assert(buf.contains(s.nodes[i]));
                let z = choose|z: int| 0 <= z < buf.len() && buf[z] == s.nodes[i];
                assert(ids[z] == s.nodes[i].node_id);
                assert(ids.contains(s.nodes[i].node_id));
            }
        }
    }
}

/// Law: a buffer that is neither full nor aged is left alone, and so is everything else.
pub proof fn law_slack_buffer_is_left_alone<E: Embedder, C: ChatClient, A: AuditSink>(
    embedder: &E,
    chat: &C,
    audit: &A,
    cfg: Config,
    s: State,
    t: State,
    r: Option<Error>,
    ns: Seq<char>,
    kind: Seq<char>,
    key: Seq<char>,
    level: i64,
    now: u64,
)
    requires
        cascades(embedder, chat, audit, cfg, s, t, r, ns, kind, key, level, now),
        buffer_nodes(s, ns, kind, key, level).len() == 0 || ((level == 0 ==> token_sum(
            buffer_nodes(s, ns, kind, key, level),
        ) < cfg.seal_input_token_budget) && (level != 0 ==> buffer_nodes(s, ns, kind, key, level).len()
            < cfg.seal_fanout) && forall|i: int|
            0 <= i < buffer_nodes(s, ns, kind, key, level).len() ==> (#[trigger] buffer_nodes(
                s,
                ns,
                kind,
                key,
                level,
            )[i]).created_at + cfg.seal_flush_age_micros > now),
    ensures
        t == s,
        r is None,
{
}

/// Law: a buffer holds every unsealed node of its level in its tree and no other, in the order of their
/// numbers.
pub proof fn law_buffer(s: State, ns: Seq<char>, kind: Seq<char>, key: Seq<char>, level: i64)
    ensures
        forall|n: Node| #[trigger]
            buffer_nodes(s, ns, kind, key, level).contains(n) <==> s.nodes.contains(n) && n.namespace == ns
                && n.tree_kind == kind && n.tree_key == key && n.level == level && !n.sealed,
        forall|i: int, j: int|
            0 <= i < j < buffer_nodes(s, ns, kind, key, level).len() ==> (#[trigger] buffer_nodes(
                s,
                ns,
                kind,
                key,
                level,
            )[i]).seq <= (#[trigger] buffer_nodes(s, ns, kind, key, level)[j]).seq,
{
    let q = in_buffer(ns, kind, key, level);
    lemma_rows_where_contains(s.nodes, q);
    lemma_sorted_nodes(rows_where(s.nodes, q));
}

/// Law: the tokens of a buffer are those of its nodes together: a node more adds its own.
pub proof fn law_token_sum(buf: Seq<Node>, n: Node)
    ensures
        token_sum(Seq::empty()) == 0,
        token_sum(buf.push(n)) == token_sum(buf) + n.token_count,
{
    assert(buf.push(n).drop_last() =~= buf);
}

// ---------------------------------------------------------------------------------------------
// What becomes of a document's chunks.
// ---------------------------------------------------------------------------------------------

proof fn lemma_leaf_bodies_add(a: Seq<Leaf>, b: Seq<Leaf>, kind: Seq<char>, key: Seq<char>)
    ensures
        leaf_bodies(a + b, kind, key) == leaf_bodies(a, kind, key) + leaf_bodies(b, kind, key),
    decreases b.len(),
{
    if b.len() == 0 {
        assert(a + b =~= a);
        assert(leaf_bodies(a, kind, key) + leaf_bodies(b, kind, key) =~= leaf_bodies(a, kind, key));
    } else {
        assert((a + b).drop_last() =~= a + b.drop_last());
        lemma_leaf_bodies_add(a, b.drop_last(), kind, key);
        assert(leaf_bodies(a + b, kind, key) =~= leaf_bodies(a, kind, key) + leaf_bodies(b, kind, key));
    }
}

/// The topics of one chunk as leaves.
spec fn topic_leaves(topics: Seq<Seq<char>>, ch: ChunkDetail) -> Seq<Leaf> {
    topics.map_values(
        |k: Seq<char>| Leaf { kind: "topic"@, key: k, body: ch.text, embedding: ch.embedding },
    )
}

proof fn lemma_no_topic_bodies(topics: Seq<Seq<char>>, ch: ChunkDetail, kind: Seq<char>, key: Seq<char>)
    requires
        kind != "topic"@,
    ensures
        leaf_bodies(topic_leaves(topics, ch), kind, key) == Seq::<Seq<char>>::empty(),
    decreases topics.len(),
{
    if topics.len() > 0 {
        lemma_no_topic_bodies(topics.drop_last(), ch, kind, key);
        assert(topic_leaves(topics, ch).drop_last() =~= topic_leaves(topics.drop_last(), ch));
    }
}

proof fn lemma_tree_kinds()
    ensures
        "topic"@ != "global"@,
        "topic"@ != "source"@,
        "topic"@ != "module"@,
        "global"@ != "source"@,
        "global"@ != "module"@,
        "source"@ != "module"@,
{
    reveal_strlit("topic");
    reveal_strlit("global");
    reveal_strlit("source");
    reveal_strlit("module");
    assert("topic"@.len() == 5);
    assert("global"@[0] == 'g');
    assert("source"@[0] == 's');
    assert("module"@[0] == 'm');
    assert("global"@.len() == 6);
    assert("source"@.len() == 6);
    assert("module"@.len() == 6);
}

proof fn lemma_chunk_leaves(is_code: bool, owner: Seq<char>, ch: ChunkDetail)
    ensures
        leaf_bodies(chunk_leaves(is_code, owner, ch), "global"@, "global"@) == seq![ch.text],
        leaf_bodies(
            chunk_leaves(is_code, owner, ch),
            if is_code {
                "module"@
            } else {
                "source"@
            },
            owner,
        ) == seq![ch.text],
{
    lemma_tree_kinds();
    let own = if is_code {
        "module"@
    } else {
        "source"@
    };
    let topics = topic_keys(is_code, ch.entities);
    let first = Leaf { kind: own, key: owner, body: ch.text, embedding: ch.embedding };
    let second = Leaf { kind: "global"@, key: "global"@, body: ch.text, embedding: ch.embedding };
    let two = seq![first, second];
    assert(chunk_leaves(is_code, owner, ch) =~= two + topic_leaves(topics, ch));
    assert(two.drop_last() =~= seq![first]);
    assert(seq![first].drop_last() =~= Seq::empty());
    assert(leaf_bodies(Seq::empty(), "global"@, "global"@) =~= Seq::empty());
    assert(leaf_bodies(Seq::empty(), own, owner) =~= Seq::empty());
    assert(leaf_bodies(seq![first], "global"@, "global"@) =~= Seq::empty());
    assert(leaf_bodies(seq![first], own, owner) =~= seq![ch.text]);
    assert(leaf_bodies(two, "global"@, "global"@) =~= seq![ch.text]);
    assert(leaf_bodies(two, own, owner) =~= seq![ch.text]);
    lemma_leaf_bodies_add(two, topic_leaves(topics, ch), "global"@, "global"@);
    lemma_leaf_bodies_add(two, topic_leaves(topics, ch), own, owner);
    lemma_no_topic_bodies(topics, ch, "global"@, "global"@);
    lemma_no_topic_bodies(topics, ch, own, owner);
    assert(leaf_bodies(chunk_leaves(is_code, owner, ch), "global"@, "global"@) =~= seq![ch.text]);
    assert(leaf_bodies(chunk_leaves(is_code, owner, ch), own, owner) =~= seq![ch.text]);
}

/// The texts of some chunks.
pub open spec fn chunk_texts(chunks: Seq<ChunkDetail>) -> Seq<Seq<char>> {
    Seq::new(chunks.len(), |i: int| chunks[i].text)
}

/// Law: each chunk of a document becomes one leaf of the global tree and one of the tree it belongs to, with
/// its text, in the order of the chunks: code of the tree of its module, prose of the tree of its source.
pub proof fn law_leaves_hold_every_chunk(is_code: bool, owner: Seq<char>, chunks: Seq<ChunkDetail>)
    ensures
        leaf_bodies(doc_leaves(is_code, owner, chunks), "global"@, "global"@) == chunk_texts(chunks),
        is_code ==> leaf_bodies(doc_leaves(is_code, owner, chunks), "module"@, owner) == chunk_texts(chunks),
        !is_code ==> leaf_bodies(doc_leaves(is_code, owner, chunks), "source"@, owner) == chunk_texts(chunks),
    decreases chunks.len(),
{
    let own = if is_code {
        "module"@
    } else {
        "source"@
    };
    let all = doc_leaves(is_code, owner, chunks);
    if chunks.len() == 0 {
        assert(leaf_bodies(all, "global"@, "global"@) =~= chunk_texts(chunks));
        assert(leaf_bodies(all, own, owner) =~= chunk_texts(chunks));
    } else {
        let head = chunks.drop_last();
        let ch = chunks.last();
        law_leaves_hold_every_chunk(is_code, owner, head);
        lemma_chunk_leaves(is_code, owner, ch);
        let before = doc_leaves(is_code, owner, head);
        lemma_leaf_bodies_add(before, chunk_leaves(is_code, owner, ch), "global"@, "global"@);
        lemma_leaf_bodies_add(before, chunk_leaves(is_code, owner, ch), own, owner);
        assert(chunk_texts(chunks) =~= chunk_texts(head) + seq![ch.text]);
    }
}

proof fn lemma_topic_keys(is_code: bool, entities: Seq<Seq<char>>)
    ensures
        forall|e: Seq<char>| #[trigger]
            topic_keys(is_code, entities).contains(e) <==> entities.contains(e) && (!is_code || has_prefix(
                e,
                "sym:"@,
            ) || has_prefix(e, "import:"@)),
    decreases entities.len(),
{
    if entities.len() > 0 {
        let head = entities.drop_last();
        lemma_topic_keys(is_code, head);
        let before = topic_keys(is_code, head);
        let all = topic_keys(is_code, entities);
        assert(entities[entities.len() - 1] == entities.last());
        assert forall|e: Seq<char>| #[trigger] all.contains(e) <==> entities.contains(e) && (!is_code
            || has_prefix(e, "sym:"@) || has_prefix(e, "import:"@)) by {
            assert(entities.contains(e) <==> head.contains(e) || e == entities.last()) by {
                if entities.contains(e) {
                    let k = choose|k: int| 0 <= k < entities.len() && entities[k] == e;
                    if k < head.len() {
                        assert(head[k] == e);
                    }
                }
                if head.contains(e) {
                    let k = choose|k: int| 0 <= k < head.len() && head[k] == e;
                    assert(entities[k] == e);
                }
            }
            if all.contains(e) {
                let k = choose|k: int| 0 <= k < all.len() && all[k] == e;
                if k < before.len() {
                    assert(before[k] == e);
                    assert(before.contains(e));
                }
            }
            if before.contains(e) {
                let k = choose|k: int| 0 <= k < before.len() && before[k] == e;
                assert(all[k] == e);
            }
            if all.len() > before.len() {
                assert(all[before.len() as int] == entities.last());
            }
        }
    }
}

/// Law: a chunk becomes a leaf of the tree of each topic that it mentions, with its text and embedding: prose
/// of all of them, code of symbols and imports only.
pub proof fn law_leaves_by_topic(is_code: bool, owner: Seq<char>, chunks: Seq<ChunkDetail>, n: int, e: Seq<char>)
    requires
        0 <= n < chunks.len(),
        chunks[n].entities.contains(e),
        !is_code || has_prefix(e, "sym:"@) || has_prefix(e, "import:"@),
    ensures
        doc_leaves(is_code, owner, chunks).contains(
            Leaf { kind: "topic"@, key: e, body: chunks[n].text, embedding: chunks[n].embedding },
        ),
    decreases chunks.len(),
{
    let head = chunks.drop_last();
    let before = doc_leaves(is_code, owner, head);
    let all = doc_leaves(is_code, owner, chunks);
    let l = Leaf { kind: "topic"@, key: e, body: chunks[n].text, embedding: chunks[n].embedding };
    if n < head.len() {
        assert(head[n] == chunks[n]);
        law_leaves_by_topic(is_code, owner, head, n, e);
        let k = choose|k: int| 0 <= k < before.len() && before[k] == l;
        assert(all[k] == l);
    } else {
        let topics = topic_keys(is_code, chunks[n].entities);
        lemma_topic_keys(is_code, chunks[n].entities);
        assert(topics.contains(e));
        let k = choose|k: int| 0 <= k < topics.len() && topics[k] == e;
        assert(chunk_leaves(is_code, owner, chunks[n])[2 + k] == l);
        assert(all[before.len() + 2 + k] == l);
    }
}

proof fn lemma_leaf_from(is_code: bool, owner: Seq<char>, chunks: Seq<ChunkDetail>, l: Leaf) -> (n: int)
    requires
        doc_leaves(is_code, owner, chunks).contains(l),
    ensures
        0 <= n < chunks.len(),
        l.body == chunks[n].text,
        l.embedding == chunks[n].embedding,
        l.kind == "topic"@ ==> chunks[n].entities.contains(l.key) && (!is_code || has_prefix(l.key, "sym:"@)
            || has_prefix(l.key, "import:"@)),
        l.kind == "global"@ ==> l.key == "global"@,
        l.kind == "module"@ ==> is_code && l.key == owner,
        l.kind == "source"@ ==> !is_code && l.key == owner,
        l.kind == "topic"@ || l.kind == "global"@ || l.kind == "module"@ || l.kind == "source"@,
    decreases chunks.len(),
{
    lemma_tree_kinds();
    let head = chunks.drop_last();
    let before = doc_leaves(is_code, owner, head);
    let all = doc_leaves(is_code, owner, chunks);
    let k = choose|k: int| 0 <= k < all.len() && all[k] == l;
    if k < before.len() {
        assert(before[k] == l);
        let n = lemma_leaf_from(is_code, owner, head, l);
        assert(head[n] == chunks[n]);
        n
    } else {
        let ch = chunks.last();
        let topics = topic_keys(is_code, ch.entities);
        lemma_topic_keys(is_code, ch.entities);
        let z = k - before.len();
        assert(chunk_leaves(is_code, owner, ch)[z] == l);
        if z >= 2 {
            assert(l.key == topics[z - 2]);
            assert(topics.contains(topics[z - 2]));
        }
        chunks.len() - 1
    }
}

/// Law: every leaf of a document is one of its chunks, under a topic that the chunk mentions, in the global
/// tree, or in the tree that the document belongs to.
pub proof fn law_leaves_are_chunks(is_code: bool, owner: Seq<char>, chunks: Seq<ChunkDetail>, l: Leaf)
    requires
        doc_leaves(is_code, owner, chunks).contains(l),
    ensures
        exists|n: int|
            0 <= n < chunks.len() && l.body == (#[trigger] chunks[n]).text && l.embedding == chunks[n].embedding
                && (l.kind == "topic"@ ==> chunks[n].entities.contains(l.key) && (!is_code || has_prefix(
                l.key,
                "sym:"@,
            ) || has_prefix(l.key, "import:"@))),
        l.kind == "global"@ ==> l.key == "global"@,
        l.kind == "module"@ ==> is_code && l.key == owner,
        l.kind == "source"@ ==> !is_code && l.key == owner,
        l.kind == "topic"@ || l.kind == "global"@ || l.kind == "module"@ || l.kind == "source"@,
{
    let n = lemma_leaf_from(is_code, owner, chunks, l);
    assert(l.body == chunks[n].text);
}

/// Law: prose belongs to its author, a file to its directory: what stands before the last slash of its path,
/// or a dot where there is none.
pub proof fn law_doc_owner(d: Doc, dir: Seq<char>, name: Seq<char>)
    ensures
        !meta_is_file(d.meta) ==> doc_owner(Some(d)) == d.author,
        meta_is_file(d.meta) && !name.contains('/') && d.key == dir + seq!['/'] + name ==> doc_owner(Some(d))
            == dir,
        meta_is_file(d.meta) && !d.key.contains('/') ==> doc_owner(Some(d)) == "."@,
        doc_is_code(Some(d)) == meta_is_file(d.meta),
        doc_owner(None) == "unknown"@,
        !doc_is_code(None),
{
    if meta_is_file(d.meta) && !name.contains('/') && d.key == dir + seq!['/'] + name {
        lemma_last_of_join(dir, name, '/');
        lemma_split_join(dir, name, '/');
        lemma_split_nonempty(dir, '/');
        lemma_split_nonempty(name, '/');
    }
    if !d.key.contains('/') {
        lemma_split_whole(d.key, '/');
    }
}

/// Law: what is made of a buffer without the language model is within its length, and is made of first lines:
/// where they all fit, of the first line of every body that has one, in the order of the buffer.
pub proof fn law_fallback(all: Seq<Seq<char>>, max_chars: int)
    requires
        0 <= max_chars,
    ensures
        fallback_text(all, max_chars).len() <= max_chars,
        first_lines(all, max_chars).len() <= max_chars ==> fallback_text(all, max_chars) == first_lines(
            all,
            max_chars,
        ),
        all.len() > 0 && first_lines(all.drop_last(), max_chars).len() < max_chars ==> first_lines(
            all,
            max_chars,
        ) == first_lines(all.drop_last(), max_chars) + if trim_text(first_line(all.last())).len() > 0 {
            trim_text(first_line(all.last())) + "; "@
        } else {
            Seq::empty()
        },
        first_lines(Seq::empty(), max_chars).len() == 0,
{
    let lines = first_lines(all, max_chars);
    if lines.len() <= max_chars {
        assert(take_text(lines, max_chars) =~= lines);
    }
    if all.len() > 0 && first_lines(all.drop_last(), max_chars).len() < max_chars {
        let before = first_lines(all.drop_last(), max_chars);
        let line = trim_text(first_line(all.last()));
        if line.len() > 0 {
            assert(before + line + "; "@ =~= before + (line + "; "@));
        } else {
            assert(before + Seq::<char>::empty() =~= before);
        }
    }
}

// ---------------------------------------------------------------------------------------------
// What processing and sweeping come to.
// ---------------------------------------------------------------------------------------------

/// Law: where processing a document makes no summary, each of its chunks stands, with its text and in the order
/// of the chunks, as a loose leaf in the global tree and in the tree that the document belongs to: that of its
/// directory for a file, that of its author for prose. A file whose consolidation is off has no loose leaf.
pub proof fn law_processed_chunks_become_leaves<E: Embedder, C: ChatClient, A: AuditSink>(
    embedder: &E,
    chat: &C,
    audit: &A,
    cfg: Config,
    s: State,
    t: State,
    ns: Seq<char>,
    doc_id: Seq<char>,
    d: Doc,
    now: u64,
)
    requires
        processes(embedder, chat, audit, cfg, s, t, None, ns, doc_id, now),
        summary_count(s) == summary_count(t),
        first_row(s.docs, doc_has_id(ns, doc_id)) == Some(d),
    ensures
        !meta_is_file(d.meta) || cfg.consolidate_code ==> {
            &&& loose_bodies(t, ns, doc_id, "global"@, "global"@) == chunk_texts(doc_chunks(s, ns, doc_id))
            &&& loose_bodies(
                t,
                ns,
                doc_id,
                if meta_is_file(d.meta) {
                    "module"@
                } else {
                    "source"@
                },
                doc_owner(Some(d)),
            ) == chunk_texts(doc_chunks(s, ns, doc_id))
        },
        meta_is_file(d.meta) && !cfg.consolidate_code ==> forall|kind: Seq<char>, key: Seq<char>| #[trigger]
            loose_bodies(t, ns, doc_id, kind, key).len() == 0,
{
    law_process_without_seal(embedder, chat, audit, cfg, s, t, ns, doc_id, now);
    law_leaves_hold_every_chunk(meta_is_file(d.meta), doc_owner(Some(d)), doc_chunks(s, ns, doc_id));
}

proof fn lemma_aged_is_sealed<E: Embedder, C: ChatClient, A: AuditSink>(
    embedder: &E,
    chat: &C,
    audit: &A,
    cfg: Config,
    s: State,
    t: State,
    b: Buffer,
    now: u64,
    i: int,
)
    requires
        cascades(embedder, chat, audit, cfg, s, t, None, b.0, b.1, b.2, b.3, now),
        b.3 < 32,
        0 <= i < s.nodes.len(),
        buffer_of(s.nodes[i]) == b,
        s.nodes[i].created_at + cfg.seal_flush_age_micros <= now,
    ensures
        i < t.nodes.len(),
        t.nodes[i].sealed,
{
    lemma_cascade_keeps_nodes(embedder, chat, audit, cfg, s, t, None, b.0, b.1, b.2, b.3, now);
    if !s.nodes[i].sealed {
        let (ns, kind, key, level) = b;
        let r: Option<Error> = None;
        let buf = buffer_nodes(s, ns, kind, key, level);
        law_buffer(s, ns, kind, key, level);
        assert(buf.contains(s.nodes[i]));
        let z = choose|z: int| 0 <= z < buf.len() && buf[z] == s.nodes[i];
        assert(buf[z].created_at + cfg.seal_flush_age_micros <= now);
        assert(gate(cfg, level, buf, now));
        let c = choose|c: Seal| #[trigger]
            may_seal(embedder, chat, audit, cfg, (ns, kind, key, level), buf, c) && {
                let draft = seal_draft(ns, kind, key, level, buf, c);
                match seal_failure(s, draft, c) {
                    Some(e) => t == s && r == Some(e),
                    None => cascades(
                        embedder,
                        chat,
                        audit,
                        cfg,
                        sealed_state(s, draft, node_ids(buf), c.id, now),
                        t,
                        r,
                        ns,
                        kind,
                        key,
                        (level + 1) as i64,
                        now,
                    ),
                }
            };
        let draft = seal_draft(ns, kind, key, level, buf, c);
        let ids = node_ids(buf);
        let mid = sealed_state(s, draft, ids, c.id, now);
        lemma_cascade_keeps_nodes(
            embedder,
            chat,
            audit,
            cfg,
            mid,
            t,
            r,
            ns,
            kind,
            key,
            (level + 1) as i64,
            now,
        );
        assert(ids[z] == s.nodes[i].node_id);
        assert(ids.contains(s.nodes[i].node_id));
        assert(mid.nodes[i].sealed);
    }
}

proof fn lemma_swept<E: Embedder, C: ChatClient, A: AuditSink>(
    embedder: &E,
    chat: &C,
    audit: &A,
    cfg: Config,
    s: State,
    t: State,
    buffers: Seq<Buffer>,
    now: u64,
)
    requires
        cascades_all(embedder, chat, audit, cfg, s, t, None, buffers, now),
    ensures
        nodes_kept(s, t),
        forall|i: int|
            0 <= i < s.nodes.len() && buffers.contains(buffer_of(#[trigger] s.nodes[i])) && s.nodes[i].level < 32
                && s.nodes[i].created_at + cfg.seal_flush_age_micros <= now ==> t.nodes[i].sealed,
    decreases buffers.len(),
{
    if buffers.len() > 0 {
        let r: Option<Error> = None;
        let head = buffers.drop_last();
        let b = buffers.last();
        let (mid, so_far) = choose|mid: State, so_far: Option<Error>|
            cascades_all(embedder, chat, audit, cfg, s, mid, so_far, buffers.drop_last(), now)
                && #[trigger] cascades_next(
                embedder,
                chat,
                audit,
                cfg,
                mid,
                so_far,
                t,
                r,
                buffers.last(),
                now,
            );
        lemma_swept(embedder, chat, audit, cfg, s, mid, head, now);
        lemma_cascade_keeps_nodes(embedder, chat, audit, cfg, mid, t, r, b.0, b.1, b.2, b.3, now);
        assert forall|i: int| 0 <= i < s.nodes.len() implies same_words(#[trigger] s.nodes[i], t.nodes[i]) && (
        s.nodes[i].sealed ==> t.nodes[i].sealed) by {
            assert(same_words(s.nodes[i], mid.nodes[i]));
            assert(same_words(mid.nodes[i], t.nodes[i]));
        }
        assert forall|i: int|
            0 <= i < s.nodes.len() && buffers.contains(buffer_of(#[trigger] s.nodes[i])) && s.nodes[i].level < 32
                && s.nodes[i].created_at + cfg.seal_flush_age_micros <= now implies t.nodes[i].sealed by {
            assert(same_words(s.nodes[i], mid.nodes[i]));
            assert(same_words(mid.nodes[i], t.nodes[i]));
            let k = choose|k: int| 0 <= k < buffers.len() && buffers[k] == buffer_of(s.nodes[i]);
            if k < head.len() {
                assert(head[k] == buffer_of(s.nodes[i]));
                assert(head.contains(buffer_of(s.nodes[i])));
            } else {
                lemma_aged_is_sealed(embedder, chat, audit, cfg, mid, t, b, now, i);
            }
        }
    }
}

/// Law: after a sweep that did not fail, no node that is as old as the flush age is left unsealed below the
/// highest level: each is still there, says what it said, and is sealed.
pub proof fn law_sweep_seals_what_has_aged<E: Embedder, C: ChatClient, A: AuditSink>(
    embedder: &E,
    chat: &C,
    audit: &A,
    cfg: Config,
    s: State,
    t: State,
    now: u64,
    i: int,
)
    requires
        sweeps(embedder, chat, audit, cfg, s, t, None, now),
        0 <= i < s.nodes.len(),
        s.nodes[i].level < 32,
        s.nodes[i].created_at + cfg.seal_flush_age_micros <= now,
    ensures
        i < t.nodes.len(),
        t.nodes[i].sealed,
        t.nodes[i].node_id == s.nodes[i].node_id,
        t.nodes[i].body == s.nodes[i].body,
{
    let r: Option<Error> = None;
    let older_than = (now - cfg.seal_flush_age_micros) as u64;
    let buffers = choose|buffers: Seq<Buffer>|
        lists_stale(s, buffers, (now - cfg.seal_flush_age_micros) as u64) && #[trigger] cascades_all(
            embedder,
            chat,
            audit,
            cfg,
            s,
            t,
            r,
            buffers,
            now,
        );
    lemma_swept(embedder, chat, audit, cfg, s, t, buffers, now);
    assert(same_words(s.nodes[i], t.nodes[i]));
    if !s.nodes[i].sealed {
        assert(is_stale(s, buffer_of(s.nodes[i]), older_than));
    }
}

/// Law: a summary in a source or module tree is labelled by its first line, as far as it has eighty
/// characters, and one in the global tree by the labels of all that it sums up.
pub proof fn law_label(buf: Seq<Node>, summary: Seq<char>, i: int)
    ensures
        label_text("source"@, buf, summary) == label_text("module"@, buf, summary),
        label_text("source"@, buf, summary) == Some(take_text(first_line(summary), 80)),
        label_text("topic"@, buf, summary) is None,
        0 <= i < buf.len() && buf[i].label is Some ==> label_text("global"@, buf, summary) is Some && contains_text(
            label_text("global"@, buf, summary)->0,
            buf[i].label->0,
        ),
        (forall|k: int| 0 <= k < buf.len() ==> (#[trigger] buf[k]).label is None) ==> label_text(
            "global"@,
            buf,
            summary,
        ) is None,
{
    lemma_tree_kinds();
    let all = labels_among(buf);
    let labels = sorted_set_text(all);
    lemma_sorted_set(all);
    lemma_labels_among(buf);
    if 0 <= i < buf.len() && buf[i].label is Some {
        assert(all.contains(buf[i].label->0));
        assert(labels.contains(buf[i].label->0));
        let k = choose|k: int| 0 <= k < labels.len() && labels[k] == buf[i].label->0;
        law_join_holds_each(labels, " · "@, k);
    }
    if forall|k: int| 0 <= k < buf.len() ==> (#[trigger] buf[k]).label is None {
        if labels.len() > 0 {
            assert(labels.contains(labels[0]));
            assert(all.contains(labels[0]));
        }
    }
}

proof fn lemma_labels_among(buf: Seq<Node>)
    ensures
        forall|i: int|
            0 <= i < buf.len() && (#[trigger] buf[i]).label is Some ==> labels_among(buf).contains(
                buf[i].label->0,
            ),
        (forall|k: int| 0 <= k < buf.len() ==> (#[trigger] buf[k]).label is None) ==> labels_among(buf).len() == 0,
    decreases buf.len(),
{
    if buf.len() > 0 {
        let head = buf.drop_last();
        let before = labels_among(head);
        let all = labels_among(buf);
        lemma_labels_among(head);
        assert forall|i: int| 0 <= i < buf.len() && (#[trigger] buf[i]).label is Some implies all.contains(
            buf[i].label->0,
        ) by {
            if i < head.len() {
                assert(head[i] == buf[i]);
                assert(before.contains(buf[i].label->0));
                let k = choose|k: int| 0 <= k < before.len() && before[k] == buf[i].label->0;
                assert(all[k] == buf[i].label->0);
            } else {
                assert(all[before.len() as int] == buf[i].label->0);
            }
        }
        if forall|k: int| 0 <= k < buf.len() ==> (#[trigger] buf[k]).label is None {
            assert forall|k: int| 0 <= k < head.len() implies (#[trigger] head[k]).label is None by {
                assert(head[k] == buf[k]);
            }
            assert(buf[buf.len() - 1].label is None);
        }
    }
}

/// Law: a text counts as one token for every four characters, and as one where it has fewer than eight.
pub proof fn law_approx_tokens(s: Seq<char>, n: nat)
    requires
        s.len() <= u64::MAX,
        4 * n <= s.len() < 4 * n + 4,
    ensures
        n > 0 ==> approx_tokens_text(s) == n,
        n == 0 ==> approx_tokens_text(s) == 1,
{
}

/// Whether node `k` of a store is the leaf of a chunk, unless it was sealed since.
pub open spec fn is_leaf_of(t: State, ns: Seq<char>, doc_id: Seq<char>, l: Leaf, signature: Seq<char>, k: int) -> bool {
    &&& 0 <= k < t.nodes.len()
    &&& t.nodes[k].namespace == ns && t.nodes[k].tree_kind == l.kind && t.nodes[k].tree_key == l.key
    &&& t.nodes[k].level == 0
    &&& t.nodes[k].body == l.body
    &&& t.nodes[k].embedding == l.embedding
    &&& t.nodes[k].signature == signature
    &&& t.nodes[k].doc_id == Some(doc_id)
    &&& t.nodes[k].label is None
    &&& t.nodes[k].token_count == approx_tokens_text(l.body)
}

/// Law: a leaf that is appended stands behind all nodes that were there, on the lowest level of its tree, with
/// its body and embedding under the embedder's signature; every node that was there is still there and says
/// the same. Only where the leaf cannot be stored does everything stay as it was, and the error is told.
pub proof fn law_leaf_is_appended<E: Embedder, C: ChatClient, A: AuditSink>(
    embedder: &E,
    chat: &C,
    audit: &A,
    cfg: Config,
    s: State,
    t: State,
    r: Option<Error>,
    ns: Seq<char>,
    doc_id: Seq<char>,
    l: Leaf,
    now: u64,
    i: int,
)
    requires
        appends(embedder, chat, audit, cfg, s, t, r, ns, doc_id, l, now),
    ensures
        (t == s && r is Some) || exists|signature: String|
            #![trigger call_ensures(E::signature, (embedder,), signature)]
            call_ensures(E::signature, (embedder,), signature) && is_leaf_of(
                t,
                ns,
                doc_id,
                l,
                signature@,
                s.nodes.len() as int,
            ),
        0 <= i < s.nodes.len() ==> i < t.nodes.len() && same_words(s.nodes[i], t.nodes[i]),
{
    let (signature, id) = choose|signature: String, id: Seq<char>|
        #![trigger call_ensures(E::signature, (embedder,), signature), node_added(s.nodes, leaf_draft(ns, doc_id, l, signature@), id, now)]
        call_ensures(E::signature, (embedder,), signature) && {
            let draft = leaf_draft(ns, doc_id, l, signature@);
            if node_refused(s.nodes, draft, id) {
                t == s && r == Some(refusal(s.nodes, id))
            } else {
                cascades(
                    embedder,
                    chat,
                    audit,
                    cfg,
                    State { nodes: s.nodes.push(node_added(s.nodes, draft, id, now)), ..s },
                    t,
                    r,
                    ns,
                    l.kind,
                    l.key,
                    0,
                    now,
                )
            }
        };
    let draft = leaf_draft(ns, doc_id, l, signature@);
    if !node_refused(s.nodes, draft, id) {
        let mid = State { nodes: s.nodes.push(node_added(s.nodes, draft, id, now)), ..s };
        lemma_cascade_keeps_nodes(embedder, chat, audit, cfg, mid, t, r, ns, l.kind, l.key, 0, now);
        let k = s.nodes.len() as int;
        assert(same_words(mid.nodes[k], t.nodes[k]));
        assert(is_leaf_of(t, ns, doc_id, l, signature@, k));
        if 0 <= i < k {
            assert(mid.nodes[i] == s.nodes[i]);
            assert(same_words(mid.nodes[i], t.nodes[i]));
        }
    }
}

} // verus!
