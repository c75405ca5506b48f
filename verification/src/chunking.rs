//! Splitting documents into chunks small enough to embed: prose by paragraph, code by line.

use crate::pattern::{regex_found, regex_is_match};
use crate::text::{
    char_count, chars_of, contains_text, is_white_space, join_texts, lemma_texts_push, lines_of, lines_text,
    occurs_at, string_from, texts, trim, trim_end_text, trim_start_text, trim_text,
};
use vstd::prelude::*;

verus! {

/// Max characters (not bytes) per chunk of prose.
pub const MAX_CHUNK_CHARS: usize = 800;

/// Max characters per chunk of code (code packs by line, not by paragraph).
pub const MAX_CODE_CHUNK_CHARS: usize = 1500;

/// Token budget of a chunk of code, below the 512-token ceiling of the embedding model.
pub const CODE_CHUNK_TOKEN_BUDGET: usize = 480;

/// Lines that must already be buffered before a line that starts a definition opens a new chunk.
pub const MIN_SYMBOL_SPLIT_LINES: usize = 4;

// ---------------------------------------------------------------------------------------------
// Token estimates.
// ---------------------------------------------------------------------------------------------

/// Whether a character is in one of the CJK ranges: Unified Ideographs, Hiragana, Katakana,
/// Hangul Syllables.
pub open spec fn cjk(c: char) -> bool {
    ||| '\u{4E00}' <= c <= '\u{9FFF}'
    ||| '\u{3040}' <= c <= '\u{309F}'
    ||| '\u{30A0}' <= c <= '\u{30FF}'
    ||| '\u{AC00}' <= c <= '\u{D7AF}'
}

/// Whether a character is in one of the CJK ranges.
pub fn is_cjk(c: char) -> (r: bool)
    ensures
        r == cjk(c),
{
    ('\u{4E00}' <= c && c <= '\u{9FFF}') || ('\u{3040}' <= c && c <= '\u{309F}') || ('\u{30A0}' <= c
        && c <= '\u{30FF}') || ('\u{AC00}' <= c && c <= '\u{D7AF}')
}

/// How many characters of `s` are CJK.
pub open spec fn cjk_count(s: Seq<char>) -> nat
    decreases s.len(),
{
    if s.len() == 0 {
        0
    } else {
        cjk_count(s.drop_last()) + if cjk(s.last()) {
            1nat
        } else {
            0nat
        }
    }
}

/// The estimated tokens of a text: one per CJK character, one per four other characters,
/// rounded up.
pub open spec fn tokens(s: Seq<char>) -> int {
    cjk_count(s) + (s.len() - cjk_count(s) + 3) / 4
}

proof fn lemma_cjk_count_bound(s: Seq<char>)
    ensures
        cjk_count(s) <= s.len(),
    decreases s.len(),
{
    if s.len() > 0 {
        lemma_cjk_count_bound(s.drop_last());
    }
}

proof fn lemma_cjk_count_add(a: Seq<char>, b: Seq<char>)
    ensures
        cjk_count(a + b) == cjk_count(a) + cjk_count(b),
    decreases b.len(),
{
    if b.len() == 0 {
        assert(a + b =~= a);
    } else {
        assert((a + b).drop_last() =~= a + b.drop_last());
        lemma_cjk_count_add(a, b.drop_last());
    }
}

/// Law: putting two texts together never costs more tokens than the two cost apart, and never
/// less than either.
pub proof fn law_tokens_subadditive(a: Seq<char>, b: Seq<char>)
    ensures
        tokens(a + b) <= tokens(a) + tokens(b),
        tokens(a + b) >= tokens(a),
        tokens(a + b) >= tokens(b),
{
    lemma_cjk_count_add(a, b);
    lemma_cjk_count_bound(a);
    lemma_cjk_count_bound(b);
}

/// Heuristic token estimate: CJK characters count one token each, all others a quarter,
/// rounded up.
pub fn estimate_tokens(s: &str) -> (r: usize)
    ensures
        r == tokens(s@),
        r <= s@.len(),
{
    let mut wide: usize = 0;
    let total: usize = char_count(s);
    for c in it: s.chars()
        invariant
            wide == cjk_count(s@.take(it.index())),
            wide <= it.index(),
            it.seq() == s@,
            total == s@.len(),
    {
        let ghost n = it.index();
        assert(s@.take(n + 1).drop_last() =~= s@.take(n));
        if is_cjk(c) {
            wide += 1;
        }
    }
    assert(s@.take(s@.len() as int) =~= s@);
    let other: usize = total - wide;
    let quarters: usize = other / 4;
    if other % 4 == 0 {
        wide + quarters
    } else {
        wide + quarters + 1
    }
}

/// Whether any character of `s` is CJK.
pub open spec fn has_cjk_text(s: Seq<char>) -> bool {
    exists|i: int| 0 <= i < s.len() && cjk(#[trigger] s[i])
}

fn has_cjk(s: &str) -> (r: bool)
    ensures
        r == has_cjk_text(s@),
{
    let cs = chars_of(s);
    for i in 0..cs.len()
        invariant
            cs@ == s@,
            forall|j: int| 0 <= j < i ==> !cjk(#[trigger] cs@[j]),
    {
        if is_cjk(cs[i]) {
            return true;
        }
    }
    false
}

// ---------------------------------------------------------------------------------------------
// Code.
// ---------------------------------------------------------------------------------------------

/// A chunk of code: its text and the lines it came from, counted from 1, both ends included.
#[verifier::ext_equal]
pub struct CodeChunk {
    pub text: Seq<char>,
    pub start: int,
    pub end: int,
}

/// The chunks that a list of executable chunks holds.
pub open spec fn code_chunks(v: Seq<(String, usize, usize)>) -> Seq<CodeChunk> {
    Seq::new(
        v.len(),
        |i: int| CodeChunk { text: v[i].0@, start: v[i].1 as int, end: v[i].2 as int },
    )
}

proof fn lemma_code_chunks_push(v: Seq<(String, usize, usize)>, c: (String, usize, usize))
    ensures
        code_chunks(v.push(c)) == code_chunks(v).push(
            CodeChunk { text: c.0@, start: c.1 as int, end: c.2 as int },
        ),
{
    assert(code_chunks(v.push(c)) =~= code_chunks(v).push(
        CodeChunk { text: c.0@, start: c.1 as int, end: c.2 as int },
    ));
}

/// A line with the line feed that ends it.
pub open spec fn with_newline(line: Seq<char>) -> Seq<char> {
    line.push('\n')
}

/// Whether a line is hard-split: it holds CJK characters and exceeds the token budget.
pub open spec fn oversized(line: Seq<char>) -> bool {
    has_cjk_text(line) && tokens(line) > CODE_CHUNK_TOKEN_BUDGET
}

/// Whether a line is chunked by itself, without a line feed: it holds CJK characters and does not
/// fit the token budget together with its line feed.
pub open spec fn stands_apart(line: Seq<char>) -> bool {
    has_cjk_text(line) && tokens(with_newline(line)) > CODE_CHUNK_TOKEN_BUDGET
}

/// What hard-splitting the characters read so far has given: the finished pieces and the piece
/// that is being filled. A piece is finished as soon as it reaches the token budget.
pub open spec fn split_pieces(line: Seq<char>) -> (Seq<Seq<char>>, Seq<char>)
    decreases line.len(),
{
    if line.len() == 0 {
        (Seq::empty(), Seq::empty())
    } else {
        let (done, piece) = split_pieces(line.drop_last());
        let grown = piece.push(line.last());
        if tokens(grown) >= CODE_CHUNK_TOKEN_BUDGET {
            (done.push(grown), Seq::empty())
        } else {
            (done, grown)
        }
    }
}

/// The pieces of a line that stands apart: the line itself, unless it is hard-split.
pub open spec fn line_pieces(line: Seq<char>) -> Seq<Seq<char>> {
    let (done, piece) = split_pieces(line);
    if !oversized(line) {
        seq![line]
    } else if piece.len() == 0 {
        done
    } else {
        done.push(piece)
    }
}

/// The pieces as chunks of the one line they came from.
pub open spec fn pieces_of_line(pieces: Seq<Seq<char>>, line_no: int) -> Seq<CodeChunk> {
    Seq::new(
        pieces.len(),
        |i: int| CodeChunk { text: pieces[i], start: line_no, end: line_no },
    )
}

/// The state of the packer: the chunks so far, the text that is being filled, the line it
/// started at, and how many lines it holds.
#[verifier::ext_equal]
pub struct Packing {
    pub chunks: Seq<CodeChunk>,
    pub text: Seq<char>,
    pub start: int,
    pub count: int,
}

/// The packer with its buffered lines emitted as a chunk that ends at `end`.
pub open spec fn flushed(p: Packing, end: int) -> Packing {
    if p.count > 0 {
        Packing {
            chunks: p.chunks.push(CodeChunk { text: p.text, start: p.start, end }),
            text: Seq::empty(),
            start: p.start,
            count: 0,
        }
    } else {
        p
    }
}

/// Whether a text with one more line would exceed the character cap, or the token budget: by the
/// tokens of the text and the line, or by those of the two put together with the line feed.
pub open spec fn outgrown(text: Seq<char>, line: Seq<char>) -> bool {
    ||| text.len() + line.len() + 1 > MAX_CODE_CHUNK_CHARS
    ||| tokens(text) + tokens(line) > CODE_CHUNK_TOKEN_BUDGET
    ||| tokens(text + with_newline(line)) > CODE_CHUNK_TOKEN_BUDGET
}

/// Whether the line does not fit the chunk that is being filled.
pub open spec fn overflows(p: Packing, line: Seq<char>) -> bool {
    p.count > 0 && outgrown(p.text, line)
}

/// The packer after one more line, where `starts` says whether the line starts a definition.
pub open spec fn pack_line(p: Packing, line_no: int, line: Seq<char>, starts: bool) -> Packing {
    if stands_apart(line) {
        let q = flushed(p, line_no - 1);
        Packing {
            chunks: q.chunks + pieces_of_line(line_pieces(line), line_no),
            text: Seq::empty(),
            start: line_no + 1,
            count: 0,
        }
    } else {
        let split = if starts && p.count >= MIN_SYMBOL_SPLIT_LINES {
            flushed(p, line_no - 1)
        } else {
            p
        };
        let q = if overflows(split, line) {
            flushed(split, line_no - 1)
        } else {
            split
        };
        Packing {
            chunks: q.chunks,
            text: q.text + with_newline(line),
            start: if q.count == 0 {
                line_no
            } else {
                q.start
            },
            count: q.count + 1,
        }
    }
}

/// The packer after all of `lines`, where `starts` marks those that start a definition.
pub open spec fn packed(lines: Seq<Seq<char>>, starts: Seq<bool>) -> Packing
    decreases lines.len(),
{
    if lines.len() == 0 {
        Packing { chunks: Seq::empty(), text: Seq::empty(), start: 1, count: 0 }
    } else {
        pack_line(
            packed(lines.drop_last(), starts.drop_last()),
            lines.len() as int,
            lines.last(),
            starts.last(),
        )
    }
}

/// The chunks of a file: its lines packed up to the caps.
pub open spec fn chunk_lines_spec(lines: Seq<Seq<char>>, starts: Seq<bool>) -> Seq<CodeChunk> {
    flushed(packed(lines, starts), lines.len() as int).chunks
}

/// Hard-splits one line.
fn hard_split(line: &str, line_no: usize, out: &mut Vec<(String, usize, usize)>)
    requires
        oversized(line@),
    ensures
        code_chunks(final(out)@) == code_chunks(old(out)@) + pieces_of_line(
            line_pieces(line@),
            line_no as int,
        ),
{
    let ghost before = code_chunks(out@);
    let mut piece = String::new();
    assert(code_chunks(out@) =~= before + pieces_of_line(Seq::empty(), line_no as int));
    for c in it: line.chars()
        invariant
            it.seq() == line@,
            piece@ == split_pieces(line@.take(it.index())).1,
            code_chunks(out@) == before + pieces_of_line(
                split_pieces(line@.take(it.index())).0,
                line_no as int,
            ),
    {
        let ghost n = it.index();
        let ghost prev = split_pieces(line@.take(n));
        assert(line@.take(n + 1).drop_last() =~= line@.take(n));
        assert(line@.take(n + 1).last() == c);
        piece.push(c);
        if estimate_tokens(piece.as_str()) >= CODE_CHUNK_TOKEN_BUDGET {
            let ghost out0 = out@;
            let ghost grown = piece@;
            out.push((piece, line_no, line_no));
            proof {
                lemma_code_chunks_push(out0, out@.last());
                assert(code_chunks(out@) =~= before + pieces_of_line(
                    prev.0.push(grown),
                    line_no as int,
                ));
            }
            piece = String::new();
        }
    }
    assert(line@.take(line@.len() as int) =~= line@);
    if !piece.as_str().is_empty() {
        let ghost out0 = out@;
        out.push((piece, line_no, line_no));
        proof {
            lemma_code_chunks_push(out0, out@.last());
            assert(code_chunks(out@) =~= before + pieces_of_line(
                line_pieces(line@),
                line_no as int,
            ));
        }
    }
}

/// Packs `lines` into chunks, where `starts` marks the lines that start a definition. Lines are
/// packed up to the character cap and the token budget; a line that starts a definition opens a
/// new chunk once the buffer holds enough lines; a line is only split where it holds CJK
/// characters and exceeds the token budget by itself.
pub fn chunk_lines(lines: &Vec<String>, starts: &Vec<bool>) -> (r: Vec<(String, usize, usize)>)
    requires
        lines@.len() == starts@.len(),
    ensures
        code_chunks(r@) == chunk_lines_spec(texts(lines@), starts@),
{
    let ghost ls = texts(lines@);
    let mut out: Vec<(String, usize, usize)> = Vec::new();
    let mut cur = String::new();
    let mut cur_start: usize = 1;
    let mut cur_lines: usize = 0;
    assert(ls.take(0) =~= Seq::<Seq<char>>::empty());
    assert(code_chunks(out@) =~= Seq::<CodeChunk>::empty());
    for i in 0..lines.len()
        invariant
            lines@.len() == starts@.len(),
            ls == texts(lines@),
            cur_lines <= i,
            packed(ls.take(i as int), starts@.take(i as int)).chunks == code_chunks(out@),
            packed(ls.take(i as int), starts@.take(i as int)).text == cur@,
            packed(ls.take(i as int), starts@.take(i as int)).count == cur_lines,
            cur_lines > 0 ==> packed(ls.take(i as int), starts@.take(i as int)).start == cur_start,
    {
        let ghost p = packed(ls.take(i as int), starts@.take(i as int));
        let ghost l = lines@[i as int]@;
        let line_no: usize = i + 1;
        proof {
            assert(ls.take(i + 1).drop_last() =~= ls.take(i as int));
            assert(starts@.take(i + 1).drop_last() =~= starts@.take(i as int));
            assert(ls.take(i + 1).last() == l);
            assert(starts@.take(i + 1).last() == starts@[i as int]);
            law_tokens_subadditive(l, seq!['\n']);
            assert(l + seq!['\n'] =~= with_newline(l));
        }
        let line = lines[i].as_str();
        let line_chars: usize = char_count(line);
        let mut ended = line.to_owned();
        ended.push('\n');
        let line_tokens: usize = estimate_tokens(line);
        if has_cjk(line) && estimate_tokens(ended.as_str()) > CODE_CHUNK_TOKEN_BUDGET {
            if cur_lines > 0 {
                let ghost out0 = out@;
                out.push((cur, cur_start, i));
                proof {
                    lemma_code_chunks_push(out0, out@.last());
                }
            }
            assert(code_chunks(out@) == flushed(p, i as int).chunks);
            if line_tokens > CODE_CHUNK_TOKEN_BUDGET {
                hard_split(line, line_no, &mut out);
            } else {
                let ghost out0 = out@;
                out.push((line.to_owned(), line_no, line_no));
                proof {
                    lemma_code_chunks_push(out0, out@.last());
                    assert(code_chunks(out@) =~= code_chunks(out0) + pieces_of_line(
                        line_pieces(l),
                        line_no as int,
                    ));
                }
            }
            cur = String::new();
            cur_lines = 0;
        } else {
            if starts[i] && cur_lines >= MIN_SYMBOL_SPLIT_LINES {
                let ghost out0 = out@;
                out.push((cur, cur_start, i));
                proof {
                    lemma_code_chunks_push(out0, out@.last());
                }
                cur = String::new();
                cur_lines = 0;
            }
            let cur_chars: usize = char_count(cur.as_str());
            let cur_tokens: usize = estimate_tokens(cur.as_str());
            let too_long: bool = cur_chars >= MAX_CODE_CHUNK_CHARS || line_chars
                > MAX_CODE_CHUNK_CHARS - 1 - cur_chars;
            let mut grown = cur.clone();
            grown.push_str(ended.as_str());
            let too_heavy: bool = cur_tokens > CODE_CHUNK_TOKEN_BUDGET || line_tokens
                > CODE_CHUNK_TOKEN_BUDGET - cur_tokens || estimate_tokens(grown.as_str())
                > CODE_CHUNK_TOKEN_BUDGET;
            if cur_lines > 0 && (too_long || too_heavy) {
                let ghost out0 = out@;
                out.push((cur, cur_start, i));
                proof {
                    lemma_code_chunks_push(out0, out@.last());
                }
                cur = String::new();
                cur_lines = 0;
            }
            if cur_lines == 0 {
                cur_start = line_no;
            }
            cur.push_str(ended.as_str());
            cur_lines += 1;
        }
    }
    assert(ls.take(ls.len() as int) =~= ls);
    assert(starts@.take(ls.len() as int) =~= starts@);
    if cur_lines > 0 {
        let ghost out0 = out@;
        out.push((cur, cur_start, lines.len()));
        proof {
            lemma_code_chunks_push(out0, out@.last());
        }
    }
    out
}

/// A line that begins a code definition, with optional `export`, `pub`, `default` and `async`
/// in front.
pub const DEFINITION_LINE: &'static str = r"^\s*(?:export\s+)?(?:pub\s+)?(?:default\s+)?(?:async\s+)?(?:fn|def|class|struct|enum|interface|trait|type|func)\s+[A-Za-z_]";

/// Whether a line begins a code definition.
pub open spec fn starts_definition_text(line: Seq<char>) -> bool {
    regex_found(DEFINITION_LINE@, line) == Some(true)
}

/// Whether a line begins a code definition.
pub fn starts_definition(line: &str) -> (r: bool)
    ensures
        r == starts_definition_text(line@),
{
    match regex_is_match(DEFINITION_LINE, line) {
        Some(b) => b,
        None => false,
    }
}

/// Which lines start a definition, if definitions are to be split at all.
pub open spec fn definition_marks(lines: Seq<Seq<char>>, symbol_split: bool) -> Seq<bool> {
    Seq::new(lines.len(), |i: int| symbol_split && starts_definition_text(lines[i]))
}

/// Code-aware chunking with definition splitting on; see [`chunk_code_with`].
pub fn chunk_code(content: &str) -> (r: Vec<(String, usize, usize)>)
    ensures
        code_chunks(r@) == chunk_lines_spec(
            lines_text(content@),
            definition_marks(lines_text(content@), true),
        ),
{
    chunk_code_with(content, true)
}

/// Code-aware chunking: consecutive lines are packed up to the character cap and the token
/// budget. With `symbol_split`, a line that starts a definition opens a new chunk once enough
/// lines are buffered. Returns each chunk with its first and last line, counted from 1.
pub fn chunk_code_with(content: &str, symbol_split: bool) -> (r: Vec<(String, usize, usize)>)
    ensures
        code_chunks(r@) == chunk_lines_spec(
            lines_text(content@),
            definition_marks(lines_text(content@), symbol_split),
        ),
{
    let lines = lines_of(content);
    let mut starts: Vec<bool> = Vec::new();
    for i in 0..lines.len()
        invariant
            texts(lines@) == lines_text(content@),
            starts@.len() == i,
            forall|j: int|
                0 <= j < i ==> #[trigger] starts@[j] == (symbol_split && starts_definition_text(
                    texts(lines@)[j],
                )),
    {
        let b: bool = symbol_split && starts_definition(lines[i].as_str());
        starts.push(b);
    }
    assert(starts@ =~= definition_marks(lines_text(content@), symbol_split));
    chunk_lines(&lines, &starts)
}

// ---------------------------------------------------------------------------------------------
// Laws of code chunking.
// ---------------------------------------------------------------------------------------------

/// All the text that a list of chunks holds.
pub open spec fn chunks_text(chunks: Seq<CodeChunk>) -> Seq<char>
    decreases chunks.len(),
{
    if chunks.len() == 0 {
        Seq::empty()
    } else {
        chunks_text(chunks.drop_last()) + chunks.last().text
    }
}

/// The lines of a file put back together: each with a line feed, but for those that stand apart.
pub open spec fn lines_joined(lines: Seq<Seq<char>>) -> Seq<char>
    decreases lines.len(),
{
    if lines.len() == 0 {
        Seq::empty()
    } else {
        lines_joined(lines.drop_last()) + if stands_apart(lines.last()) {
            lines.last()
        } else {
            with_newline(lines.last())
        }
    }
}

/// Whether a chunk may be emitted: it is within the token budget and the character cap, or it
/// is a single line without CJK characters; and it is within the budget if it was hard-split.
pub open spec fn within_caps(c: CodeChunk) -> bool {
    &&& c.start <= c.end
    &&& tokens(c.text) <= 480 || (c.start == c.end && !has_cjk_text(c.text))
    &&& c.text.len() <= 1500 || c.start == c.end
}

proof fn lemma_chunks_text_add(a: Seq<CodeChunk>, b: Seq<CodeChunk>)
    ensures
        chunks_text(a + b) == chunks_text(a) + chunks_text(b),
    decreases b.len(),
{
    if b.len() == 0 {
        assert(a + b =~= a);
    } else {
        assert((a + b).drop_last() =~= a + b.drop_last());
        lemma_chunks_text_add(a, b.drop_last());
    }
}

proof fn lemma_no_cjk_tokens(s: Seq<char>)
    ensures
        !has_cjk_text(s) ==> cjk_count(s) == 0,
        cjk_count(s) == 0 ==> !has_cjk_text(s),
    decreases s.len(),
{
    if s.len() > 0 {
        let t = s.drop_last();
        lemma_no_cjk_tokens(t);
        if !has_cjk_text(s) {
            assert forall|i: int| 0 <= i < t.len() implies !cjk(#[trigger] t[i]) by {
                assert(t[i] == s[i]);
            }
            assert(!cjk(s[s.len() - 1]));
        }
        if cjk_count(s) == 0 {
            assert forall|i: int| 0 <= i < s.len() implies !cjk(#[trigger] s[i]) by {
                if i < t.len() {
                    assert(t[i] == s[i]);
                }
            }
        }
    }
}

/// The pieces of a hard-split line make up the line, and each is within the budget.
proof fn lemma_split_pieces(line: Seq<char>, line_no: int)
    ensures
        ({
            let (done, piece) = split_pieces(line);
            &&& chunks_text(pieces_of_line(done, line_no)) + piece == line
            &&& tokens(piece) < CODE_CHUNK_TOKEN_BUDGET
            &&& forall|i: int|
                0 <= i < done.len() ==> tokens(#[trigger] done[i]) == CODE_CHUNK_TOKEN_BUDGET
        }),
    decreases line.len(),
{
    if line.len() == 0 {
        assert(pieces_of_line(split_pieces(line).0, line_no) =~= Seq::empty());
        assert(tokens(Seq::<char>::empty()) == 0);
        assert(line =~= Seq::empty());
    } else {
        let head = line.drop_last();
        lemma_split_pieces(head, line_no);
        let (done, piece) = split_pieces(head);
        let grown = piece.push(line.last());
        assert(line =~= head.push(line.last()));
        assert(grown.drop_last() =~= piece);
        lemma_cjk_count_bound(piece);
        assert(chunks_text(pieces_of_line(done, line_no)) + grown =~= line);
        if tokens(grown) >= CODE_CHUNK_TOKEN_BUDGET {
            let next = done.push(grown);
            assert(pieces_of_line(next, line_no).drop_last() =~= pieces_of_line(done, line_no));
            assert(chunks_text(pieces_of_line(next, line_no)) + Seq::<char>::empty() =~= line);
            assert(tokens(Seq::<char>::empty()) == 0);
        }
    }
}

proof fn lemma_line_pieces(line: Seq<char>, line_no: int)
    requires
        stands_apart(line),
    ensures
        chunks_text(pieces_of_line(line_pieces(line), line_no)) == line,
        forall|i: int|
            0 <= i < line_pieces(line).len() ==> tokens(#[trigger] line_pieces(line)[i])
                <= CODE_CHUNK_TOKEN_BUDGET,
{
    lemma_split_pieces(line, line_no);
    let (done, piece) = split_pieces(line);
    let all = line_pieces(line);
    if !oversized(line) {
        assert(pieces_of_line(all, line_no).drop_last() =~= Seq::empty());
        assert(chunks_text(Seq::<CodeChunk>::empty()) =~= Seq::<char>::empty());
        assert(chunks_text(pieces_of_line(all, line_no)) =~= line);
    } else if piece.len() == 0 {
        assert(chunks_text(pieces_of_line(done, line_no)) =~= line);
    } else {
        assert(pieces_of_line(all, line_no).drop_last() =~= pieces_of_line(done, line_no));
        assert(chunks_text(pieces_of_line(all, line_no)) =~= line);
        assert forall|i: int| 0 <= i < all.len() implies tokens(#[trigger] all[i])
            <= CODE_CHUNK_TOKEN_BUDGET by {
            if i < done.len() {
                assert(all[i] == done[i]);
            }
        }
    }
}

/// Whether the chunks of a packing are in order and cover the lines up to `n` without a gap,
/// together with the buffered ones.
spec fn covers(chunks: Seq<CodeChunk>, n: int) -> bool
    decreases chunks.len(),
{
    if chunks.len() == 0 {
        n == 0
    } else {
        let c = chunks.last();
        &&& 1 <= c.start <= c.end
        &&& c.end == n
        &&& covers(chunks.drop_last(), c.start - 1) || (c.start == c.end && covers(
            chunks.drop_last(),
            n,
        ))
    }
}

spec fn packing_ok(p: Packing, lines: Seq<Seq<char>>) -> bool {
    &&& 0 <= p.count <= lines.len()
    &&& p.count == 0 ==> p.text == Seq::<char>::empty()
    &&& p.count > 0 ==> p.start == lines.len() - p.count + 1
    &&& chunks_text(p.chunks) + p.text == lines_joined(lines)
    &&& covers(p.chunks, lines.len() - p.count)
    &&& forall|i: int| 0 <= i < p.chunks.len() ==> within_caps(#[trigger] p.chunks[i])
    &&& p.count > 0 ==> within_caps(
        CodeChunk { text: p.text, start: p.start, end: lines.len() as int },
    )
}

proof fn lemma_flushed_ok(p: Packing, lines: Seq<Seq<char>>)
    requires
        packing_ok(p, lines),
    ensures
        packing_ok(flushed(p, lines.len() as int), lines),
        flushed(p, lines.len() as int).count == 0,
{
    if p.count > 0 {
        let c = CodeChunk { text: p.text, start: p.start, end: lines.len() as int };
        let q = flushed(p, lines.len() as int);
        assert(q.chunks.drop_last() =~= p.chunks);
        assert(q.chunks.last() == c);
        assert(chunks_text(q.chunks) + q.text =~= lines_joined(lines));
    }
}

proof fn lemma_covers_pieces(chunks: Seq<CodeChunk>, pieces: Seq<Seq<char>>, line_no: int)
    requires
        covers(chunks, line_no - 1),
        pieces.len() > 0,
    ensures
        covers(chunks + pieces_of_line(pieces, line_no), line_no),
    decreases pieces.len(),
{
    let all = chunks + pieces_of_line(pieces, line_no);
    let fewer = pieces.drop_last();
    assert(all.drop_last() =~= chunks + pieces_of_line(fewer, line_no));
    if fewer.len() == 0 {
        assert(chunks + pieces_of_line(fewer, line_no) =~= chunks);
    } else {
        lemma_covers_pieces(chunks, fewer, line_no);
    }
}

proof fn lemma_packed_ok(lines: Seq<Seq<char>>, starts: Seq<bool>)
    requires
        lines.len() == starts.len(),
    ensures
        packing_ok(packed(lines, starts), lines),
    decreases lines.len(),
{
    if lines.len() == 0 {
        let p = packed(lines, starts);
        assert(chunks_text(p.chunks) + p.text =~= lines_joined(lines));
    } else {
        let before = lines.drop_last();
        let line = lines.last();
        let n = lines.len() as int;
        let p = packed(before, starts.drop_last());
        lemma_packed_ok(before, starts.drop_last());
        lemma_flushed_ok(p, before);
        if stands_apart(line) {
            let q = flushed(p, n - 1);
            let pieces = line_pieces(line);
            lemma_line_pieces(line, n);
            lemma_chunks_text_add(q.chunks, pieces_of_line(pieces, n));
            assert(q.text =~= Seq::empty());
            assert(chunks_text(q.chunks) + q.text =~= chunks_text(q.chunks));
            if pieces.len() == 0 {
                assert(pieces_of_line(pieces, n) =~= Seq::empty());
                let i = choose|i: int| 0 <= i < line.len() && cjk(#[trigger] line[i]);
                assert(line.len() > 0);
                assert(false);
            }
            lemma_covers_pieces(q.chunks, pieces, n);
            let r = packed(lines, starts);
            assert(chunks_text(r.chunks) + r.text =~= lines_joined(lines));
            assert forall|i: int| 0 <= i < r.chunks.len() implies within_caps(
                #[trigger] r.chunks[i],
            ) by {
                if i < q.chunks.len() {
                    assert(r.chunks[i] == q.chunks[i]);
                } else {
                    assert(r.chunks[i].text == pieces[i - q.chunks.len()]);
                }
            }
        } else {
            let split = if starts.last() && p.count >= MIN_SYMBOL_SPLIT_LINES {
                flushed(p, n - 1)
            } else {
                p
            };
            lemma_flushed_ok(split, before);
            let q = if overflows(split, line) {
                flushed(split, n - 1)
            } else {
                split
            };
            let r = packed(lines, starts);
            assert(r.text == q.text + with_newline(line));
            assert(chunks_text(r.chunks) + r.text =~= lines_joined(lines));
            law_tokens_subadditive(q.text, with_newline(line));
            if q.count == 0 {
                assert(r.text =~= with_newline(line));
                lemma_no_cjk_tokens(line);
                lemma_no_cjk_tokens(with_newline(line));
                assert(with_newline(line).drop_last() =~= line);
            }
        }
    }
}

/// Law: chunking code loses nothing. The texts of the chunks, put together, are the lines of
/// the file, each with its line feed (but for lines that stand apart, which get none).
pub proof fn law_chunk_lines_keep_every_line(lines: Seq<Seq<char>>, starts: Seq<bool>)
    requires
        lines.len() == starts.len(),
    ensures
        chunks_text(chunk_lines_spec(lines, starts)) == lines_joined(lines),
{
    lemma_packed_ok(lines, starts);
    lemma_flushed_ok(packed(lines, starts), lines);
    let p = flushed(packed(lines, starts), lines.len() as int);
    assert(chunks_text(p.chunks) + p.text =~= chunks_text(p.chunks));
}

/// Law: every chunk of code is within the token budget and the character cap, unless it is a
/// single line; and only a line without CJK characters may break the token budget.
pub proof fn law_chunk_lines_within_caps(lines: Seq<Seq<char>>, starts: Seq<bool>)
    requires
        lines.len() == starts.len(),
    ensures
        forall|i: int|
            0 <= i < chunk_lines_spec(lines, starts).len() ==> within_caps(
                #[trigger] chunk_lines_spec(lines, starts)[i],
            ),
{
    lemma_packed_ok(lines, starts);
    lemma_flushed_ok(packed(lines, starts), lines);
}

proof fn lemma_covers_consecutive(chunks: Seq<CodeChunk>, n: int)
    requires
        covers(chunks, n),
    ensures
        chunks.len() > 0 ==> chunks[0].start == 1 && chunks.last().end == n,
        chunks.len() == 0 ==> n == 0,
        forall|i: int|
            0 <= i < chunks.len() ==> 1 <= (#[trigger] chunks[i]).start <= chunks[i].end <= n,
        forall|i: int|
            0 < i < chunks.len() ==> {
                ||| (#[trigger] chunks[i]).start == chunks[i - 1].end + 1
                ||| chunks[i].start == chunks[i].end == chunks[i - 1].end
            },
    decreases chunks.len(),
{
    if chunks.len() > 0 {
        let c = chunks.last();
        let head = chunks.drop_last();
        if covers(head, c.start - 1) {
            lemma_covers_consecutive(head, c.start - 1);
        } else {
            lemma_covers_consecutive(head, n);
        }
        assert forall|i: int| 0 <= i < chunks.len() implies 1 <= (#[trigger] chunks[i]).start
            <= chunks[i].end <= n by {
            if i < head.len() {
                assert(head[i] == chunks[i]);
            }
        }
        assert forall|i: int| 0 < i < chunks.len() implies {
            ||| (#[trigger] chunks[i]).start == chunks[i - 1].end + 1
            ||| chunks[i].start == chunks[i].end == chunks[i - 1].end
        } by {
            if i < head.len() {
                assert(head[i] == chunks[i]);
                assert(head[i - 1] == chunks[i - 1]);
            } else {
                assert(head[i - 1] == chunks[i - 1]);
            }
        }
    }
}

/// Whether a line is in the range of some chunk.
pub open spec fn holds_line(chunks: Seq<CodeChunk>, line: int) -> bool {
    exists|i: int|
        0 <= i < chunks.len() && (#[trigger] chunks[i]).start <= line <= chunks[i].end
}

proof fn lemma_covers_each(chunks: Seq<CodeChunk>, n: int, x: int)
    requires
        covers(chunks, n),
        1 <= x <= n,
    ensures
        holds_line(chunks, x),
    decreases chunks.len(),
{
    let c = chunks.last();
    let head = chunks.drop_last();
    assert(chunks[chunks.len() - 1] == c);
    if x < c.start {
        if !covers(head, c.start - 1) {
            lemma_covers_each(head, n, x);
        } else {
            lemma_covers_each(head, c.start - 1, x);
        }
        let i = choose|i: int| 0 <= i < head.len() && (#[trigger] head[i]).start <= x <= head[i].end;
        assert(chunks[i] == head[i]);
    }
}

/// Law: the line ranges of the chunks begin at line 1, end at the last line, and leave no line
/// out: each chunk begins on the line after the one before it ends, or is a further piece of
/// the single line that the one before it ends with.
pub proof fn law_chunk_lines_cover_every_line(lines: Seq<Seq<char>>, starts: Seq<bool>)
    requires
        lines.len() == starts.len(),
    ensures
        ({
            let chunks = chunk_lines_spec(lines, starts);
            &&& chunks.len() == 0 ==> lines.len() == 0
            &&& chunks.len() > 0 ==> chunks[0].start == 1 && chunks.last().end == lines.len()
            &&& forall|i: int|
                0 <= i < chunks.len() ==> 1 <= (#[trigger] chunks[i]).start <= chunks[i].end
                    <= lines.len()
            &&& forall|i: int|
                0 < i < chunks.len() ==> {
                    ||| (#[trigger] chunks[i]).start == chunks[i - 1].end + 1
                    ||| chunks[i].start == chunks[i].end == chunks[i - 1].end
                }
            &&& forall|x: int| 1 <= x <= lines.len() ==> #[trigger] holds_line(chunks, x)
        }),
{
    lemma_packed_ok(lines, starts);
    lemma_flushed_ok(packed(lines, starts), lines);
    let chunks = chunk_lines_spec(lines, starts);
    lemma_covers_consecutive(chunks, lines.len() as int);
    assert forall|x: int| 1 <= x <= lines.len() implies #[trigger] holds_line(chunks, x) by {
        lemma_covers_each(chunks, lines.len() as int, x);
    }
}

/// Why a chunk may end before line `next`: that line starts a definition and the chunk holds
/// enough lines, or it is hard-split, or the chunk ends with a line that is, or the chunk would
/// outgrow the caps with it.
pub open spec fn closed_before(lines: Seq<Seq<char>>, starts: Seq<bool>, c: CodeChunk, next: int) -> bool {
    ||| starts[next - 1] && c.end - c.start + 1 >= MIN_SYMBOL_SPLIT_LINES
    ||| oversized(lines[next - 1])
    ||| oversized(lines[c.end - 1])
    ||| outgrown(c.text, lines[next - 1])
}

/// A chunk holds text, and where it ends with a line that stands apart and is not hard-split, it
/// holds that line alone.
spec fn chunk_whole(lines: Seq<Seq<char>>, c: CodeChunk) -> bool {
    &&& c.text.len() > 0
    &&& stands_apart(lines[c.end - 1]) && !oversized(lines[c.end - 1]) ==> c.text == lines[c.end - 1]
}

/// A line that stands apart never fits after a chunk, nor another line after it.
proof fn lemma_apart_outgrows(text: Seq<char>, line: Seq<char>)
    ensures
        text.len() > 0 && stands_apart(line) && !oversized(line) ==> outgrown(text, line),
        stands_apart(text) && !oversized(text) ==> outgrown(text, line),
{
    lemma_cjk_count_bound(text);
    lemma_cjk_count_bound(line);
    let feed = seq!['\n'];
    law_tokens_subadditive(line, feed);
    assert(feed.drop_last() =~= Seq::empty());
    assert(cjk_count(Seq::<char>::empty()) == 0);
    assert(cjk_count(feed) == 0);
    assert(line + feed =~= with_newline(line));
    lemma_cjk_count_add(line, feed);
    lemma_cjk_count_add(text, feed);
    assert(text + feed =~= with_newline(text));
    let grown = text + with_newline(line);
    lemma_cjk_count_add(text, with_newline(line));
}

/// Why a chunk may end before line `next`, with every line that stands apart taken for a reason.
spec fn parted_before(lines: Seq<Seq<char>>, starts: Seq<bool>, c: CodeChunk, next: int) -> bool {
    ||| starts[next - 1] && c.end - c.start + 1 >= MIN_SYMBOL_SPLIT_LINES
    ||| stands_apart(lines[next - 1])
    ||| stands_apart(lines[c.end - 1])
    ||| outgrown(c.text, lines[next - 1])
}

/// Every chunk but the last was closed for a reason, and so was the last one where lines are
/// buffered; where none are, the last line stands apart.
spec fn packing_full(p: Packing, lines: Seq<Seq<char>>, starts: Seq<bool>) -> bool {
    &&& forall|i: int|
        0 <= i < p.chunks.len() - 1 ==> parted_before(
            lines,
            starts,
            #[trigger] p.chunks[i],
            p.chunks[i + 1].start,
        )
    &&& p.count > 0 && p.chunks.len() > 0 ==> parted_before(lines, starts, p.chunks.last(), p.start)
    &&& p.count == 0 && lines.len() > 0 ==> stands_apart(lines.last())
}

proof fn lemma_packed_full(lines: Seq<Seq<char>>, starts: Seq<bool>)
    requires
        lines.len() == starts.len(),
    ensures
        packing_full(packed(lines, starts), lines, starts),
    decreases lines.len(),
{
    if lines.len() > 0 {
        let before = lines.drop_last();
        let marks = starts.drop_last();
        let line = lines.last();
        let n = lines.len() as int;
        let p = packed(before, marks);
        let r = packed(lines, starts);
        lemma_packed_full(before, marks);
        lemma_packed_ok(before, marks);
        lemma_covers_consecutive(p.chunks, before.len() - p.count);
        assert forall|c: CodeChunk, next: int|
            1 <= c.end < n && 1 <= next < n && parted_before(before, marks, c, next) implies #[trigger] parted_before(
            lines,
            starts,
            c,
            next,
        ) by {
            assert(before[next - 1] == lines[next - 1]);
            assert(before[c.end - 1] == lines[c.end - 1]);
            assert(marks[next - 1] == starts[next - 1]);
        }
        let kept = p.chunks.len() as int;
        if p.count > 0 {
            let c = CodeChunk { text: p.text, start: p.start, end: n - 1 };
            assert(flushed(p, n - 1).chunks == p.chunks.push(c));
        }
        assert forall|i: int| 0 <= i < r.chunks.len() - 1 implies parted_before(
            lines,
            starts,
            #[trigger] r.chunks[i],
            r.chunks[i + 1].start,
        ) by {
            if i < kept - 1 {
                assert(r.chunks[i] == p.chunks[i]);
                assert(r.chunks[i + 1] == p.chunks[i + 1]);
                assert(p.chunks[i + 1].start <= p.chunks[i + 1].end);
                assert(parted_before(before, marks, p.chunks[i], p.chunks[i + 1].start));
            } else if i == kept - 1 {
                assert(r.chunks[i] == p.chunks[i]);
                if p.count > 0 {
                    assert(r.chunks[i + 1].start == p.start);
                    assert(parted_before(before, marks, p.chunks[i], p.start));
                }
            } else {
                assert(stands_apart(line));
                assert(r.chunks[i + 1].start == n);
                assert(lines[n - 1] == line);
            }
        }
        if r.count > 0 && r.chunks.len() > 0 {
            let last = r.chunks.last();
            if r.start == n {
                assert(lines[n - 1] == line && starts[n - 1] == starts.last());
                if p.count == 0 {
                    assert(before[n - 2] == lines[n - 2]);
                }
            } else {
                assert(parted_before(before, marks, p.chunks.last(), p.start));
            }
        }
    }
}

proof fn lemma_pieces_whole(line: Seq<char>)
    requires
        stands_apart(line),
    ensures
        forall|i: int| 0 <= i < line_pieces(line).len() ==> (#[trigger] line_pieces(line)[i]).len() > 0,
        line_pieces(line).len() > 0,
        !oversized(line) ==> line_pieces(line) == seq![line],
{
    let i = choose|i: int| 0 <= i < line.len() && cjk(#[trigger] line[i]);
    lemma_split_pieces(line, 0);
    let (done, piece) = split_pieces(line);
    assert forall|k: int| 0 <= k < done.len() implies (#[trigger] done[k]).len() > 0 by {
        lemma_cjk_count_bound(done[k]);
    }
    if done.len() == 0 && piece.len() == 0 {
        assert(pieces_of_line(done, 0) =~= Seq::empty());
        assert(line =~= Seq::empty());
    }
}

proof fn lemma_packed_whole(lines: Seq<Seq<char>>, starts: Seq<bool>)
    requires
        lines.len() == starts.len(),
    ensures
        ({
            let p = packed(lines, starts);
            &&& forall|i: int| 0 <= i < p.chunks.len() ==> chunk_whole(lines, #[trigger] p.chunks[i])
            &&& p.count > 0 ==> p.text.len() > 0 && !stands_apart(lines.last())
        }),
    decreases lines.len(),
{
    if lines.len() > 0 {
        let before = lines.drop_last();
        let marks = starts.drop_last();
        let line = lines.last();
        let n = lines.len() as int;
        let p = packed(before, marks);
        let r = packed(lines, starts);
        lemma_packed_whole(before, marks);
        lemma_packed_ok(before, marks);
        lemma_covers_consecutive(p.chunks, before.len() - p.count);
        let kept = p.chunks.len() as int;
        let rest = CodeChunk { text: p.text, start: p.start, end: n - 1 };
        if stands_apart(line) {
            lemma_pieces_whole(line);
        }
        assert forall|i: int| 0 <= i < r.chunks.len() implies chunk_whole(lines, #[trigger] r.chunks[i]) by {
            if i < kept {
                assert(r.chunks[i] == p.chunks[i]);
                assert(before[p.chunks[i].end - 1] == lines[p.chunks[i].end - 1]);
            } else if i == kept && p.count > 0 {
                assert(r.chunks[i] == rest);
                assert(before.last() == lines[n - 2]);
            } else {
                let k = if p.count > 0 {
                    i - kept - 1
                } else {
                    i - kept
                };
                assert(r.chunks[i].text == line_pieces(line)[k]);
                assert(r.chunks[i].end == n);
            }
        }
    }
}

/// Law: lines are packed as far as they go. A chunk ends before the next line only where that line
/// starts a definition and the chunk holds enough lines, where one of the two lines there is
/// hard-split, or where the chunk with that line would exceed the character cap or the token budget.
pub proof fn law_chunk_lines_fill_chunks(lines: Seq<Seq<char>>, starts: Seq<bool>)
    requires
        lines.len() == starts.len(),
    ensures
        ({
            let chunks = chunk_lines_spec(lines, starts);
            forall|i: int|
                0 <= i < chunks.len() - 1 ==> closed_before(
                    lines,
                    starts,
                    #[trigger] chunks[i],
                    chunks[i + 1].start,
                )
        }),
{
    let p = packed(lines, starts);
    let chunks = chunk_lines_spec(lines, starts);
    lemma_packed_full(lines, starts);
    lemma_packed_whole(lines, starts);
    assert forall|i: int| 0 <= i < chunks.len() - 1 implies closed_before(
        lines,
        starts,
        #[trigger] chunks[i],
        chunks[i + 1].start,
    ) by {
        assert(chunks[i] == p.chunks[i]);
        if i + 1 < p.chunks.len() {
            assert(chunks[i + 1] == p.chunks[i + 1]);
        }
        assert(parted_before(lines, starts, chunks[i], chunks[i + 1].start));
        assert(chunk_whole(lines, p.chunks[i]));
        lemma_apart_outgrows(chunks[i].text, lines[chunks[i + 1].start - 1]);
    }
}

/// Whether a chunk says what its lines say: their text, joined by line feeds and with one at the end,
/// or a part of the one line that it comes from.
pub open spec fn says_its_lines(lines: Seq<Seq<char>>, c: CodeChunk) -> bool {
    &&& 1 <= c.start <= c.end <= lines.len()
    &&& {
        ||| c.text == join_texts(lines.subrange(c.start - 1, c.end), "\n"@) + "\n"@
        ||| c.start == c.end && contains_text(lines[c.start - 1], c.text)
    }
}

proof fn lemma_join_grows(lines: Seq<Seq<char>>, a: int, b: int)
    requires
        0 <= a <= b < lines.len(),
    ensures
        a < b ==> join_texts(lines.subrange(a, b), "\n"@) + "\n"@ + with_newline(lines[b]) == join_texts(
            lines.subrange(a, b + 1),
            "\n"@,
        ) + "\n"@,
        a == b ==> with_newline(lines[b]) == join_texts(lines.subrange(a, b + 1), "\n"@) + "\n"@,
{
    reveal_strlit("\n");
    assert("\n"@ =~= seq!['\n']);
    let all = lines.subrange(a, b + 1);
    assert(all.drop_last() =~= lines.subrange(a, b));
    assert(all.last() == lines[b]);
    if a < b {
        assert(join_texts(lines.subrange(a, b), "\n"@) + "\n"@ + with_newline(lines[b]) =~= join_texts(
            all,
            "\n"@,
        ) + "\n"@);
    } else {
        assert(all[0] == lines[b]);
        assert(with_newline(lines[b]) =~= join_texts(all, "\n"@) + "\n"@);
    }
}

proof fn lemma_piece_of_line(pieces: Seq<Seq<char>>, n: int, k: int)
    requires
        0 <= k < pieces.len(),
    ensures
        contains_text(chunks_text(pieces_of_line(pieces, n)), pieces[k]),
    decreases pieces.len(),
{
    let head = pieces.drop_last();
    let before = chunks_text(pieces_of_line(head, n));
    let all = chunks_text(pieces_of_line(pieces, n));
    assert(pieces_of_line(pieces, n).drop_last() =~= pieces_of_line(head, n));
    assert(all == before + pieces.last());
    if k < head.len() {
        lemma_piece_of_line(head, n, k);
        let i = choose|i: int| occurs_at(before, head[k], i);
        assert(all.subrange(i, i + pieces[k].len()) =~= before.subrange(i, i + pieces[k].len()));
        assert(occurs_at(all, pieces[k], i));
    } else {
        let i = before.len() as int;
        assert(all.subrange(i, i + pieces[k].len()) =~= pieces[k]);
        assert(occurs_at(all, pieces[k], i));
    }
}

proof fn lemma_says_on(lines: Seq<Seq<char>>, n: int, c: CodeChunk)
    requires
        0 <= n <= lines.len(),
        says_its_lines(lines.take(n), c),
    ensures
        says_its_lines(lines, c),
{
    assert(lines.take(n).subrange(c.start - 1, c.end) =~= lines.subrange(c.start - 1, c.end));
    assert(lines.take(n)[c.start - 1] == lines[c.start - 1]);
}

proof fn lemma_packed_says(lines: Seq<Seq<char>>, starts: Seq<bool>)
    requires
        lines.len() == starts.len(),
    ensures
        ({
            let p = packed(lines, starts);
            &&& forall|i: int| 0 <= i < p.chunks.len() ==> says_its_lines(lines, #[trigger] p.chunks[i])
            &&& p.count > 0 ==> p.text == join_texts(
                lines.subrange(p.start - 1, lines.len() as int),
                "\n"@,
            ) + "\n"@
        }),
    decreases lines.len(),
{
    if lines.len() > 0 {
        let before = lines.drop_last();
        let marks = starts.drop_last();
        let line = lines.last();
        let n = lines.len() as int;
        let p = packed(before, marks);
        let r = packed(lines, starts);
        lemma_packed_says(before, marks);
        lemma_packed_ok(before, marks);
        assert(before =~= lines.take(n - 1));
        let rest = CodeChunk { text: p.text, start: p.start, end: n - 1 };
        if p.count > 0 {
            assert(before.subrange(p.start - 1, n - 1) =~= lines.subrange(p.start - 1, n - 1));
            assert(says_its_lines(lines, rest));
        }
        assert forall|i: int| 0 <= i < r.chunks.len() implies says_its_lines(lines, #[trigger] r.chunks[i]) by {
            if i < p.chunks.len() {
                assert(r.chunks[i] == p.chunks[i]);
                lemma_says_on(lines, n - 1, p.chunks[i]);
            } else if i == p.chunks.len() && p.count > 0 {
                assert(r.chunks[i] == rest);
            } else {
                let k = if p.count > 0 {
                    i - p.chunks.len() - 1
                } else {
                    i - p.chunks.len()
                };
                lemma_line_pieces(line, n);
                lemma_piece_of_line(line_pieces(line), n, k);
                assert(r.chunks[i].text == line_pieces(line)[k]);
                assert(lines[n - 1] == line);
            }
        }
        if r.count > 0 {
            let a = r.start - 1;
            lemma_join_grows(lines, a, n - 1);
            assert(lines[n - 1] == line);
            if a < n - 1 {
                assert(r.text == p.text + with_newline(line));
            } else {
                assert(r.text =~= with_newline(line));
            }
        }
    }
}

/// Law: every chunk of code says what the lines of its range say, no more and no less, or is a piece of
/// the one line that it names.
pub proof fn law_chunk_lines_say_their_lines(lines: Seq<Seq<char>>, starts: Seq<bool>)
    requires
        lines.len() == starts.len(),
    ensures
        forall|i: int|
            0 <= i < chunk_lines_spec(lines, starts).len() ==> says_its_lines(
                lines,
                #[trigger] chunk_lines_spec(lines, starts)[i],
            ),
{
    let p = packed(lines, starts);
    let n = lines.len() as int;
    let all = chunk_lines_spec(lines, starts);
    lemma_packed_says(lines, starts);
    lemma_packed_ok(lines, starts);
    assert forall|i: int| 0 <= i < all.len() implies says_its_lines(lines, #[trigger] all[i]) by {
        if i < p.chunks.len() {
            assert(all[i] == p.chunks[i]);
        } else {
            assert(all[i] == (CodeChunk { text: p.text, start: p.start, end: n }));
        }
    }
}

/// Whether no line within a chunk but its first starts a definition after four or more of its lines.
pub open spec fn opens_at_definitions(starts: Seq<bool>, c: CodeChunk) -> bool {
    forall|x: int| c.start < x <= c.end && #[trigger] starts[x - 1] ==> x - c.start < 4
}

proof fn lemma_packed_opens(lines: Seq<Seq<char>>, starts: Seq<bool>)
    requires
        lines.len() == starts.len(),
    ensures
        ({
            let p = packed(lines, starts);
            &&& forall|i: int|
                0 <= i < p.chunks.len() ==> opens_at_definitions(starts, #[trigger] p.chunks[i])
            &&& p.count > 0 ==> opens_at_definitions(
                starts,
                CodeChunk { text: p.text, start: p.start, end: lines.len() as int },
            )
        }),
    decreases lines.len(),
{
    if lines.len() > 0 {
        let before = lines.drop_last();
        let marks = starts.drop_last();
        let line = lines.last();
        let n = lines.len() as int;
        let p = packed(before, marks);
        let r = packed(lines, starts);
        lemma_packed_opens(before, marks);
        lemma_packed_ok(before, marks);
        lemma_covers_consecutive(p.chunks, before.len() - p.count);
        let rest = CodeChunk { text: p.text, start: p.start, end: n - 1 };
        assert forall|c: CodeChunk|
            1 <= c.start && c.end < n && opens_at_definitions(marks, c) implies #[trigger] opens_at_definitions(
            starts,
            c,
        ) by {
            assert forall|x: int| c.start < x <= c.end && #[trigger] starts[x - 1] implies x - c.start < 4 by {
                assert(marks[x - 1] == starts[x - 1]);
            }
        }
        assert forall|i: int| 0 <= i < r.chunks.len() implies opens_at_definitions(
            starts,
            #[trigger] r.chunks[i],
        ) by {
            if i < p.chunks.len() {
                assert(r.chunks[i] == p.chunks[i]);
            } else if i == p.chunks.len() && p.count > 0 {
                assert(r.chunks[i] == rest);
            }
        }
        if r.count > 0 {
            let c = CodeChunk { text: r.text, start: r.start, end: n };
            assert forall|x: int| c.start < x <= c.end && #[trigger] starts[x - 1] implies x - c.start < 4 by {
                if x < n {
                    assert(opens_at_definitions(starts, rest));
                } else {
                    assert(starts[n - 1] == starts.last());
                }
            }
        }
    }
}

/// Law: a line that starts a definition opens a new chunk once four lines are buffered.
pub proof fn law_definitions_open_chunks(lines: Seq<Seq<char>>, starts: Seq<bool>)
    requires
        lines.len() == starts.len(),
    ensures
        forall|i: int|
            0 <= i < chunk_lines_spec(lines, starts).len() ==> opens_at_definitions(
                starts,
                #[trigger] chunk_lines_spec(lines, starts)[i],
            ),
{
    let p = packed(lines, starts);
    let all = chunk_lines_spec(lines, starts);
    lemma_packed_opens(lines, starts);
    assert forall|i: int| 0 <= i < all.len() implies opens_at_definitions(starts, #[trigger] all[i]) by {
        if i < p.chunks.len() {
            assert(all[i] == p.chunks[i]);
        }
    }
}

// ---------------------------------------------------------------------------------------------
// Prose.
// ---------------------------------------------------------------------------------------------

/// Whether a blank line (two line feeds in a row) stands at index `i`.
pub open spec fn blank_line_at(s: Seq<char>, i: int) -> bool {
    0 <= i && i + 1 < s.len() && s[i] == '\n' && s[i + 1] == '\n'
}

/// The paragraphs of `s` from `start` on, where no blank line stands between `start` and `i`:
/// the text is cut at each pair of line feeds, from left to right.
pub open spec fn paragraphs_from(s: Seq<char>, start: int, i: int) -> Seq<Seq<char>>
    decreases s.len() - i,
{
    if i < 0 || i >= s.len() {
        seq![s.subrange(start, s.len() as int)]
    } else if blank_line_at(s, i) {
        seq![s.subrange(start, i)] + paragraphs_from(s, i + 2, i + 2)
    } else {
        paragraphs_from(s, start, i + 1)
    }
}

/// The paragraphs of a text.
pub open spec fn paragraphs_text(s: Seq<char>) -> Seq<Seq<char>> {
    paragraphs_from(s, 0, 0)
}

fn paragraphs(s: &str) -> (r: Vec<String>)
    ensures
        texts(r@) == paragraphs_text(s@),
{
    let cs = chars_of(s);
    let mut out: Vec<String> = Vec::new();
    let mut start: usize = 0;
    let mut i: usize = 0;
    assert(texts(out@) + paragraphs_from(cs@, 0, 0) =~= paragraphs_text(s@));
    while i < cs.len()
        invariant
            cs@ == s@,
            start <= i <= cs@.len(),
            texts(out@) + paragraphs_from(cs@, start as int, i as int) == paragraphs_text(s@),
        decreases cs@.len() - i,
    {
        if cs[i] == '\n' && i + 1 < cs.len() && cs[i + 1] == '\n' {
            let ghost rest = paragraphs_from(cs@, i + 2, i + 2);
            let ghost out0 = out@;
            let para = string_from(&cs, start, i);
            out.push(para);
            proof {
                lemma_texts_push(out0, para);
                assert(texts(out@) + rest =~= texts(out0) + (seq![para@] + rest));
            }
            i += 2;
            start = i;
        } else {
            i += 1;
        }
    }
    let ghost out0 = out@;
    let para = string_from(&cs, start, cs.len());
    out.push(para);
    proof {
        lemma_texts_push(out0, para);
        assert(texts(out@) =~= texts(out0) + seq![para@]);
    }
    out
}

/// Runs of `size` characters, the last one shorter if need be.
pub open spec fn runs(s: Seq<char>, size: int) -> Seq<Seq<char>>
    decreases s.len(),
{
    if size <= 0 || s.len() == 0 {
        Seq::empty()
    } else if s.len() <= size {
        seq![s]
    } else {
        seq![s.take(size)] + runs(s.skip(size), size)
    }
}

/// The chunks so far and the one that is being filled.
#[verifier::ext_equal]
pub struct ProsePacking {
    pub chunks: Seq<Seq<char>>,
    pub text: Seq<char>,
}

/// The packing with its buffer emitted, unless it is empty.
pub open spec fn prose_flushed(p: ProsePacking) -> ProsePacking {
    if p.text.len() > 0 {
        ProsePacking { chunks: p.chunks.push(p.text), text: Seq::empty() }
    } else {
        p
    }
}

/// The packing after one more paragraph, without its surrounding white space. A paragraph
/// longer than the cap is cut into runs of the cap's length; others are packed together, with a
/// line feed between them, as long as they fit.
pub open spec fn pack_paragraph(p: ProsePacking, para: Seq<char>) -> ProsePacking {
    let t = trim_text(para);
    if t.len() == 0 {
        p
    } else if t.len() > MAX_CHUNK_CHARS {
        let q = prose_flushed(p);
        ProsePacking { chunks: q.chunks + runs(t, MAX_CHUNK_CHARS as int), text: q.text }
    } else {
        let q = if p.text.len() + t.len() + 1 > MAX_CHUNK_CHARS {
            prose_flushed(p)
        } else {
            p
        };
        ProsePacking {
            chunks: q.chunks,
            text: if q.text.len() > 0 {
                q.text.push('\n') + t
            } else {
                t
            },
        }
    }
}

/// The packing after all of `paras`.
pub open spec fn packed_prose(paras: Seq<Seq<char>>) -> ProsePacking
    decreases paras.len(),
{
    if paras.len() == 0 {
        ProsePacking { chunks: Seq::empty(), text: Seq::empty() }
    } else {
        pack_paragraph(packed_prose(paras.drop_last()), paras.last())
    }
}

/// The chunks of a text of prose.
pub open spec fn chunk_spec(content: Seq<char>) -> Seq<Seq<char>> {
    prose_flushed(packed_prose(paragraphs_text(content))).chunks
}

fn push_runs(t: &str, chunks: &mut Vec<String>)
    requires
        t@.len() > 0,
    ensures
        texts(final(chunks)@) == texts(old(chunks)@) + runs(t@, MAX_CHUNK_CHARS as int),
{
    let cs = chars_of(t);
    let ghost before = texts(chunks@);
    let mut i: usize = 0;
    assert(cs@.skip(0) =~= cs@);
    while cs.len() - i > MAX_CHUNK_CHARS
        invariant
            i < cs@.len(),
            cs@ == t@,
            texts(chunks@) + runs(cs@.skip(i as int), MAX_CHUNK_CHARS as int) == before + runs(
                t@,
                MAX_CHUNK_CHARS as int,
            ),
        decreases cs@.len() - i,
    {
        let ghost rest = cs@.skip(i as int);
        let ghost chunks0 = chunks@;
        let run = string_from(&cs, i, i + MAX_CHUNK_CHARS);
        chunks.push(run);
        proof {
            assert(run@ =~= rest.take(MAX_CHUNK_CHARS as int));
            assert(rest.skip(MAX_CHUNK_CHARS as int) =~= cs@.skip(i + MAX_CHUNK_CHARS));
            lemma_texts_push(chunks0, run);
            let tail = runs(cs@.skip(i + MAX_CHUNK_CHARS), MAX_CHUNK_CHARS as int);
            assert(texts(chunks@) + tail =~= texts(chunks0) + (seq![run@] + tail));
        }
        i += MAX_CHUNK_CHARS;
    }
    let ghost chunks0 = chunks@;
    let run = string_from(&cs, i, cs.len());
    chunks.push(run);
    proof {
        assert(run@ =~= cs@.skip(i as int));
        lemma_texts_push(chunks0, run);
        assert(texts(chunks@) =~= texts(chunks0) + seq![run@]);
    }
}

/// Splits prose into chunks: by paragraph (at blank lines), packed up to the character cap,
/// with hard splitting of any single paragraph that exceeds it.
pub fn chunk(content: &str) -> (r: Vec<String>)
    ensures
        texts(r@) == chunk_spec(content@),
{
    let paras = paragraphs(content);
    let ghost ps = texts(paras@);
    let mut chunks: Vec<String> = Vec::new();
    let mut cur = String::new();
    assert(ps.take(0) =~= Seq::<Seq<char>>::empty());
    assert(texts(chunks@) =~= Seq::<Seq<char>>::empty());
    for i in 0..paras.len()
        invariant
            ps == texts(paras@),
            packed_prose(ps.take(i as int)).chunks == texts(chunks@),
            packed_prose(ps.take(i as int)).text == cur@,
            cur@.len() <= MAX_CHUNK_CHARS,
    {
        let ghost p = packed_prose(ps.take(i as int));
        proof {
            assert(ps.take(i + 1).drop_last() =~= ps.take(i as int));
            assert(ps.take(i + 1).last() == paras@[i as int]@);
        }
        let t = trim(paras[i].as_str());
        let len: usize = char_count(t.as_str());
        if len > 0 {
            let cur_len: usize = char_count(cur.as_str());
            if len > MAX_CHUNK_CHARS || cur_len + len + 1 > MAX_CHUNK_CHARS {
                if cur_len > 0 {
                    let ghost chunks0 = chunks@;
                    let ghost cur0 = cur;
                    chunks.push(cur);
                    proof {
                        lemma_texts_push(chunks0, cur0);
                    }
                    cur = String::new();
                }
                assert(texts(chunks@) == prose_flushed(p).chunks);
                assert(cur@ == prose_flushed(p).text);
            }
            if len > MAX_CHUNK_CHARS {
                push_runs(t.as_str(), &mut chunks);
            } else {
                if !cur.as_str().is_empty() {
                    cur.push('\n');
                }
                cur.push_str(t.as_str());
                assert(cur@ =~= pack_paragraph(p, paras@[i as int]@).text);
            }
        }
    }
    assert(ps.take(ps.len() as int) =~= ps);
    if !cur.as_str().is_empty() {
        let ghost chunks0 = chunks@;
        let ghost cur0 = cur;
        chunks.push(cur);
        proof {
            lemma_texts_push(chunks0, cur0);
        }
    }
    chunks
}

proof fn lemma_runs_bounded(s: Seq<char>, size: int)
    requires
        size > 0,
    ensures
        forall|i: int|
            0 <= i < runs(s, size).len() ==> 0 < (#[trigger] runs(s, size)[i]).len() <= size,
    decreases s.len(),
{
    if s.len() > size {
        let rest = runs(s.skip(size), size);
        lemma_runs_bounded(s.skip(size), size);
        assert forall|i: int| 0 <= i < runs(s, size).len() implies 0 < (#[trigger] runs(
            s,
            size,
        )[i]).len() <= size by {
            if i > 0 {
                assert(runs(s, size)[i] == rest[i - 1]);
            }
        }
    }
}

proof fn lemma_packed_prose_bounded(paras: Seq<Seq<char>>)
    ensures
        packed_prose(paras).text.len() <= MAX_CHUNK_CHARS,
        forall|i: int|
            0 <= i < packed_prose(paras).chunks.len() ==> 0 < (#[trigger] packed_prose(
                paras,
            ).chunks[i]).len() <= MAX_CHUNK_CHARS,
    decreases paras.len(),
{
    if paras.len() > 0 {
        lemma_packed_prose_bounded(paras.drop_last());
        let t = trim_text(paras.last());
        lemma_runs_bounded(t, MAX_CHUNK_CHARS as int);
    }
}

/// Law: no chunk of prose is empty, and none is longer than the cap.
pub proof fn law_chunk_bounded(content: Seq<char>)
    ensures
        forall|i: int|
            0 <= i < chunk_spec(content).len() ==> 0 < (#[trigger] chunk_spec(content)[i]).len() <= 800,
{
    lemma_packed_prose_bounded(paragraphs_text(content));
}

/// The characters of a text that are not white space, in their order.
pub open spec fn solid(s: Seq<char>) -> Seq<char>
    decreases s.len(),
{
    if s.len() == 0 {
        Seq::empty()
    } else if is_white_space(s.last()) {
        solid(s.drop_last())
    } else {
        solid(s.drop_last()).push(s.last())
    }
}

/// Pieces of text put together.
pub open spec fn pieces_text(pieces: Seq<Seq<char>>) -> Seq<char>
    decreases pieces.len(),
{
    if pieces.len() == 0 {
        Seq::empty()
    } else {
        pieces_text(pieces.drop_last()) + pieces.last()
    }
}

/// Whether a text holds no blank line.
pub open spec fn unbroken(s: Seq<char>) -> bool {
    forall|i: int| !#[trigger] blank_line_at(s, i)
}

/// Whether a text neither begins nor ends with white space and holds no blank line.
spec fn tidy(s: Seq<char>) -> bool {
    &&& s.len() > 0
    &&& !is_white_space(s[0])
    &&& !is_white_space(s.last())
    &&& unbroken(s)
}

proof fn lemma_solid_add(a: Seq<char>, b: Seq<char>)
    ensures
        solid(a + b) == solid(a) + solid(b),
    decreases b.len(),
{
    if b.len() == 0 {
        assert(a + b =~= a);
        assert(solid(a) + solid(b) =~= solid(a));
    } else {
        assert((a + b).drop_last() =~= a + b.drop_last());
        lemma_solid_add(a, b.drop_last());
        assert(solid(a + b) =~= solid(a) + solid(b));
    }
}

proof fn lemma_pieces_text_add(a: Seq<Seq<char>>, b: Seq<Seq<char>>)
    ensures
        pieces_text(a + b) == pieces_text(a) + pieces_text(b),
    decreases b.len(),
{
    if b.len() == 0 {
        assert(a + b =~= a);
        assert(pieces_text(a) + pieces_text(b) =~= pieces_text(a));
    } else {
        assert((a + b).drop_last() =~= a + b.drop_last());
        lemma_pieces_text_add(a, b.drop_last());
        assert(pieces_text(a + b) =~= pieces_text(a) + pieces_text(b));
    }
}

proof fn lemma_one_piece(p: Seq<char>)
    ensures
        pieces_text(seq![p]) == p,
{
    assert(seq![p].drop_last() =~= Seq::empty());
    assert(pieces_text(Seq::<Seq<char>>::empty()) =~= Seq::<char>::empty());
    assert(pieces_text(seq![p]) =~= p);
}

proof fn lemma_trim_start(s: Seq<char>)
    ensures
        solid(trim_start_text(s)) == solid(s),
        unbroken(s) ==> unbroken(trim_start_text(s)),
        trim_start_text(s).len() > 0 ==> !is_white_space(trim_start_text(s)[0]),
    decreases s.len(),
{
    if s.len() > 0 && is_white_space(s[0]) {
        let t = s.skip(1);
        lemma_trim_start(t);
        let first = seq![s[0]];
        assert(s =~= first + t);
        lemma_solid_add(first, t);
        assert(first.drop_last() =~= Seq::empty());
        assert(solid(Seq::<char>::empty()) =~= Seq::<char>::empty());
        assert(solid(first) =~= Seq::empty());
        assert(solid(s) =~= solid(t));
        if unbroken(s) {
            assert forall|i: int| !#[trigger] blank_line_at(t, i) by {
                assert(!blank_line_at(s, i + 1));
            }
        }
    }
}

proof fn lemma_trim_end(s: Seq<char>)
    ensures
        solid(trim_end_text(s)) == solid(s),
        unbroken(s) ==> unbroken(trim_end_text(s)),
        trim_end_text(s).len() > 0 ==> !is_white_space(trim_end_text(s).last())
            && trim_end_text(s)[0] == s[0],
    decreases s.len(),
{
    if s.len() > 0 && is_white_space(s.last()) {
        let t = s.drop_last();
        lemma_trim_end(t);
        if unbroken(s) {
            assert forall|i: int| !#[trigger] blank_line_at(t, i) by {
                assert(!blank_line_at(s, i));
            }
        }
    }
}

proof fn lemma_trim(s: Seq<char>)
    ensures
        solid(trim_text(s)) == solid(s),
        unbroken(s) && trim_text(s).len() > 0 ==> tidy(trim_text(s)),
{
    lemma_trim_start(s);
    lemma_trim_end(trim_start_text(s));
}

proof fn lemma_paragraphs_from(s: Seq<char>, start: int, i: int)
    requires
        0 <= start <= i <= s.len(),
        forall|j: int| start <= j < i ==> !#[trigger] blank_line_at(s, j),
    ensures
        solid(pieces_text(paragraphs_from(s, start, i))) == solid(s.skip(start)),
        forall|k: int|
            0 <= k < paragraphs_from(s, start, i).len() ==> unbroken(
                #[trigger] paragraphs_from(s, start, i)[k],
            ),
    decreases s.len() - i,
{
    let all = paragraphs_from(s, start, i);
    if i >= s.len() {
        let p = s.subrange(start, s.len() as int);
        assert(p =~= s.skip(start));
        lemma_one_piece(p);
        assert forall|k: int| !#[trigger] blank_line_at(p, k) by {
            assert(!blank_line_at(s, start + k) || k < 0 || start + k >= i);
        }
    } else if blank_line_at(s, i) {
        let p = s.subrange(start, i);
        let rest = paragraphs_from(s, i + 2, i + 2);
        lemma_paragraphs_from(s, i + 2, i + 2);
        lemma_one_piece(p);
        lemma_pieces_text_add(seq![p], rest);
        lemma_solid_add(p, pieces_text(rest));
        let gap = s.subrange(i, i + 2);
        assert(s.skip(start) =~= p + gap + s.skip(i + 2));
        lemma_solid_add(p + gap, s.skip(i + 2));
        lemma_solid_add(p, gap);
        assert(gap.drop_last() =~= seq!['\n']);
        assert(seq!['\n'].drop_last() =~= Seq::empty());
        assert(solid(Seq::<char>::empty()) =~= Seq::<char>::empty());
        assert(solid(seq!['\n']) =~= Seq::empty());
        assert(solid(gap) =~= Seq::empty());
        assert(solid(s.skip(start)) =~= solid(pieces_text(all)));
        assert forall|k: int| !#[trigger] blank_line_at(p, k) by {
            assert(!blank_line_at(s, start + k) || k < 0 || start + k >= i);
        }
        assert forall|k: int| 0 <= k < all.len() implies unbroken(#[trigger] all[k]) by {
            if k > 0 {
                assert(all[k] == rest[k - 1]);
            }
        }
    } else {
        lemma_paragraphs_from(s, start, i + 1);
    }
}

proof fn lemma_runs_text(s: Seq<char>, size: int)
    requires
        size > 0,
    ensures
        pieces_text(runs(s, size)) == s,
    decreases s.len(),
{
    if s.len() == 0 {
        assert(s =~= pieces_text(runs(s, size)));
    } else if s.len() <= size {
        lemma_one_piece(s);
    } else {
        let head = s.take(size);
        let rest = s.skip(size);
        lemma_runs_text(rest, size);
        lemma_one_piece(head);
        lemma_pieces_text_add(seq![head], runs(rest, size));
        assert(head + rest =~= s);
    }
}

proof fn lemma_prose_flushed_text(p: ProsePacking)
    ensures
        pieces_text(prose_flushed(p).chunks) + prose_flushed(p).text == pieces_text(p.chunks) + p.text,
        prose_flushed(p).text.len() == 0,
{
    let q = prose_flushed(p);
    if p.text.len() > 0 {
        assert(q.chunks.drop_last() =~= p.chunks);
    }
    assert(pieces_text(q.chunks) + q.text =~= pieces_text(p.chunks) + p.text);
}

proof fn lemma_packed_prose_solid(paras: Seq<Seq<char>>)
    ensures
        ({
            let p = packed_prose(paras);
            solid(pieces_text(p.chunks) + p.text) == solid(pieces_text(paras))
        }),
    decreases paras.len(),
{
    let r = packed_prose(paras);
    if paras.len() == 0 {
        assert(pieces_text(r.chunks) + r.text =~= pieces_text(paras));
    } else {
        let head = paras.drop_last();
        let p = packed_prose(head);
        let t = trim_text(paras.last());
        lemma_packed_prose_solid(head);
        lemma_trim(paras.last());
        lemma_solid_add(pieces_text(head), paras.last());
        let before = pieces_text(p.chunks) + p.text;
        lemma_prose_flushed_text(p);
        if t.len() == 0 {
            assert(t =~= Seq::empty());
            assert(solid(t) =~= Seq::empty());
            assert(solid(before) + solid(t) =~= solid(before));
        } else if t.len() > MAX_CHUNK_CHARS {
            let q = prose_flushed(p);
            let more = runs(t, MAX_CHUNK_CHARS as int);
            lemma_runs_text(t, MAX_CHUNK_CHARS as int);
            lemma_pieces_text_add(q.chunks, more);
            assert(pieces_text(r.chunks) + r.text =~= before + t);
            lemma_solid_add(before, t);
        } else {
            let q = if p.text.len() + t.len() + 1 > MAX_CHUNK_CHARS {
                prose_flushed(p)
            } else {
                p
            };
            if q.text.len() > 0 {
                let feed = seq!['\n'];
                assert(pieces_text(r.chunks) + r.text =~= before + feed + t);
                lemma_solid_add(before + feed, t);
                lemma_solid_add(before, feed);
                assert(feed.drop_last() =~= Seq::empty());
                assert(solid(Seq::<char>::empty()) =~= Seq::<char>::empty());
                assert(solid(feed) =~= Seq::empty());
                assert(solid(before) + solid(feed) =~= solid(before));
            } else {
                assert(pieces_text(r.chunks) + r.text =~= before + t);
                lemma_solid_add(before, t);
            }
        }
    }
}

/// Law: chunking prose loses nothing but white space. The chunks hold the characters of the text
/// that are not white space, all of them and in their order.
pub proof fn law_chunk_keeps_every_word(content: Seq<char>)
    ensures
        solid(pieces_text(chunk_spec(content))) == solid(content),
{
    let paras = paragraphs_text(content);
    let p = packed_prose(paras);
    lemma_paragraphs_from(content, 0, 0);
    assert(content.skip(0) =~= content);
    lemma_packed_prose_solid(paras);
    lemma_prose_flushed_text(p);
    let q = prose_flushed(p);
    assert(pieces_text(q.chunks) + q.text =~= pieces_text(q.chunks));
}

proof fn lemma_packed_prose_tidy(paras: Seq<Seq<char>>)
    requires
        forall|i: int|
            0 <= i < paras.len() ==> unbroken(#[trigger] paras[i]) && trim_text(paras[i]).len()
                <= MAX_CHUNK_CHARS,
    ensures
        ({
            let p = packed_prose(paras);
            &&& p.text.len() > 0 ==> tidy(p.text)
            &&& forall|i: int| 0 <= i < p.chunks.len() ==> tidy(#[trigger] p.chunks[i])
        }),
    decreases paras.len(),
{
    if paras.len() > 0 {
        let head = paras.drop_last();
        let p = packed_prose(head);
        let r = packed_prose(paras);
        let last = paras.last();
        let t = trim_text(last);
        assert(last == paras[paras.len() - 1]);
        assert forall|i: int| 0 <= i < head.len() implies unbroken(#[trigger] head[i]) && trim_text(
            head[i],
        ).len() <= MAX_CHUNK_CHARS by {
            assert(head[i] == paras[i]);
        }
        lemma_packed_prose_tidy(head);
        lemma_trim(last);
        if t.len() > 0 && p.text.len() > 0 && r.chunks == p.chunks {
            assert(r.text == p.text.push('\n') + t);
            let n = p.text.len() as int;
            assert forall|i: int| !#[trigger] blank_line_at(r.text, i) by {
                if i + 1 < n {
                    assert(!blank_line_at(p.text, i));
                } else if i > n {
                    assert(!blank_line_at(t, i - n - 1));
                } else if i == n - 1 {
                    assert(r.text[i] == p.text.last());
                } else {
                    assert(i + 1 < r.text.len() ==> r.text[i + 1] == t[0]);
                }
            }
            assert(r.text[0] == p.text[0]);
            assert(r.text.last() == t.last());
        }
    }
}

proof fn lemma_paragraphs_unbroken(s: Seq<char>, i: int)
    requires
        0 <= i <= s.len(),
        unbroken(s),
    ensures
        paragraphs_from(s, 0, i) == seq![s],
    decreases s.len() - i,
{
    if i < s.len() {
        assert(!blank_line_at(s, i));
        lemma_paragraphs_unbroken(s, i + 1);
    } else {
        assert(s.subrange(0, s.len() as int) =~= s);
    }
}

/// Law: where no paragraph is longer than the cap, a chunk of prose is chunked into itself.
pub proof fn law_chunk_of_chunk(content: Seq<char>)
    requires
        forall|i: int|
            0 <= i < paragraphs_text(content).len() ==> trim_text(
                #[trigger] paragraphs_text(content)[i],
            ).len() <= MAX_CHUNK_CHARS,
    ensures
        forall|i: int|
            0 <= i < chunk_spec(content).len() ==> chunk_spec(#[trigger] chunk_spec(content)[i]) == seq![
                chunk_spec(content)[i],
            ],
{
    let paras = paragraphs_text(content);
    lemma_paragraphs_from(content, 0, 0);
    lemma_packed_prose_tidy(paras);
    law_chunk_bounded(content);
    assert forall|i: int| 0 <= i < chunk_spec(content).len() implies chunk_spec(
        #[trigger] chunk_spec(content)[i],
    ) == seq![chunk_spec(content)[i]] by {
        let c = chunk_spec(content)[i];
        assert(tidy(c));
        lemma_paragraphs_unbroken(c, 0);
        assert(seq![c].drop_last() =~= Seq::empty());
        let none = packed_prose(Seq::empty());
        assert(none.text.len() == 0 && none.chunks.len() == 0);
        assert(trim_text(c) == c);
        assert(packed_prose(seq![c]).text == c);
        assert(chunk_spec(c) =~= seq![c]);
    }
}

proof fn lemma_packed_prose_full(paras: Seq<Seq<char>>)
    requires
        forall|i: int| 0 <= i < paras.len() ==> trim_text(#[trigger] paras[i]).len() <= 800,
    ensures
        ({
            let p = packed_prose(paras);
            &&& forall|i: int|
                0 <= i < p.chunks.len() - 1 ==> (#[trigger] p.chunks[i]).len() + p.chunks[i + 1].len() + 1 > 800
            &&& p.chunks.len() > 0 ==> p.text.len() > 0 && p.chunks.last().len() + p.text.len() + 1 > 800
        }),
    decreases paras.len(),
{
    if paras.len() > 0 {
        let head = paras.drop_last();
        assert forall|i: int| 0 <= i < head.len() implies trim_text(#[trigger] head[i]).len() <= 800 by {
            assert(head[i] == paras[i]);
        }
        lemma_packed_prose_full(head);
        let p = packed_prose(head);
        let r = packed_prose(paras);
        assert(trim_text(paras[paras.len() - 1]).len() <= 800);
        assert forall|i: int| 0 <= i < r.chunks.len() - 1 implies (#[trigger] r.chunks[i]).len() + r.chunks[i
            + 1].len() + 1 > 800 by {
            assert(r.chunks[i] == p.chunks[i]);
            if i + 1 < p.chunks.len() {
                assert(r.chunks[i + 1] == p.chunks[i + 1]);
            }
        }
    }
}

/// Law: paragraphs are packed as far as they go. Where no paragraph is longer than 800 characters, no two
/// neighbouring chunks of prose would fit into one.
pub proof fn law_chunk_fills_chunks(content: Seq<char>)
    requires
        forall|i: int|
            0 <= i < paragraphs_text(content).len() ==> trim_text(
                #[trigger] paragraphs_text(content)[i],
            ).len() <= 800,
    ensures
        forall|i: int|
            0 <= i < chunk_spec(content).len() - 1 ==> (#[trigger] chunk_spec(content)[i]).len()
                + chunk_spec(content)[i + 1].len() + 1 > 800,
{
    let p = packed_prose(paragraphs_text(content));
    lemma_packed_prose_full(paragraphs_text(content));
    assert forall|i: int| 0 <= i < chunk_spec(content).len() - 1 implies (#[trigger] chunk_spec(content)[i]).len()
        + chunk_spec(content)[i + 1].len() + 1 > 800 by {
        assert(chunk_spec(content)[i] == p.chunks[i]);
        if i + 1 < p.chunks.len() {
            assert(chunk_spec(content)[i + 1] == p.chunks[i + 1]);
        }
    }
}

/// Law: a character of Chinese, Japanese or Korean writing counts as a token of its own, and of other
/// characters four make a token, as do fewer at the end.
pub proof fn law_tokens(s: Seq<char>)
    ensures
        (forall|i: int| 0 <= i < s.len() ==> cjk(#[trigger] s[i])) ==> tokens(s) == s.len(),
        (forall|i: int| 0 <= i < s.len() ==> !cjk(#[trigger] s[i])) ==> 4 * tokens(s) >= s.len() && 4 * tokens(s)
            < s.len() + 4,
    decreases s.len(),
{
    if s.len() > 0 {
        let head = s.drop_last();
        law_tokens(head);
        if forall|i: int| 0 <= i < s.len() ==> cjk(#[trigger] s[i]) {
            assert forall|i: int| 0 <= i < head.len() implies cjk(#[trigger] head[i]) by {
                assert(head[i] == s[i]);
            }
            assert(cjk(s[s.len() - 1]));
            lemma_all_cjk(head);
        }
        if forall|i: int| 0 <= i < s.len() ==> !cjk(#[trigger] s[i]) {
            assert forall|i: int| 0 <= i < head.len() implies !cjk(#[trigger] head[i]) by {
                assert(head[i] == s[i]);
            }
            assert(!cjk(s[s.len() - 1]));
            lemma_no_cjk(head);
        }
    }
}

proof fn lemma_all_cjk(s: Seq<char>)
    requires
        forall|i: int| 0 <= i < s.len() ==> cjk(#[trigger] s[i]),
    ensures
        cjk_count(s) == s.len(),
    decreases s.len(),
{
    if s.len() > 0 {
        let head = s.drop_last();
        assert forall|i: int| 0 <= i < head.len() implies cjk(#[trigger] head[i]) by {
            assert(head[i] == s[i]);
        }
        assert(cjk(s[s.len() - 1]));
        lemma_all_cjk(head);
    }
}

proof fn lemma_no_cjk(s: Seq<char>)
    requires
        forall|i: int| 0 <= i < s.len() ==> !cjk(#[trigger] s[i]),
    ensures
        cjk_count(s) == 0,
    decreases s.len(),
{
    if s.len() > 0 {
        let head = s.drop_last();
        assert forall|i: int| 0 <= i < head.len() implies !cjk(#[trigger] head[i]) by {
            assert(head[i] == s[i]);
        }
        assert(!cjk(s[s.len() - 1]));
        lemma_no_cjk(head);
    }
}

proof fn lemma_no_blank_line(s: Seq<char>, i: int)
    requires
        0 <= i <= s.len(),
        forall|k: int| i <= k < s.len() - 1 ==> !(#[trigger] s[k] == '\n' && s[k + 1] == '\n'),
    ensures
        paragraphs_from(s, 0, i) == seq![s],
    decreases s.len() - i,
{
    if i < s.len() {
        assert(!blank_line_at(s, i)) by {
            if i + 1 < s.len() {
                assert(!(s[i] == '\n' && s[i + 1] == '\n'));
            }
        }
        lemma_no_blank_line(s, i + 1);
    } else {
        assert(s.subrange(0, s.len() as int) =~= s);
    }
}

proof fn lemma_runs(s: Seq<char>)
    ensures
        pieces_text(runs(s, 800)) == s,
        forall|i: int| 0 <= i < runs(s, 800).len() - 1 ==> (#[trigger] runs(s, 800)[i]).len() == 800,
    decreases s.len(),
{
    let all = runs(s, 800);
    if s.len() == 0 {
        assert(pieces_text(all) =~= s);
    } else if s.len() <= 800 {
        assert(all.drop_last() =~= Seq::empty());
        assert(pieces_text(Seq::<Seq<char>>::empty()) =~= Seq::empty());
        assert(pieces_text(all) =~= s);
    } else {
        let first = s.take(800);
        let rest = runs(s.skip(800), 800);
        lemma_runs(s.skip(800));
        lemma_pieces_front(first, rest);
        assert(all == seq![first] + rest);
        assert(first + s.skip(800) =~= s);
        assert forall|i: int| 0 <= i < all.len() - 1 implies (#[trigger] all[i]).len() == 800 by {
            if i > 0 {
                assert(all[i] == rest[i - 1]);
            }
        }
    }
}

proof fn lemma_pieces_front(first: Seq<char>, rest: Seq<Seq<char>>)
    ensures
        pieces_text(seq![first] + rest) == first + pieces_text(rest),
    decreases rest.len(),
{
    let all = seq![first] + rest;
    if rest.len() == 0 {
        assert(all =~= seq![first]);
        assert(all.drop_last() =~= Seq::empty());
        assert(pieces_text(Seq::<Seq<char>>::empty()) =~= Seq::empty());
        assert(pieces_text(rest) =~= Seq::empty());
        assert(pieces_text(all) =~= first + pieces_text(rest));
    } else {
        lemma_pieces_front(first, rest.drop_last());
        assert(all.drop_last() =~= seq![first] + rest.drop_last());
        assert(pieces_text(all) =~= first + pieces_text(rest));
    }
}

/// Law: prose without a blank line is one paragraph: one chunk where it has at most eight hundred characters,
/// and else cut into chunks of eight hundred that together say what it says, but for the white space around
/// it.
pub proof fn law_one_paragraph(content: Seq<char>)
    requires
        forall|k: int| 0 <= k < content.len() - 1 ==> !(#[trigger] content[k] == '\n' && content[k + 1] == '\n'),
    ensures
        0 < trim_text(content).len() <= 800 ==> chunk_spec(content) == seq![trim_text(content)],
        trim_text(content).len() == 0 ==> chunk_spec(content).len() == 0,
        pieces_text(chunk_spec(content)) == trim_text(content),
        forall|i: int| 0 <= i < chunk_spec(content).len() - 1 ==> (#[trigger] chunk_spec(content)[i]).len() == 800,
{
    lemma_no_blank_line(content, 0);
    let t = trim_text(content);
    let paras = seq![content];
    assert(paras.drop_last() =~= Seq::empty());
    let none = ProsePacking { chunks: Seq::empty(), text: Seq::empty() };
    assert(packed_prose(paras.drop_last()) == none);
    let p = packed_prose(paras);
    assert(p == pack_paragraph(none, content));
    lemma_runs(t);
    if t.len() == 0 {
        assert(chunk_spec(content) =~= Seq::empty());
        assert(pieces_text(chunk_spec(content)) =~= t);
    } else if t.len() > 800 {
        assert(chunk_spec(content) =~= runs(t, 800));
    } else {
        assert(chunk_spec(content) =~= seq![t]);
        assert(runs(t, 800) =~= seq![t]);
    }
}

/// Law: a blank line parts two paragraphs: where each is short and both fit into one chunk, they stand in it
/// on lines of their own.
pub proof fn law_two_paragraphs(a: Seq<char>, b: Seq<char>)
    requires
        !a.contains('\n'),
        !b.contains('\n'),
        trim_text(a).len() > 0,
        trim_text(b).len() > 0,
        trim_text(a).len() <= 800,
        trim_text(b).len() <= 800,
    ensures
        chunk_spec(a + seq!['\n', '\n'] + b) == if trim_text(a).len() + trim_text(b).len() + 1 <= 800 {
            seq![trim_text(a) + seq!['\n'] + trim_text(b)]
        } else {
            seq![trim_text(a), trim_text(b)]
        },
{
    let s = a + seq!['\n', '\n'] + b;
    let paras = paragraphs_text(s);
    lemma_two_paragraphs(a, b, 0);
    assert(paras =~= seq![a, b]);
    assert(paras.drop_last() =~= seq![a]);
    assert(seq![a].drop_last() =~= Seq::empty());
    let none = ProsePacking { chunks: Seq::empty(), text: Seq::empty() };
    let x = trim_text(a);
    let y = trim_text(b);
    assert(packed_prose(seq![a].drop_last()) == none);
    let p = packed_prose(seq![a]);
    assert(p == pack_paragraph(none, a));
    assert(p.chunks =~= Seq::empty());
    assert(p.text == x);
    let q = packed_prose(paras);
    assert(q == pack_paragraph(p, b));
    assert(x.push('\n') + y =~= x + seq!['\n'] + y);
    if x.len() + y.len() + 1 <= 800 {
        assert(chunk_spec(s) =~= seq![x + seq!['\n'] + y]);
    } else {
        assert(chunk_spec(s) =~= seq![x, y]);
    }
}

proof fn lemma_two_paragraphs(a: Seq<char>, b: Seq<char>, i: int)
    requires
        !a.contains('\n'),
        !b.contains('\n'),
        0 <= i <= a.len(),
    ensures
        paragraphs_from(a + seq!['\n', '\n'] + b, 0, i) == seq![a] + seq![b],
    decreases a.len() - i,
{
    let s = a + seq!['\n', '\n'] + b;
    if i < a.len() {
        assert(s[i] == a[i]);
        assert(a.contains(a[i]));
        assert(!blank_line_at(s, i));
        lemma_two_paragraphs(a, b, i + 1);
    } else {
        assert(blank_line_at(s, i));
        assert(s.subrange(0, i) =~= a);
        assert(s.subrange(i + 2, s.len() as int) =~= b);
        lemma_tail_paragraph(s, b, i + 2, i + 2);
    }
}

proof fn lemma_tail_paragraph(s: Seq<char>, b: Seq<char>, start: int, i: int)
    requires
        0 <= start <= i <= s.len(),
        s.subrange(start, s.len() as int) == b,
        !b.contains('\n'),
    ensures
        paragraphs_from(s, start, i) == seq![b],
    decreases s.len() - i,
{
    if i < s.len() {
        assert(s[i] == b[i - start]);
        assert(b.contains(b[i - start]));
        lemma_tail_paragraph(s, b, start, i + 1);
    }
}

} // verus!
