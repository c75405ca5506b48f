//! The markdown mirror of documents and summaries, for browsing by hand: where each page goes
//! and what it holds. Writing the pages is left to the caller.

use crate::model::{taint_str, taint_text, Doc, MemoryDoc};
use crate::text::{
    cat2, contains_text, decimal, decimal_of, digit_char, digits_value, has_prefix, has_suffix,
    is_ascii_alpha, is_ascii_digit, lemma_holds_middle, lemma_lines_join, lemma_split_join, lemma_split_whole,
    lines_of, lines_text, opt_text, signed_decimal, signed_decimal_of, strip_cr, strip_prefix,
    strip_prefix_text, texts, trim, trim_text,
};
use vstd::prelude::*;
use vstd::utf8::encode_utf8;

verus! {

/// The SHA-256 digest of a sequence of bytes.
pub uninterp spec fn sha256(bytes: Seq<u8>) -> Seq<u8>;

/// `sha2::Sha256::digest`: the 32 bytes of the digest. They are a function of the bytes, named
/// [`sha256`].
#[verifier::external_body]
fn sha256_digest(bytes: &[u8]) -> (r: Vec<u8>)
    ensures
        r@ == sha256(bytes@),
        r@.len() == 32,
{
    <sha2::Sha256 as sha2::Digest>::digest(bytes).to_vec()
}

/// The character of a hexadecimal digit, in lower case.
pub open spec fn hex_char(d: int) -> char {
    if d < 10 {
        digit_char(d)
    } else {
        (87 + d) as char
    }
}

/// A sequence of bytes in hexadecimal, two digits each.
pub open spec fn hex_text(b: Seq<u8>) -> Seq<char>
    decreases b.len(),
{
    if b.len() == 0 {
        Seq::empty()
    } else {
        hex_text(b.drop_last()).push(hex_char(b.last() as int / 16)).push(
            hex_char(b.last() as int % 16),
        )
    }
}

fn hex_digit(d: u8) -> (c: char)
    requires
        d < 16,
    ensures
        c == hex_char(d as int),
{
    if d < 10 {
        (48u8 + d) as char
    } else {
        (87u8 + d) as char
    }
}

/// The SHA-256 digest of a text's UTF-8 bytes, in hexadecimal.
pub fn sha256_hex(s: &str) -> (r: String)
    ensures
        r@ == hex_text(sha256(encode_utf8(s@))),
{
    let d = sha256_digest(s.as_bytes());
    let mut out = String::new();
    assert(d@.take(0) =~= Seq::<u8>::empty());
    for i in 0..d.len()
        invariant
            out@ == hex_text(d@.take(i as int)),
    {
        assert(d@.take(i + 1).drop_last() =~= d@.take(i as int));
        let b: u8 = d[i];
        out.push(hex_digit(b / 16));
        out.push(hex_digit(b % 16));
    }
    assert(d@.take(d@.len() as int) =~= d@);
    out
}

/// A character that is safe in a file name; any other becomes an underscore.
pub open spec fn slug_char(c: char) -> char {
    if is_ascii_alpha(c) || is_ascii_digit(c) {
        c
    } else {
        '_'
    }
}

/// A text as it stands in a file name.
pub open spec fn slug_text(s: Seq<char>) -> Seq<char> {
    s.map_values(|c: char| slug_char(c))
}

/// A text as it stands in a file name: ASCII letters and digits stay, all else becomes an
/// underscore.
pub fn slug(s: &str) -> (r: String)
    ensures
        r@ == slug_text(s@),
{
    let mut out = String::new();
    for c in it: s.chars()
        invariant
            it.seq() == s@,
            out@ == slug_text(s@.take(it.index())),
    {
        let ghost n = it.index();
        let keep: bool = ('a' <= c && c <= 'z') || ('A' <= c && c <= 'Z') || ('0' <= c && c
            <= '9');
        out.push(
            if keep {
                c
            } else {
                '_'
            },
        );
        assert(out@ =~= slug_text(s@.take(n + 1)));
    }
    assert(s@.take(s@.len() as int) =~= s@);
    out
}

/// A text with a backslash before every backslash and every double quote.
pub open spec fn escaped(s: Seq<char>) -> Seq<char>
    decreases s.len(),
{
    if s.len() == 0 {
        Seq::empty()
    } else if s.last() == '\\' || s.last() == '"' {
        escaped(s.drop_last()).push('\\').push(s.last())
    } else {
        escaped(s.drop_last()).push(s.last())
    }
}

/// A text as a quoted YAML string.
pub open spec fn yaml_text(s: Seq<char>) -> Seq<char> {
    seq!['"'] + escaped(s) + seq!['"']
}

/// A text as a quoted YAML string.
pub fn yaml(s: &str) -> (r: String)
    ensures
        r@ == yaml_text(s@),
{
    let mut out = String::new();
    out.push('"');
    assert(s@.take(0) =~= Seq::<char>::empty());
    assert(out@ =~= seq!['"'] + escaped(s@.take(0)));
    for c in it: s.chars()
        invariant
            it.seq() == s@,
            out@ == seq!['"'] + escaped(s@.take(it.index())),
    {
        let ghost n = it.index();
        assert(s@.take(n + 1).drop_last() =~= s@.take(n));
        assert(s@.take(n + 1).last() == c);
        if c == '\\' || c == '"' {
            out.push('\\');
        }
        out.push(c);
        assert(out@ =~= seq!['"'] + escaped(s@.take(n + 1)));
    }
    assert(s@.take(s@.len() as int) =~= s@);
    out.push('"');
    assert(out@ =~= yaml_text(s@));
    out
}

/// The content hash that a page records: what follows the mark on the first line that has it.
pub open spec fn recorded_sha(lines: Seq<Seq<char>>) -> Option<Seq<char>>
    decreases lines.len(),
{
    if lines.len() == 0 {
        None
    } else {
        match recorded_sha(lines.drop_last()) {
            Some(s) => Some(s),
            None => match strip_prefix_text(lines.last(), "content_sha: "@) {
                Some(t) => Some(trim_text(t)),
                None => None,
            },
        }
    }
}

/// The content hash that an existing page records.
pub fn existing_sha(page: &str) -> (r: Option<String>)
    ensures
        opt_text(r) == recorded_sha(lines_text(page@)),
{
    let lines = lines_of(page);
    let ghost ls = texts(lines@);
    assert(ls.take(0) =~= Seq::<Seq<char>>::empty());
    let mut found: Option<String> = None;
    for i in 0..lines.len()
        invariant
            ls == texts(lines@),
            opt_text(found) == recorded_sha(ls.take(i as int)),
    {
        assert(ls.take(i + 1).drop_last() =~= ls.take(i as int));
        assert(ls.take(i + 1).last() == lines@[i as int]@);
        if found.is_none() {
            found = match strip_prefix(lines[i].as_str(), "content_sha: ") {
                Some(t) => Some(trim(t.as_str())),
                None => None,
            };
        }
    }
    assert(ls.take(ls.len() as int) =~= ls);
    found
}

/// Six digits of a fraction, without trailing zeros.
pub open spec fn fraction_text(micros: nat, digits: nat) -> Seq<char>
    decreases digits,
{
    if digits == 0 || micros == 0 {
        Seq::empty()
    } else if micros % 10 == 0 {
        fraction_text(micros / 10, (digits - 1) as nat)
    } else {
        fraction_digits(micros, digits)
    }
}

/// The last `digits` digits of a number.
pub open spec fn fraction_digits(n: nat, digits: nat) -> Seq<char>
    decreases digits,
{
    if digits == 0 {
        Seq::empty()
    } else {
        fraction_digits(n / 10, (digits - 1) as nat).push(digit_char((n % 10) as int))
    }
}

/// A time in microseconds, written in seconds with as many decimals as it needs.
pub open spec fn seconds_text(micros: u64) -> Seq<char> {
    let frac = fraction_text((micros % 1_000_000) as nat, 6);
    if frac.len() == 0 {
        decimal((micros / 1_000_000) as nat)
    } else {
        decimal((micros / 1_000_000) as nat) + seq!['.'] + frac
    }
}

fn digits_of(n: u64, digits: u64) -> (r: String)
    ensures
        r@ == fraction_digits(n as nat, digits as nat),
    decreases digits,
{
    if digits == 0 {
        let s = String::new();
        s
    } else {
        let mut s = digits_of(n / 10, digits - 1);
        let d: u8 = (n % 10) as u8;
        s.push((48u8 + d) as char);
        s
    }
}

fn fraction_of(micros: u64, digits: u64) -> (r: String)
    ensures
        r@ == fraction_text(micros as nat, digits as nat),
    decreases digits,
{
    if digits == 0 || micros == 0 {
        let s = String::new();
        s
    } else if micros % 10 == 0 {
        fraction_of(micros / 10, digits - 1)
    } else {
        digits_of(micros, digits)
    }
}

/// A time in microseconds, written in seconds.
pub fn seconds(micros: u64) -> (r: String)
    ensures
        r@ == seconds_text(micros),
{
    let mut s = decimal_of(micros / 1_000_000);
    let frac = fraction_of(micros % 1_000_000, 6);
    if !frac.as_str().is_empty() {
        s.push('.');
        s.push_str(frac.as_str());
        assert(s@ =~= seconds_text(micros));
    }
    s
}

// ---------------------------------------------------------------------------------------------
// Pages.
// ---------------------------------------------------------------------------------------------

/// What the mirror of a summary shows.
pub struct NodeMeta<'a> {
    pub namespace: &'a str,
    pub tree_kind: &'a str,
    pub tree_key: &'a str,
    pub node_id: &'a str,
    pub level: i64,
    pub label: Option<&'a str>,
    pub body: &'a str,
    pub created_at: u64,
}

/// A page of the mirror: the directories that lead to it, its file name, the hash of what it
/// shows, and its whole content.
#[derive(Debug)]
pub struct VaultPage {
    pub dirs: Vec<String>,
    pub file: String,
    pub sha: String,
    pub content: String,
}

/// The root of the mirror.
pub struct Vault {
    pub root: String,
}

/// The page of a document, as far as the hash.
pub open spec fn doc_page_head(d: Doc) -> Seq<char> {
    "---\nnamespace: "@ + d.namespace + "\ndocument_id: "@ + d.document_id + "\nkey: "@
        + yaml_text(d.key) + "\ntitle: "@ + yaml_text(d.title) + "\nauthor: "@ + yaml_text(
        d.author,
    ) + "\ntaint: "@ + taint_text(d.taint) + "\ncreated_at: "@ + seconds_text(d.created_at)
        + "\nupdated_at: "@ + seconds_text(d.updated_at)
}

/// The page of a document.
pub open spec fn doc_page_text(d: Doc, sha: Seq<char>) -> Seq<char> {
    doc_page_head(d) + "\ncontent_sha: "@ + sha + "\n---\n"@ + d.content + "\n"@
}

/// The text of an optional slice, or none at all.
pub open spec fn str_or_empty(o: Option<&str>) -> Seq<char> {
    match o {
        Some(s) => s@,
        None => ""@,
    }
}

/// The page of a summary, as far as the hash.
pub open spec fn node_page_head(m: NodeMeta<'_>) -> Seq<char> {
    "---\nnamespace: "@ + m.namespace@ + "\ntree_kind: "@ + m.tree_kind@ + "\ntree_key: "@
        + yaml_text(m.tree_key@) + "\nnode_id: "@ + m.node_id@ + "\nlevel: "@ + signed_decimal(
        m.level as int,
    ) + "\nlabel: "@ + yaml_text(str_or_empty(m.label)) + "\nsealed: true\ncreated_at: "@
        + seconds_text(m.created_at)
}

/// The page of a summary.
pub open spec fn node_page_text(m: NodeMeta<'_>, sha: Seq<char>) -> Seq<char> {
    node_page_head(m) + "\ncontent_sha: "@ + sha + "\n---\n"@ + m.body@ + "\n"@
}

impl Vault {
    pub fn new(dir: &str) -> (r: Vault)
        ensures
            r.root@ == dir@,
    {
        Vault { root: dir.to_owned() }
    }

    /// The page of a document.
    pub fn doc_page(&self, doc: &MemoryDoc) -> (r: VaultPage)
        ensures
            texts(r.dirs@) == seq![doc.namespace@, "docs"@],
            r.file@ == slug_text(doc.document_id@) + ".md"@,
            r.sha@ == hex_text(sha256(encode_utf8(doc.content@))),
            r.content@ == doc_page_text(doc@, r.sha@),
    {
        let sha = sha256_hex(doc.content.as_str());
        let mut c = cat2("---\nnamespace: ", doc.namespace.as_str());
        c.push_str("\ndocument_id: ");
        c.push_str(doc.document_id.as_str());
        c.push_str("\nkey: ");
        c.push_str(yaml(doc.key.as_str()).as_str());
        c.push_str("\ntitle: ");
        c.push_str(yaml(doc.title.as_str()).as_str());
        c.push_str("\nauthor: ");
        c.push_str(yaml(doc.author.as_str()).as_str());
        c.push_str("\ntaint: ");
        c.push_str(taint_str(doc.taint));
        c.push_str("\ncreated_at: ");
        c.push_str(seconds(doc.created_at).as_str());
        c.push_str("\nupdated_at: ");
        c.push_str(seconds(doc.updated_at).as_str());
        c.push_str("\ncontent_sha: ");
        c.push_str(sha.as_str());
        c.push_str("\n---\n");
        c.push_str(doc.content.as_str());
        c.push_str("\n");
        let mut dirs: Vec<String> = Vec::new();
        dirs.push(doc.namespace.clone());
        dirs.push("docs".to_owned());
        assert(texts(dirs@) =~= seq![doc.namespace@, "docs"@]);
        VaultPage {
            dirs,
            file: cat2(slug(doc.document_id.as_str()).as_str(), ".md"),
            sha,
            content: c,
        }
    }

    /// The page of a summary.
    pub fn node_page(&self, m: &NodeMeta<'_>) -> (r: VaultPage)
        ensures
            texts(r.dirs@) == seq![m.namespace@, m.tree_kind@, slug_text(m.tree_key@)],
            r.file@ == "L"@ + signed_decimal(m.level as int) + "-"@ + slug_text(m.node_id@)
                + ".md"@,
            r.sha@ == hex_text(sha256(encode_utf8(m.body@))),
            r.content@ == node_page_text(*m, r.sha@),
    {
        let sha = sha256_hex(m.body);
        let mut c = cat2("---\nnamespace: ", m.namespace);
        c.push_str("\ntree_kind: ");
        c.push_str(m.tree_kind);
        c.push_str("\ntree_key: ");
        c.push_str(yaml(m.tree_key).as_str());
        c.push_str("\nnode_id: ");
        c.push_str(m.node_id);
        c.push_str("\nlevel: ");
        c.push_str(signed_decimal_of(m.level).as_str());
        c.push_str("\nlabel: ");
        c.push_str(
            yaml(
                match m.label {
                    Some(l) => l,
                    None => "",
                },
            ).as_str(),
        );
        c.push_str("\nsealed: true\ncreated_at: ");
        c.push_str(seconds(m.created_at).as_str());
        c.push_str("\ncontent_sha: ");
        c.push_str(sha.as_str());
        c.push_str("\n---\n");
        c.push_str(m.body);
        c.push_str("\n");
        let mut dirs: Vec<String> = Vec::new();
        dirs.push(m.namespace.to_owned());
        dirs.push(m.tree_kind.to_owned());
        dirs.push(slug(m.tree_key));
        assert(texts(dirs@) =~= seq![m.namespace@, m.tree_kind@, slug_text(m.tree_key@)]);
        let mut file = cat2("L", signed_decimal_of(m.level).as_str());
        file.push_str("-");
        file.push_str(slug(m.node_id).as_str());
        file.push_str(".md");
        VaultPage { dirs, file, sha, content: c }
    }
}

impl VaultPage {
    /// Whether the page has to be written: not if the existing page records the same hash.
    pub fn needs_write(&self, existing: Option<&str>) -> (r: bool)
        ensures
            r == match existing {
                Some(page) => recorded_sha(lines_text(page@)) != Some(self.sha@),
                None => true,
            },
    {
        match existing {
            Some(page) => match existing_sha(page) {
                Some(sha) => !crate::text::same(sha.as_str(), self.sha.as_str()),
                None => true,
            },
            None => true,
        }
    }
}

// ---------------------------------------------------------------------------------------------
// Laws.
// ---------------------------------------------------------------------------------------------

/// Whether every character is one of lower-case hexadecimal.
pub open spec fn is_hex(s: Seq<char>) -> bool {
    forall|i: int| 0 <= i < s.len() ==> is_ascii_digit(#[trigger] s[i]) || is_ascii_alpha(s[i])
}

proof fn lemma_hex_text(b: Seq<u8>)
    ensures
        is_hex(hex_text(b)),
    decreases b.len(),
{
    if b.len() > 0 {
        lemma_hex_text(b.drop_last());
        let before = hex_text(b.drop_last());
        let n = b.last() as int;
        assert(0 <= n / 16 < 16 && 0 <= n % 16 < 16);
        assert forall|i: int| 0 <= i < hex_text(b).len() implies is_ascii_digit(#[trigger] hex_text(b)[i])
            || is_ascii_alpha(hex_text(b)[i]) by {
            if i < before.len() {
                assert(hex_text(b)[i] == before[i]);
            }
        }
    }
}

/// Whether one of these lines looks like the record of a hash.
pub open spec fn has_record(lines: Seq<Seq<char>>) -> bool {
    exists|i: int| 0 <= i < lines.len() && has_prefix(#[trigger] lines[i], "content_sha: "@)
}

proof fn lemma_no_record(lines: Seq<Seq<char>>)
    requires
        !has_record(lines),
    ensures
        recorded_sha(lines) is None,
    decreases lines.len(),
{
    if lines.len() > 0 {
        let t = lines.drop_last();
        assert forall|i: int| 0 <= i < t.len() implies !has_prefix(#[trigger] t[i], "content_sha: "@) by {
            assert(t[i] == lines[i]);
        }
        lemma_no_record(t);
        assert(!has_prefix(lines[lines.len() - 1], "content_sha: "@));
    }
}

proof fn lemma_recorded_first(a: Seq<Seq<char>>, b: Seq<Seq<char>>)
    ensures
        recorded_sha(a + b) == match recorded_sha(a) {
            Some(s) => Some(s),
            None => recorded_sha(b),
        },
    decreases b.len(),
{
    if b.len() == 0 {
        assert(a + b =~= a);
    } else {
        lemma_recorded_first(a, b.drop_last());
        assert((a + b).drop_last() =~= a + b.drop_last());
        assert((a + b).last() == b.last());
    }
}

proof fn lemma_page_records(head: Seq<char>, sha: Seq<char>, body: Seq<char>)
    requires
        is_hex(sha),
        !has_record(lines_text(head.push('\n'))),
    ensures
        recorded_sha(
            lines_text(head + "\ncontent_sha: "@ + sha + "\n---\n"@ + body + "\n"@),
        ) == Some(sha),
{
    reveal_strlit("\ncontent_sha: ");
    reveal_strlit("content_sha: ");
    reveal_strlit("\n---\n");
    reveal_strlit("---\n");
    reveal_strlit("\n");
    let page = head + "\ncontent_sha: "@ + sha + "\n---\n"@ + body + "\n"@;
    let line = "content_sha: "@ + sha;
    let tail = "---\n"@ + body + "\n"@;
    assert("\ncontent_sha: "@ =~= seq!['\n'] + "content_sha: "@);
    assert("\n---\n"@ =~= seq!['\n'] + "---\n"@);
    let rest = line + seq!['\n'] + tail;
    assert(page =~= head + seq!['\n'] + rest);
    lemma_lines_join(head, rest);
    lemma_lines_join(line, tail);
    let marked = lines_text(line.push('\n'));
    assert forall|i: int| 0 <= i < line.len() implies line[i] != '\n' by {
        if i >= 13 {
            assert(line[i] == sha[i - 13]);
        }
    }
    lemma_split_whole(line, '\n');
    lemma_split_join(line, Seq::empty(), '\n');
    assert(line + seq!['\n'] + Seq::<char>::empty() =~= line.push('\n'));
    assert(strip_cr(line) == line) by {
        if sha.len() > 0 {
            assert(line.last() == sha.last());
        } else {
            assert(line.last() == ' ');
        }
    }
    assert(marked =~= seq![line]);
    assert(marked.drop_last() =~= Seq::<Seq<char>>::empty());
    assert(line.subrange(13, line.len() as int) =~= sha);
    assert(line.subrange(0, 13) =~= "content_sha: "@);
    assert(trim_text(sha) == sha);
    assert(recorded_sha(marked.drop_last()) is None);
    assert(recorded_sha(marked) == Some(sha));
    lemma_no_record(lines_text(head.push('\n')));
    lemma_recorded_first(lines_text(head.push('\n')), lines_text(rest));
    lemma_recorded_first(marked, lines_text(tail));
}

/// Law: the page of a document records the hash of what it shows, so that it is not written again
/// while the content is the same. None of the fields above the hash may hold a line that looks like
/// the record.
pub proof fn law_doc_page_records_hash(d: Doc, bytes: Seq<u8>)
    requires
        !has_record(lines_text(doc_page_head(d).push('\n'))),
    ensures
        recorded_sha(lines_text(doc_page_text(d, hex_text(bytes)))) == Some(hex_text(bytes)),
{
    lemma_hex_text(bytes);
    lemma_page_records(doc_page_head(d), hex_text(bytes), d.content);
}

/// Law: the page of a summary records the hash of what it shows, so that it is not written again
/// while the summary is the same. None of the fields above the hash may hold a line that looks like
/// the record.
pub proof fn law_node_page_records_hash(m: NodeMeta<'_>, bytes: Seq<u8>)
    requires
        !has_record(lines_text(node_page_head(m).push('\n'))),
    ensures
        recorded_sha(lines_text(node_page_text(m, hex_text(bytes)))) == Some(hex_text(bytes)),
{
    lemma_hex_text(bytes);
    lemma_page_records(node_page_head(m), hex_text(bytes), m.body@);
}

// ---------------------------------------------------------------------------------------------
// What a page says.
// ---------------------------------------------------------------------------------------------

/// Law: a slug keeps the letters and digits of ASCII and puts an underscore for every other character.
pub proof fn law_slug(s: Seq<char>)
    ensures
        slug_text(s).len() == s.len(),
        forall|i: int|
            0 <= i < s.len() ==> if ('a' <= s[i] <= 'z') || ('A' <= s[i] <= 'Z') || ('0' <= s[i] <= '9') {
                #[trigger] slug_text(s)[i] == s[i]
            } else {
                slug_text(s)[i] == '_'
            },
{
}

/// A text with one backslash before a character taken away, from the left.
pub open spec fn unescaped(s: Seq<char>) -> Seq<char>
    decreases s.len(),
{
    if s.len() == 0 {
        Seq::empty()
    } else if s[0] == '\\' && s.len() > 1 {
        seq![s[1]] + unescaped(s.skip(2))
    } else {
        seq![s[0]] + unescaped(s.skip(1))
    }
}

proof fn lemma_escaped_front(c: char, s: Seq<char>)
    ensures
        escaped(seq![c] + s) == (if c == '\\' || c == '"' {
            seq!['\\', c]
        } else {
            seq![c]
        }) + escaped(s),
    decreases s.len(),
{
    let front = if c == '\\' || c == '"' {
        seq!['\\', c]
    } else {
        seq![c]
    };
    let all = seq![c] + s;
    if s.len() == 0 {
        assert(all =~= seq![c]);
        assert(all.drop_last() =~= Seq::empty());
        assert(escaped(all.drop_last()) =~= Seq::empty());
        assert(escaped(s) =~= Seq::empty());
        assert(escaped(all) =~= front);
        assert(front + escaped(s) =~= front);
    } else {
        lemma_escaped_front(c, s.drop_last());
        assert(all.drop_last() =~= seq![c] + s.drop_last());
        assert(escaped(all) =~= front + escaped(s));
    }
}

/// Law: a quoted value is read back as the text it was made of, and no quotation mark in it stands without a
/// backslash before it.
pub proof fn law_quoted_is_read_back(s: Seq<char>)
    ensures
        unescaped(escaped(s)) == s,
        yaml_text(s).first() == '"',
        yaml_text(s).last() == '"',
        yaml_text(s).subrange(1, yaml_text(s).len() - 1) == escaped(s),
        forall|i: int| 0 <= i < escaped(s).len() && #[trigger] escaped(s)[i] == '"' ==> i > 0 && escaped(s)[i - 1]
            == '\\',
    decreases s.len(),
{
    assert(yaml_text(s).subrange(1, yaml_text(s).len() - 1) =~= escaped(s));
    if s.len() == 0 {
        assert(unescaped(escaped(s)) =~= s);
    } else {
        let c = s[0];
        let rest = s.skip(1);
        law_quoted_is_read_back(rest);
        lemma_escaped_front(c, rest);
        assert(seq![c] + rest =~= s);
        let e = escaped(s);
        if c == '\\' || c == '"' {
            assert(e == seq!['\\', c] + escaped(rest));
            assert(e.skip(2) =~= escaped(rest));
            assert(e[1] == c);
            assert forall|i: int| 0 <= i < e.len() && #[trigger] e[i] == '"' implies i > 0 && e[i - 1] == '\\' by {
                if i >= 2 {
                    assert(escaped(rest)[i - 2] == '"');
                }
            }
        } else {
            assert(e.skip(1) =~= escaped(rest));
            assert forall|i: int| 0 <= i < e.len() && #[trigger] e[i] == '"' implies i > 0 && e[i - 1] == '\\' by {
                if i >= 1 {
                    assert(escaped(rest)[i - 1] == '"');
                }
            }
        }
        assert(unescaped(e) =~= s);
    }
}

/// Law: the page of a document holds its text below its head, and in its head its key, title and author as
/// quoted values, and the hash that is recorded.
pub proof fn law_doc_page(d: Doc, sha: Seq<char>)
    ensures
        has_suffix(doc_page_text(d, sha), "\n---\n"@ + d.content + "\n"@),
        contains_text(doc_page_text(d, sha), "\nkey: "@ + yaml_text(d.key)),
        contains_text(doc_page_text(d, sha), "\ntitle: "@ + yaml_text(d.title)),
        contains_text(doc_page_text(d, sha), "\nauthor: "@ + yaml_text(d.author)),
        contains_text(doc_page_text(d, sha), "\ndocument_id: "@ + d.document_id),
        contains_text(doc_page_text(d, sha), "\ncontent_sha: "@ + sha),
{
    let p = doc_page_text(d, sha);
    let a = "---\nnamespace: "@ + d.namespace;
    let id = "\ndocument_id: "@ + d.document_id;
    let k = "\nkey: "@ + yaml_text(d.key);
    let t = "\ntitle: "@ + yaml_text(d.title);
    let u = "\nauthor: "@ + yaml_text(d.author);
    let z = "\ntaint: "@ + taint_text(d.taint) + "\ncreated_at: "@ + seconds_text(d.created_at)
        + "\nupdated_at: "@ + seconds_text(d.updated_at);
    let h = "\ncontent_sha: "@ + sha;
    let end = "\n---\n"@ + d.content + "\n"@;
    assert(doc_page_head(d) =~= a + id + k + t + u + z);
    assert(p =~= a + id + k + t + u + z + h + end);
    lemma_holds_middle(a, id, k + t + u + z + h + end);
    assert(a + id + (k + t + u + z + h + end) =~= p);
    lemma_holds_middle(a + id, k, t + u + z + h + end);
    assert(a + id + k + (t + u + z + h + end) =~= p);
    lemma_holds_middle(a + id + k, t, u + z + h + end);
    assert(a + id + k + t + (u + z + h + end) =~= p);
    lemma_holds_middle(a + id + k + t, u, z + h + end);
    assert(a + id + k + t + u + (z + h + end) =~= p);
    lemma_holds_middle(a + id + k + t + u + z, h, end);
    assert(p.subrange(p.len() - end.len(), p.len() as int) =~= end);
}

/// Law: the page of a summary holds its text below its head, and in its head the tree, the node, the level and
/// the label.
pub proof fn law_node_page(m: NodeMeta<'_>, sha: Seq<char>)
    ensures
        has_suffix(node_page_text(m, sha), "\n---\n"@ + m.body@ + "\n"@),
        contains_text(node_page_text(m, sha), "\ntree_key: "@ + yaml_text(m.tree_key@)),
        contains_text(node_page_text(m, sha), "\nnode_id: "@ + m.node_id@),
        contains_text(node_page_text(m, sha), "\nlevel: "@ + signed_decimal(m.level as int)),
        m.label is Some ==> contains_text(node_page_text(m, sha), "\nlabel: "@ + yaml_text(m.label->0@)),
        contains_text(node_page_text(m, sha), "\ncontent_sha: "@ + sha),
{
    let p = node_page_text(m, sha);
    let a = "---\nnamespace: "@ + m.namespace@ + "\ntree_kind: "@ + m.tree_kind@;
    let k = "\ntree_key: "@ + yaml_text(m.tree_key@);
    let id = "\nnode_id: "@ + m.node_id@;
    let v = "\nlevel: "@ + signed_decimal(m.level as int);
    let l = "\nlabel: "@ + yaml_text(str_or_empty(m.label));
    let z = "\nsealed: true\ncreated_at: "@ + seconds_text(m.created_at);
    let h = "\ncontent_sha: "@ + sha;
    let end = "\n---\n"@ + m.body@ + "\n"@;
    assert(node_page_head(m) =~= a + k + id + v + l + z);
    assert(p =~= a + k + id + v + l + z + h + end);
    lemma_holds_middle(a, k, id + v + l + z + h + end);
    assert(a + k + (id + v + l + z + h + end) =~= p);
    lemma_holds_middle(a + k, id, v + l + z + h + end);
    assert(a + k + id + (v + l + z + h + end) =~= p);
    lemma_holds_middle(a + k + id, v, l + z + h + end);
    assert(a + k + id + v + (l + z + h + end) =~= p);
    lemma_holds_middle(a + k + id + v, l, z + h + end);
    assert(a + k + id + v + l + (z + h + end) =~= p);
    lemma_holds_middle(a + k + id + v + l + z, h, end);
    assert(p.subrange(p.len() - end.len(), p.len() as int) =~= end);
}

/// Law: what a page records is the first line that begins with `content_sha: `, trimmed.
pub proof fn law_recorded_sha(lines: Seq<Seq<char>>, k: int, sha: Seq<char>)
    requires
        0 <= k < lines.len(),
        lines[k] == "content_sha: "@ + sha,
        forall|i: int| 0 <= i < k ==> !has_prefix(#[trigger] lines[i], "content_sha: "@),
    ensures
        recorded_sha(lines) == Some(trim_text(sha)),
    decreases lines.len(),
{
    let head = lines.drop_last();
    let p = "content_sha: "@;
    if k < head.len() {
        assert(head[k] == lines[k]);
        assert forall|i: int| 0 <= i < k implies !has_prefix(#[trigger] head[i], p) by {
            assert(head[i] == lines[i]);
        }
        law_recorded_sha(head, k, sha);
    } else {
        lemma_nothing_recorded(head);
        let l = lines.last();
        assert(l.subrange(0, p.len() as int) =~= p);
        assert(l.subrange(p.len() as int, l.len() as int) =~= sha);
    }
}

proof fn lemma_nothing_recorded(lines: Seq<Seq<char>>)
    requires
        forall|i: int| 0 <= i < lines.len() ==> !has_prefix(#[trigger] lines[i], "content_sha: "@),
    ensures
        recorded_sha(lines) is None,
    decreases lines.len(),
{
    if lines.len() > 0 {
        let head = lines.drop_last();
        assert forall|i: int| 0 <= i < head.len() implies !has_prefix(#[trigger] head[i], "content_sha: "@) by {
            assert(head[i] == lines[i]);
        }
        lemma_nothing_recorded(head);
        assert(!has_prefix(lines[lines.len() - 1], "content_sha: "@));
    }
}

/// A power of ten.
pub open spec fn ten_to(k: nat) -> nat
    decreases k,
{
    if k == 0 {
        1
    } else {
        10 * ten_to((k - 1) as nat)
    }
}

proof fn lemma_fraction_digits(n: nat, digits: nat)
    requires
        n < ten_to(digits),
    ensures
        fraction_digits(n, digits).len() == digits,
        digits_value(fraction_digits(n, digits)) == n,
        n % 10 != 0 && digits > 0 ==> fraction_digits(n, digits).last() != '0',
    decreases digits,
{
    if digits > 0 {
        let less = (digits - 1) as nat;
        assert(n / 10 < ten_to(less)) by (nonlinear_arith)
            requires
                n < 10 * ten_to(less),
        ;
        lemma_fraction_digits(n / 10, less);
        let all = fraction_digits(n, digits);
        assert(all.drop_last() =~= fraction_digits(n / 10, less));
        assert(n == 10 * (n / 10) + n % 10);
    }
}

proof fn lemma_fraction(n: nat, digits: nat)
    requires
        n < ten_to(digits),
    ensures
        fraction_text(n, digits).len() <= digits,
        digits_value(fraction_text(n, digits)) * ten_to((digits - fraction_text(n, digits).len()) as nat) == n,
        n > 0 ==> fraction_text(n, digits).len() > 0 && fraction_text(n, digits).last() != '0',
    decreases digits,
{
    let f = fraction_text(n, digits);
    if digits == 0 || n == 0 {
        assert(n == 0);
        assert(digits_value(f) == 0);
        let p = ten_to((digits - f.len()) as nat);
        assert(0 * p == 0) by (nonlinear_arith);
    } else if n % 10 == 0 {
        let less = (digits - 1) as nat;
        assert(n / 10 < ten_to(less)) by (nonlinear_arith)
            requires
                n < 10 * ten_to(less),
        ;
        lemma_fraction(n / 10, less);
        let k = (less - f.len()) as nat;
        let v = digits_value(f);
        assert(v * ten_to(k + 1) == n) by (nonlinear_arith)
            requires
                v * ten_to(k) == n / 10,
                ten_to(k + 1) == 10 * ten_to(k),
                n % 10 == 0,
        ;
        assert((digits - f.len()) as nat == k + 1);
    } else {
        lemma_fraction_digits(n, digits);
        assert(ten_to((digits - f.len()) as nat) == 1);
        assert(n * 1 == n);
    }
}

/// Law: a time is told in seconds, and what is left over as a fraction: no point where nothing is left over, and
/// no zero at the end where something is.
pub proof fn law_seconds(micros: u64)
    ensures
        ({
            let whole = decimal((micros / 1_000_000) as nat);
            let t = seconds_text(micros);
            let frac = t.skip(whole.len() as int + 1);
            &&& micros % 1_000_000 == 0 ==> t == whole
            &&& micros % 1_000_000 != 0 ==> {
                &&& has_prefix(t, whole + seq!['.'])
                &&& 1 <= frac.len() <= 6
                &&& frac.last() != '0'
                &&& digits_value(frac) * ten_to((6 - frac.len()) as nat) == micros % 1_000_000
            }
        }),
{
    let n = (micros % 1_000_000) as nat;
    assert(ten_to(6) == 1_000_000) by {
        reveal_with_fuel(ten_to, 7);
    }
    lemma_fraction(n, 6);
    let f = fraction_text(n, 6);
    let whole = decimal((micros / 1_000_000) as nat);
    let t = seconds_text(micros);
    if n == 0 {
        assert(f.len() == 0);
    } else {
        assert(t =~= whole + seq!['.'] + f);
        assert(t.skip(whole.len() as int + 1) =~= f);
        assert(t.subrange(0, (whole.len() + 1) as int) =~= whole + seq!['.']);
    }
}

} // verus!
