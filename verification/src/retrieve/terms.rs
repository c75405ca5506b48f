//! What a query names: its terms, the symbols it may mean, and how a text or a path answers it.

use crate::store::entities::{keep_once, law_once_each, once_each};
use crate::table::{lemma_rows_where_contains, rows_where};
use crate::text::{
    ascii_lower, ascii_lower_text, cat2, contains, contains_text, has_prefix, is_alphabetic_char,
    is_alphanumeric_char, last_segment, last_segment_text, lemma_texts_push, lowercase, same, split_on,
    split_text, starts_with, texts, words_of, words_text,
};
use vstd::prelude::*;
use vstd::utf8::encode_utf8;

verus! {

/// Whether a character belongs to a token.
pub open spec fn in_token(c: char, underscore: bool) -> bool {
    is_alphanumeric_char(c) || (underscore && c == '_')
}

/// The complete tokens of `s`, and the token that its end may still be in the middle of.
pub open spec fn tokens_state(s: Seq<char>, underscore: bool) -> (Seq<Seq<char>>, Seq<char>)
    decreases s.len(),
{
    if s.len() == 0 {
        (Seq::empty(), Seq::empty())
    } else {
        let (done, token) = tokens_state(s.drop_last(), underscore);
        if in_token(s.last(), underscore) {
            (done, token.push(s.last()))
        } else if token.len() > 0 {
            (done.push(token), Seq::empty())
        } else {
            (done, token)
        }
    }
}

/// The tokens of a text: its maximal runs of letters and digits, and of underscores if those
/// count.
pub open spec fn tokens_text(s: Seq<char>, underscore: bool) -> Seq<Seq<char>> {
    let (done, token) = tokens_state(s, underscore);
    if token.len() > 0 {
        done.push(token)
    } else {
        done
    }
}

fn tokens_of(s: &str, underscore: bool) -> (r: Vec<String>)
    ensures
        texts(r@) == tokens_text(s@, underscore),
{
    let mut out: Vec<String> = Vec::new();
    let mut token = String::new();
    assert(s@.take(0) =~= Seq::<char>::empty());
    assert(texts(out@) =~= Seq::<Seq<char>>::empty());
    for c in it: s.chars()
        invariant
            it.seq() == s@,
            texts(out@) == tokens_state(s@.take(it.index()), underscore).0,
            token@ == tokens_state(s@.take(it.index()), underscore).1,
    {
        let ghost n = it.index();
        assert(s@.take(n + 1).drop_last() =~= s@.take(n));
        assert(s@.take(n + 1).last() == c);
        if c.is_alphanumeric() || (underscore && c == '_') {
            token.push(c);
        } else if !token.as_str().is_empty() {
            let ghost out0 = out@;
            let ghost token0 = token;
            out.push(token);
            proof {
                lemma_texts_push(out0, token0);
            }
            token = String::new();
        }
    }
    assert(s@.take(s@.len() as int) =~= s@);
    if !token.as_str().is_empty() {
        let ghost out0 = out@;
        let ghost token0 = token;
        out.push(token);
        proof {
            lemma_texts_push(out0, token0);
        }
    }
    out
}

/// Whether a token is long enough to be specific: three bytes.
pub open spec fn is_specific() -> spec_fn(Seq<char>) -> bool {
    |t: Seq<char>| encode_utf8(t).len() >= 3
}

fn specific(t: &str) -> (r: bool)
    ensures
        r == is_specific()(t@),
{
    let b = t.as_bytes();
    b.len() >= 3
}

/// The terms of a query: its specific tokens in lowercase, each once.
pub open spec fn terms_of_query(query: Seq<char>) -> Seq<Seq<char>> {
    once_each(rows_where(tokens_text(lowercase(query), false), is_specific()))
}

/// The distinct specific tokens of a query, in lowercase.
pub fn query_terms(query: &str) -> (r: Vec<String>)
    ensures
        texts(r@) == terms_of_query(query@),
{
    let lower = query.to_lowercase();
    let tokens = tokens_of(lower.as_str(), false);
    let ghost all = texts(tokens@);
    let mut long: Vec<String> = Vec::new();
    assert(all.take(0) =~= Seq::<Seq<char>>::empty());
    assert(texts(long@) =~= Seq::<Seq<char>>::empty());
    for i in 0..tokens.len()
        invariant
            all == texts(tokens@),
            texts(long@) == rows_where(all.take(i as int), is_specific()),
    {
        proof {
            assert(all.take(i + 1).drop_last() =~= all.take(i as int));
            assert(all.take(i + 1).last() == all[i as int]);
        }
        if specific(tokens[i].as_str()) {
            let ghost long0 = long@;
            let t = tokens[i].clone();
            long.push(t);
            proof {
                lemma_texts_push(long0, t);
            }
        }
    }
    assert(all.take(all.len() as int) =~= all);
    keep_once(&long)
}

/// Whether a token may name a symbol: it is specific and starts with a letter.
pub open spec fn is_name() -> spec_fn(Seq<char>) -> bool {
    |t: Seq<char>| encode_utf8(t).len() >= 3 && t.len() > 0 && is_alphabetic_char(t[0])
}

fn starts_alphabetic(t: &str) -> (r: bool)
    ensures
        r == (t@.len() > 0 && is_alphabetic_char(t@[0])),
{
    for c in it: t.chars()
        invariant
            it.seq() == t@,
            it.index() == 0,
    {
        return c.is_alphabetic();
    }
    false
}

/// The tokens of a query that may name a symbol, underscores kept.
pub open spec fn names_in(query: Seq<char>) -> Seq<Seq<char>> {
    rows_where(tokens_text(query, true), is_name())
}

pub fn query_names(query: &str) -> (r: Vec<String>)
    ensures
        texts(r@) == names_in(query@),
{
    let tokens = tokens_of(query, true);
    let ghost all = texts(tokens@);
    let mut out: Vec<String> = Vec::new();
    assert(all.take(0) =~= Seq::<Seq<char>>::empty());
    assert(texts(out@) =~= Seq::<Seq<char>>::empty());
    for i in 0..tokens.len()
        invariant
            all == texts(tokens@),
            texts(out@) == rows_where(all.take(i as int), is_name()),
    {
        proof {
            assert(all.take(i + 1).drop_last() =~= all.take(i as int));
            assert(all.take(i + 1).last() == all[i as int]);
        }
        if specific(tokens[i].as_str()) && starts_alphabetic(tokens[i].as_str()) {
            let ghost out0 = out@;
            let t = tokens[i].clone();
            out.push(t);
            proof {
                lemma_texts_push(out0, t);
            }
        }
    }
    assert(all.take(all.len() as int) =~= all);
    out
}

/// Each name as a symbol and as an import.
pub open spec fn code_entities_of(names: Seq<Seq<char>>) -> Seq<Seq<char>>
    decreases names.len(),
{
    if names.len() == 0 {
        Seq::empty()
    } else {
        code_entities_of(names.drop_last()).push("sym:"@ + names.last()).push(
            "import:"@ + names.last(),
        )
    }
}

/// The entities that the names in a query may stand for: each as a symbol and as an import, with
/// its case kept, each once.
pub fn query_code_entities(query: &str) -> (r: Vec<String>)
    ensures
        texts(r@) == once_each(code_entities_of(names_in(query@))),
{
    let names = query_names(query);
    let ghost all = texts(names@);
    let mut out: Vec<String> = Vec::new();
    assert(all.take(0) =~= Seq::<Seq<char>>::empty());
    assert(texts(out@) =~= Seq::<Seq<char>>::empty());
    for i in 0..names.len()
        invariant
            all == texts(names@),
            texts(out@) == code_entities_of(all.take(i as int)),
    {
        proof {
            assert(all.take(i + 1).drop_last() =~= all.take(i as int));
            assert(all.take(i + 1).last() == all[i as int]);
        }
        let ghost out0 = out@;
        let a = cat2("sym:", names[i].as_str());
        out.push(a);
        let ghost out1 = out@;
        let b = cat2("import:", names[i].as_str());
        out.push(b);
        proof {
            lemma_texts_push(out0, a);
            lemma_texts_push(out1, b);
        }
    }
    assert(all.take(all.len() as int) =~= all);
    keep_once(&out)
}

/// How many of the terms a text contains.
pub open spec fn terms_found(terms: Seq<Seq<char>>, text: Seq<char>) -> nat {
    rows_where(terms, |t: Seq<char>| contains_text(text, t)).len()
}

/// Of the words of a query, in lowercase, how many a text contains, whatever its case; and how
/// many words there are.
pub fn keyword_hits(query: &str, text: &str) -> (r: (usize, usize))
    ensures
        r.0 == terms_found(words_text(lowercase(query@)), lowercase(text@)),
        r.1 == words_text(lowercase(query@)).len(),
        r.0 <= r.1,
{
    let lower = query.to_lowercase();
    let terms = words_of(lower.as_str());
    let hay = text.to_lowercase();
    let ghost all = texts(terms@);
    let ghost q = |t: Seq<char>| contains_text(hay@, t);
    let mut hits: usize = 0;
    assert(all.take(0) =~= Seq::<Seq<char>>::empty());
    for i in 0..terms.len()
        invariant
            all == texts(terms@),
            q == (|t: Seq<char>| contains_text(hay@, t)),
            hits == rows_where(all.take(i as int), q).len(),
            hits <= i,
    {
        proof {
            assert(all.take(i + 1).drop_last() =~= all.take(i as int));
            assert(all.take(i + 1).last() == all[i as int]);
        }
        if contains(hay.as_str(), terms[i].as_str()) {
            hits += 1;
        }
    }
    assert(all.take(all.len() as int) =~= all);
    (hits, terms.len())
}

// ---------------------------------------------------------------------------------------------
// The ranking prior of a path.
// ---------------------------------------------------------------------------------------------

/// Whether a text is one of four.
pub open spec fn one_of4(s: Seq<char>, a: Seq<char>, b: Seq<char>, c: Seq<char>, d: Seq<char>) -> bool {
    s == a || s == b || s == c || s == d
}

/// Legal and meta files, by their name.
pub open spec fn is_legal_name(base: Seq<char>) -> bool {
    has_prefix(base, "license"@) || has_prefix(base, "copying"@) || one_of4(
        base,
        "notice"@,
        "authors"@,
        "patents"@,
        "copyright"@,
    )
}

/// Documentation and prose, by the extension.
pub open spec fn is_prose_extension(ext: Seq<char>) -> bool {
    one_of4(ext, "md"@, "mdx"@, "markdown"@, "rst"@) || ext == "txt"@
}

/// The directories that hold tests.
pub open spec fn is_test_segment(s: Seq<char>) -> bool {
    one_of4(s, "test"@, "tests"@, "__tests__"@, "spec"@) || s == "specs"@
}

/// The directories that hold examples, data and benchmarks.
pub open spec fn is_sample_segment(s: Seq<char>) -> bool {
    one_of4(s, "examples"@, "example"@, "fixtures"@, "testdata"@) || s == "benchmark"@ || s
        == "benchmarks"@
}

/// Configuration and data, by the extension.
pub open spec fn is_data_extension(ext: Seq<char>) -> bool {
    one_of4(ext, "json"@, "yaml"@, "yml"@, "toml"@) || ext == "lock"@ || ext == "ini"@ || ext
        == "cfg"@
}

/// Whether some piece of a path between slashes satisfies `q`.
pub open spec fn any_segment(path: Seq<char>, q: spec_fn(Seq<char>) -> bool) -> bool {
    exists|i: int| 0 <= i < split_text(path, '/').len() && q(#[trigger] split_text(path, '/')[i])
}

/// The weight of a path in the ranking of code, in hundredths: legal files, prose, tests, and
/// configuration, data or examples count less than source.
pub open spec fn prior_of(path: Seq<char>) -> u32 {
    let p = ascii_lower_text(path);
    let base = last_segment_text(p, '/');
    let ext = last_segment_text(base, '.');
    if is_legal_name(base) {
        40
    } else if is_prose_extension(ext) {
        50
    } else if contains_text(p, ".test."@) || contains_text(p, ".spec."@) || contains_text(
        p,
        "_test."@,
    ) || any_segment(p, |s: Seq<char>| is_test_segment(s)) {
        60
    } else if has_prefix(base, ".env"@) || is_data_extension(ext) || any_segment(
        p,
        |s: Seq<char>| is_sample_segment(s),
    ) {
        70
    } else {
        100
    }
}

fn among4(s: &str, a: &str, b: &str, c: &str, d: &str) -> (r: bool)
    ensures
        r == one_of4(s@, a@, b@, c@, d@),
{
    same(s, a) || same(s, b) || same(s, c) || same(s, d)
}

fn test_segment(s: &str) -> (r: bool)
    ensures
        r == is_test_segment(s@),
{
    among4(s, "test", "tests", "__tests__", "spec") || same(s, "specs")
}

fn sample_segment(s: &str) -> (r: bool)
    ensures
        r == is_sample_segment(s@),
{
    among4(s, "examples", "example", "fixtures", "testdata") || same(s, "benchmark") || same(
        s,
        "benchmarks",
    )
}

/// The ranking prior of a path, in hundredths: files that are usually not the implementation are
/// weighted down, so that source ranks above them on near ties.
pub fn path_prior(path: &str) -> (r: u32)
    ensures
        r == prior_of(path@),
{
    let p = ascii_lower(path);
    let base = last_segment(p.as_str(), '/');
    let ext = last_segment(base.as_str(), '.');
    let b = base.as_str();
    let e = ext.as_str();
    if starts_with(b, "license") || starts_with(b, "copying") || among4(
        b,
        "notice",
        "authors",
        "patents",
        "copyright",
    ) {
        return 40;
    }
    if among4(e, "md", "mdx", "markdown", "rst") || same(e, "txt") {
        return 50;
    }
    let segments = split_on(p.as_str(), '/');
    let mut tests: bool = false;
    let mut samples: bool = false;
    let ghost all = split_text(p@, '/');
    for i in 0..segments.len()
        invariant
            all == split_text(p@, '/'),
            texts(segments@) == all,
            tests == exists|k: int| 0 <= k < i && is_test_segment(#[trigger] all[k]),
            samples == exists|k: int| 0 <= k < i && is_sample_segment(#[trigger] all[k]),
    {
        assert(segments@[i as int]@ == all[i as int]);
        if test_segment(segments[i].as_str()) {
            tests = true;
        }
        if sample_segment(segments[i].as_str()) {
            samples = true;
        }
    }
    assert(tests == any_segment(p@, |s: Seq<char>| is_test_segment(s)));
    assert(samples == any_segment(p@, |s: Seq<char>| is_sample_segment(s)));
    if contains(p.as_str(), ".test.") || contains(p.as_str(), ".spec.") || contains(
        p.as_str(),
        "_test.",
    ) || tests {
        return 60;
    }
    if starts_with(b, ".env") || among4(e, "json", "yaml", "yml", "toml") || same(e, "lock") || same(
        e,
        "ini",
    ) || same(e, "cfg") || samples {
        return 70;
    }
    100
}

// ---------------------------------------------------------------------------------------------
// Laws.
// ---------------------------------------------------------------------------------------------

proof fn lemma_tokens_state(a: Seq<char>, b: Seq<char>, underscore: bool)
    requires
        tokens_state(a, underscore).1.len() == 0,
    ensures
        tokens_state(a + b, underscore).0 == tokens_state(a, underscore).0 + tokens_state(b, underscore).0,
        tokens_state(a + b, underscore).1 == tokens_state(b, underscore).1,
    decreases b.len(),
{
    if b.len() == 0 {
        assert(a + b =~= a);
        assert(tokens_state(a, underscore).0 + tokens_state(b, underscore).0 =~= tokens_state(
            a,
            underscore,
        ).0);
        assert(tokens_state(a, underscore).1 =~= tokens_state(b, underscore).1);
    } else {
        assert((a + b).drop_last() =~= a + b.drop_last());
        lemma_tokens_state(a, b.drop_last(), underscore);
        assert(tokens_state(a + b, underscore).0 =~= tokens_state(a, underscore).0 + tokens_state(
            b,
            underscore,
        ).0);
    }
}

proof fn lemma_one_token(a: Seq<char>, underscore: bool)
    requires
        forall|i: int| 0 <= i < a.len() ==> in_token(#[trigger] a[i], underscore),
    ensures
        tokens_state(a, underscore).0.len() == 0,
        tokens_state(a, underscore).1 == a,
    decreases a.len(),
{
    if a.len() > 0 {
        let t = a.drop_last();
        assert forall|i: int| 0 <= i < t.len() implies in_token(#[trigger] t[i], underscore) by {
            assert(t[i] == a[i]);
        }
        lemma_one_token(t, underscore);
        assert(in_token(a[a.len() - 1], underscore));
        assert(t.push(a.last()) =~= a);
    } else {
        assert(tokens_state(a, underscore).1 =~= a);
    }
}

/// Law: a character that is neither a letter nor a digit (nor, where those count, an underscore) parts
/// tokens, and nothing else does: the tokens of two texts with such a character between them are those of
/// the one and then of the other, and a text without one is a token by itself.
pub proof fn law_tokens(a: Seq<char>, x: char, b: Seq<char>, underscore: bool)
    requires
        !is_alphanumeric_char(x),
        !(underscore && x == '_'),
    ensures
        tokens_text(a + seq![x] + b, underscore) == tokens_text(a, underscore) + tokens_text(b, underscore),
        a.len() > 0 && (forall|i: int|
            0 <= i < a.len() ==> is_alphanumeric_char(#[trigger] a[i]) || (underscore && a[i] == '_'))
            ==> tokens_text(a, underscore) == seq![a],
        tokens_text(Seq::empty(), underscore).len() == 0,
{
    let c = a.push(x);
    assert(c.drop_last() =~= a);
    assert(a + seq![x] + b =~= c + b);
    lemma_tokens_state(c, b, underscore);
    assert(tokens_state(c, underscore).0 == tokens_text(a, underscore));
    assert(tokens_text(a + seq![x] + b, underscore) =~= tokens_text(a, underscore) + tokens_text(b, underscore));
    if a.len() > 0 && (forall|i: int|
        0 <= i < a.len() ==> is_alphanumeric_char(#[trigger] a[i]) || (underscore && a[i] == '_')) {
        lemma_one_token(a, underscore);
        assert(tokens_text(a, underscore) =~= seq![a]);
    }
}

/// Law: the terms of a query are its tokens of at least three bytes, in lowercase, each once, and queries
/// that differ in case only have the same terms.
pub proof fn law_query_terms(query: Seq<char>, other: Seq<char>)
    ensures
        forall|t: Seq<char>| #[trigger]
            terms_of_query(query).contains(t) <==> tokens_text(lowercase(query), false).contains(t)
                && encode_utf8(t).len() >= 3,
        terms_of_query(query).no_duplicates(),
        lowercase(query) == lowercase(other) ==> terms_of_query(query) == terms_of_query(other),
{
    let all = tokens_text(lowercase(query), false);
    lemma_rows_where_contains(all, is_specific());
    law_once_each(rows_where(all, is_specific()));
}

/// Law: the names of a query are its tokens of at least three bytes that begin with a letter, with
/// underscores and their case kept.
pub proof fn law_query_names(query: Seq<char>)
    ensures
        forall|t: Seq<char>| #[trigger]
            names_in(query).contains(t) <==> tokens_text(query, true).contains(t) && encode_utf8(t).len() >= 3
                && t.len() > 0 && is_alphabetic_char(t[0]),
{
    lemma_rows_where_contains(tokens_text(query, true), is_name());
}

/// Law: each name stands for a symbol and for an import of that name, and for nothing else.
pub proof fn law_code_entities(names: Seq<Seq<char>>)
    ensures
        forall|e: Seq<char>| #[trigger]
            code_entities_of(names).contains(e) <==> exists|k: int|
                0 <= k < names.len() && (e == "sym:"@ + #[trigger] names[k] || e == "import:"@ + names[k]),
    decreases names.len(),
{
    if names.len() > 0 {
        let head = names.drop_last();
        law_code_entities(head);
        let before = code_entities_of(head);
        let all = code_entities_of(names);
        let n = before.len() as int;
        assert(names[names.len() - 1] == names.last());
        assert(all[n] == "sym:"@ + names.last() && all[n + 1] == "import:"@ + names.last());
        assert forall|e: Seq<char>| #[trigger] all.contains(e) <==> exists|k: int|
            0 <= k < names.len() && (e == "sym:"@ + #[trigger] names[k] || e == "import:"@ + names[k]) by {
            if all.contains(e) {
                let z = choose|z: int| 0 <= z < all.len() && all[z] == e;
                if z < n {
                    assert(before[z] == e);
                    assert(before.contains(e));
                    let k = choose|k: int|
                        0 <= k < head.len() && (e == "sym:"@ + #[trigger] head[k] || e == "import:"@ + head[k]);
                    assert(names[k] == head[k]);
                } else {
                    assert(e == "sym:"@ + names[names.len() - 1] || e == "import:"@ + names[names.len() - 1]);
                }
            }
            if exists|k: int|
                0 <= k < names.len() && (e == "sym:"@ + #[trigger] names[k] || e == "import:"@ + names[k]) {
                let k = choose|k: int|
                    0 <= k < names.len() && (e == "sym:"@ + #[trigger] names[k] || e == "import:"@ + names[k]);
                if k < head.len() {
                    assert(head[k] == names[k]);
                    assert(before.contains(e));
                    let z = choose|z: int| 0 <= z < before.len() && before[z] == e;
                    assert(all[z] == e);
                }
            }
        }
    }
}

/// Law: a text is credited with the words that it contains: with all of them if and only if it contains
/// each, with none if and only if it contains none, and never with fewer than a text that contains fewer.
pub proof fn law_terms_found(terms: Seq<Seq<char>>, text: Seq<char>, other: Seq<char>)
    ensures
        terms_found(terms, text) <= terms.len(),
        terms_found(terms, text) == terms.len() <==> forall|j: int|
            0 <= j < terms.len() ==> contains_text(text, #[trigger] terms[j]),
        terms_found(terms, text) == 0 <==> forall|j: int|
            0 <= j < terms.len() ==> !contains_text(text, #[trigger] terms[j]),
        (forall|j: int|
            0 <= j < terms.len() && contains_text(text, #[trigger] terms[j]) ==> contains_text(
                other,
                terms[j],
            )) ==> terms_found(terms, text) <= terms_found(terms, other),
    decreases terms.len(),
{
    let q = |t: Seq<char>| contains_text(text, t);
    let p = |t: Seq<char>| contains_text(other, t);
    if terms.len() > 0 {
        let head = terms.drop_last();
        law_terms_found(head, text, other);
        assert(terms[terms.len() - 1] == terms.last());
        assert(forall|j: int| 0 <= j < head.len() ==> head[j] == terms[j]);
        assert(rows_where(terms, q).len() == terms_found(terms, text));
        assert(rows_where(head, q).len() == terms_found(head, text));
        assert(rows_where(terms, p).len() == terms_found(terms, other));
        assert(rows_where(head, p).len() == terms_found(head, other));
        if forall|j: int| 0 <= j < terms.len() ==> !contains_text(text, #[trigger] terms[j]) {
            assert forall|j: int| 0 <= j < head.len() implies !contains_text(text, #[trigger] head[j]) by {
                assert(head[j] == terms[j]);
            }
            assert(!contains_text(text, terms[terms.len() - 1]));
        }
        if forall|j: int| 0 <= j < terms.len() ==> contains_text(text, #[trigger] terms[j]) {
            assert forall|j: int| 0 <= j < head.len() implies contains_text(text, #[trigger] head[j]) by {
                assert(head[j] == terms[j]);
            }
            assert(contains_text(text, terms[terms.len() - 1]));
        }
        if forall|j: int|
            0 <= j < terms.len() && contains_text(text, #[trigger] terms[j]) ==> contains_text(other, terms[j]) {
            assert forall|j: int|
                0 <= j < head.len() && contains_text(text, #[trigger] head[j]) implies contains_text(
                other,
                head[j],
            ) by {
                assert(head[j] == terms[j]);
            }
            assert(contains_text(text, terms[terms.len() - 1]) ==> contains_text(other, terms[terms.len() - 1]));
        }
        if terms_found(terms, text) == terms.len() {
            assert forall|j: int| 0 <= j < terms.len() implies contains_text(text, #[trigger] terms[j]) by {
                if j < head.len() {
                    assert(contains_text(text, head[j]));
                }
            }
        }
        if terms_found(terms, text) == 0 {
            assert forall|j: int| 0 <= j < terms.len() implies !contains_text(text, #[trigger] terms[j]) by {
                if j < head.len() {
                    assert(!contains_text(text, head[j]));
                }
            }
        }
    }
}

/// Law: source ranks above everything else. A path weighs 100 unless something says that it is not the
/// implementation; then it weighs less: a legal file 40, prose 50, a test 60, data or a sample 70, and what
/// is several of these weighs the least of them.
pub proof fn law_path_prior(path: Seq<char>)
    ensures
        ({
            let p = ascii_lower_text(path);
            let base = last_segment_text(p, '/');
            let ext = last_segment_text(base, '.');
            let legal = has_prefix(base, "license"@) || has_prefix(base, "copying"@) || base == "notice"@ || base
                == "authors"@ || base == "patents"@ || base == "copyright"@;
            let prose = ext == "md"@ || ext == "mdx"@ || ext == "markdown"@ || ext == "rst"@ || ext == "txt"@;
            let tested = contains_text(p, ".test."@) || contains_text(p, ".spec."@) || contains_text(
                p,
                "_test."@,
            ) || exists|i: int|
                0 <= i < split_text(p, '/').len() && {
                    let s = #[trigger] split_text(p, '/')[i];
                    s == "test"@ || s == "tests"@ || s == "__tests__"@ || s == "spec"@ || s == "specs"@
                };
            let sample = has_prefix(base, ".env"@) || ext == "json"@ || ext == "yaml"@ || ext == "yml"@ || ext
                == "toml"@ || ext == "lock"@ || ext == "ini"@ || ext == "cfg"@ || exists|i: int|
                0 <= i < split_text(p, '/').len() && {
                    let s = #[trigger] split_text(p, '/')[i];
                    s == "examples"@ || s == "example"@ || s == "fixtures"@ || s == "testdata"@ || s
                        == "benchmark"@ || s == "benchmarks"@
                };
            &&& prior_of(path) == 100 <==> !legal && !prose && !tested && !sample
            &&& legal ==> prior_of(path) == 40
            &&& prose && !legal ==> prior_of(path) == 50
            &&& tested && !legal && !prose ==> prior_of(path) == 60
            &&& sample && !legal && !prose && !tested ==> prior_of(path) == 70
        }),
{
    let p = ascii_lower_text(path);
    let test = |s: Seq<char>| is_test_segment(s);
    let sample = |s: Seq<char>| is_sample_segment(s);
    if any_segment(p, test) {
        let i = choose|i: int| 0 <= i < split_text(p, '/').len() && test(#[trigger] split_text(p, '/')[i]);
        assert(is_test_segment(split_text(p, '/')[i]));
    }
    if any_segment(p, sample) {
        let i = choose|i: int| 0 <= i < split_text(p, '/').len() && sample(#[trigger] split_text(p, '/')[i]);
        assert(is_sample_segment(split_text(p, '/')[i]));
    }
    assert forall|i: int| 0 <= i < split_text(p, '/').len() implies (is_test_segment(
        #[trigger] split_text(p, '/')[i],
    ) ==> any_segment(p, test)) && (is_sample_segment(split_text(p, '/')[i]) ==> any_segment(p, sample)) by {
        assert(test(split_text(p, '/')[i]) == is_test_segment(split_text(p, '/')[i]));
        assert(sample(split_text(p, '/')[i]) == is_sample_segment(split_text(p, '/')[i]));
    }
}

} // verus!
