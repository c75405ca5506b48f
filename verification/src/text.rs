//! Text as sequences of characters: the operations on strings that the rest of the library is
//! stated over, each with an executable counterpart.

use vstd::prelude::*;

verus! {

// ---------------------------------------------------------------------------------------------
// Items of std that are used directly.
// ---------------------------------------------------------------------------------------------

/// `String::push` appends the character.
pub assume_specification[ String::push ](s: &mut String, c: char)
    ensures
        final(s)@ == old(s)@.push(c),
;

/// `String::push_str` appends the whole string slice.
pub assume_specification[ String::push_str ](s: &mut String, t: &str)
    ensures
        final(s)@ == old(s)@ + t@,
;

/// Two string slices are equal exactly when they hold the same characters.
pub assume_specification[ <str as PartialEq>::eq ](a: &str, b: &str) -> (r: bool)
    ensures
        r == (a@ == b@),
;

/// Whether a character is an ASCII letter.
pub open spec fn is_ascii_alpha(c: char) -> bool {
    'a' <= c <= 'z' || 'A' <= c <= 'Z'
}

/// Whether a character is an ASCII digit.
pub open spec fn is_ascii_digit(c: char) -> bool {
    '0' <= c <= '9'
}

/// Whether a character has the Unicode `White_Space` property: the space, the control characters
/// from the tabulator to the carriage return, and the separators beyond ASCII.
pub open spec fn is_white_space(c: char) -> bool {
    ||| c == ' '
    ||| '\t' <= c <= '\r'
    ||| c == '\u{85}'
    ||| c == '\u{A0}'
    ||| c == '\u{1680}'
    ||| '\u{2000}' <= c <= '\u{200A}'
    ||| c == '\u{2028}'
    ||| c == '\u{2029}'
    ||| c == '\u{202F}'
    ||| c == '\u{205F}'
    ||| c == '\u{3000}'
}

/// `char::is_whitespace` answers by the Unicode `White_Space` property, which holds of the
/// characters that [`is_white_space`] lists and of no other.
pub assume_specification[ char::is_whitespace ](c: char) -> (r: bool)
    ensures
        r == is_white_space(c),
;

/// Whether a character beyond ASCII is alphabetic or numeric in Unicode's sense.
pub uninterp spec fn is_wide_alphanumeric(c: char) -> bool;

/// Whether a character is alphabetic or numeric in Unicode's sense. In ASCII the letters and the
/// digits are.
pub open spec fn is_alphanumeric_char(c: char) -> bool {
    if c as u32 <= 0x7f {
        is_ascii_alpha(c) || is_ascii_digit(c)
    } else {
        is_wide_alphanumeric(c)
    }
}

/// `char::is_alphanumeric` answers by Unicode's `Alphabetic` property and numeric general
/// categories: in ASCII as [`is_alphanumeric_char`] says, beyond it as named by
/// [`is_wide_alphanumeric`].
pub assume_specification[ char::is_alphanumeric ](c: char) -> (r: bool)
    ensures
        c as u32 > 0x7f ==> r == is_wide_alphanumeric(c),
        r == is_alphanumeric_char(c),
;

/// Whether a character beyond ASCII is alphabetic in Unicode's sense.
pub uninterp spec fn is_wide_alphabetic(c: char) -> bool;

/// Whether a character is alphabetic in Unicode's sense. In ASCII the letters are.
pub open spec fn is_alphabetic_char(c: char) -> bool {
    if c as u32 <= 0x7f {
        is_ascii_alpha(c)
    } else {
        is_wide_alphabetic(c)
    }
}

/// `char::is_alphabetic` answers by Unicode's `Alphabetic` property: in ASCII as
/// [`is_alphabetic_char`] says, beyond it as named by [`is_wide_alphabetic`].
pub assume_specification[ char::is_alphabetic ](c: char) -> (r: bool)
    ensures
        c as u32 > 0x7f ==> r == is_wide_alphabetic(c),
        r == is_alphabetic_char(c),
;

/// Whether a text holds ASCII characters only.
pub open spec fn is_ascii_text(s: Seq<char>) -> bool {
    forall|i: int| 0 <= i < s.len() ==> #[trigger] s[i] as u32 <= 0x7f
}

/// The lowercase equivalent of a text that holds a character beyond ASCII, by Unicode's `Lowercase`
/// derived property and its context-sensitive mappings.
pub uninterp spec fn wide_lowercase(s: Seq<char>) -> Seq<char>;

/// The lowercase equivalent of a text. Of ASCII text the letters are mapped one by one.
pub open spec fn lowercase(s: Seq<char>) -> Seq<char> {
    if is_ascii_text(s) {
        ascii_lower_text(s)
    } else {
        wide_lowercase(s)
    }
}

/// `str::to_lowercase` returns the lowercase equivalent: of ASCII text as [`lowercase`] says, of any
/// other as named by [`wide_lowercase`].
pub assume_specification[ str::to_lowercase ](s: &str) -> (r: String)
    ensures
        !is_ascii_text(s@) ==> r@ == wide_lowercase(s@),
        r@ == lowercase(s@),
;

// ---------------------------------------------------------------------------------------------
// Views of collections of strings.
// ---------------------------------------------------------------------------------------------

/// The texts that a sequence of strings holds.
pub open spec fn texts(v: Seq<String>) -> Seq<Seq<char>> {
    Seq::new(v.len(), |i: int| v[i]@)
}

/// The texts in an optional list of strings.
pub open spec fn opt_texts(o: Option<Vec<String>>) -> Option<Seq<Seq<char>>> {
    match o {
        Some(v) => Some(texts(v@)),
        None => None,
    }
}

/// The text that an optional string holds.
pub open spec fn opt_text(o: Option<String>) -> Option<Seq<char>> {
    match o {
        Some(s) => Some(s@),
        None => None,
    }
}

pub proof fn lemma_texts_push(v: Seq<String>, s: String)
    ensures
        texts(v.push(s)) == texts(v).push(s@),
{
    assert(texts(v.push(s)) =~= texts(v).push(s@));
}

/// A copy of an optional string.
pub fn copy_opt(o: &Option<String>) -> (r: Option<String>)
    ensures
        r == *o,
{
    match o {
        Some(s) => Some(s.clone()),
        None => None,
    }
}

/// A copy of a list of strings.
pub fn copy_texts(v: &Vec<String>) -> (r: Vec<String>)
    ensures
        r@ == v@,
        texts(r@) == texts(v@),
{
    let mut out: Vec<String> = Vec::new();
    for i in 0..v.len()
        invariant
            out@ == v@.take(i as int),
    {
        out.push(v[i].clone());
        assert(v@.take(i + 1) =~= v@.take(i as int).push(v@[i as int]));
    }
    assert(v@.take(v@.len() as int) =~= v@);
    out
}

/// Whether `a` and `b` hold the same characters.
pub fn same(a: &str, b: &str) -> (r: bool)
    ensures
        r == (a@ == b@),
{
    *a == *b
}

/// Whether `x` is one of `v`.
pub fn any_same(v: &Vec<String>, x: &str) -> (r: bool)
    ensures
        r == texts(v@).contains(x@),
{
    for i in 0..v.len()
        invariant
            forall|j: int| 0 <= j < i ==> texts(v@)[j] != x@,
    {
        if same(v[i].as_str(), x) {
            assert(texts(v@)[i as int] == x@);
            return true;
        }
        assert(texts(v@)[i as int] == v@[i as int]@);
    }
    assert(!texts(v@).contains(x@)) by {
        if texts(v@).contains(x@) {
            let k = choose|k: int| 0 <= k < texts(v@).len() && texts(v@)[k] == x@;
            assert(texts(v@)[k] != x@);
        }
    }
    false
}

// ---------------------------------------------------------------------------------------------
// Characters and strings.
// ---------------------------------------------------------------------------------------------

/// The characters of a string.
pub fn chars_of(s: &str) -> (r: Vec<char>)
    ensures
        r@ == s@,
{
    let mut out: Vec<char> = Vec::new();
    for c in it: s.chars()
        invariant
            out@ == s@.take(it.index()),
            it.seq() == s@,
    {
        out.push(c);
        assert(s@.take(it.index() + 1) =~= s@.take(it.index()).push(c));
    }
    assert(s@.take(s@.len() as int) =~= s@);
    out
}

/// The string of the characters `cs[from..to]`.
pub fn string_from(cs: &Vec<char>, from: usize, to: usize) -> (r: String)
    requires
        from <= to <= cs@.len(),
    ensures
        r@ == cs@.subrange(from as int, to as int),
{
    let mut out = String::new();
    for i in from..to
        invariant
            from <= to <= cs@.len(),
            out@ == cs@.subrange(from as int, i as int),
    {
        out.push(cs[i]);
        assert(cs@.subrange(from as int, i + 1) =~= cs@.subrange(from as int, i as int).push(
            cs@[i as int],
        ));
    }
    out
}

/// The number of characters.
pub fn char_count(s: &str) -> (n: usize)
    ensures
        n == s@.len(),
{
    s.unicode_len()
}

/// The first `n` characters, or all of them.
pub open spec fn take_text(s: Seq<char>, n: int) -> Seq<char> {
    if s.len() <= n {
        s
    } else {
        s.take(n)
    }
}

pub fn take_chars(s: &str, n: usize) -> (r: String)
    ensures
        r@ == take_text(s@, n as int),
{
    let cs = chars_of(s);
    if cs.len() <= n {
        s.to_owned()
    } else {
        let r = string_from(&cs, 0, n);
        assert(cs@.subrange(0, n as int) =~= cs@.take(n as int));
        r
    }
}

pub fn cat2(a: &str, b: &str) -> (r: String)
    ensures
        r@ == a@ + b@,
{
    let mut s = a.to_owned();
    s.push_str(b);
    s
}

pub fn cat3(a: &str, b: &str, c: &str) -> (r: String)
    ensures
        r@ == a@ + b@ + c@,
{
    let mut s = a.to_owned();
    s.push_str(b);
    s.push_str(c);
    s
}

/// `parts` with `sep` between neighbours.
pub open spec fn join_texts(parts: Seq<Seq<char>>, sep: Seq<char>) -> Seq<char>
    decreases parts.len(),
{
    if parts.len() == 0 {
        Seq::empty()
    } else if parts.len() == 1 {
        parts[0]
    } else {
        join_texts(parts.drop_last(), sep) + sep + parts.last()
    }
}

pub fn join(parts: &Vec<String>, sep: &str) -> (r: String)
    ensures
        r@ == join_texts(texts(parts@), sep@),
{
    let mut out = String::new();
    for i in 0..parts.len()
        invariant
            out@ == join_texts(texts(parts@).take(i as int), sep@),
    {
        proof {
            let p = texts(parts@).take(i + 1);
            assert(p.drop_last() =~= texts(parts@).take(i as int));
            assert(p.last() == parts@[i as int]@);
        }
        if i > 0 {
            out.push_str(sep);
        }
        out.push_str(parts[i].as_str());
        assert(out@ =~= join_texts(texts(parts@).take(i + 1), sep@));
    }
    assert(texts(parts@).take(parts@.len() as int) =~= texts(parts@));
    out
}

// ---------------------------------------------------------------------------------------------
// Prefixes, suffixes, substrings.
// ---------------------------------------------------------------------------------------------

/// Whether `s` begins with `p`.
pub open spec fn has_prefix(s: Seq<char>, p: Seq<char>) -> bool {
    p.len() <= s.len() && s.subrange(0, p.len() as int) == p
}

/// Whether `s` ends with `p`.
pub open spec fn has_suffix(s: Seq<char>, p: Seq<char>) -> bool {
    p.len() <= s.len() && s.subrange(s.len() - p.len(), s.len() as int) == p
}

/// Whether `p` occurs in `s` at index `i`.
pub open spec fn occurs_at(s: Seq<char>, p: Seq<char>, i: int) -> bool {
    0 <= i && i + p.len() <= s.len() && s.subrange(i, i + p.len()) == p
}

/// Whether `p` occurs in `s`.
pub open spec fn contains_text(s: Seq<char>, p: Seq<char>) -> bool {
    exists|i: int| occurs_at(s, p, i)
}

/// Whether `p` occurs in `s` at `i`, on characters.
pub fn matches_at(s: &Vec<char>, p: &Vec<char>, i: usize) -> (r: bool)
    requires
        i <= s@.len(),
    ensures
        r == occurs_at(s@, p@, i as int),
{
    if p.len() > s.len() - i {
        return false;
    }
    for k in 0..p.len()
        invariant
            i + p.len() <= s.len(),
            forall|j: int| 0 <= j < k ==> s@[i + j] == p@[j],
    {
        if s[i + k] != p[k] {
            assert(s@.subrange(i as int, i + p@.len())[k as int] != p@[k as int]);
            return false;
        }
    }
    assert(s@.subrange(i as int, i + p@.len()) =~= p@);
    true
}

pub fn starts_with(s: &str, p: &str) -> (r: bool)
    ensures
        r == has_prefix(s@, p@),
{
    let a = chars_of(s);
    let b = chars_of(p);
    let r = matches_at(&a, &b, 0);
    r
}

pub fn ends_with(s: &str, p: &str) -> (r: bool)
    ensures
        r == has_suffix(s@, p@),
{
    let a = chars_of(s);
    let b = chars_of(p);
    if b.len() > a.len() {
        return false;
    }
    let r = matches_at(&a, &b, a.len() - b.len());
    r
}

/// The least index at or after `from` at which `p` occurs in `s`.
pub fn find_at(s: &Vec<char>, p: &Vec<char>, from: usize) -> (r: Option<usize>)
    requires
        from <= s@.len(),
    ensures
        match r {
            Some(i) => from <= i <= s@.len() && occurs_at(s@, p@, i as int) && (forall|j: int|
                from <= j < i ==> !occurs_at(s@, p@, j)),
            None => forall|j: int| from <= j ==> !occurs_at(s@, p@, j),
        },
{
    let mut i: usize = from;
    while i < s.len()
        invariant
            from <= i <= s@.len(),
            forall|j: int| from <= j < i ==> !occurs_at(s@, p@, j),
        decreases s@.len() - i,
    {
        if matches_at(s, p, i) {
            return Some(i);
        }
        i += 1;
    }
    if matches_at(s, p, i) {
        return Some(i);
    }
    None
}

pub fn contains(s: &str, p: &str) -> (r: bool)
    ensures
        r == contains_text(s@, p@),
{
    let a = chars_of(s);
    let b = chars_of(p);
    match find_at(&a, &b, 0) {
        Some(_) => true,
        None => false,
    }
}

/// `s` with the prefix `p` removed, where it has that prefix.
pub open spec fn strip_prefix_text(s: Seq<char>, p: Seq<char>) -> Option<Seq<char>> {
    if has_prefix(s, p) {
        Some(s.subrange(p.len() as int, s.len() as int))
    } else {
        None
    }
}

pub fn strip_prefix(s: &str, p: &str) -> (r: Option<String>)
    ensures
        opt_text(r) == strip_prefix_text(s@, p@),
{
    let a = chars_of(s);
    let b = chars_of(p);
    if matches_at(&a, &b, 0) {
        Some(string_from(&a, b.len(), a.len()))
    } else {
        None
    }
}

// ---------------------------------------------------------------------------------------------
// Splitting.
// ---------------------------------------------------------------------------------------------

/// The pieces of `s` between the occurrences of `c`: one more piece than there are occurrences.
pub open spec fn split_text(s: Seq<char>, c: char) -> Seq<Seq<char>>
    decreases s.len(),
{
    if s.len() == 0 {
        seq![Seq::<char>::empty()]
    } else {
        let before = split_text(s.drop_last(), c);
        if s.last() == c {
            before.push(Seq::empty())
        } else {
            before.drop_last().push(before.last().push(s.last()))
        }
    }
}

pub proof fn lemma_split_nonempty(s: Seq<char>, c: char)
    ensures
        split_text(s, c).len() >= 1,
    decreases s.len(),
{
    if s.len() > 0 {
        lemma_split_nonempty(s.drop_last(), c);
    }
}

/// What stands before and after the first `c` in `s`, if it occurs.
pub open spec fn cut_text(s: Seq<char>, c: char) -> Option<(Seq<char>, Seq<char>)>
    decreases s.len(),
{
    if s.len() == 0 {
        None
    } else if s[0] == c {
        Some((Seq::empty(), s.skip(1)))
    } else {
        match cut_text(s.skip(1), c) {
            Some((before, after)) => Some((seq![s[0]] + before, after)),
            None => None,
        }
    }
}

pub proof fn lemma_cut_at(s: Seq<char>, c: char, i: int)
    requires
        0 <= i < s.len(),
        s[i] == c,
        forall|k: int| 0 <= k < i ==> s[k] != c,
    ensures
        cut_text(s, c) == Some((s.take(i), s.skip(i + 1))),
    decreases s.len(),
{
    if i > 0 {
        let t = s.skip(1);
        lemma_cut_at(t, c, i - 1);
        assert(seq![s[0]] + t.take(i - 1) =~= s.take(i));
        assert(t.skip(i) =~= s.skip(i + 1));
    } else {
        assert(s.take(0) =~= Seq::empty());
    }
}

pub proof fn lemma_cut_none(s: Seq<char>, c: char)
    requires
        forall|k: int| 0 <= k < s.len() ==> s[k] != c,
    ensures
        cut_text(s, c) is None,
    decreases s.len(),
{
    if s.len() > 0 {
        lemma_cut_none(s.skip(1), c);
    }
}

/// Cuts a text at the first `c`.
pub fn cut(s: &str, c: char) -> (r: Option<(String, String)>)
    ensures
        match r {
            Some(p) => cut_text(s@, c) == Some((p.0@, p.1@)),
            None => cut_text(s@, c) is None,
        },
{
    let cs = chars_of(s);
    let mut i: usize = 0;
    while i < cs.len() && cs[i] != c
        invariant
            i <= cs@.len(),
            forall|k: int| 0 <= k < i ==> cs@[k] != c,
        decreases cs@.len() - i,
    {
        i += 1;
    }
    if i == cs.len() {
        proof {
            lemma_cut_none(s@, c);
        }
        return None;
    }
    proof {
        lemma_cut_at(s@, c, i as int);
        assert(s@.subrange(0, i as int) =~= s@.take(i as int));
        assert(s@.subrange(i + 1, s@.len() as int) =~= s@.skip(i + 1));
    }
    Some((string_from(&cs, 0, i), string_from(&cs, i + 1, cs.len())))
}

/// How often `c` occurs in `s`.
pub open spec fn count_char(s: Seq<char>, c: char) -> nat
    decreases s.len(),
{
    if s.len() == 0 {
        0
    } else {
        count_char(s.drop_last(), c) + if s.last() == c {
            1nat
        } else {
            0nat
        }
    }
}

pub proof fn lemma_split_len(s: Seq<char>, c: char)
    ensures
        split_text(s, c).len() == count_char(s, c) + 1,
    decreases s.len(),
{
    if s.len() > 0 {
        lemma_split_len(s.drop_last(), c);
    }
}

pub proof fn lemma_split_free(s: Seq<char>, c: char)
    ensures
        forall|i: int|
            0 <= i < split_text(s, c).len() ==> !(#[trigger] split_text(s, c)[i]).contains(c),
    decreases s.len(),
{
    lemma_split_nonempty(s, c);
    if s.len() > 0 {
        let t = s.drop_last();
        lemma_split_free(t, c);
        lemma_split_nonempty(t, c);
        let before = split_text(t, c);
        let after = split_text(s, c);
        assert forall|i: int| 0 <= i < after.len() implies !(#[trigger] after[i]).contains(c) by {
            if s.last() == c {
                if i < before.len() {
                    assert(after[i] == before[i]);
                }
            } else if i < before.len() - 1 {
                assert(after[i] == before[i]);
            } else {
                let p = before.last();
                assert(!before[before.len() - 1].contains(c));
                let g = p.push(s.last());
                if g.contains(c) {
                    let k = choose|k: int| 0 <= k < g.len() && g[k] == c;
                    assert(p[k] == c);
                }
            }
        }
    }
}

pub proof fn lemma_count_add(a: Seq<char>, b: Seq<char>, c: char)
    ensures
        count_char(a + b, c) == count_char(a, c) + count_char(b, c),
    decreases b.len(),
{
    if b.len() == 0 {
        assert(a + b =~= a);
    } else {
        assert((a + b).drop_last() =~= a + b.drop_last());
        lemma_count_add(a, b.drop_last(), c);
    }
}

pub proof fn lemma_count_free(s: Seq<char>, c: char)
    requires
        !s.contains(c),
    ensures
        count_char(s, c) == 0,
    decreases s.len(),
{
    if s.len() > 0 {
        assert(s[s.len() - 1] != c);
        let t = s.drop_last();
        assert(!t.contains(c)) by {
            if t.contains(c) {
                let k = choose|k: int| 0 <= k < t.len() && t[k] == c;
                assert(s[k] == c);
            }
        }
        lemma_count_free(t, c);
    }
}

pub fn split_on(s: &str, c: char) -> (r: Vec<String>)
    ensures
        texts(r@) == split_text(s@, c),
        r@.len() >= 1,
{
    let mut out: Vec<String> = Vec::new();
    let mut cur = String::new();
    for x in it: s.chars()
        invariant
            texts(out@).push(cur@) == split_text(s@.take(it.index()), c),
            it.seq() == s@,
    {
        let ghost n = it.index();
        let ghost before = split_text(s@.take(n), c);
        assert(s@.take(n + 1).drop_last() =~= s@.take(n));
        assert(s@.take(n + 1).last() == x);
        if x == c {
            let ghost out0 = out@;
            let ghost cur0 = cur;
            out.push(cur);
            cur = String::new();
            proof {
                lemma_texts_push(out0, cur0);
            }
        } else {
            assert(before.drop_last() =~= texts(out@));
            assert(before.last() == cur@);
            cur.push(x);
        }
        assert(texts(out@).push(cur@) =~= split_text(s@.take(n + 1), c));
    }
    assert(s@.take(s@.len() as int) =~= s@);
    let ghost out0 = out@;
    let ghost cur0 = cur;
    out.push(cur);
    proof {
        lemma_texts_push(out0, cur0);
    }
    out
}

/// `s` without one trailing carriage return.
pub open spec fn strip_cr(s: Seq<char>) -> Seq<char> {
    if s.len() > 0 && s.last() == '\r' {
        s.drop_last()
    } else {
        s
    }
}

/// The lines of a text. Every line feed ends a line, together with a carriage return right
/// before it; what follows the last line feed is a line of its own unless it is empty.
pub open spec fn lines_text(s: Seq<char>) -> Seq<Seq<char>> {
    let pieces = split_text(s, '\n');
    let ended = Seq::new((pieces.len() - 1) as nat, |i: int| strip_cr(pieces[i]));
    if pieces.last().len() == 0 {
        ended
    } else {
        ended.push(pieces.last())
    }
}

pub fn lines_of(s: &str) -> (r: Vec<String>)
    ensures
        texts(r@) == lines_text(s@),
{
    let pieces = split_on(s, '\n');
    let ghost all = split_text(s@, '\n');
    let mut out: Vec<String> = Vec::new();
    let last: usize = pieces.len() - 1;
    for i in 0..last
        invariant
            last == pieces@.len() - 1,
            texts(pieces@) == all,
            texts(out@) == Seq::new(i as nat, |j: int| strip_cr(all[j])),
    {
        let cs = chars_of(pieces[i].as_str());
        assert(all[i as int] == cs@);
        let ghost out0 = out@;
        let n = cs.len();
        let line = if n > 0 && cs[n - 1] == '\r' {
            string_from(&cs, 0, n - 1)
        } else {
            pieces[i].clone()
        };
        assert(line@ =~= strip_cr(all[i as int]));
        out.push(line);
        proof {
            lemma_texts_push(out0, line);
        }
        assert(texts(out@) =~= Seq::new((i + 1) as nat, |j: int| strip_cr(all[j])));
    }
    assert(all.last() == pieces@[last as int]@);
    if !pieces[last].as_str().is_empty() {
        let ghost out0 = out@;
        let line = pieces[last].clone();
        out.push(line);
        proof {
            lemma_texts_push(out0, line);
        }
    }
    out
}

/// No line holds a line feed.
pub proof fn lemma_lines_free(s: Seq<char>)
    ensures
        forall|i: int|
            0 <= i < lines_text(s).len() ==> !(#[trigger] lines_text(s)[i]).contains('\n'),
{
    let pieces = split_text(s, '\n');
    lemma_split_free(s, '\n');
    lemma_split_nonempty(s, '\n');
    assert forall|i: int| 0 <= i < lines_text(s).len() implies !(#[trigger] lines_text(
        s,
    )[i]).contains('\n') by {
        let line = lines_text(s)[i];
        assert(!pieces[i].contains('\n'));
        if line.contains('\n') {
            let k = choose|k: int| 0 <= k < line.len() && line[k] == '\n';
            assert(pieces[i][k] == '\n');
        }
    }
}

proof fn lemma_join_count(parts: Seq<Seq<char>>)
    requires
        forall|i: int| 0 <= i < parts.len() ==> !(#[trigger] parts[i]).contains('\n'),
    ensures
        parts.len() > 0 ==> count_char(join_texts(parts, seq!['\n']), '\n') == parts.len() - 1,
    decreases parts.len(),
{
    if parts.len() == 1 {
        lemma_count_free(parts[0], '\n');
    } else if parts.len() > 1 {
        let t = parts.drop_last();
        assert forall|i: int| 0 <= i < t.len() implies !(#[trigger] t[i]).contains('\n') by {
            assert(t[i] == parts[i]);
        }
        lemma_join_count(t);
        let head = join_texts(t, seq!['\n']);
        assert(!parts[parts.len() - 1].contains('\n'));
        lemma_count_free(parts.last(), '\n');
        lemma_count_add(head, seq!['\n'], '\n');
        lemma_count_add(head + seq!['\n'], parts.last(), '\n');
        let nl = seq!['\n'];
        reveal_with_fuel(count_char, 2);
        assert(nl.drop_last() =~= Seq::<char>::empty());
        assert(count_char(nl, '\n') == 1);
    }
}

/// What follows the last line feed of `head`, a line feed and `tail` is `tail`.
proof fn lemma_last_piece(head: Seq<char>, tail: Seq<char>)
    requires
        !tail.contains('\n'),
    ensures
        split_text(head + seq!['\n'] + tail, '\n').last() == tail,
    decreases tail.len(),
{
    let s = head + seq!['\n'] + tail;
    lemma_split_nonempty(head, '\n');
    if tail.len() == 0 {
        assert(s =~= head.push('\n'));
        assert(s.drop_last() =~= head);
        assert(tail =~= Seq::<char>::empty());
    } else {
        let t = tail.drop_last();
        assert forall|i: int| 0 <= i < t.len() implies t[i] != '\n' by {
            assert(tail[i] == t[i]);
            assert(tail.contains(tail[i]));
        }
        lemma_last_piece(head, t);
        assert(s.drop_last() =~= head + seq!['\n'] + t);
        assert(s.last() == tail.last());
        assert(tail.contains(tail[tail.len() - 1]));
        assert(t.push(tail.last()) =~= tail);
        lemma_split_nonempty(s.drop_last(), '\n');
    }
}

/// Lines that are joined by line feeds make as many lines again, but for an empty line at the end.
pub proof fn lemma_joined_lines(parts: Seq<Seq<char>>)
    requires
        parts.len() > 0,
        forall|i: int| 0 <= i < parts.len() ==> !(#[trigger] parts[i]).contains('\n'),
    ensures
        lines_text(join_texts(parts, seq!['\n'])).len() == if parts.last().len() > 0 {
            parts.len() as int
        } else {
            parts.len() - 1
        },
{
    let t = join_texts(parts, seq!['\n']);
    lemma_join_count(parts);
    lemma_split_len(t, '\n');
    assert(!parts[parts.len() - 1].contains('\n'));
    if parts.len() == 1 {
        lemma_split_whole(t, '\n');
    } else {
        lemma_last_piece(join_texts(parts.drop_last(), seq!['\n']), parts.last());
    }
}

/// The pieces of two texts with the separator between them are the pieces of the one and then of
/// the other.
pub proof fn lemma_split_join(a: Seq<char>, b: Seq<char>, c: char)
    ensures
        split_text(a + seq![c] + b, c) == split_text(a, c) + split_text(b, c),
    decreases b.len(),
{
    let s = a + seq![c] + b;
    if b.len() == 0 {
        assert(s.drop_last() =~= a);
        assert(split_text(s, c) =~= split_text(a, c) + split_text(b, c));
    } else {
        lemma_split_join(a, b.drop_last(), c);
        assert(s.drop_last() =~= a + seq![c] + b.drop_last());
        assert(s.last() == b.last());
        lemma_split_nonempty(b.drop_last(), c);
        assert(split_text(s, c) =~= split_text(a, c) + split_text(b, c));
    }
}

/// The lines of a text that goes on after a line feed: those that the line feed ends, then those of
/// the rest.
pub proof fn lemma_lines_join(a: Seq<char>, b: Seq<char>)
    ensures
        lines_text(a + seq!['\n'] + b) == lines_text(a.push('\n')) + lines_text(b),
{
    let e = Seq::<char>::empty();
    lemma_split_join(a, b, '\n');
    lemma_split_join(a, e, '\n');
    lemma_split_nonempty(a, '\n');
    lemma_split_nonempty(b, '\n');
    assert(a + seq!['\n'] + e =~= a.push('\n'));
    assert(lines_text(a + seq!['\n'] + b) =~= lines_text(a.push('\n')) + lines_text(b));
}

/// A text without the separator is one piece.
pub proof fn lemma_split_whole(s: Seq<char>, c: char)
    requires
        !s.contains(c),
    ensures
        split_text(s, c) == seq![s],
    decreases s.len(),
{
    if s.len() > 0 {
        let t = s.drop_last();
        assert forall|i: int| 0 <= i < t.len() implies t[i] != c by {
            assert(s[i] == t[i]);
            assert(s.contains(s[i]));
        }
        lemma_split_whole(t, c);
        assert(s.contains(s[s.len() - 1]));
        assert(t.push(s.last()) =~= s);
        assert(split_text(s, c) =~= seq![s]);
    } else {
        assert(s =~= Seq::empty());
    }
}

/// Texts without the separator, joined by it, are the pieces again.
pub proof fn lemma_split_joined(parts: Seq<Seq<char>>, c: char)
    requires
        parts.len() > 0,
        forall|i: int| 0 <= i < parts.len() ==> !(#[trigger] parts[i]).contains(c),
    ensures
        split_text(join_texts(parts, seq![c]), c) == parts,
    decreases parts.len(),
{
    if parts.len() == 1 {
        lemma_split_whole(parts[0], c);
        assert(parts =~= seq![parts[0]]);
    } else {
        let head = parts.drop_last();
        assert forall|i: int| 0 <= i < head.len() implies !(#[trigger] head[i]).contains(c) by {
            assert(head[i] == parts[i]);
        }
        lemma_split_joined(head, c);
        assert(!parts[parts.len() - 1].contains(c));
        lemma_split_whole(parts.last(), c);
        lemma_split_join(join_texts(head, seq![c]), parts.last(), c);
        assert(head + seq![parts.last()] =~= parts);
    }
}

/// A text is blank if and only if it holds white space alone.
pub proof fn lemma_blank(s: Seq<char>)
    ensures
        trim_text(s).len() == 0 <==> forall|i: int| 0 <= i < s.len() ==> is_white_space(#[trigger] s[i]),
    decreases s.len(),
{
    if s.len() > 0 {
        if is_white_space(s[0]) {
            let t = s.skip(1);
            lemma_blank(t);
            assert(trim_text(s) == trim_text(t));
            if forall|i: int| 0 <= i < t.len() ==> is_white_space(#[trigger] t[i]) {
                assert forall|i: int| 0 <= i < s.len() implies is_white_space(#[trigger] s[i]) by {
                    if i > 0 {
                        assert(s[i] == t[i - 1]);
                    }
                }
            } else {
                let k = choose|k: int| 0 <= k < t.len() && !is_white_space(#[trigger] t[k]);
                assert(s[k + 1] == t[k]);
            }
        } else {
            lemma_trim_end_keeps(s);
        }
    }
}

proof fn lemma_trim_end_keeps(s: Seq<char>)
    requires
        s.len() > 0,
        !is_white_space(s[0]),
    ensures
        trim_end_text(s).len() > 0,
    decreases s.len(),
{
    if is_white_space(s.last()) {
        let t = s.drop_last();
        if t.len() > 0 {
            assert(t[0] == s[0]);
            lemma_trim_end_keeps(t);
        }
    }
}

/// Where a joined text is blank, each of its parts is.
pub proof fn lemma_join_blank(parts: Seq<Seq<char>>, sep: Seq<char>)
    requires
        trim_text(join_texts(parts, sep)).len() == 0,
    ensures
        forall|i: int| 0 <= i < parts.len() ==> trim_text(#[trigger] parts[i]).len() == 0,
    decreases parts.len(),
{
    if parts.len() == 1 {
    } else if parts.len() > 1 {
        let t = parts.drop_last();
        let head = join_texts(t, sep);
        let whole = join_texts(parts, sep);
        lemma_blank(whole);
        assert forall|i: int| 0 <= i < head.len() implies is_white_space(#[trigger] head[i]) by {
            assert(whole[i] == head[i]);
        }
        lemma_blank(head);
        lemma_join_blank(t, sep);
        let last = parts.last();
        assert forall|i: int| 0 <= i < last.len() implies is_white_space(#[trigger] last[i]) by {
            assert(whole[head.len() + sep.len() + i] == last[i]);
        }
        lemma_blank(last);
        assert forall|i: int| 0 <= i < parts.len() implies trim_text(#[trigger] parts[i]).len() == 0 by {
            if i < t.len() {
                assert(t[i] == parts[i]);
            }
        }
    }
}

/// What follows the last occurrence of `c`, or all of `s`.
pub open spec fn last_segment_text(s: Seq<char>, c: char) -> Seq<char> {
    split_text(s, c).last()
}

pub fn last_segment(s: &str, c: char) -> (r: String)
    ensures
        r@ == last_segment_text(s@, c),
{
    let mut pieces = split_on(s, c);
    let n = pieces.len();
    assert(texts(pieces@).last() == pieces@[n - 1]@);
    let r = pieces[n - 1].clone();
    r
}

/// What precedes the last occurrence of `c`, or all of `s`.
pub open spec fn before_last(s: Seq<char>, c: char) -> Seq<char> {
    if split_text(s, c).len() > 1 {
        s.take(s.len() - last_segment_text(s, c).len() - 1)
    } else {
        s
    }
}

pub proof fn lemma_last_segment_len(s: Seq<char>, c: char)
    ensures
        split_text(s, c).len() > 1 ==> last_segment_text(s, c).len() < s.len(),
        split_text(s, c).len() == 1 ==> last_segment_text(s, c) == s,
        split_text(s, c).len() >= 1,
    decreases s.len(),
{
    if s.len() > 0 {
        lemma_last_segment_len(s.drop_last(), c);
        if s.last() != c && split_text(s, c).len() == 1 {
            assert(s.drop_last().push(s.last()) =~= s);
        }
    }
}

/// Two texts joined by a character that the second does not hold are told apart at its last occurrence.
pub proof fn lemma_last_of_join(a: Seq<char>, b: Seq<char>, c: char)
    requires
        !b.contains(c),
    ensures
        last_segment_text(a + seq![c] + b, c) == b,
        before_last(a + seq![c] + b, c) == a,
{
    lemma_split_join(a, b, c);
    lemma_split_whole(b, c);
    lemma_split_nonempty(a, c);
    let s = a + seq![c] + b;
    assert(split_text(s, c).last() == b);
    assert(s.take(s.len() - b.len() - 1) =~= a);
}

/// What precedes the last occurrence of `c`, if it occurs.
pub fn split_last(s: &str, c: char) -> (r: Option<String>)
    ensures
        match r {
            Some(t) => split_text(s@, c).len() > 1 && t@ == before_last(s@, c),
            None => split_text(s@, c).len() == 1 && before_last(s@, c) == s@,
        },
{
    let tail = last_segment(s, c);
    let all = chars_of(s);
    let rest = chars_of(tail.as_str());
    proof {
        lemma_last_segment_len(s@, c);
    }
    if rest.len() < all.len() {
        let r = string_from(&all, 0, all.len() - rest.len() - 1);
        assert(r@ =~= before_last(s@, c));
        Some(r)
    } else {
        None
    }
}

/// The words read so far: the finished ones, and the one that is being read.
pub open spec fn words_state(s: Seq<char>) -> (Seq<Seq<char>>, Seq<char>)
    decreases s.len(),
{
    if s.len() == 0 {
        (Seq::empty(), Seq::empty())
    } else {
        let (done, word) = words_state(s.drop_last());
        if is_white_space(s.last()) {
            if word.len() > 0 {
                (done.push(word), Seq::empty())
            } else {
                (done, word)
            }
        } else {
            (done, word.push(s.last()))
        }
    }
}

/// The words of a text: its maximal runs of characters that are not white space.
pub open spec fn words_text(s: Seq<char>) -> Seq<Seq<char>> {
    let (done, word) = words_state(s);
    if word.len() > 0 {
        done.push(word)
    } else {
        done
    }
}

proof fn lemma_words_state(a: Seq<char>, b: Seq<char>)
    requires
        words_state(a).1.len() == 0,
    ensures
        words_state(a + b).0 == words_state(a).0 + words_state(b).0,
        words_state(a + b).1 == words_state(b).1,
    decreases b.len(),
{
    if b.len() == 0 {
        assert(a + b =~= a);
        assert(words_state(a).0 + words_state(b).0 =~= words_state(a).0);
        assert(words_state(a).1 =~= words_state(b).1);
    } else {
        assert((a + b).drop_last() =~= a + b.drop_last());
        lemma_words_state(a, b.drop_last());
        assert(words_state(a + b).0 =~= words_state(a).0 + words_state(b).0);
    }
}

/// Law: white space parts words and nothing else does: the words of two texts with white space between
/// them are those of the one and then of the other, and a text without white space is one word.
pub proof fn law_words(a: Seq<char>, w: char, b: Seq<char>)
    requires
        is_white_space(w),
    ensures
        words_text(a + seq![w] + b) == words_text(a) + words_text(b),
        a.len() > 0 && (forall|i: int| 0 <= i < a.len() ==> !is_white_space(#[trigger] a[i]))
            ==> words_text(a) == seq![a],
        words_text(Seq::empty()).len() == 0,
    decreases a.len(),
{
    let c = a.push(w);
    assert(c.drop_last() =~= a);
    assert(a + seq![w] + b =~= c + b);
    lemma_words_state(c, b);
    assert(words_state(c).0 == words_text(a));
    assert(words_text(a + seq![w] + b) =~= words_text(a) + words_text(b));
    if a.len() > 0 && (forall|i: int| 0 <= i < a.len() ==> !is_white_space(#[trigger] a[i])) {
        lemma_one_word(a);
    }
}

proof fn lemma_one_word(a: Seq<char>)
    requires
        forall|i: int| 0 <= i < a.len() ==> !is_white_space(#[trigger] a[i]),
    ensures
        words_state(a).0.len() == 0,
        words_state(a).1 == a,
        a.len() > 0 ==> words_text(a) == seq![a],
    decreases a.len(),
{
    if a.len() > 0 {
        let t = a.drop_last();
        assert forall|i: int| 0 <= i < t.len() implies !is_white_space(#[trigger] t[i]) by {
            assert(t[i] == a[i]);
        }
        lemma_one_word(t);
        assert(!is_white_space(a[a.len() - 1]));
        assert(t.push(a.last()) =~= a);
        assert(words_text(a) =~= seq![a]);
    } else {
        assert(words_state(a).1 =~= a);
    }
}

pub fn words_of(s: &str) -> (r: Vec<String>)
    ensures
        texts(r@) == words_text(s@),
{
    let mut out: Vec<String> = Vec::new();
    let mut word = String::new();
    assert(s@.take(0) =~= Seq::<char>::empty());
    assert(texts(out@) =~= Seq::<Seq<char>>::empty());
    for c in it: s.chars()
        invariant
            it.seq() == s@,
            texts(out@) == words_state(s@.take(it.index())).0,
            word@ == words_state(s@.take(it.index())).1,
    {
        let ghost n = it.index();
        assert(s@.take(n + 1).drop_last() =~= s@.take(n));
        assert(s@.take(n + 1).last() == c);
        if c.is_whitespace() {
            if !word.as_str().is_empty() {
                let ghost out0 = out@;
                let ghost word0 = word;
                out.push(word);
                proof {
                    lemma_texts_push(out0, word0);
                }
                word = String::new();
            }
        } else {
            word.push(c);
        }
    }
    assert(s@.take(s@.len() as int) =~= s@);
    if !word.as_str().is_empty() {
        let ghost out0 = out@;
        let ghost word0 = word;
        out.push(word);
        proof {
            lemma_texts_push(out0, word0);
        }
    }
    out
}

// ---------------------------------------------------------------------------------------------
// Trimming.
// ---------------------------------------------------------------------------------------------

/// `s` without its leading white space.
pub open spec fn trim_start_text(s: Seq<char>) -> Seq<char>
    decreases s.len(),
{
    if s.len() > 0 && is_white_space(s[0]) {
        trim_start_text(s.skip(1))
    } else {
        s
    }
}

/// `s` without its trailing white space.
pub open spec fn trim_end_text(s: Seq<char>) -> Seq<char>
    decreases s.len(),
{
    if s.len() > 0 && is_white_space(s.last()) {
        trim_end_text(s.drop_last())
    } else {
        s
    }
}

/// `s` without leading and trailing white space.
pub open spec fn trim_text(s: Seq<char>) -> Seq<char> {
    trim_end_text(trim_start_text(s))
}

/// `s` without trailing occurrences of `c`.
pub open spec fn trim_end_char_text(s: Seq<char>, c: char) -> Seq<char>
    decreases s.len(),
{
    if s.len() > 0 && s.last() == c {
        trim_end_char_text(s.drop_last(), c)
    } else {
        s
    }
}

pub fn trim(s: &str) -> (r: String)
    ensures
        r@ == trim_text(s@),
{
    let cs = chars_of(s);
    let mut a: usize = 0;
    assert(cs@.skip(0) =~= cs@);
    while a < cs.len() && cs[a].is_whitespace()
        invariant
            a <= cs@.len(),
            trim_start_text(cs@.skip(a as int)) == trim_start_text(cs@),
        decreases cs@.len() - a,
    {
        assert(cs@.skip(a as int).skip(1) =~= cs@.skip(a + 1));
        a += 1;
    }
    let ghost inner = cs@.skip(a as int);
    assert(trim_start_text(cs@) == inner);
    let mut b: usize = cs.len();
    assert(inner.take(b - a) =~= inner);
    while b > a && cs[b - 1].is_whitespace()
        invariant
            a <= b <= cs@.len(),
            inner == cs@.skip(a as int),
            trim_end_text(inner.take(b - a)) == trim_end_text(inner),
        decreases b,
    {
        assert(inner.take(b - a).drop_last() =~= inner.take(b - a - 1));
        b -= 1;
    }
    assert(inner.take(b - a) =~= cs@.subrange(a as int, b as int));
    string_from(&cs, a, b)
}

pub fn trim_end_char(s: &str, c: char) -> (r: String)
    ensures
        r@ == trim_end_char_text(s@, c),
{
    let cs = chars_of(s);
    let mut b: usize = cs.len();
    assert(cs@.take(b as int) =~= cs@);
    while b > 0 && cs[b - 1] == c
        invariant
            b <= cs@.len(),
            trim_end_char_text(cs@.take(b as int), c) == trim_end_char_text(cs@, c),
        decreases b,
    {
        assert(cs@.take(b as int).drop_last() =~= cs@.take(b - 1));
        b -= 1;
    }
    assert(cs@.take(b as int) =~= cs@.subrange(0, b as int));
    string_from(&cs, 0, b)
}

// ---------------------------------------------------------------------------------------------
// ASCII.
// ---------------------------------------------------------------------------------------------

/// An ASCII letter in lower case; every other character as it is.
pub open spec fn ascii_lower_char(c: char) -> char {
    if 'A' <= c <= 'Z' {
        ((c as int) + 32) as char
    } else {
        c
    }
}

/// `s` with its ASCII letters in lower case.
pub open spec fn ascii_lower_text(s: Seq<char>) -> Seq<char> {
    Seq::new(s.len(), |i: int| ascii_lower_char(s[i]))
}

pub fn lower_char(c: char) -> (r: char)
    ensures
        r == ascii_lower_char(c),
{
    if 'A' <= c && c <= 'Z' {
        ((c as u8) + 32u8) as char
    } else {
        c
    }
}

pub fn ascii_lower(s: &str) -> (r: String)
    ensures
        r@ == ascii_lower_text(s@),
{
    let mut out = String::new();
    for c in it: s.chars()
        invariant
            out@ == ascii_lower_text(s@.take(it.index())),
            it.seq() == s@,
    {
        let ghost n = it.index();
        out.push(lower_char(c));
        assert(out@ =~= ascii_lower_text(s@.take(n + 1)));
    }
    assert(s@.take(s@.len() as int) =~= s@);
    out
}

// ---------------------------------------------------------------------------------------------
// Numbers.
// ---------------------------------------------------------------------------------------------

/// The character of a decimal digit.
pub open spec fn digit_char(d: int) -> char {
    (48 + d) as char
}

/// A number in decimal, without leading zeros.
pub open spec fn decimal(n: nat) -> Seq<char>
    decreases n,
{
    if n < 10 {
        seq![digit_char(n as int)]
    } else {
        decimal(n / 10).push(digit_char((n % 10) as int))
    }
}

fn digit(d: u8) -> (c: char)
    requires
        d < 10,
    ensures
        c == digit_char(d as int),
{
    (48u8 + d) as char
}

pub fn decimal_of(n: u64) -> (r: String)
    ensures
        r@ == decimal(n as nat),
    decreases n,
{
    if n < 10 {
        let mut s = String::new();
        s.push(digit(n as u8));
        assert(s@ =~= decimal(n as nat));
        s
    } else {
        let mut s = decimal_of(n / 10);
        s.push(digit((n % 10) as u8));
        s
    }
}

/// An integer in decimal, with a minus sign where it is negative.
pub open spec fn signed_decimal(n: int) -> Seq<char> {
    if n < 0 {
        seq!['-'] + decimal((-n) as nat)
    } else {
        decimal(n as nat)
    }
}

pub fn signed_decimal_of(n: i64) -> (r: String)
    ensures
        r@ == signed_decimal(n as int),
{
    if n < 0 {
        let m: u64 = ((-(n as i128)) as u64);
        let d = decimal_of(m);
        let mut s = String::new();
        s.push('-');
        s.push_str(d.as_str());
        assert(s@ =~= signed_decimal(n as int));
        s
    } else {
        decimal_of(n as u64)
    }
}

/// Whether every character is an ASCII digit, and there is at least one.
pub open spec fn all_digits(s: Seq<char>) -> bool {
    s.len() > 0 && forall|i: int| 0 <= i < s.len() ==> is_ascii_digit(#[trigger] s[i])
}

/// The number that a sequence of digits writes.
pub open spec fn digits_value(s: Seq<char>) -> nat
    decreases s.len(),
{
    if s.len() == 0 {
        0
    } else {
        10 * digits_value(s.drop_last()) + ((s.last() as int - 48) as nat)
    }
}

/// Law: the decimal writing of a number consists of digits and is read back as the number.
pub proof fn law_decimal_round_trip(n: nat)
    ensures
        all_digits(decimal(n)),
        digits_value(decimal(n)) == n,
    decreases n,
{
    if n < 10 {
        assert(decimal(n).drop_last() =~= Seq::empty());
        assert(digits_value(Seq::<char>::empty()) == 0);
    } else {
        law_decimal_round_trip(n / 10);
        let d = decimal(n / 10);
        assert(decimal(n).drop_last() =~= d);
        assert forall|i: int| 0 <= i < decimal(n).len() implies is_ascii_digit(
            #[trigger] decimal(n)[i],
        ) by {
            if i < d.len() {
                assert(decimal(n)[i] == d[i]);
            }
        }
    }
}

/// `s` without one leading plus sign.
pub open spec fn skip_plus(s: Seq<char>) -> Seq<char> {
    if s.len() > 0 && s[0] == '+' {
        s.skip(1)
    } else {
        s
    }
}

/// The number at most `max` that `s` writes: an optional plus sign and decimal digits.
pub open spec fn parse_nat(s: Seq<char>, max: nat) -> Option<nat> {
    let d = skip_plus(s);
    if all_digits(d) && digits_value(d) <= max {
        Some(digits_value(d))
    } else {
        None
    }
}

proof fn lemma_digits_value_grows(s: Seq<char>, n: int)
    requires
        0 <= n <= s.len(),
    ensures
        digits_value(s.take(n)) <= digits_value(s),
    decreases s.len() - n,
{
    if n == s.len() {
        assert(s.take(n) =~= s);
    } else {
        assert(s.take(n + 1).drop_last() =~= s.take(n));
        lemma_digits_value_grows(s, n + 1);
    }
}

/// The number at most `max` that the characters from `from` on write in decimal digits.
fn parse_digits(cs: &Vec<char>, from: usize, max: u64) -> (r: Option<u64>)
    requires
        from <= cs@.len(),
    ensures
        ({
            let d = cs@.skip(from as int);
            match r {
                Some(n) => all_digits(d) && n == digits_value(d) && n <= max,
                None => !all_digits(d) || digits_value(d) > max,
            }
        }),
{
    let ghost d = cs@.skip(from as int);
    if from == cs.len() {
        return None;
    }
    let mut acc: u64 = 0;
    let mut i: usize = from;
    while i < cs.len()
        invariant
            from <= i <= cs@.len(),
            d == cs@.skip(from as int),
            forall|j: int| 0 <= j < i - from ==> is_ascii_digit(#[trigger] d[j]),
            acc == digits_value(d.take(i - from)),
            acc <= max,
        decreases cs@.len() - i,
    {
        let c = cs[i];
        assert(d[i - from] == c);
        if !('0' <= c && c <= '9') {
            return None;
        }
        let v: u64 = (c as u64) - 48;
        assert(d.take(i - from + 1).drop_last() =~= d.take(i - from));
        assert(d.take(i - from + 1).last() == c);
        proof {
            lemma_digits_value_grows(d, i - from + 1);
        }
        let wide: u128 = (acc as u128) * 10 + (v as u128);
        if wide > max as u128 {
            return None;
        }
        acc = wide as u64;
        i += 1;
    }
    assert(d.take(d.len() as int) =~= d);
    Some(acc)
}

/// Parses an unsigned number of at most `max`, as `FromStr` of the unsigned integers does.
pub fn parse_unsigned(s: &str, max: u64) -> (r: Option<u64>)
    ensures
        match r {
            Some(n) => parse_nat(s@, max as nat) == Some(n as nat),
            None => parse_nat(s@, max as nat) is None,
        },
{
    let cs = chars_of(s);
    let from: usize = if cs.len() > 0 && cs[0] == '+' { 1 } else { 0 };
    assert(cs@.skip(from as int) =~= skip_plus(s@));
    parse_digits(&cs, from, max)
}

/// The integer that `s` writes, if it fits 64 bits: an optional sign and decimal digits.
pub open spec fn parse_int64(s: Seq<char>) -> Option<int> {
    if s.len() > 0 && s[0] == '-' {
        let d = s.skip(1);
        if all_digits(d) && digits_value(d) <= 0x8000_0000_0000_0000 {
            Some(-(digits_value(d) as int))
        } else {
            None
        }
    } else {
        match parse_nat(s, 0x7fff_ffff_ffff_ffff) {
            Some(n) => Some(n as int),
            None => None,
        }
    }
}

/// Parses a signed 64-bit integer, as its `FromStr` does.
pub fn parse_signed(s: &str) -> (r: Option<i64>)
    ensures
        match r {
            Some(n) => parse_int64(s@) == Some(n as int),
            None => parse_int64(s@) is None,
        },
{
    let cs = chars_of(s);
    if cs.len() > 0 && cs[0] == '-' {
        match parse_digits(&cs, 1, 0x8000_0000_0000_0000) {
            Some(n) => Some((-(n as i128)) as i64),
            None => None,
        }
    } else {
        match parse_unsigned(s, 0x7fff_ffff_ffff_ffff) {
            Some(n) => Some(n as i64),
            None => None,
        }
    }
}

// ---------------------------------------------------------------------------------------------
// Order.
// ---------------------------------------------------------------------------------------------

/// Lexicographic order by code point, which is also the byte order of UTF-8.
pub open spec fn text_less(a: Seq<char>, b: Seq<char>) -> bool
    decreases a.len(),
{
    if b.len() == 0 {
        false
    } else if a.len() == 0 {
        true
    } else if a[0] != b[0] {
        a[0] < b[0]
    } else {
        text_less(a.skip(1), b.skip(1))
    }
}

pub proof fn lemma_text_less_irreflexive(a: Seq<char>)
    ensures
        !text_less(a, a),
    decreases a.len(),
{
    if a.len() > 0 {
        lemma_text_less_irreflexive(a.skip(1));
    }
}

pub proof fn lemma_text_less_transitive(a: Seq<char>, b: Seq<char>, c: Seq<char>)
    requires
        text_less(a, b),
        text_less(b, c),
    ensures
        text_less(a, c),
    decreases a.len(),
{
    if a.len() > 0 && b.len() > 0 && c.len() > 0 && a[0] == b[0] && b[0] == c[0] {
        lemma_text_less_transitive(a.skip(1), b.skip(1), c.skip(1));
    }
}

pub proof fn lemma_text_less_total(a: Seq<char>, b: Seq<char>)
    ensures
        a == b || text_less(a, b) || text_less(b, a),
    decreases a.len(),
{
    if a.len() > 0 && b.len() > 0 {
        if a[0] == b[0] {
            lemma_text_less_total(a.skip(1), b.skip(1));
            if a.skip(1) == b.skip(1) {
                assert(a =~= seq![a[0]] + a.skip(1));
                assert(b =~= seq![b[0]] + b.skip(1));
            }
        }
    } else if a.len() == 0 && b.len() == 0 {
        assert(a =~= b);
    }
}

pub fn less(a: &str, b: &str) -> (r: bool)
    ensures
        r == text_less(a@, b@),
{
    let x = chars_of(a);
    let y = chars_of(b);
    let mut i: usize = 0;
    assert(x@.skip(0) =~= x@);
    assert(y@.skip(0) =~= y@);
    while i < x.len() && i < y.len()
        invariant
            x@ == a@,
            y@ == b@,
            i <= x@.len(),
            i <= y@.len(),
            text_less(x@, y@) == text_less(x@.skip(i as int), y@.skip(i as int)),
        decreases x@.len() - i,
    {
        if x[i] != y[i] {
            assert(x@.skip(i as int)[0] == x@[i as int]);
            assert(y@.skip(i as int)[0] == y@[i as int]);
            return x[i] < y[i];
        }
        assert(x@.skip(i as int).skip(1) =~= x@.skip(i + 1));
        assert(y@.skip(i as int).skip(1) =~= y@.skip(i + 1));
        i += 1;
    }
    i < y.len()
}

/// Whether the texts stand in strictly ascending order.
pub open spec fn ascending(v: Seq<Seq<char>>) -> bool {
    forall|i: int, j: int| 0 <= i < j < v.len() ==> text_less(#[trigger] v[i], #[trigger] v[j])
}

/// Whether `sorted` is `v` in ascending order with every text once.
pub open spec fn is_sorted_set_of(sorted: Seq<Seq<char>>, v: Seq<Seq<char>>) -> bool {
    &&& ascending(sorted)
    &&& forall|x: Seq<char>| sorted.contains(x) <==> v.contains(x)
}

/// `v` in ascending order with every text once.
pub open spec fn sorted_set_text(v: Seq<Seq<char>>) -> Seq<Seq<char>> {
    choose|s: Seq<Seq<char>>| is_sorted_set_of(s, v)
}

proof fn lemma_ascending_same(a: Seq<Seq<char>>, b: Seq<Seq<char>>)
    requires
        ascending(a),
        ascending(b),
        forall|x: Seq<char>| a.contains(x) <==> b.contains(x),
    ensures
        a == b,
    decreases a.len(),
{
    if a.len() == 0 {
        if b.len() > 0 {
            assert(b.contains(b[0]));
        }
        assert(a =~= b);
    } else {
        assert(a.contains(a[a.len() - 1]));
        let p = a.last();
        let q = b.last();
        let i = choose|i: int| 0 <= i < b.len() && b[i] == p;
        assert(b.contains(b[b.len() - 1]));
        let j = choose|j: int| 0 <= j < a.len() && a[j] == q;
        if p != q {
            assert(text_less(b[i], b[b.len() - 1]));
            assert(text_less(a[j], a[a.len() - 1]));
            lemma_text_less_transitive(p, q, p);
            lemma_text_less_irreflexive(p);
        }
        let a1 = a.drop_last();
        let b1 = b.drop_last();
        assert forall|x: Seq<char>| a1.contains(x) <==> b1.contains(x) by {
            if a1.contains(x) {
                let k = choose|k: int| 0 <= k < a1.len() && a1[k] == x;
                assert(a[k] == x);
                assert(a.contains(x));
                assert(text_less(a[k], a[a.len() - 1]));
                lemma_text_less_irreflexive(p);
                let m = choose|m: int| 0 <= m < b.len() && b[m] == x;
                assert(b1[m] == x);
            }
            if b1.contains(x) {
                let k = choose|k: int| 0 <= k < b1.len() && b1[k] == x;
                assert(b[k] == x);
                assert(b.contains(x));
                assert(text_less(b[k], b[b.len() - 1]));
                lemma_text_less_irreflexive(p);
                let m = choose|m: int| 0 <= m < a.len() && a[m] == x;
                assert(a1[m] == x);
            }
        }
        assert(ascending(a1)) by {
            assert forall|i: int, j: int| 0 <= i < j < a1.len() implies text_less(
                #[trigger] a1[i],
                #[trigger] a1[j],
            ) by {
                assert(a1[i] == a[i] && a1[j] == a[j]);
            }
        }
        assert(ascending(b1)) by {
            assert forall|i: int, j: int| 0 <= i < j < b1.len() implies text_less(
                #[trigger] b1[i],
                #[trigger] b1[j],
            ) by {
                assert(b1[i] == b[i] && b1[j] == b[j]);
            }
        }
        lemma_ascending_same(a1, b1);
        assert(a =~= a1.push(p));
        assert(b =~= b1.push(q));
    }
}

/// There is one way to put texts in ascending order with every text once.
pub proof fn lemma_sorted_set_unique(s: Seq<Seq<char>>, v: Seq<Seq<char>>)
    requires
        is_sorted_set_of(s, v),
    ensures
        s == sorted_set_text(v),
{
    let t = sorted_set_text(v);
    assert(is_sorted_set_of(t, v));
    assert forall|x: Seq<char>| s.contains(x) <==> t.contains(x) by {}
    lemma_ascending_same(s, t);
}

/// `x` put into an ascending list that does not hold it.
spec fn put_ascending(s: Seq<Seq<char>>, x: Seq<char>) -> Seq<Seq<char>>
    decreases s.len(),
{
    if s.len() > 0 && text_less(x, s.last()) {
        put_ascending(s.drop_last(), x).push(s.last())
    } else {
        s.push(x)
    }
}

proof fn lemma_put_ascending(s: Seq<Seq<char>>, x: Seq<char>)
    requires
        ascending(s),
        !s.contains(x),
    ensures
        ascending(put_ascending(s, x)),
        forall|y: Seq<char>| #[trigger] put_ascending(s, x).contains(y) <==> s.contains(y) || y == x,
    decreases s.len(),
{
    let r = put_ascending(s, x);
    if s.len() > 0 && text_less(x, s.last()) {
        let head = s.drop_last();
        let last = s.last();
        assert forall|i: int, j: int| 0 <= i < j < head.len() implies text_less(
            #[trigger] head[i],
            #[trigger] head[j],
        ) by {
            assert(text_less(s[i], s[j]));
        }
        assert(!head.contains(x)) by {
            if head.contains(x) {
                let k = choose|k: int| 0 <= k < head.len() && head[k] == x;
                assert(s[k] == x);
            }
        }
        lemma_put_ascending(head, x);
        let t = put_ascending(head, x);
        assert forall|i: int, j: int| 0 <= i < j < r.len() implies text_less(#[trigger] r[i], #[trigger] r[j]) by {
            if j < t.len() {
                assert(text_less(t[i], t[j]));
            } else {
                assert(t.contains(t[i]));
                if t[i] != x {
                    let k = choose|k: int| 0 <= k < head.len() && head[k] == t[i];
                    assert(text_less(s[k], s[s.len() - 1]));
                }
            }
        }
        assert forall|y: Seq<char>| #[trigger] r.contains(y) <==> s.contains(y) || y == x by {
            if r.contains(y) {
                let k = choose|k: int| 0 <= k < r.len() && r[k] == y;
                if k < t.len() {
                    assert(t[k] == y);
                    assert(t.contains(y));
                    if y != x {
                        let m = choose|m: int| 0 <= m < head.len() && head[m] == y;
                        assert(s[m] == y);
                    }
                } else {
                    assert(s[s.len() - 1] == y);
                }
            }
            if s.contains(y) {
                let k = choose|k: int| 0 <= k < s.len() && s[k] == y;
                if k < head.len() {
                    assert(head[k] == y);
                    assert(t.contains(y));
                    let m = choose|m: int| 0 <= m < t.len() && t[m] == y;
                    assert(r[m] == y);
                } else {
                    assert(r[t.len() as int] == y);
                }
            }
            assert(t.contains(x));
            let m = choose|m: int| 0 <= m < t.len() && t[m] == x;
            assert(r[m] == x);
        }
    } else {
        assert forall|i: int, j: int| 0 <= i < j < r.len() implies text_less(#[trigger] r[i], #[trigger] r[j]) by {
            if j < s.len() {
                assert(text_less(s[i], s[j]));
            } else {
                assert(s.contains(s[s.len() - 1]));
                lemma_text_less_total(s.last(), x);
                if i < s.len() - 1 {
                    assert(text_less(s[i], s[s.len() - 1]));
                    lemma_text_less_transitive(s[i], s.last(), x);
                }
            }
        }
        assert forall|y: Seq<char>| #[trigger] r.contains(y) <==> s.contains(y) || y == x by {
            if s.contains(y) {
                let k = choose|k: int| 0 <= k < s.len() && s[k] == y;
                assert(r[k] == y);
            }
            if r.contains(y) {
                let k = choose|k: int| 0 <= k < r.len() && r[k] == y;
                if k < s.len() {
                    assert(s[k] == y);
                }
            }
            assert(r[s.len() as int] == x);
        }
    }
}

/// Some list of texts in ascending order holds what `v` holds.
proof fn lemma_sorted_set_exists(v: Seq<Seq<char>>) -> (s: Seq<Seq<char>>)
    ensures
        is_sorted_set_of(s, v),
    decreases v.len(),
{
    if v.len() == 0 {
        v
    } else {
        let head = v.drop_last();
        let t = lemma_sorted_set_exists(head);
        let r = if t.contains(v.last()) {
            t
        } else {
            lemma_put_ascending(t, v.last());
            put_ascending(t, v.last())
        };
        assert forall|x: Seq<char>| r.contains(x) <==> v.contains(x) by {
            assert(r.contains(x) <==> t.contains(x) || x == v.last());
            if v.contains(x) {
                let k = choose|k: int| 0 <= k < v.len() && v[k] == x;
                if k < head.len() {
                    assert(head[k] == x);
                }
            }
            if head.contains(x) {
                let k = choose|k: int| 0 <= k < head.len() && head[k] == x;
                assert(v[k] == x);
            }
            assert(v[v.len() - 1] == v.last());
        }
        r
    }
}

/// Law: putting texts in order as a set keeps each of them, adds none, and lists them in strictly
/// ascending order.
pub proof fn lemma_sorted_set(v: Seq<Seq<char>>)
    ensures
        forall|i: int, j: int|
            0 <= i < j < sorted_set_text(v).len() ==> text_less(
                #[trigger] sorted_set_text(v)[i],
                #[trigger] sorted_set_text(v)[j],
            ),
        forall|x: Seq<char>| #[trigger] sorted_set_text(v).contains(x) <==> v.contains(x),
{
    let s = lemma_sorted_set_exists(v);
    lemma_sorted_set_unique(s, v);
    assert(ascending(s));
}

/// Adds `x` to an ascending list, unless it is already there.
pub fn insert_ascending(v: &mut Vec<String>, x: String)
    requires
        ascending(texts(old(v)@)),
    ensures
        ascending(texts(final(v)@)),
        forall|y: Seq<char>|
            texts(final(v)@).contains(y) <==> texts(old(v)@).contains(y) || y == x@,
{
    let ghost before = texts(v@);
    let mut i: usize = 0;
    while i < v.len() && less(v[i].as_str(), x.as_str())
        invariant
            v@ == old(v)@,
            before == texts(v@),
            i <= v@.len(),
            forall|j: int| 0 <= j < i ==> text_less(#[trigger] before[j], x@),
        decreases v@.len() - i,
    {
        assert(before[i as int] == v@[i as int]@);
        i += 1;
    }
    if i < v.len() && same(v[i].as_str(), x.as_str()) {
        assert(before[i as int] == x@);
        return;
    }
    proof {
        if i < v@.len() {
            assert(before[i as int] == v@[i as int]@);
            lemma_text_less_total(before[i as int], x@);
            assert forall|j: int| i <= j < before.len() implies text_less(
                x@,
                #[trigger] before[j],
            ) by {
                if j > i {
                    lemma_text_less_transitive(x@, before[i as int], before[j]);
                }
            }
        }
    }
    v.insert(i, x);
    proof {
        let after = texts(v@);
        assert(after =~= before.insert(i as int, x@));
        assert forall|a: int, b: int| 0 <= a < b < after.len() implies text_less(
            #[trigger] after[a],
            #[trigger] after[b],
        ) by {
            let a0 = if a < i { a } else { a - 1 };
            let b0 = if b < i { b } else { b - 1 };
            if a != i && b != i {
                assert(after[a] == before[a0]);
                assert(after[b] == before[b0]);
            } else if a == i {
                assert(after[b] == before[b0]);
            } else {
                assert(after[a] == before[a0]);
            }
        }
        assert forall|y: Seq<char>| after.contains(y) <==> before.contains(y) || y == x@ by {
            if before.contains(y) {
                let k = choose|k: int| 0 <= k < before.len() && before[k] == y;
                assert(after[if k < i { k } else { k + 1 }] == y);
            }
            if y == x@ {
                assert(after[i as int] == y);
            }
            if after.contains(y) {
                let k = choose|k: int| 0 <= k < after.len() && after[k] == y;
                if k != i {
                    assert(before[if k < i { k } else { k - 1 }] == y);
                }
            }
        }
    }
}

/// Sorts the texts and keeps every one once.
pub fn sorted_set(v: &Vec<String>) -> (r: Vec<String>)
    ensures
        is_sorted_set_of(texts(r@), texts(v@)),
        texts(r@) == sorted_set_text(texts(v@)),
{
    let mut out: Vec<String> = Vec::new();
    for i in 0..v.len()
        invariant
            ascending(texts(out@)),
            forall|x: Seq<char>|
                texts(out@).contains(x) <==> texts(v@).take(i as int).contains(x),
    {
        let ghost prev = texts(v@).take(i as int);
        let ghost next = texts(v@).take(i + 1);
        assert(next =~= prev.push(v@[i as int]@));
        insert_ascending(&mut out, v[i].clone());
        assert forall|x: Seq<char>| next.contains(x) <==> prev.contains(x) || x == v@[i as int]@ by {
            if prev.contains(x) {
                let k = choose|k: int| 0 <= k < prev.len() && prev[k] == x;
                assert(next[k] == x);
            }
            if x == v@[i as int]@ {
                assert(next[i as int] == x);
            }
            if next.contains(x) {
                let k = choose|k: int| 0 <= k < next.len() && next[k] == x;
                if k < i {
                    assert(prev[k] == x);
                }
            }
        }
    }
    assert(texts(v@).take(v@.len() as int) =~= texts(v@));
    proof {
        lemma_sorted_set_unique(texts(out@), texts(v@));
    }
    out
}

// ---------------------------------------------------------------------------------------------
// What a text holds.
// ---------------------------------------------------------------------------------------------

/// What occurs in a part of a text occurs in the text.
pub proof fn lemma_holds_part(a: Seq<char>, part: Seq<char>, b: Seq<char>, p: Seq<char>)
    requires
        contains_text(part, p),
    ensures
        contains_text(a + part + b, p),
{
    let i = choose|i: int| occurs_at(part, p, i);
    let s = a + part + b;
    let k = a.len() + i;
    assert(s.subrange(k, k + p.len()) =~= part.subrange(i, i + p.len()));
    assert(occurs_at(s, p, k));
}

/// A text occurs in what it is put between.
pub proof fn lemma_holds_middle(a: Seq<char>, p: Seq<char>, b: Seq<char>)
    ensures
        contains_text(a + p + b, p),
{
    let s = a + p + b;
    let k = a.len() as int;
    assert(s.subrange(k, k + p.len()) =~= p);
    assert(occurs_at(s, p, k));
}

/// Law: joined texts hold each of the texts.
pub proof fn law_join_holds_each(parts: Seq<Seq<char>>, sep: Seq<char>, i: int)
    requires
        0 <= i < parts.len(),
    ensures
        contains_text(join_texts(parts, sep), parts[i]),
    decreases parts.len(),
{
    let none = Seq::<char>::empty();
    if parts.len() == 1 {
        lemma_holds_middle(none, parts[0], none);
        assert(none + parts[0] + none =~= parts[0]);
    } else {
        let head = parts.drop_last();
        let before = join_texts(head, sep);
        let all = join_texts(parts, sep);
        if i < head.len() {
            law_join_holds_each(head, sep, i);
            lemma_holds_part(none, before, sep + parts.last(), parts[i]);
            assert(none + before + (sep + parts.last()) =~= all);
        } else {
            lemma_holds_middle(before + sep, parts.last(), none);
            assert(before + sep + parts.last() + none =~= all);
        }
    }
}

proof fn lemma_trim_start(s: Seq<char>) -> (a: int)
    ensures
        0 <= a <= s.len(),
        trim_start_text(s) == s.skip(a),
        forall|i: int| 0 <= i < a ==> is_white_space(#[trigger] s[i]),
        a < s.len() ==> !is_white_space(s[a]),
    decreases s.len(),
{
    if s.len() > 0 && is_white_space(s[0]) {
        let b = lemma_trim_start(s.skip(1));
        assert(s.skip(1).skip(b) =~= s.skip(b + 1));
        assert forall|i: int| 0 <= i < b + 1 implies is_white_space(#[trigger] s[i]) by {
            if i > 0 {
                assert(s.skip(1)[i - 1] == s[i]);
            }
        }
        b + 1
    } else {
        assert(s.skip(0) =~= s);
        0
    }
}

proof fn lemma_trim_end(s: Seq<char>) -> (b: int)
    ensures
        0 <= b <= s.len(),
        trim_end_text(s) == s.take(b),
        forall|i: int| b <= i < s.len() ==> is_white_space(#[trigger] s[i]),
        0 < b ==> !is_white_space(s[b - 1]),
    decreases s.len(),
{
    if s.len() > 0 && is_white_space(s.last()) {
        let b = lemma_trim_end(s.drop_last());
        assert(s.drop_last().take(b) =~= s.take(b));
        assert forall|i: int| b <= i < s.len() implies is_white_space(#[trigger] s[i]) by {
            if i < s.len() - 1 {
                assert(s.drop_last()[i] == s[i]);
            }
        }
        if 0 < b {
            assert(s.drop_last()[b - 1] == s[b - 1]);
        }
        b
    } else {
        assert(s.take(s.len() as int) =~= s);
        s.len() as int
    }
}

/// Whether `t` is what stands in `s` from `a` up to `b`, with nothing but white space around it and none at
/// either end of it.
pub open spec fn is_core(s: Seq<char>, t: Seq<char>, a: int, b: int) -> bool {
    &&& 0 <= a <= b <= s.len()
    &&& t == s.subrange(a, b)
    &&& forall|i: int| 0 <= i < s.len() && !(a <= i < b) ==> is_white_space(#[trigger] s[i])
    &&& a < b ==> !is_white_space(s[a]) && !is_white_space(s[b - 1])
}

/// Law: trimming takes away white space at both ends, all of it, and nothing else.
pub proof fn law_trim(s: Seq<char>)
    ensures
        exists|a: int, b: int| is_core(s, trim_text(s), a, b),
{
    let a = lemma_trim_start(s);
    let t = s.skip(a);
    let n = lemma_trim_end(t);
    let b = a + n;
    assert(t.take(n) =~= s.subrange(a, b));
    assert forall|i: int| 0 <= i < s.len() && !(a <= i < b) implies is_white_space(#[trigger] s[i]) by {
        if i >= b {
            assert(t[i - a] == s[i]);
        }
    }
    if a < b {
        assert(t[n - 1] == s[b - 1]);
    }
    assert(is_core(s, trim_text(s), a, b));
}

/// Law: taking a character off the end of a text leaves a text that does not end with it, and what was taken
/// off is that character throughout.
pub proof fn law_trim_end_char(s: Seq<char>, c: char)
    ensures
        ({
            let t = trim_end_char_text(s, c);
            &&& t.len() <= s.len()
            &&& t == s.take(t.len() as int)
            &&& t.len() > 0 ==> t.last() != c
            &&& forall|i: int| t.len() <= i < s.len() ==> #[trigger] s[i] == c
        }),
    decreases s.len(),
{
    let t = trim_end_char_text(s, c);
    if s.len() > 0 && s.last() == c {
        let head = s.drop_last();
        law_trim_end_char(head, c);
        assert(head.take(t.len() as int) =~= s.take(t.len() as int));
        assert forall|i: int| t.len() <= i < s.len() implies #[trigger] s[i] == c by {
            if i < head.len() {
                assert(head[i] == s[i]);
            }
        }
    } else {
        assert(s.take(s.len() as int) =~= s);
    }
}

/// Law: a number is read back from its decimal writing, with a plus sign or without, where it is not too
/// large.
pub proof fn law_number_is_read(n: nat, max: nat)
    ensures
        parse_nat(decimal(n), max) == if n <= max {
            Some(n)
        } else {
            None
        },
        parse_nat(seq!['+'] + decimal(n), max) == parse_nat(decimal(n), max),
{
    law_decimal_round_trip(n);
    assert(is_ascii_digit(decimal(n)[0]));
    assert((seq!['+'] + decimal(n)).skip(1) =~= decimal(n));
}

/// Law: a signed number of 64 bits is read back from its writing.
pub proof fn law_signed_number_is_read(n: int)
    requires
        -0x8000_0000_0000_0000 <= n <= 0x7fff_ffff_ffff_ffff,
    ensures
        parse_int64(signed_decimal(n)) == Some(n),
{
    if n < 0 {
        let m = (-n) as nat;
        law_decimal_round_trip(m);
        assert(signed_decimal(n).skip(1) =~= decimal(m));
    } else {
        law_number_is_read(n as nat, 0x7fff_ffff_ffff_ffff);
        law_decimal_round_trip(n as nat);
        assert(is_ascii_digit(decimal(n as nat)[0]));
    }
}

/// Law: the last segment of a text is what stands behind the last separator, or the whole text where there is
/// none.
pub proof fn law_last_segment(s: Seq<char>, c: char)
    ensures
        ({
            let t = last_segment_text(s, c);
            &&& !t.contains(c)
            &&& t.len() <= s.len()
            &&& s.skip(s.len() - t.len()) == t
            &&& t.len() < s.len() ==> s[s.len() - t.len() - 1] == c
        }),
    decreases s.len(),
{
    let t = last_segment_text(s, c);
    lemma_split_free(s, c);
    lemma_split_nonempty(s, c);
    assert(!split_text(s, c)[split_text(s, c).len() - 1].contains(c));
    if s.len() == 0 {
        assert(s.skip(0) =~= t);
    } else {
        let head = s.drop_last();
        let h = last_segment_text(head, c);
        law_last_segment(head, c);
        lemma_split_nonempty(head, c);
        if s.last() == c {
            assert(s.skip(s.len() as int) =~= t);
        } else {
            assert(t == h.push(s.last()));
            assert(s.skip(s.len() - t.len()) =~= t) by {
                assert forall|i: int| 0 <= i < t.len() implies #[trigger] s.skip(s.len() - t.len())[i] == t[i] by {
                    if i < h.len() {
                        assert(head.skip(head.len() - h.len())[i] == h[i]);
                    }
                }
            }
            if t.len() < s.len() {
                assert(head[head.len() - h.len() - 1] == s[s.len() - t.len() - 1]);
            }
        }
    }
}

} // verus!
