//! The requests to the service: their addresses and bodies, what a status means, and when a
//! request is tried again.

use crate::json::{json_quote, json_quoted};
use crate::text::{
    cat2, contains_text, decimal, decimal_of, lemma_holds_middle, trim_end_char, trim_end_char_text,
};
use vstd::prelude::*;
use vstd::utf8::{encode_utf8, encode_utf8_decode_utf8};

verus! {

// ---------------------------------------------------------------------------------------------
// Addresses.
// ---------------------------------------------------------------------------------------------

/// Whether a byte is an ASCII letter or digit.
pub open spec fn is_plain_byte(b: u8) -> bool {
    0x30 <= b <= 0x39 || 0x41 <= b <= 0x5a || 0x61 <= b <= 0x7a
}

/// The upper-case hexadecimal digit of a number below 16.
pub open spec fn hex_digit(n: int) -> char {
    if n < 10 {
        (0x30 + n) as char
    } else {
        (0x37 + n) as char
    }
}

/// Bytes with each that is no ASCII letter or digit written as a percent sign and two
/// hexadecimal digits.
pub open spec fn percent_text(bytes: Seq<u8>) -> Seq<char>
    decreases bytes.len(),
{
    if bytes.len() == 0 {
        Seq::empty()
    } else {
        let before = percent_text(bytes.drop_last());
        let b = bytes.last();
        if is_plain_byte(b) {
            before.push(b as char)
        } else {
            before.push('%').push(hex_digit(b as int / 16)).push(hex_digit(b as int % 16))
        }
    }
}

/// `percent_encoding::utf8_percent_encode` with the set `NON_ALPHANUMERIC`, collected into a
/// string: the UTF-8 bytes of the text, of which ASCII letters and digits stay, and any other byte
/// becomes a percent sign and its two upper-case hexadecimal digits.
#[verifier::external_body]
fn percent_encode(s: &str) -> (r: String)
    ensures
        r@ == percent_text(encode_utf8(s@)),
{
    percent_encoding::utf8_percent_encode(s, percent_encoding::NON_ALPHANUMERIC).to_string()
}

/// The address of a document by its key.
pub open spec fn by_key_url(base_url: Seq<char>, namespace: Seq<char>, key: Seq<char>) -> Seq<char> {
    trim_end_char_text(base_url, '/') + "/v1/"@ + namespace + "/docs/by-key/"@ + percent_text(
        encode_utf8(key),
    )
}

/// The address of a document by its key. The namespace stands as it is; the key, which may hold
/// slashes and spaces, is encoded so that it is one segment of the path.
pub fn build_by_key_url(base_url: &str, namespace: &str, key: &str) -> (r: String)
    ensures
        r@ == by_key_url(base_url@, namespace@, key@),
{
    let mut url = trim_end_char(base_url, '/');
    url.push_str("/v1/");
    url.push_str(namespace);
    url.push_str("/docs/by-key/");
    url.push_str(percent_encode(key).as_str());
    url
}

/// ASCII letters, digits and the percent sign.
pub open spec fn is_segment_char(c: char) -> bool {
    c == '%' || ('0' <= c && c <= '9') || ('A' <= c && c <= 'Z') || ('a' <= c && c <= 'z')
}

/// Law: an encoded key is one segment of a path: it holds ASCII letters, digits and percent signs
/// only, so neither a slash nor anything else that ends a segment.
pub proof fn law_key_is_one_segment(bytes: Seq<u8>)
    ensures
        forall|i: int|
            0 <= i < percent_text(bytes).len() ==> is_segment_char(#[trigger] percent_text(bytes)[i]),
    decreases bytes.len(),
{
    if bytes.len() > 0 {
        law_key_is_one_segment(bytes.drop_last());
        let before = percent_text(bytes.drop_last());
        let after = percent_text(bytes);
        let b = bytes.last();
        assert forall|i: int| 0 <= i < after.len() implies is_segment_char(#[trigger] after[i]) by {
            if i < before.len() {
                assert(after[i] == before[i]);
            } else if is_plain_byte(b) {
                assert(after[i] == b as char);
            } else {
                assert(0 <= b as int / 16 < 16 && 0 <= b as int % 16 < 16);
                assert(after[i] == '%' || after[i] == hex_digit(b as int / 16) || after[i]
                    == hex_digit(b as int % 16));
            }
        }
    }
}

/// The address to which documents of a namespace are posted.
pub fn build_docs_url(base_url: &str, namespace: &str) -> (r: String)
    ensures
        r@ == trim_end_char_text(base_url@, '/') + "/v1/"@ + namespace@ + "/docs"@,
{
    let mut url = trim_end_char(base_url, '/');
    url.push_str("/v1/");
    url.push_str(namespace);
    url.push_str("/docs");
    url
}

// ---------------------------------------------------------------------------------------------
// Bodies.
// ---------------------------------------------------------------------------------------------

/// The meta data that mark a document as a file.
pub const FILE_META: &'static str = "{\"kind\":\"file\"}";

/// The body that posts a document, as JSON; `meta` is JSON already.
pub open spec fn post_body(
    key: Seq<char>,
    title: Seq<char>,
    content: Seq<char>,
    author: Seq<char>,
    meta: Seq<char>,
) -> Seq<char> {
    "{\"author\":"@ + json_quoted(author) + ",\"content\":"@ + json_quoted(content) + ",\"key\":"@
        + json_quoted(key) + ",\"meta\":"@ + meta + ",\"title\":"@ + json_quoted(title) + "}"@
}

/// Writes the body that posts a document; `meta` is JSON already.
pub fn build_post_body(key: &str, title: &str, content: &str, author: &str, meta: &str) -> (r: String)
    ensures
        r@ == post_body(key@, title@, content@, author@, meta@),
{
    let mut b = cat2("{\"author\":", json_quote(author).as_str());
    b.push_str(",\"content\":");
    b.push_str(json_quote(content).as_str());
    b.push_str(",\"key\":");
    b.push_str(json_quote(key).as_str());
    b.push_str(",\"meta\":");
    b.push_str(meta);
    b.push_str(",\"title\":");
    b.push_str(json_quote(title).as_str());
    b.push_str("}");
    b
}

// ---------------------------------------------------------------------------------------------
// Trying again.
// ---------------------------------------------------------------------------------------------

/// How one try of a request ended.
#[derive(Debug, Clone)]
pub enum Attempt {
    Done,
    Transport(String),
    Server(u16),
    Client(u16),
}

/// What follows a try: the request is over, or it is tried again after some seconds.
#[derive(Debug)]
pub enum RetryStep {
    Over(Result<(), String>),
    Wait(u64),
}

/// How often a request is tried.
pub const MAX_ATTEMPTS: u32 = 3;

/// What the status of a reply to a posted document means.
pub fn post_attempt(status: u16) -> (r: Attempt)
    ensures
        match r {
            Attempt::Done => 200 <= status < 300,
            Attempt::Server(code) => 500 <= status < 600 && code == status,
            Attempt::Client(code) => !(200 <= status < 300) && !(500 <= status < 600) && code == status,
            Attempt::Transport(_) => false,
        },
{
    if 200 <= status && status < 300 {
        Attempt::Done
    } else if 500 <= status && status < 600 {
        Attempt::Server(status)
    } else {
        Attempt::Client(status)
    }
}

/// What the status of a reply to a deletion means: a document that is not there is deleted.
pub fn delete_attempt(status: u16) -> (r: Attempt)
    ensures
        match r {
            Attempt::Done => 200 <= status < 300 || status == 404,
            Attempt::Server(code) => 500 <= status < 600 && code == status,
            Attempt::Client(code) => !(200 <= status < 300) && !(500 <= status < 600) && status != 404
                && code == status,
            Attempt::Transport(_) => false,
        },
{
    if status == 404 {
        Attempt::Done
    } else {
        post_attempt(status)
    }
}

/// What follows the `attempt`-th try of a request that is tried `max_attempts` times: an error of
/// the client is final, a failed transport and an error of the server are tried again, after as
/// many seconds as there were tries.
pub fn retry_step(attempt: u32, max_attempts: u32, outcome: &Attempt) -> (r: RetryStep)
    ensures
        match *outcome {
            Attempt::Done => r is Over && r->Over_0 is Ok,
            Attempt::Client(code) => r is Over && r->Over_0 is Err && r->Over_0->Err_0@ == "HTTP "@ + decimal(
                code as nat,
            ) + " (client error, no retry)"@,
            Attempt::Transport(msg) => if attempt >= max_attempts {
                r is Over && r->Over_0 is Err && r->Over_0->Err_0@ == "transport error after "@ + decimal(
                    attempt as nat,
                ) + " attempt(s): "@ + msg@
            } else {
                r == RetryStep::Wait(attempt as u64)
            },
            Attempt::Server(code) => if attempt >= max_attempts {
                r is Over && r->Over_0 is Err && r->Over_0->Err_0@ == "HTTP "@ + decimal(code as nat)
                    + " (server error) after "@ + decimal(attempt as nat) + " attempt(s)"@
            } else {
                r == RetryStep::Wait(attempt as u64)
            },
        },
        attempt >= max_attempts ==> r is Over,
{
    match outcome {
        Attempt::Done => RetryStep::Over(Ok(())),
        Attempt::Client(code) => {
            let mut m = cat2("HTTP ", decimal_of(*code as u64).as_str());
            m.push_str(" (client error, no retry)");
            RetryStep::Over(Err(m))
        },
        Attempt::Transport(msg) => {
            if attempt < max_attempts {
                return RetryStep::Wait(attempt as u64);
            }
            let mut m = cat2("transport error after ", decimal_of(attempt as u64).as_str());
            m.push_str(" attempt(s): ");
            m.push_str(msg.as_str());
            RetryStep::Over(Err(m))
        },
        Attempt::Server(code) => {
            if attempt < max_attempts {
                return RetryStep::Wait(attempt as u64);
            }
            let mut m = cat2("HTTP ", decimal_of(*code as u64).as_str());
            m.push_str(" (server error) after ");
            m.push_str(decimal_of(attempt as u64).as_str());
            m.push_str(" attempt(s)");
            RetryStep::Over(Err(m))
        },
    }
}

/// What stands for one byte of a key.
pub open spec fn percent_byte(b: u8) -> Seq<char> {
    if is_plain_byte(b) {
        seq![b as char]
    } else {
        seq!['%', hex_digit(b as int / 16), hex_digit(b as int % 16)]
    }
}

proof fn lemma_percent_front(bytes: Seq<u8>)
    requires
        bytes.len() > 0,
    ensures
        percent_text(bytes) == percent_byte(bytes[0]) + percent_text(bytes.skip(1)),
    decreases bytes.len(),
{
    let b = bytes.last();
    if bytes.len() == 1 {
        assert(percent_text(bytes.drop_last()) =~= Seq::<char>::empty());
        assert(percent_text(bytes.skip(1)) =~= Seq::<char>::empty());
        assert(percent_text(bytes) =~= percent_byte(b) + percent_text(bytes.skip(1)));
    } else {
        lemma_percent_front(bytes.drop_last());
        assert(bytes.drop_last().skip(1) =~= bytes.skip(1).drop_last());
        assert(percent_text(bytes) =~= percent_byte(bytes[0]) + percent_text(bytes.skip(1)));
    }
}

proof fn lemma_percent_apart(a: Seq<u8>, b: Seq<u8>)
    requires
        percent_text(a) == percent_text(b),
    ensures
        a == b,
    decreases a.len(),
{
    let t = percent_text(a);
    if a.len() > 0 {
        lemma_percent_front(a);
    }
    if b.len() > 0 {
        lemma_percent_front(b);
    }
    if a.len() == 0 || b.len() == 0 {
        assert(t.len() == 0);
        assert(a =~= b);
    } else {
        let x = a[0];
        let y = b[0];
        let ra = percent_text(a.skip(1));
        let rb = percent_text(b.skip(1));
        assert(t[0] == percent_byte(x)[0] && t[0] == percent_byte(y)[0]);
        assert(is_plain_byte(x) == is_plain_byte(y));
        if is_plain_byte(x) {
            assert(x == y);
            assert(ra =~= t.skip(1));
            assert(rb =~= t.skip(1));
        } else {
            assert(t[1] == hex_digit(x as int / 16) && t[1] == hex_digit(y as int / 16));
            assert(t[2] == hex_digit(x as int % 16) && t[2] == hex_digit(y as int % 16));
            assert(x == y);
            assert(ra =~= t.skip(3));
            assert(rb =~= t.skip(3));
        }
        lemma_percent_apart(a.skip(1), b.skip(1));
        assert(a =~= seq![x] + a.skip(1));
        assert(b =~= seq![y] + b.skip(1));
    }
}

/// Law: different keys of a namespace have different addresses, whatever they hold.
pub proof fn law_keys_stay_apart(base_url: Seq<char>, namespace: Seq<char>, a: Seq<char>, b: Seq<char>)
    requires
        by_key_url(base_url, namespace, a) == by_key_url(base_url, namespace, b),
    ensures
        a == b,
{
    let front = trim_end_char_text(base_url, '/') + "/v1/"@ + namespace + "/docs/by-key/"@;
    let x = encode_utf8(a);
    let y = encode_utf8(b);
    assert(percent_text(x) =~= by_key_url(base_url, namespace, a).skip(front.len() as int));
    assert(percent_text(y) =~= by_key_url(base_url, namespace, b).skip(front.len() as int));
    lemma_percent_apart(x, y);
    encode_utf8_decode_utf8(a);
    encode_utf8_decode_utf8(b);
}

/// Law: what is sent of a document holds its key, title, text and author as strings, each under its name, and
/// its meta value as it is.
pub proof fn law_post_body(
    key: Seq<char>,
    title: Seq<char>,
    content: Seq<char>,
    author: Seq<char>,
    meta: Seq<char>,
)
    ensures
        contains_text(post_body(key, title, content, author, meta), "\"author\":"@ + json_quoted(author)),
        contains_text(post_body(key, title, content, author, meta), "\"content\":"@ + json_quoted(content)),
        contains_text(post_body(key, title, content, author, meta), "\"key\":"@ + json_quoted(key)),
        contains_text(post_body(key, title, content, author, meta), "\"meta\":"@ + meta),
        contains_text(post_body(key, title, content, author, meta), "\"title\":"@ + json_quoted(title)),
{
    reveal_strlit("{\"author\":");
    reveal_strlit("\"author\":");
    reveal_strlit(",\"content\":");
    reveal_strlit("\"content\":");
    reveal_strlit(",\"key\":");
    reveal_strlit("\"key\":");
    reveal_strlit(",\"meta\":");
    reveal_strlit("\"meta\":");
    reveal_strlit(",\"title\":");
    reveal_strlit("\"title\":");
    let a = "{\"author\":"@ + json_quoted(author);
    let b = ",\"content\":"@ + json_quoted(content);
    let c = ",\"key\":"@ + json_quoted(key);
    let d = ",\"meta\":"@ + meta;
    let e = ",\"title\":"@ + json_quoted(title);
    let all = post_body(key, title, content, author, meta);
    assert(all =~= a + b + c + d + e + "}"@);
    lemma_holds_middle(seq!['{'], "\"author\":"@ + json_quoted(author), b + c + d + e + "}"@);
    assert(seq!['{'] + ("\"author\":"@ + json_quoted(author)) + (b + c + d + e + "}"@) =~= all);
    lemma_holds_middle(a + seq![','], "\"content\":"@ + json_quoted(content), c + d + e + "}"@);
    assert(a + seq![','] + ("\"content\":"@ + json_quoted(content)) + (c + d + e + "}"@) =~= all);
    lemma_holds_middle(a + b + seq![','], "\"key\":"@ + json_quoted(key), d + e + "}"@);
    assert(a + b + seq![','] + ("\"key\":"@ + json_quoted(key)) + (d + e + "}"@) =~= all);
    lemma_holds_middle(a + b + c + seq![','], "\"meta\":"@ + meta, e + "}"@);
    assert(a + b + c + seq![','] + ("\"meta\":"@ + meta) + (e + "}"@) =~= all);
    lemma_holds_middle(a + b + c + d + seq![','], "\"title\":"@ + json_quoted(title), "}"@);
    assert(a + b + c + d + seq![','] + ("\"title\":"@ + json_quoted(title)) + "}"@ =~= all);
}

} // verus!
