//! Which files of a repository are indexed.

use crate::text::{
    ascii_lower, ascii_lower_text, ends_with, has_suffix, last_segment, last_segment_text, law_last_segment,
    lemma_last_of_join, lemma_split_whole, same,
};
use vstd::prelude::*;

verus! {

/// The largest size of a file that is indexed, in bytes.
pub const MAX_FILE_BYTES: u64 = 256_000;

/// Lock files, by their name.
pub open spec fn is_lockfile(name: Seq<char>) -> bool {
    ||| name == "package-lock.json"@
    ||| name == "pnpm-lock.yaml"@
    ||| name == "yarn.lock"@
    ||| name == "Cargo.lock"@
    ||| name == "bun.lockb"@
}

/// Assets and generated files, by the end of their path in lowercase.
pub open spec fn is_asset(path: Seq<char>) -> bool {
    ||| has_suffix(path, ".min.js"@)
    ||| has_suffix(path, ".map"@)
    ||| has_suffix(path, ".svg"@)
    ||| has_suffix(path, ".png"@)
    ||| has_suffix(path, ".gif"@)
    ||| has_suffix(path, ".jpg"@)
    ||| has_suffix(path, ".jpeg"@)
    ||| has_suffix(path, ".ico"@)
    ||| has_suffix(path, ".webp"@)
    ||| has_suffix(path, ".woff"@)
    ||| has_suffix(path, ".woff2"@)
    ||| has_suffix(path, ".ttf"@)
    ||| has_suffix(path, ".eot"@)
    ||| has_suffix(path, ".pdf"@)
    ||| has_suffix(path, ".mp3"@)
    ||| has_suffix(path, ".mp4"@)
    ||| has_suffix(path, ".wav"@)
}

/// Whether a file is indexed: it is not too large, no lock file and no asset.
pub open spec fn is_indexed(relpath: Seq<char>, size_bytes: u64) -> bool {
    size_bytes <= MAX_FILE_BYTES && !is_lockfile(last_segment_text(relpath, '/')) && !is_asset(
        ascii_lower_text(relpath),
    )
}

fn lockfile(name: &str) -> (r: bool)
    ensures
        r == is_lockfile(name@),
{
    same(name, "package-lock.json") || same(name, "pnpm-lock.yaml") || same(name, "yarn.lock") || same(
        name,
        "Cargo.lock",
    ) || same(name, "bun.lockb")
}

fn asset(path: &str) -> (r: bool)
    ensures
        r == is_asset(path@),
{
    ends_with(path, ".min.js") || ends_with(path, ".map") || ends_with(path, ".svg") || ends_with(
        path,
        ".png",
    ) || ends_with(path, ".gif") || ends_with(path, ".jpg") || ends_with(path, ".jpeg") || ends_with(
        path,
        ".ico",
    ) || ends_with(path, ".webp") || ends_with(path, ".woff") || ends_with(path, ".woff2")
        || ends_with(path, ".ttf") || ends_with(path, ".eot") || ends_with(path, ".pdf") || ends_with(
        path,
        ".mp3",
    ) || ends_with(path, ".mp4") || ends_with(path, ".wav")
}

/// Whether a file is sent to the service, by its path in the repository and its size alone.
pub fn should_index(relpath: &str, size_bytes: u64) -> (r: bool)
    ensures
        r == is_indexed(relpath@, size_bytes),
{
    if size_bytes > MAX_FILE_BYTES {
        return false;
    }
    let name = last_segment(relpath, '/');
    if lockfile(name.as_str()) {
        return false;
    }
    let lower = ascii_lower(relpath);
    !asset(lower.as_str())
}

/// Law: a file of more than 256000 bytes is not indexed, and below that its size does not matter.
pub proof fn law_size_limit(relpath: Seq<char>, size_bytes: u64, other: u64)
    ensures
        is_indexed(relpath, size_bytes) ==> size_bytes <= 256_000,
        is_indexed(relpath, size_bytes) && other <= 256_000 ==> is_indexed(relpath, other),
{
}

/// Law: a lock file is not indexed in whatever directory it stands.
pub proof fn law_lock_files_are_left_out(dir: Seq<char>, name: Seq<char>, size_bytes: u64)
    requires
        !name.contains('/'),
        name == "package-lock.json"@ || name == "pnpm-lock.yaml"@ || name == "yarn.lock"@ || name
            == "Cargo.lock"@ || name == "bun.lockb"@,
    ensures
        !is_indexed(dir + seq!['/'] + name, size_bytes),
        !is_indexed(name, size_bytes),
{
    lemma_last_of_join(dir, name, '/');
    lemma_split_whole(name, '/');
}

/// Law: a file whose path ends like an asset, in upper or lower case, is not indexed.
pub proof fn law_assets_are_left_out(stem: Seq<char>, end: Seq<char>, size_bytes: u64)
    requires
        ascii_lower_text(end) == ".min.js"@ || ascii_lower_text(end) == ".map"@ || ascii_lower_text(end)
            == ".svg"@ || ascii_lower_text(end) == ".png"@ || ascii_lower_text(end) == ".gif"@
            || ascii_lower_text(end) == ".jpg"@ || ascii_lower_text(end) == ".jpeg"@ || ascii_lower_text(end)
            == ".ico"@ || ascii_lower_text(end) == ".webp"@ || ascii_lower_text(end) == ".woff"@
            || ascii_lower_text(end) == ".woff2"@ || ascii_lower_text(end) == ".ttf"@ || ascii_lower_text(end)
            == ".eot"@ || ascii_lower_text(end) == ".pdf"@ || ascii_lower_text(end) == ".mp3"@
            || ascii_lower_text(end) == ".mp4"@ || ascii_lower_text(end) == ".wav"@,
    ensures
        !is_indexed(stem + end, size_bytes),
{
    let p = ascii_lower_text(stem + end);
    let e = ascii_lower_text(end);
    assert(p.subrange(p.len() - e.len(), p.len() as int) =~= e);
}

/// Law: every other file that is not too large is indexed.
pub proof fn law_other_files_are_indexed(relpath: Seq<char>, size_bytes: u64)
    requires
        size_bytes <= 256_000,
        forall|dir: Seq<char>, name: Seq<char>| #[trigger] (dir + name) == relpath && (dir.len() == 0 || dir.last()
            == '/') && !name.contains('/') ==> name != "package-lock.json"@ && name != "pnpm-lock.yaml"@ && name
            != "yarn.lock"@ && name != "Cargo.lock"@ && name != "bun.lockb"@,
        forall|stem: Seq<char>, end: Seq<char>| #[trigger] (stem + end) == ascii_lower_text(relpath) ==> end
            != ".min.js"@ && end != ".map"@ && end != ".svg"@ && end != ".png"@ && end != ".gif"@ && end
            != ".jpg"@ && end != ".jpeg"@ && end != ".ico"@ && end != ".webp"@ && end != ".woff"@ && end
            != ".woff2"@ && end != ".ttf"@ && end != ".eot"@ && end != ".pdf"@ && end != ".mp3"@ && end
            != ".mp4"@ && end != ".wav"@,
    ensures
        is_indexed(relpath, size_bytes),
{
    let name = last_segment_text(relpath, '/');
    let n = relpath.len() - name.len();
    law_last_segment(relpath, '/');
    assert(relpath.take(n) + name =~= relpath);
    let p = ascii_lower_text(relpath);
    assert forall|end: Seq<char>| #[trigger] has_suffix(p, end) implies end != ".min.js"@ && end != ".map"@ && end
        != ".svg"@ && end != ".png"@ && end != ".gif"@ && end != ".jpg"@ && end != ".jpeg"@ && end != ".ico"@
        && end != ".webp"@ && end != ".woff"@ && end != ".woff2"@ && end != ".ttf"@ && end != ".eot"@ && end
        != ".pdf"@ && end != ".mp3"@ && end != ".mp4"@ && end != ".wav"@ by {
        assert(p.take(p.len() - end.len()) + end =~= p);
    }
}

} // verus!
