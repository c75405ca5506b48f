//! The git hook that indexes a repository after each commit, and the marker of the last index.

use crate::text::{cat2, trim, trim_text};
use vstd::prelude::*;

verus! {

/// The command that indexes a repository again.
pub open spec fn reindex_command(repo: Seq<char>, namespace: Seq<char>, url: Seq<char>) -> Seq<char> {
    "engram-index reindex "@ + repo + " --namespace "@ + namespace + " --url "@ + url
}

pub fn build_reindex_command(repo: &str, namespace: &str, url: &str) -> (r: String)
    ensures
        r@ == reindex_command(repo@, namespace@, url@),
{
    let mut c = cat2("engram-index reindex ", repo);
    c.push_str(" --namespace ");
    c.push_str(namespace);
    c.push_str(" --url ");
    c.push_str(url);
    c
}

/// The script of the hook.
pub fn build_hook_script(repo: &str, namespace: &str, url: &str) -> (r: String)
    ensures
        r@ == "#!/bin/sh\n# Added by engram-index install-hook\n"@ + reindex_command(
            repo@,
            namespace@,
            url@,
        ) + "\n"@,
{
    let mut s = "#!/bin/sh\n# Added by engram-index install-hook\n".to_owned();
    s.push_str(build_reindex_command(repo, namespace, url).as_str());
    s.push_str("\n");
    s
}

/// The commit that the marker of the last index names.
pub fn marked_sha(marker: &str) -> (r: String)
    ensures
        r@ == trim_text(marker@),
{
    trim(marker)
}

} // verus!
