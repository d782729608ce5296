//! One version in a tree of forks, and the names it goes by.

use crate::text::{decimal, push_decimal};
use vstd::prelude::*;
use vstd::string::StringExecFns;

verus! {

/// One version of a repository in a tree of forks: whose repository it is,
/// the commit, whether the commit is the head, and the number of the
/// version among those of the same repository.
#[derive(Debug, Clone)]
pub struct VersionRef {
    pub owner: String,
    pub repo: String,
    pub commit: String,
    pub is_head: bool,
    pub version_no: u8,
}

/// How a version is marked: as the head of its repository, or as an older
/// commit.
pub open spec fn head_mark(is_head: bool) -> Seq<char> {
    if is_head {
        "HEAD"@
    } else {
        "OLD"@
    }
}

/// The name under which a version is stored: owner, repository, mark and
/// number, as in `owner-repo-HEAD-v1`.
pub open spec fn version_name(version_ref: VersionRef) -> Seq<char> {
    version_ref.owner@ + "-"@ + version_ref.repo@ + "-"@ + head_mark(version_ref.is_head) + "-v"@
        + decimal(version_ref.version_no as nat)
}

/// The name under which a version is shown, as in `owner/repo - HEAD: v1`.
pub open spec fn version_display_name(version_ref: VersionRef) -> Seq<char> {
    version_ref.owner@ + "/"@ + version_ref.repo@ + " - "@ + head_mark(version_ref.is_head)
        + ": v"@ + decimal(version_ref.version_no as nat)
}

/// The mark of a version.
fn mark_of(is_head: bool) -> (mark: &'static str)
    ensures
        mark@ == head_mark(is_head),
{
    if is_head {
        "HEAD"
    } else {
        "OLD"
    }
}

/// The name under which a version is stored.
pub fn gen_version_name(version_ref: &VersionRef) -> (name: String)
    ensures
        name@ == version_name(*version_ref),
{
    let mut name = version_ref.owner.clone();
    name.append("-");
    name.append(version_ref.repo.as_str());
    name.append("-");
    name.append(mark_of(version_ref.is_head));
    name.append("-v");
    push_decimal(&mut name, version_ref.version_no as u128);
    name
}

/// The name under which a version is shown.
pub fn gen_version_display_name(version_ref: &VersionRef) -> (name: String)
    ensures
        name@ == version_display_name(*version_ref),
{
    let mut name = version_ref.owner.clone();
    name.append("/");
    name.append(version_ref.repo.as_str());
    name.append(" - ");
    name.append(mark_of(version_ref.is_head));
    name.append(": v");
    push_decimal(&mut name, version_ref.version_no as u128);
    name
}

/// The number of slashes in a text.
pub open spec fn slash_count(text: Seq<char>) -> nat {
    text.filter(|c: char| c == '/').len()
}

/// Whether a text holds exactly one slash.
pub fn has_one_slash(full_name: &str) -> (one: bool)
    ensures
        one == (slash_count(full_name@) == 1),
{
    let ghost text = full_name@;
    let ghost is_slash = |c: char| c == '/';
    let n = full_name.unicode_len();
    let mut count: usize = 0;
    proof {
        assert(text.take(0) =~= Seq::<char>::empty());
        assert(text.take(0).filter(is_slash) =~= Seq::<char>::empty()) by {
            reveal(Seq::filter);
        }
    }
    for i in 0..n
        invariant
            text == full_name@,
            n == text.len(),
            is_slash == (|c: char| c == '/'),
            count == text.take(i as int).filter(is_slash).len(),
            count <= i,
    {
        proof {
            assert(text.take(i + 1).drop_last() =~= text.take(i as int));
            assert(text.take(i + 1).last() == text[i as int]);
            reveal(Seq::filter);
        }
        if full_name.get_char(i) == '/' {
            count = count + 1;
        }
    }
    assert(text.take(n as int) =~= text);
    count == 1
}

/// Splits the full name of a repository, `owner/repo`, at its slash. The
/// name must hold exactly one slash.
pub fn split_full_name(full_name: &str) -> (parts: (&str, &str))
    requires
        slash_count(full_name@) == 1,
    ensures
        parts.0@ + seq!['/'] + parts.1@ == full_name@,
        !parts.0@.contains('/'),
        !parts.1@.contains('/'),
{
    let ghost text = full_name@;
    let ghost is_slash = |c: char| c == '/';
    let n = full_name.unicode_len();
    let mut i: usize = 0;
    proof {
        assert(text.take(0) =~= Seq::<char>::empty());
        assert(text.take(n as int) =~= text);
    }
    while i < n && full_name.get_char(i) != '/'
        invariant
            text == full_name@,
            n == text.len(),
            i <= n,
            is_slash == (|c: char| c == '/'),
            forall|k: int| 0 <= k < i ==> text[k] != '/',
        decreases n - i,
    {
        i = i + 1;
    }
    proof {
        if i == n {
            text.lemma_all_neg_filter_empty(is_slash);
        }
    }
    let owner = full_name.substring_char(0, i);
    let repo = full_name.substring_char(i + 1, n);
    proof {
        let front = text.subrange(0, i as int);
        let back = text.subrange(i + 1, n as int);
        assert(text =~= front + seq!['/'] + back);
        Seq::filter_distributes_over_add(front + seq!['/'], back, is_slash);
        Seq::filter_distributes_over_add(front, seq!['/'], is_slash);
        front.lemma_all_neg_filter_empty(is_slash);
        assert(seq!['/'].filter(is_slash) =~= seq!['/']) by {
            reveal(Seq::filter);
            assert(seq!['/'].drop_last() =~= Seq::<char>::empty());
        }
        assert(back.filter(is_slash).len() == 0);
        if back.contains('/') {
            let k = choose|k: int| 0 <= k < back.len() && back[k] == '/';
            back.lemma_filter_contains(is_slash, k);
        }
        if front.contains('/') {
            let k = choose|k: int| 0 <= k < front.len() && front[k] == '/';
            assert(text[k] == '/');
        }
    }
    (owner, repo)
}

} // verus!
