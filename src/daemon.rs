//! The decisions of the periodic check of open pull requests.
use crate::codeowners::CodeOwners;
use crate::conditional::{paths_view, reduced, removed, requirement_of, Cond, OwnersConditional};
use crate::text::{contains_name, strings_view};
use vstd::prelude::*;
use vstd::string::StringExecFns;

verus! {

/// The time last recorded for pull request `n`, in seconds since the epoch:
/// that of its first entry.
pub open spec fn last_update_of(updates: Seq<(u64, u64)>, n: u64) -> Option<u64>
    decreases updates.len(),
{
    if updates.len() == 0 {
        None
    } else {
        match last_update_of(updates.subrange(0, updates.len() - 1), n) {
            Some(t) => Some(t),
            None => if updates[updates.len() - 1].0 == n {
                Some(updates[updates.len() - 1].1)
            } else {
                None
            },
        }
    }
}

/// A pull request is checked again unless it is banned; when a time is
/// recorded for it, only if it reports an update after that time.
pub open spec fn needs_update(banned: bool, recorded: Option<u64>, updated_at: Option<u64>) -> bool {
    !banned && match recorded {
        None => true,
        Some(c) => match updated_at {
            Some(u) => c < u,
            None => false,
        },
    }
}

/// Whether pull request `pr_number`, last updated at `updated_at` (seconds
/// since the epoch, when known), must be checked again, given the times
/// recorded for pull requests and the banned ones.
pub fn should_update_pr(
    pr_number: u64,
    updated_at: Option<u64>,
    last_updates: &Vec<(u64, u64)>,
    banned_prs: &Vec<u64>,
) -> (r: bool)
    ensures
        r == needs_update(
            banned_prs@.contains(pr_number),
            last_update_of(last_updates@, pr_number),
            updated_at,
        ),
{
    let mut b: usize = 0;
    while b < banned_prs.len()
        invariant
            b <= banned_prs@.len(),
            forall|j: int| 0 <= j < b ==> #[trigger] banned_prs@[j] != pr_number,
        decreases banned_prs@.len() - b,
    {
        if banned_prs[b] == pr_number {
            assert(banned_prs@.contains(pr_number)) by {
                assert(banned_prs@[b as int] == pr_number);
            }
            return false;
        }
        b = b + 1;
    }
    assert(!banned_prs@.contains(pr_number));
    let ghost u = last_updates@;
    let mut k: usize = 0;
    assert(u.take(0) == Seq::<(u64, u64)>::empty());
    while k < last_updates.len()
        invariant
            k <= u.len(),
            u == last_updates@,
            !banned_prs@.contains(pr_number),
            last_update_of(u.take(k as int), pr_number) is None,
        decreases u.len() - k,
    {
        assert(u.take(k + 1).subrange(0, k as int) == u.take(k as int));
        if last_updates[k].0 == pr_number {
            proof {
                lemma_last_update_extends(u, pr_number, k + 1);
            }
            let recorded = last_updates[k].1;
            return match updated_at {
                Some(t) => recorded < t,
                None => false,
            };
        }
        k = k + 1;
    }
    assert(u.take(u.len() as int) == u);
    true
}

proof fn lemma_last_update_extends(u: Seq<(u64, u64)>, n: u64, m: int)
    requires
        0 < m <= u.len(),
        last_update_of(u.take(m - 1), n) is None,
        u[m - 1].0 == n,
    ensures
        last_update_of(u, n) == Some(u[m - 1].1),
    decreases u.len() - m,
{
    assert(u.take(m).subrange(0, m - 1) == u.take(m - 1));
    lemma_some_extends(u, n, m, u[m - 1].1);
}

proof fn lemma_some_extends(u: Seq<(u64, u64)>, n: u64, m: int, t: u64)
    requires
        0 <= m <= u.len(),
        last_update_of(u.take(m), n) == Some(t),
    ensures
        last_update_of(u, n) == Some(t),
    decreases u.len() - m,
{
    if m < u.len() {
        assert(u.take(m + 1).subrange(0, m) == u.take(m));
        lemma_some_extends(u, n, m + 1, t);
    } else {
        assert(u.take(m) == u);
    }
}

/// The comment posted on a pull request: the rendered requirement, then the
/// per-file report in a collapsed section.
pub open spec fn comment_text(conditional: Seq<char>, file_owners: Seq<char>) -> Seq<char> {
    "# File Owners\nThe minimum set of approvers required are:\n`"@ + conditional
        + "`\n<details>\n    <summary>Details</summary>\n    "@ + file_owners
        + "\n</details>"@
}

/// The comment for a pull request, from its rendered requirement and its
/// per-file report.
pub fn pr_comment(conditional: &str, file_owners: &str) -> (r: String)
    ensures
        r@ == comment_text(conditional@, file_owners@),
{
    let mut out = String::new();
    out.append("# File Owners\nThe minimum set of approvers required are:\n`");
    out.append(conditional);
    out.append("`\n<details>\n    <summary>Details</summary>\n    ");
    out.append(file_owners);
    out.append("\n</details>");
    out
}

/// Whether a pull request by `author` is one to check: its author is known
/// and among `users`.
pub fn tracked_author(author: Option<&String>, users: &Vec<String>) -> (r: bool)
    ensures
        r == (author is Some && strings_view(users@).contains(author->Some_0@)),
{
    match author {
        Some(login) => contains_name(users, login),
        None => false,
    }
}

/// The requirement of a pull request: that of its changed files without the
/// excluded owners, reduced; when nothing remains, the empty `And`.
pub open spec fn pr_requirement_of(
    rules: Seq<crate::codeowners::RuleModel>,
    files: Seq<Seq<char>>,
    excluded: Set<Seq<char>>,
) -> Cond {
    match removed(requirement_of(rules, files), excluded) {
        Some(c) => reduced(c),
        None => Cond::And(Seq::empty()),
    }
}

/// The requirement of a pull request from its changed files, with the
/// excluded owners removed and the result reduced.
pub fn pr_requirement(codeowners: &CodeOwners, files: &[&str], excluded: &Vec<String>) -> (r:
    OwnersConditional)
    ensures
        r@ == pr_requirement_of(codeowners@, paths_view(files@), strings_view(excluded@).to_set()),
{
    match OwnersConditional::from_codeowners(codeowners, files).remove_all(excluded) {
        Some(c) => c.reduce(),
        None => {
            let r = OwnersConditional::And(Vec::new());
            assert(r@ == Cond::And(Seq::empty()));
            r
        },
    }
}

} // verus!
