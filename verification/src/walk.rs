//! The filtered traversal: the entries of a tree that a snapshot keeps.

use vstd::prelude::*;
use crate::entry::Entry;
use crate::filter::{can_decide, decidable, excluded, is_excluded, Matcher};

verus! {

/// Every entry can be put to a matcher in a snapshot of `root`.
pub open spec fn all_decidable(entries: Seq<Entry>, root: Seq<char>, m: Matcher) -> bool {
    forall|i: int| 0 <= i < entries.len() ==> decidable((#[trigger] entries[i]).path@, root, m)
}

/// The entries that a snapshot of `root` keeps: those that are not left out,
/// in the order of the traversal.
pub open spec fn kept(entries: Seq<Entry>, root: Seq<char>, m: Matcher) -> Seq<Entry> {
    entries.filter(|e: Entry| !excluded(e.path@, e.is_dir, root, m))
}

/// The entries that a sequence of borrowed entries refers to.
pub open spec fn values(refs: Seq<&Entry>) -> Seq<Entry> {
    refs.map_values(|e: &Entry| *e)
}

/// What is kept of the first `n + 1` entries is what is kept of the first
/// `n`, followed by entry `n` if it is kept.
pub proof fn lemma_kept_step(entries: Seq<Entry>, root: Seq<char>, m: Matcher, n: int)
    requires
        0 <= n < entries.len(),
    ensures
        kept(entries.take(n + 1), root, m) == if excluded(
            entries[n].path@,
            entries[n].is_dir,
            root,
            m,
        ) {
            kept(entries.take(n), root, m)
        } else {
            kept(entries.take(n), root, m).push(entries[n])
        },
{
    reveal(Seq::filter);
    assert(entries.take(n + 1).drop_last() =~= entries.take(n));
}

/// Whether every entry can be put to a matcher in a snapshot of `root`.
pub fn can_decide_all(entries: &Vec<Entry>, root: &str, gitignore: &Matcher) -> (r: bool)
    ensures
        r == all_decidable(entries@, root@, *gitignore),
{
    let mut i: usize = 0;
    while i < entries.len()
        invariant
            i <= entries.len(),
            forall|j: int| 0 <= j < i ==> decidable((#[trigger] entries@[j]).path@, root@, *gitignore),
        decreases entries.len() - i,
    {
        if !can_decide(&entries[i], root, gitignore) {
            return false;
        }
        i += 1;
    }
    true
}

/// The entries of a traversal that a snapshot of `root` keeps, in the order
/// in which the traversal gave them.
pub fn walk_filtered<'a>(entries: &'a Vec<Entry>, root: &str, gitignore: &Matcher) -> (r: Vec<
    &'a Entry,
>)
    requires
        all_decidable(entries@, root@, *gitignore),
    ensures
        values(r@) == kept(entries@, root@, *gitignore),
{
    let mut out: Vec<&Entry> = Vec::new();
    let mut i: usize = 0;
    proof {
        reveal(Seq::filter);
        assert(entries@.take(0) =~= Seq::<Entry>::empty());
    }
    while i < entries.len()
        invariant
            i <= entries.len(),
            all_decidable(entries@, root@, *gitignore),
            values(out@) == kept(entries@.take(i as int), root@, *gitignore),
        decreases entries.len() - i,
    {
        let entry = &entries[i];
        proof {
            lemma_kept_step(entries@, root@, *gitignore, i as int);
        }
        let ghost before = out@;
        if !is_excluded(entry, root, gitignore) {
            out.push(entry);
            assert(values(out@) =~= values(before).push(*entry));
        }
        i += 1;
    }
    assert(entries@.take(entries@.len() as int) =~= entries@);
    out
}

} // verus!
