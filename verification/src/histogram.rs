//! The extension histogram: how often each extension occurs among the files
//! of a snapshot, and the order in which the counts are shown.

use vstd::prelude::*;

verus! {

/// How often one extension occurs.
pub struct Count {
    pub ext: Seq<char>,
    pub count: nat,
}

/// One entry of a histogram.
pub struct ExtCount {
    /// The extension, in lowercase.
    pub ext: String,
    /// The number of files that have it.
    pub count: usize,
}

impl View for ExtCount {
    type V = Count;

    open spec fn view(&self) -> Count {
        Count { ext: self.ext@, count: self.count as nat }
    }
}

/// The histogram that a vector of entries holds.
pub open spec fn counts(v: Seq<ExtCount>) -> Seq<Count> {
    v.map_values(|c: ExtCount| c@)
}

/// The index of the first entry of `h` for `ext`, or the length of `h` if it
/// has none.
pub open spec fn position(h: Seq<Count>, ext: Seq<char>) -> nat
    decreases h.len(),
{
    if h.len() == 0 || h[0].ext == ext {
        0
    } else {
        1 + position(h.drop_first(), ext)
    }
}

/// The histogram `h` after one more file with the extension `ext`: the
/// entry for `ext` counts one more, or a new entry for `ext` with the count
/// 1 follows the others.
pub open spec fn bump(h: Seq<Count>, ext: Seq<char>) -> Seq<Count> {
    let i = position(h, ext) as int;
    if i < h.len() {
        h.update(i, Count { ext: ext, count: h[i].count + 1 })
    } else {
        h.push(Count { ext: ext, count: 1 })
    }
}

/// The histogram of a sequence of extensions: one entry for each extension
/// that occurs, in the order of their first occurrence, with the number of
/// its occurrences.
pub open spec fn tally(exts: Seq<Seq<char>>) -> Seq<Count>
    decreases exts.len(),
{
    if exts.len() == 0 {
        Seq::empty()
    } else {
        bump(tally(exts.drop_last()), exts.last())
    }
}

/// The sum of the counts of a histogram.
pub open spec fn total(h: Seq<Count>) -> nat
    decreases h.len(),
{
    if h.len() == 0 {
        0
    } else {
        total(h.drop_last()) + h.last().count
    }
}

/// The number of times that `ext` occurs in `exts`.
pub open spec fn occurrences(exts: Seq<Seq<char>>, ext: Seq<char>) -> nat
    decreases exts.len(),
{
    if exts.len() == 0 {
        0
    } else if exts.last() == ext {
        occurrences(exts.drop_last(), ext) + 1
    } else {
        occurrences(exts.drop_last(), ext)
    }
}

/// No extension has two entries in `h`.
pub open spec fn distinct(h: Seq<Count>) -> bool {
    forall|i: int, j: int| 0 <= i < j < h.len() ==> (#[trigger] h[i]).ext != (#[trigger] h[j]).ext
}

/// The counts of `s` never rise from one entry to the next.
pub open spec fn descending(s: Seq<Count>) -> bool {
    forall|i: int, j: int| 0 <= i < j < s.len() ==> (#[trigger] s[i]).count >= (#[trigger] s[j]).count
}

/// `s`, which is in descending order, with `c` put in: behind every entry
/// that counts as much as `c` or more, and before every entry that counts
/// less.
pub open spec fn insert_by_count(s: Seq<Count>, c: Count) -> Seq<Count>
    decreases s.len(),
{
    if s.len() == 0 {
        seq![c]
    } else if s.last().count >= c.count {
        s.push(c)
    } else {
        insert_by_count(s.drop_last(), c).push(s.last())
    }
}

/// The entries of `h` by descending count. Entries with the same count keep
/// the order that they have in `h`.
pub open spec fn by_count(h: Seq<Count>) -> Seq<Count>
    decreases h.len(),
{
    if h.len() == 0 {
        h
    } else {
        insert_by_count(by_count(h.drop_last()), h.last())
    }
}

pub proof fn lemma_position(h: Seq<Count>, ext: Seq<char>)
    ensures
        position(h, ext) <= h.len(),
        position(h, ext) < h.len() ==> h[position(h, ext) as int].ext == ext,
        forall|j: int| 0 <= j < position(h, ext) ==> (#[trigger] h[j]).ext != ext,
    decreases h.len(),
{
    if h.len() > 0 && h[0].ext != ext {
        let rest = h.drop_first();
        lemma_position(rest, ext);
        assert forall|j: int| 0 <= j < position(h, ext) implies (#[trigger] h[j]).ext != ext by {
            if j > 0 {
                assert(rest[j - 1] == h[j]);
            }
        }
    }
}

/// The position of `ext` is the first index that holds it.
pub proof fn lemma_position_is(h: Seq<Count>, ext: Seq<char>, k: int)
    requires
        0 <= k <= h.len(),
        k < h.len() ==> h[k].ext == ext,
        forall|j: int| 0 <= j < k ==> (#[trigger] h[j]).ext != ext,
    ensures
        position(h, ext) == k,
{
    lemma_position(h, ext);
}

/// No entry counts more than all entries together.
pub proof fn lemma_count_le_total(h: Seq<Count>, i: int)
    requires
        0 <= i < h.len(),
    ensures
        h[i].count <= total(h),
    decreases h.len(),
{
    if i < h.len() - 1 {
        lemma_count_le_total(h.drop_last(), i);
    }
}

proof fn lemma_total_update(h: Seq<Count>, i: int, c: Count)
    requires
        0 <= i < h.len(),
    ensures
        total(h.update(i, c)) == total(h) - h[i].count + c.count,
    decreases h.len(),
{
    let u = h.update(i, c);
    if i < h.len() - 1 {
        lemma_total_update(h.drop_last(), i, c);
        assert(u.drop_last() =~= h.drop_last().update(i, c));
    } else {
        assert(u.drop_last() =~= h.drop_last());
    }
}

/// One more file makes the total one more.
pub proof fn lemma_total_bump(h: Seq<Count>, ext: Seq<char>)
    ensures
        total(bump(h, ext)) == total(h) + 1,
{
    lemma_position(h, ext);
    let i = position(h, ext) as int;
    if i < h.len() {
        lemma_total_update(h, i, Count { ext: ext, count: h[i].count + 1 });
    } else {
        assert(h.push(Count { ext: ext, count: 1 }).drop_last() =~= h);
    }
}

/// The counts of a histogram add up to the number of extensions that it
/// was made from.
pub proof fn lemma_tally_total(exts: Seq<Seq<char>>)
    ensures
        total(tally(exts)) == exts.len(),
    decreases exts.len(),
{
    if exts.len() > 0 {
        lemma_tally_total(exts.drop_last());
        lemma_total_bump(tally(exts.drop_last()), exts.last());
    }
}

/// A histogram has one entry for each extension that occurs, none for any
/// other, and each entry counts the occurrences of its extension.
pub proof fn lemma_tally_counts(exts: Seq<Seq<char>>)
    ensures
        distinct(tally(exts)),
        forall|i: int|
            0 <= i < tally(exts).len() ==> (#[trigger] tally(exts)[i]).count == occurrences(
                exts,
                tally(exts)[i].ext,
            ) && tally(exts)[i].count > 0,
        forall|ext: Seq<char>|
            occurrences(exts, ext) > 0 ==> #[trigger] position(tally(exts), ext) < tally(
                exts,
            ).len(),
    decreases exts.len(),
{
    if exts.len() > 0 {
        let before = exts.drop_last();
        let h = tally(before);
        let ext = exts.last();
        let after = tally(exts);
        lemma_tally_counts(before);
        lemma_position(h, ext);
        let p = position(h, ext) as int;
        assert forall|i: int, j: int| 0 <= i < j < after.len() implies (#[trigger] after[i]).ext
            != (#[trigger] after[j]).ext by {
            if p < h.len() {
                assert(after[i].ext == h[i].ext);
                assert(after[j].ext == h[j].ext);
            } else if j < h.len() {
                assert(after[i] == h[i]);
                assert(after[j] == h[j]);
            } else {
                assert(after[i] == h[i]);
            }
        }
        assert forall|i: int| 0 <= i < after.len() implies (#[trigger] after[i]).count
            == occurrences(exts, after[i].ext) && after[i].count > 0 by {
            if i < h.len() {
                assert(h[i].count == occurrences(before, h[i].ext));
                if i != p {
                    assert(after[i] == h[i]);
                    if p < h.len() {
                        assert(h[i].ext != h[p].ext);
                    }
                }
            } else {
                if occurrences(before, ext) > 0 {
                    assert(position(h, ext) < h.len());
                }
            }
        }
        assert forall|e: Seq<char>| occurrences(exts, e) > 0 implies #[trigger] position(
            after,
            e,
        ) < after.len() by {
            lemma_position(after, e);
            if e == ext {
                if p < h.len() {
                    assert(after[p].ext == e);
                } else {
                    assert(after[h.len() as int].ext == e);
                }
            } else {
                assert(position(h, e) < h.len());
                lemma_position(h, e);
                let q = position(h, e) as int;
                assert(after[q].ext == e);
            }
        }
    }
}

proof fn lemma_insert_at(s: Seq<Count>, c: Count, pos: int)
    requires
        0 <= pos <= s.len(),
        forall|j: int| pos <= j < s.len() ==> (#[trigger] s[j]).count < c.count,
        pos == 0 || s[pos - 1].count >= c.count,
    ensures
        insert_by_count(s, c) == s.insert(pos, c),
    decreases s.len(),
{
    if s.len() == 0 {
        assert(seq![c] =~= s.insert(pos, c));
    } else if s.last().count >= c.count {
        assert(pos == s.len());
        assert(s.push(c) =~= s.insert(pos, c));
    } else {
        let front = s.drop_last();
        assert(pos < s.len());
        assert forall|j: int| pos <= j < front.len() implies (#[trigger] front[j]).count
            < c.count by {
            assert(front[j] == s[j]);
        }
        lemma_insert_at(front, c, pos);
        assert(front.insert(pos, c).push(s.last()) =~= s.insert(pos, c));
    }
}

proof fn lemma_insert_shape(s: Seq<Count>, c: Count, low: nat)
    requires
        c.count >= low,
        forall|j: int| 0 <= j < s.len() ==> (#[trigger] s[j]).count >= low,
    ensures
        insert_by_count(s, c).len() == s.len() + 1,
        forall|j: int|
            0 <= j < insert_by_count(s, c).len() ==> (#[trigger] insert_by_count(s, c)[j]).count
                >= low,
        total(insert_by_count(s, c)) == total(s) + c.count,
        insert_by_count(s, c).to_multiset() == s.to_multiset().insert(c),
    decreases s.len(),
{
    broadcast use vstd::seq_lib::group_to_multiset_ensures;

    let r = insert_by_count(s, c);
    if s.len() == 0 {
        assert(r.drop_last() =~= s);
        assert(r =~= s.push(c));
    } else if s.last().count >= c.count {
        assert(r.drop_last() =~= s);
    } else {
        let front = s.drop_last();
        assert forall|j: int| 0 <= j < front.len() implies (#[trigger] front[j]).count >= low by {
            assert(front[j] == s[j]);
        }
        lemma_insert_shape(front, c, low);
        let mid = insert_by_count(front, c);
        assert(r.drop_last() =~= mid);
        assert(s =~= front.push(s.last()));
        assert(front.to_multiset().insert(c).insert(s.last()) =~= front.to_multiset().insert(
            s.last(),
        ).insert(c));
    }
}

proof fn lemma_insert_descending(s: Seq<Count>, c: Count)
    requires
        descending(s),
    ensures
        descending(insert_by_count(s, c)),
    decreases s.len(),
{
    let r = insert_by_count(s, c);
    if s.len() == 0 {
    } else if s.last().count >= c.count {
        assert forall|i: int, j: int| 0 <= i < j < r.len() implies (#[trigger] r[i]).count >= (
        #[trigger] r[j]).count by {
            if j == s.len() {
                if i < s.len() - 1 {
                    assert(s[i].count >= s[s.len() - 1].count);
                }
            } else {
                assert(s[i].count >= s[j].count);
            }
        }
    } else {
        let front = s.drop_last();
        let low = s.last().count;
        assert(descending(front)) by {
            assert forall|i: int, j: int| 0 <= i < j < front.len() implies (#[trigger] front[i]).count
                >= (#[trigger] front[j]).count by {
                assert(s[i].count >= s[j].count);
            }
        }
        assert forall|j: int| 0 <= j < front.len() implies (#[trigger] front[j]).count >= low by {
            assert(s[j].count >= s[s.len() - 1].count);
        }
        lemma_insert_descending(front, c);
        lemma_insert_shape(front, c, low);
        let mid = insert_by_count(front, c);
        assert forall|i: int, j: int| 0 <= i < j < r.len() implies (#[trigger] r[i]).count >= (
        #[trigger] r[j]).count by {
            assert(r[i] == mid[i]);
            if j < mid.len() {
                assert(r[j] == mid[j]);
            }
        }
    }
}

/// The counts of a histogram in display order never rise from one entry to
/// the next.
pub proof fn lemma_by_count_descending(h: Seq<Count>)
    ensures
        descending(by_count(h)),
    decreases h.len(),
{
    if h.len() > 0 {
        lemma_by_count_descending(h.drop_last());
        lemma_insert_descending(by_count(h.drop_last()), h.last());
    }
}

/// Putting a histogram in display order neither adds nor loses an entry.
pub proof fn lemma_by_count_permutes(h: Seq<Count>)
    ensures
        by_count(h).len() == h.len(),
        by_count(h).to_multiset() == h.to_multiset(),
        total(by_count(h)) == total(h),
    decreases h.len(),
{
    broadcast use vstd::seq_lib::group_to_multiset_ensures;

    if h.len() > 0 {
        lemma_by_count_permutes(h.drop_last());
        lemma_insert_shape(by_count(h.drop_last()), h.last(), 0);
        assert(h =~= h.drop_last().push(h.last()));
    }
}

/// Counts one more file with the extension `ext`.
pub fn count_extension(h: &mut Vec<ExtCount>, ext: String)
    requires
        total(counts(old(h)@)) < usize::MAX,
    ensures
        counts(final(h)@) == bump(counts(old(h)@), ext@),
{
    let ghost before = counts(h@);
    let mut i: usize = 0;
    while i < h.len()
        invariant
            i <= h.len(),
            h@ == old(h)@,
            before == counts(h@),
            total(before) < usize::MAX,
            forall|j: int| 0 <= j < i ==> (#[trigger] before[j]).ext != ext@,
        decreases h.len() - i,
    {
        if h[i].ext == ext {
            proof {
                assert(before[i as int] == h@[i as int]@);
                lemma_position_is(before, ext@, i as int);
                lemma_count_le_total(before, i as int);
            }
            let count = h[i].count + 1;
            h.set(i, ExtCount { ext: ext, count: count });
            assert(counts(h@) =~= bump(before, ext@));
            return;
        }
        i += 1;
    }
    proof {
        lemma_position_is(before, ext@, before.len() as int);
    }
    h.push(ExtCount { ext: ext, count: 1 });
    assert(counts(h@) =~= bump(before, ext@));
}

/// The entries of `h` by descending count; entries with the same count stay
/// in the order that they have in `h`.
pub fn sort_by_count(h: &Vec<ExtCount>) -> (r: Vec<ExtCount>)
    ensures
        counts(r@) == by_count(counts(h@)),
{
    let ghost all = counts(h@);
    let mut out: Vec<ExtCount> = Vec::new();
    let mut i: usize = 0;
    assert(all.take(0) =~= Seq::<Count>::empty());
    assert(counts(out@) =~= Seq::<Count>::empty());
    while i < h.len()
        invariant
            i <= h.len(),
            all == counts(h@),
            counts(out@) == by_count(all.take(i as int)),
        decreases h.len() - i,
    {
        let item = ExtCount { ext: h[i].ext.clone(), count: h[i].count };
        let ghost sorted = counts(out@);
        let mut pos: usize = out.len();
        while pos > 0 && out[pos - 1].count < item.count
            invariant
                pos <= out.len(),
                sorted == counts(out@),
                forall|j: int| pos <= j < out.len() ==> (#[trigger] sorted[j]).count < item@.count,
            decreases pos,
        {
            pos -= 1;
        }
        proof {
            assert(item@ == all[i as int]);
            lemma_insert_at(sorted, item@, pos as int);
            assert(all.take(i + 1).drop_last() =~= all.take(i as int));
        }
        out.insert(pos, item);
        assert(counts(out@) =~= sorted.insert(pos as int, all[i as int]));
        i += 1;
    }
    assert(all.take(h@.len() as int) =~= all);
    out
}

} // verus!
