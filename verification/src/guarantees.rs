//! What holds of every snapshot.

use vstd::prelude::*;
use vstd::utf8::*;
use crate::entry::Entry;
use crate::filter::{excluded, Matcher};
use crate::histogram::{by_count, descending, tally, total};
use crate::histogram::{lemma_by_count_descending, lemma_by_count_permutes, lemma_tally_total};
use crate::snapshot::{binary_record, blocks, body_text, candidate, contents_title};
use crate::snapshot::{counted_extension, directory_tree_text, extensions, file_block};
use crate::snapshot::{file_type_summary_text, header_text, histogram, rule, skip_record};
use crate::snapshot::{skip_records, skipped_summary_text, snapshot_text, too_large_record};
use crate::snapshot::tree_lines;
use crate::snapshot::{working_directory_text, MAX_SIZE};
use crate::text::lines_text;
use crate::walk::kept;

verus! {

/// `text` is empty or ends with a newline, so that what follows it starts a
/// line.
pub open spec fn ends_line(text: Seq<char>) -> bool {
    text.len() == 0 || text.last() == '\n'
}

/// `text` holds `line` as one of its lines: at the start of `text` or
/// behind a newline, and with a newline behind it.
pub open spec fn holds_line(text: Seq<char>, line: Seq<char>) -> bool {
    exists|before: Seq<char>, after: Seq<char>|
        text == before + line + "\n"@ + after && ends_line(before)
}

/// The bytes that were read of an entry, if any were.
pub open spec fn content_of(e: Entry) -> Option<Seq<u8>> {
    match e.content {
        Some(c) => Some(c@),
        None => None,
    }
}

/// Two traversals found the same tree: the same entries in the same order,
/// with the same sizes and contents. What they found of the snapshot
/// itself, at the path `output`, may differ in size and content.
pub open spec fn same_tree(a: Seq<Entry>, b: Seq<Entry>, output: Seq<char>) -> bool {
    &&& a.len() == b.len()
    &&& forall|i: int|
        0 <= i < a.len() ==> {
            &&& (#[trigger] a[i]).path@ == b[i].path@
            &&& a[i].is_dir == b[i].is_dir
            &&& a[i].is_file == b[i].is_file
            &&& a[i].path@ != output ==> a[i].size == b[i].size && content_of(a[i]) == content_of(
                b[i],
            )
        }
}

/// The title line of a snapshot.
pub open spec fn title_line(timestamp: Seq<char>) -> Seq<char> {
    "Directory and File Snapshot - "@ + timestamp + "\n"@
}

/// All of a snapshot that follows its title line.
pub open spec fn after_title(
    entries: Seq<Entry>,
    root: Seq<char>,
    output: Seq<char>,
    m: Matcher,
) -> Seq<char> {
    rule() + "\n\n"@ + body_text(entries, root, output, m)
}

/// The entries that are counted under an extension.
pub open spec fn counted(entries: Seq<Entry>) -> Seq<Entry> {
    entries.filter(|e: Entry| counted_extension(e) is Some)
}

proof fn lemma_same_tree_front(a: Seq<Entry>, b: Seq<Entry>, output: Seq<char>)
    requires
        same_tree(a, b, output),
        a.len() > 0,
    ensures
        same_tree(a.drop_last(), b.drop_last(), output),
{
    let x = a.drop_last();
    let y = b.drop_last();
    assert forall|i: int| 0 <= i < x.len() implies {
        &&& (#[trigger] x[i]).path@ == y[i].path@
        &&& x[i].is_dir == y[i].is_dir
        &&& x[i].is_file == y[i].is_file
        &&& x[i].path@ != output ==> x[i].size == y[i].size && content_of(x[i]) == content_of(y[i])
    } by {
        assert(x[i] == a[i]);
        assert(y[i] == b[i]);
    }
}

proof fn lemma_same_tree_push(a: Seq<Entry>, b: Seq<Entry>, x: Entry, y: Entry, output: Seq<char>)
    requires
        same_tree(a, b, output),
        same_tree(seq![x], seq![y], output),
    ensures
        same_tree(a.push(x), b.push(y), output),
{
    let p = a.push(x);
    let q = b.push(y);
    assert forall|i: int| 0 <= i < p.len() implies {
        &&& (#[trigger] p[i]).path@ == q[i].path@
        &&& p[i].is_dir == q[i].is_dir
        &&& p[i].is_file == q[i].is_file
        &&& p[i].path@ != output ==> p[i].size == q[i].size && content_of(p[i]) == content_of(q[i])
    } by {
        if i < a.len() {
            assert(p[i] == a[i]);
        } else {
            assert(p[i] == seq![x][0]);
            assert(q[i] == seq![y][0]);
        }
    }
}

proof fn lemma_same_tree_last(a: Seq<Entry>, b: Seq<Entry>, output: Seq<char>)
    requires
        same_tree(a, b, output),
        a.len() > 0,
    ensures
        same_tree(seq![a.last()], seq![b.last()], output),
        a.last().path@ == b.last().path@,
        a.last().is_dir == b.last().is_dir,
        a.last().is_file == b.last().is_file,
        a.last().path@ != output ==> a.last().size == b.last().size && content_of(a.last())
            == content_of(b.last()),
{
    assert(a.last() == a[a.len() - 1]);
    assert(b.last() == b[a.len() - 1]);
}

proof fn lemma_same_tree_kept(
    a: Seq<Entry>,
    b: Seq<Entry>,
    root: Seq<char>,
    output: Seq<char>,
    m: Matcher,
)
    requires
        same_tree(a, b, output),
    ensures
        same_tree(kept(a, root, m), kept(b, root, m), output),
    decreases a.len(),
{
    reveal(Seq::filter);
    if a.len() > 0 {
        lemma_same_tree_front(a, b, output);
        lemma_same_tree_last(a, b, output);
        lemma_same_tree_kept(a.drop_last(), b.drop_last(), root, output, m);
        if !excluded(a.last().path@, a.last().is_dir, root, m) {
            lemma_same_tree_push(
                kept(a.drop_last(), root, m),
                kept(b.drop_last(), root, m),
                a.last(),
                b.last(),
                output,
            );
        }
    }
}

proof fn lemma_same_tree_sections(a: Seq<Entry>, b: Seq<Entry>, root: Seq<char>, output: Seq<char>)
    requires
        same_tree(a, b, output),
    ensures
        extensions(a) == extensions(b),
        tree_lines(a, root) == tree_lines(b, root),
        blocks(a, output) == blocks(b, output),
        skip_records(a, output) == skip_records(b, output),
    decreases a.len(),
{
    if a.len() > 0 {
        lemma_same_tree_front(a, b, output);
        lemma_same_tree_last(a, b, output);
        lemma_same_tree_sections(a.drop_last(), b.drop_last(), root, output);
    }
}

/// Two snapshots of one tree differ in nothing but the time in their title
/// line: what follows that line is the same text, whatever the two
/// traversals found of the snapshot itself.
pub proof fn lemma_snapshot_repeats(
    first_time: Seq<char>,
    second_time: Seq<char>,
    first: Seq<Entry>,
    second: Seq<Entry>,
    root: Seq<char>,
    output: Seq<char>,
    m: Matcher,
)
    requires
        same_tree(first, second, output),
    ensures
        snapshot_text(first_time, first, root, output, m) == title_line(first_time) + after_title(
            first,
            root,
            output,
            m,
        ),
        snapshot_text(second_time, second, root, output, m) == title_line(second_time)
            + after_title(first, root, output, m),
{
    lemma_same_tree_kept(first, second, root, output, m);
    lemma_same_tree_sections(kept(first, root, m), kept(second, root, m), root, output);
    assert(body_text(first, root, output, m) == body_text(second, root, output, m));
    assert(snapshot_text(first_time, first, root, output, m) =~= title_line(first_time)
        + after_title(first, root, output, m));
    assert(snapshot_text(second_time, second, root, output, m) =~= title_line(second_time)
        + after_title(second, root, output, m));
}

proof fn lemma_record_is_listed(entries: Seq<Entry>, output: Seq<char>, i: int)
    requires
        0 <= i < entries.len(),
        skip_record(entries[i], output) is Some,
    ensures
        skip_records(entries, output).contains(skip_record(entries[i], output)->0),
    decreases entries.len(),
{
    let record = skip_record(entries[i], output)->0;
    let front = skip_records(entries.drop_last(), output);
    if i == entries.len() - 1 {
        assert(front.push(record)[front.len() as int] == record);
    } else {
        lemma_record_is_listed(entries.drop_last(), output, i);
        let k = choose|k: int| 0 <= k < front.len() && front[k] == record;
        match skip_record(entries.last(), output) {
            Some(other) => {
                assert(front.push(other)[k] == record);
            },
            None => {},
        }
    }
}

proof fn lemma_lines_end_line(lines: Seq<Seq<char>>)
    ensures
        ends_line(lines_text(lines)),
{
    reveal_strlit("\n");
}

proof fn lemma_blocks_end_line(entries: Seq<Entry>, output: Seq<char>)
    ensures
        ends_line(blocks(entries, output)),
    decreases entries.len(),
{
    reveal_strlit("\n\n");
    if entries.len() > 0 {
        lemma_blocks_end_line(entries.drop_last(), output);
    }
}

proof fn lemma_line_is_written(lines: Seq<Seq<char>>, k: int)
    requires
        0 <= k < lines.len(),
    ensures
        holds_line(lines_text(lines), lines[k]),
    decreases lines.len(),
{
    let front = lines.drop_last();
    if k == lines.len() - 1 {
        let before = lines_text(front);
        let after = Seq::<char>::empty();
        lemma_lines_end_line(front);
        assert(lines_text(lines) =~= before + lines[k] + "\n"@ + after);
    } else {
        lemma_line_is_written(front, k);
        let (before, after) = choose|before: Seq<char>, after: Seq<char>|
            lines_text(front) == before + front[k] + "\n"@ + after && ends_line(before);
        let longer = after + lines.last() + "\n"@;
        assert(lines_text(lines) =~= before + lines[k] + "\n"@ + longer);
    }
}

proof fn lemma_line_stays(front: Seq<char>, text: Seq<char>, line: Seq<char>)
    requires
        holds_line(text, line),
        ends_line(front),
    ensures
        holds_line(front + text, line),
{
    let (before, after) = choose|before: Seq<char>, after: Seq<char>|
        text == before + line + "\n"@ + after && ends_line(before);
    assert(front + text =~= (front + before) + line + "\n"@ + after);
    assert(ends_line(front + before));
}

/// Every report on a kept entry is a line of the snapshot.
pub proof fn lemma_report_is_written(
    timestamp: Seq<char>,
    entries: Seq<Entry>,
    root: Seq<char>,
    output: Seq<char>,
    m: Matcher,
    i: int,
)
    requires
        0 <= i < kept(entries, root, m).len(),
        skip_record(kept(entries, root, m)[i], output) is Some,
    ensures
        holds_line(
            snapshot_text(timestamp, entries, root, output, m),
            skip_record(kept(entries, root, m)[i], output)->0,
        ),
{
    let files = kept(entries, root, m);
    let record = skip_record(files[i], output)->0;
    let records = skip_records(files, output);
    lemma_record_is_listed(files, output, i);
    let k = choose|k: int| 0 <= k < records.len() && records[k] == record;
    lemma_line_is_written(records, k);
    let title = rule() + "\n"@ + "Skipped Files:\n\n"@;
    let sections = file_type_summary_text(files) + working_directory_text(root)
        + directory_tree_text(files, root) + contents_title() + blocks(files, output);
    assert(ends_line(title)) by {
        reveal_strlit("Skipped Files:\n\n");
    }
    assert(ends_line(sections)) by {
        reveal_strlit(" bytes):\n\n");
        lemma_blocks_end_line(files, output);
    }
    assert(ends_line(header_text(timestamp))) by {
        reveal_strlit("\n\n");
    }
    lemma_line_stays(title, lines_text(records), record);
    lemma_line_stays(sections, skipped_summary_text(records), record);
    lemma_line_stays(header_text(timestamp), body_text(entries, root, output, m), record);
}

/// A kept file that is larger than the limit is reported as too large, by
/// its path and its size, in a line of the snapshot, and the snapshot has
/// no block for it.
pub proof fn lemma_too_large_is_reported(
    timestamp: Seq<char>,
    entries: Seq<Entry>,
    root: Seq<char>,
    output: Seq<char>,
    m: Matcher,
    i: int,
)
    requires
        0 <= i < kept(entries, root, m).len(),
        candidate(kept(entries, root, m)[i], output),
        kept(entries, root, m)[i].size is Some,
        kept(entries, root, m)[i].size->0 > MAX_SIZE,
    ensures
        holds_line(
            snapshot_text(timestamp, entries, root, output, m),
            too_large_record(
                kept(entries, root, m)[i].path@,
                kept(entries, root, m)[i].size->0 as nat,
            ),
        ),
        file_block(kept(entries, root, m)[i], output) == Seq::<char>::empty(),
{
    lemma_report_is_written(timestamp, entries, root, output, m, i);
}

/// A kept file within the limit whose bytes are not valid UTF-8 is reported
/// as no text, by its path, in a line of the snapshot, and the snapshot has
/// no block for it.
pub proof fn lemma_binary_is_reported(
    timestamp: Seq<char>,
    entries: Seq<Entry>,
    root: Seq<char>,
    output: Seq<char>,
    m: Matcher,
    i: int,
)
    requires
        0 <= i < kept(entries, root, m).len(),
        candidate(kept(entries, root, m)[i], output),
        kept(entries, root, m)[i].size is Some,
        kept(entries, root, m)[i].size->0 <= MAX_SIZE,
        kept(entries, root, m)[i].content is Some,
        !valid_utf8(kept(entries, root, m)[i].content->0@),
    ensures
        holds_line(
            snapshot_text(timestamp, entries, root, output, m),
            binary_record(kept(entries, root, m)[i].path@),
        ),
        file_block(kept(entries, root, m)[i], output) == Seq::<char>::empty(),
{
    lemma_report_is_written(timestamp, entries, root, output, m, i);
}

proof fn lemma_extensions_len(entries: Seq<Entry>)
    ensures
        extensions(entries).len() == counted(entries).len(),
    decreases entries.len(),
{
    reveal(Seq::filter);
    if entries.len() > 0 {
        lemma_extensions_len(entries.drop_last());
    }
}

/// The counts of the histogram add up to the number of entries that are
/// regular files with an extension that is not empty.
pub proof fn lemma_histogram_total(entries: Seq<Entry>)
    ensures
        total(histogram(entries)) == counted(entries).len(),
{
    lemma_extensions_len(entries);
    lemma_tally_total(extensions(entries));
    lemma_by_count_permutes(tally(extensions(entries)));
}

/// An entry that is no regular file, or has no extension, changes nothing
/// in the histogram.
pub proof fn lemma_histogram_ignores(entries: Seq<Entry>, e: Entry)
    requires
        counted_extension(e) is None,
    ensures
        histogram(entries.push(e)) == histogram(entries),
{
    assert(entries.push(e).drop_last() =~= entries);
}

/// The histogram is shown with the highest count first: the counts never
/// rise from one line to the next.
pub proof fn lemma_histogram_descending(entries: Seq<Entry>)
    ensures
        descending(histogram(entries)),
{
    lemma_by_count_descending(tally(extensions(entries)));
}

} // verus!
