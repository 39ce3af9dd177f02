//! The sections of a snapshot, each written to the end of a text.

use vstd::prelude::*;
use vstd::string::*;
use vstd::utf8::*;
use crate::entry::Entry;
use crate::filter::Matcher;
use crate::histogram::{by_count, count_extension, counts, sort_by_count, tally, total, Count, ExtCount};
use crate::histogram::{lemma_tally_total};
use crate::path::{extension, extension_of, relative, strip_root, under};
use crate::text::{decimal, lines_text, lowercase, lowercase_of, push_decimal, push_right_aligned};
use crate::text::{right_aligned, texts, utf8_text};
use crate::walk::{all_decidable, kept, values, walk_filtered};

verus! {

/// The size in bytes above which the content of a file is left out.
pub const MAX_SIZE: u64 = 102_400;

/// The line that parts the sections of a snapshot.
pub open spec fn rule() -> Seq<char> {
    "======================================================"@
}

/// The line that reports a file as too large to be shown.
pub open spec fn too_large_record(path: Seq<char>, size: nat) -> Seq<char> {
    "Skipped (too large >"@ + decimal(MAX_SIZE as nat) + "B): "@ + path + " (Size: "@ + decimal(size)
        + " bytes)"@
}

/// The line that reports a file as not being text.
pub open spec fn binary_record(path: Seq<char>) -> Seq<char> {
    "Skipped (binary or invalid UTF-8): "@ + path
}

/// The block that shows the text of one file.
pub open spec fn block_text(path: Seq<char>, size: nat, text: Seq<char>) -> Seq<char> {
    rule() + "\n"@ + "File: "@ + path + "\n"@ + "Size: "@ + decimal(size) + " bytes\n"@ + rule()
        + "\n"@ + text + "\n\n"@
}

/// The lines that open the section of file contents.
pub open spec fn contents_title() -> Seq<char> {
    rule() + "\nIncluded Files (UTF-8 text, <= "@ + decimal(MAX_SIZE as nat) + " bytes):\n\n"@
}

/// Whether the content of an entry is asked for: it is a regular file, and
/// not the snapshot itself.
pub open spec fn candidate(e: Entry, output: Seq<char>) -> bool {
    e.path@ != output && e.is_file
}

/// Whether the text of an entry is shown: its content is asked for, its size
/// is known and within the limit, and its content was read and is valid
/// UTF-8.
pub open spec fn shown(e: Entry, output: Seq<char>) -> bool {
    &&& candidate(e, output)
    &&& e.size matches Some(n)
    &&& n <= MAX_SIZE
    &&& e.content matches Some(c)
    &&& valid_utf8(c@)
}

/// What the section of file contents holds for one entry: its block if its
/// text is shown, and nothing otherwise.
pub open spec fn file_block(e: Entry, output: Seq<char>) -> Seq<char> {
    if shown(e, output) {
        block_text(e.path@, e.size->0 as nat, decode_utf8(e.content->0@))
    } else {
        Seq::empty()
    }
}

/// The report on an entry whose content is asked for and not shown: that it
/// is too large, or that it is no text. An entry whose size or content could
/// not be read gets no report.
pub open spec fn skip_record(e: Entry, output: Seq<char>) -> Option<Seq<char>> {
    if !candidate(e, output) {
        None
    } else {
        match e.size {
            None => None,
            Some(n) => if n > MAX_SIZE {
                Some(too_large_record(e.path@, n as nat))
            } else {
                match e.content {
                    None => None,
                    Some(c) => if valid_utf8(c@) {
                        None
                    } else {
                        Some(binary_record(e.path@))
                    },
                }
            },
        }
    }
}

/// The blocks of the entries, in their order.
pub open spec fn blocks(entries: Seq<Entry>, output: Seq<char>) -> Seq<char>
    decreases entries.len(),
{
    if entries.len() == 0 {
        Seq::empty()
    } else {
        blocks(entries.drop_last(), output) + file_block(entries.last(), output)
    }
}

/// The reports on the entries, in their order.
pub open spec fn skip_records(entries: Seq<Entry>, output: Seq<char>) -> Seq<Seq<char>>
    decreases entries.len(),
{
    if entries.len() == 0 {
        Seq::empty()
    } else {
        match skip_record(entries.last(), output) {
            Some(record) => skip_records(entries.drop_last(), output).push(record),
            None => skip_records(entries.drop_last(), output),
        }
    }
}

fn push_rule(out: &mut String)
    ensures
        final(out)@ == old(out)@ + rule(),
{
    out.append("======================================================");
}

fn too_large_line(path: &str, size: u64) -> (r: String)
    ensures
        r@ == too_large_record(path@, size as nat),
{
    let mut line = String::new();
    line.append("Skipped (too large >");
    push_decimal(&mut line, MAX_SIZE);
    line.append("B): ");
    line.append(path);
    line.append(" (Size: ");
    push_decimal(&mut line, size);
    line.append(" bytes)");
    assert(line@ =~= too_large_record(path@, size as nat));
    line
}

fn binary_line(path: &str) -> (r: String)
    ensures
        r@ == binary_record(path@),
{
    let mut line = String::new();
    line.append("Skipped (binary or invalid UTF-8): ");
    line.append(path);
    assert(line@ =~= binary_record(path@));
    line
}

fn push_block(out: &mut String, path: &str, size: u64, text: &str)
    ensures
        final(out)@ == old(out)@ + block_text(path@, size as nat, text@),
{
    push_rule(out);
    out.append("\n");
    out.append("File: ");
    out.append(path);
    out.append("\n");
    out.append("Size: ");
    push_decimal(out, size);
    out.append(" bytes\n");
    push_rule(out);
    out.append("\n");
    out.append(text);
    out.append("\n\n");
    assert(out@ =~= old(out)@ + block_text(path@, size as nat, text@));
}

/// Whether the content of `entry` is asked for.
pub fn is_candidate(entry: &Entry, output_path: &str) -> (r: bool)
    ensures
        r == candidate(*entry, output_path@),
{
    !entry.path.as_str().eq(output_path) && entry.is_file
}

/// Whether a file of `size` bytes is small enough to be shown.
pub fn within_limit(size: u64) -> (r: bool)
    ensures
        r == (size <= MAX_SIZE),
{
    size <= MAX_SIZE
}

/// Writes the block of one entry to `writer`, or reports in `skipped` why
/// its content is not shown, or does neither.
pub fn process_file(writer: &mut String, skipped: &mut Vec<String>, entry: &Entry, output_path: &str)
    ensures
        final(writer)@ == old(writer)@ + file_block(*entry, output_path@),
        texts(final(skipped)@) == match skip_record(*entry, output_path@) {
            Some(record) => texts(old(skipped)@).push(record),
            None => texts(old(skipped)@),
        },
{
    assert(writer@ + Seq::<char>::empty() =~= writer@);
    if !is_candidate(entry, output_path) {
        return;
    }
    let size = match entry.size {
        Some(size) => size,
        None => {
            return;
        },
    };
    let path = entry.path.as_str();
    if !within_limit(size) {
        skipped.push(too_large_line(path, size));
        assert(texts(skipped@) =~= texts(old(skipped)@).push(too_large_record(path@, size as nat)));
        return;
    }
    let content = match &entry.content {
        Some(content) => content,
        None => {
            return;
        },
    };
    match utf8_text(content.as_slice()) {
        Some(text) => {
            push_block(writer, path, size, text);
        },
        None => {
            skipped.push(binary_line(path));
            assert(texts(skipped@) =~= texts(old(skipped)@).push(binary_record(path@)));
        },
    }
}

/// Writes the section of file contents to `writer`: its title, then the
/// block of every entry that the snapshot keeps and whose text is shown, in
/// the order of the traversal. Every kept entry whose content is asked for
/// and is too large or no text is reported at the end of `skipped`.
pub fn process_files(
    writer: &mut String,
    skipped: &mut Vec<String>,
    entries: &Vec<Entry>,
    root: &str,
    output_path: &str,
    gitignore: &Matcher,
)
    requires
        all_decidable(entries@, root@, *gitignore),
    ensures
        final(writer)@ == old(writer)@ + contents_title() + blocks(
            kept(entries@, root@, *gitignore),
            output_path@,
        ),
        texts(final(skipped)@) == texts(old(skipped)@) + skip_records(
            kept(entries@, root@, *gitignore),
            output_path@,
        ),
{
    push_rule(writer);
    writer.append("\nIncluded Files (UTF-8 text, <= ");
    push_decimal(writer, MAX_SIZE);
    writer.append(" bytes):\n\n");
    assert(writer@ =~= old(writer)@ + contents_title());
    let files = walk_filtered(entries, root, gitignore);
    let ghost all = values(files@);
    let mut i: usize = 0;
    assert(all.take(0) =~= Seq::<Entry>::empty());
    assert(writer@ + Seq::<char>::empty() =~= writer@);
    assert(texts(skipped@) + Seq::<Seq<char>>::empty() =~= texts(skipped@));
    while i < files.len()
        invariant
            i <= files.len(),
            all == values(files@),
            writer@ == old(writer)@ + contents_title() + blocks(all.take(i as int), output_path@),
            texts(skipped@) == texts(old(skipped)@) + skip_records(
                all.take(i as int),
                output_path@,
            ),
        decreases files.len() - i,
    {
        let ghost text_before = writer@;
        let ghost skipped_before = texts(skipped@);
        process_file(writer, skipped, files[i], output_path);
        proof {
            let upto = all.take(i + 1);
            assert(upto.drop_last() =~= all.take(i as int));
            assert(upto.last() == *files@[i as int]);
            assert(writer@ =~= old(writer)@ + contents_title() + blocks(upto, output_path@));
            assert(texts(skipped@) =~= texts(old(skipped)@) + skip_records(upto, output_path@));
        }
        i += 1;
    }
    assert(all.take(files@.len() as int) =~= all);
}

/// The lines that open a snapshot: its title with the time of its making,
/// and a rule.
pub open spec fn header_text(timestamp: Seq<char>) -> Seq<char> {
    "Directory and File Snapshot - "@ + timestamp + "\n"@ + rule() + "\n\n"@
}

/// The section that names the directory of the snapshot.
pub open spec fn working_directory_text(path: Seq<char>) -> Seq<char> {
    "Working Directory Full Path:\n"@ + path + "\n\n"@
}

/// The extension under which an entry is counted: that of a regular file,
/// if it is not empty, in lowercase.
pub open spec fn counted_extension(e: Entry) -> Option<Seq<char>> {
    if !e.is_file {
        None
    } else {
        match extension(e.path@) {
            None => None,
            Some(ext) => if ext.len() > 0 {
                Some(lowercase_of(ext))
            } else {
                None
            },
        }
    }
}

/// The extensions under which the entries are counted, in the order of the
/// entries.
pub open spec fn extensions(entries: Seq<Entry>) -> Seq<Seq<char>>
    decreases entries.len(),
{
    if entries.len() == 0 {
        Seq::empty()
    } else {
        match counted_extension(entries.last()) {
            Some(ext) => extensions(entries.drop_last()).push(ext),
            None => extensions(entries.drop_last()),
        }
    }
}

/// The extension histogram of the entries, in the order in which it is
/// shown.
pub open spec fn histogram(entries: Seq<Entry>) -> Seq<Count> {
    by_count(tally(extensions(entries)))
}

/// The line that shows one count: the count at the right edge of a field of
/// five characters, a blank, and the extension.
pub open spec fn summary_line(c: Count) -> Seq<char> {
    right_aligned(decimal(c.count), 5) + " "@ + c.ext + "\n"@
}

/// The lines that show a histogram.
pub open spec fn summary_lines(h: Seq<Count>) -> Seq<char>
    decreases h.len(),
{
    if h.len() == 0 {
        Seq::empty()
    } else {
        summary_lines(h.drop_last()) + summary_line(h.last())
    }
}

/// The section that shows how often each file type occurs among the
/// entries.
pub open spec fn file_type_summary_text(entries: Seq<Entry>) -> Seq<char> {
    "Summary of File Types (by extension):\n"@ + summary_lines(histogram(entries)) + "\n"@
}

/// The line that lists one entry: its path relative to `root`. An entry
/// that does not lie under `root` is not listed.
pub open spec fn tree_line(path: Seq<char>, root: Seq<char>) -> Seq<char> {
    if under(path, root) {
        relative(path, root) + "\n"@
    } else {
        Seq::empty()
    }
}

/// The lines that list the entries, in their order.
pub open spec fn tree_lines(entries: Seq<Entry>, root: Seq<char>) -> Seq<char>
    decreases entries.len(),
{
    if entries.len() == 0 {
        Seq::empty()
    } else {
        tree_lines(entries.drop_last(), root) + tree_line(entries.last().path@, root)
    }
}

/// The section that lists the entries.
pub open spec fn directory_tree_text(entries: Seq<Entry>, root: Seq<char>) -> Seq<char> {
    "Directory Structure Diagram (excluding entries in .gitignore):\n"@ + tree_lines(entries, root)
        + "\n"@
}

/// The section that reports what was left out. Where nothing was, the
/// section is empty.
pub open spec fn skipped_summary_text(skipped: Seq<Seq<char>>) -> Seq<char> {
    if skipped.len() == 0 {
        Seq::empty()
    } else {
        rule() + "\n"@ + "Skipped Files:\n\n"@ + lines_text(skipped)
    }
}

/// All of a snapshot but its header.
pub open spec fn body_text(
    entries: Seq<Entry>,
    root: Seq<char>,
    output: Seq<char>,
    m: Matcher,
) -> Seq<char> {
    file_type_summary_text(kept(entries, root, m)) + working_directory_text(root)
        + directory_tree_text(kept(entries, root, m), root) + contents_title() + blocks(
        kept(entries, root, m),
        output,
    ) + skipped_summary_text(skip_records(kept(entries, root, m), output))
}

/// The snapshot of the traversal `entries` of `root`, made at the time that
/// `timestamp` names.
pub open spec fn snapshot_text(
    timestamp: Seq<char>,
    entries: Seq<Entry>,
    root: Seq<char>,
    output: Seq<char>,
    m: Matcher,
) -> Seq<char> {
    header_text(timestamp) + body_text(entries, root, output, m)
}

/// `chrono::Local::now`, written as the `Display` of its result does: the
/// time of the call by the clock and in the time zone of the machine.
/// Nothing is claimed of the text.
#[verifier::external_body]
fn local_time() -> (r: String) {
    format!("{}", chrono::Local::now())
}

/// Writes the header of a snapshot made at the time that `timestamp`
/// names.
pub fn write_header(writer: &mut String, timestamp: &str)
    ensures
        final(writer)@ == old(writer)@ + header_text(timestamp@),
{
    writer.append("Directory and File Snapshot - ");
    writer.append(timestamp);
    writer.append("\n");
    push_rule(writer);
    writer.append("\n\n");
    assert(writer@ =~= old(writer)@ + header_text(timestamp@));
}

/// Writes the header of a snapshot made now.
pub fn print_header(writer: &mut String)
    ensures
        exists|timestamp: Seq<char>| final(writer)@ == old(writer)@ + header_text(timestamp),
{
    let now = local_time();
    write_header(writer, now.as_str());
}

/// The extension under which `entry` is counted, if it is counted.
pub fn counted_extension_of(entry: &Entry) -> (r: Option<String>)
    ensures
        r is Some <==> counted_extension(*entry) is Some,
        r matches Some(ext) ==> counted_extension(*entry) == Some(ext@),
{
    if !entry.is_file {
        return None;
    }
    match extension_of(entry.path.as_str()) {
        None => None,
        Some(ext) => {
            if ext.is_empty() {
                None
            } else {
                Some(lowercase(ext))
            }
        },
    }
}

/// Writes the section of file types to `writer`: its title, then for each
/// extension that occurs among the regular files that the snapshot keeps a
/// line with the number of those files, the highest count first, and an
/// empty line.
pub fn print_file_type_summary(
    writer: &mut String,
    entries: &Vec<Entry>,
    root: &str,
    gitignore: &Matcher,
)
    requires
        all_decidable(entries@, root@, *gitignore),
    ensures
        final(writer)@ == old(writer)@ + file_type_summary_text(kept(entries@, root@, *gitignore)),
{
    let files = walk_filtered(entries, root, gitignore);
    let ghost all = values(files@);
    let mut tallied: Vec<ExtCount> = Vec::new();
    let mut i: usize = 0;
    assert(all.take(0) =~= Seq::<Entry>::empty());
    assert(counts(tallied@) =~= Seq::<Count>::empty());
    while i < files.len()
        invariant
            i <= files.len(),
            all == values(files@),
            extensions(all.take(i as int)).len() <= i,
            counts(tallied@) == tally(extensions(all.take(i as int))),
        decreases files.len() - i,
    {
        proof {
            let upto = all.take(i + 1);
            assert(upto.drop_last() =~= all.take(i as int));
            assert(upto.last() == *files@[i as int]);
            lemma_tally_total(extensions(all.take(i as int)));
        }
        match counted_extension_of(files[i]) {
            Some(ext) => {
                assert(extensions(all.take(i as int)).push(ext@).drop_last() =~= extensions(
                    all.take(i as int),
                ));
                count_extension(&mut tallied, ext);
            },
            None => {},
        }
        i += 1;
    }
    assert(all.take(files@.len() as int) =~= all);
    let sorted = sort_by_count(&tallied);
    let ghost shown = counts(sorted@);
    writer.append("Summary of File Types (by extension):\n");
    let ghost start = writer@;
    let mut k: usize = 0;
    assert(shown.take(0) =~= Seq::<Count>::empty());
    assert(writer@ + Seq::<char>::empty() =~= writer@);
    while k < sorted.len()
        invariant
            k <= sorted.len(),
            shown == counts(sorted@),
            writer@ == start + summary_lines(shown.take(k as int)),
        decreases sorted.len() - k,
    {
        let ghost before = writer@;
        let mut number = String::new();
        push_decimal(&mut number, sorted[k].count as u64);
        push_right_aligned(writer, number.as_str(), 5);
        writer.append(" ");
        writer.append(sorted[k].ext.as_str());
        writer.append("\n");
        proof {
            let upto = shown.take(k + 1);
            assert(upto.drop_last() =~= shown.take(k as int));
            assert(upto.last() == sorted@[k as int]@);
            assert(number@ =~= decimal(sorted[k as int].count as nat));
            assert(writer@ =~= before + summary_line(upto.last()));
            assert(writer@ =~= start + summary_lines(upto));
        }
        k += 1;
    }
    assert(shown.take(sorted@.len() as int) =~= shown);
    writer.append("\n");
    assert(writer@ =~= old(writer)@ + file_type_summary_text(all));
}

/// Writes the section that names the directory of the snapshot.
pub fn print_working_directory(writer: &mut String, path: &str)
    ensures
        final(writer)@ == old(writer)@ + working_directory_text(path@),
{
    writer.append("Working Directory Full Path:\n");
    writer.append(path);
    writer.append("\n\n");
    assert(writer@ =~= old(writer)@ + working_directory_text(path@));
}

/// Writes the section that lists the tree to `writer`: its title, then the
/// path relative to `root` of every entry that the snapshot keeps, one to a
/// line and in the order of the traversal, and an empty line.
pub fn print_directory_tree(
    writer: &mut String,
    entries: &Vec<Entry>,
    root: &str,
    gitignore: &Matcher,
)
    requires
        all_decidable(entries@, root@, *gitignore),
    ensures
        final(writer)@ == old(writer)@ + directory_tree_text(
            kept(entries@, root@, *gitignore),
            root@,
        ),
{
    writer.append("Directory Structure Diagram (excluding entries in .gitignore):\n");
    let ghost start = writer@;
    let files = walk_filtered(entries, root, gitignore);
    let ghost all = values(files@);
    let mut i: usize = 0;
    assert(all.take(0) =~= Seq::<Entry>::empty());
    assert(writer@ + Seq::<char>::empty() =~= writer@);
    while i < files.len()
        invariant
            i <= files.len(),
            all == values(files@),
            writer@ == start + tree_lines(all.take(i as int), root@),
        decreases files.len() - i,
    {
        let ghost before = writer@;
        match strip_root(files[i].path.as_str(), root) {
            Some(rel) => {
                writer.append(rel);
                writer.append("\n");
            },
            None => {},
        }
        proof {
            let upto = all.take(i + 1);
            assert(upto.drop_last() =~= all.take(i as int));
            assert(upto.last() == *files@[i as int]);
            assert(writer@ =~= before + tree_line(upto.last().path@, root@));
            assert(writer@ =~= start + tree_lines(upto, root@));
        }
        i += 1;
    }
    assert(all.take(files@.len() as int) =~= all);
    writer.append("\n");
    assert(writer@ =~= old(writer)@ + directory_tree_text(all, root@));
}

/// Writes the section that reports what was left out: a rule, a title, and
/// each line of `skipped` in its order. Where `skipped` is empty, nothing
/// is written.
pub fn print_skipped_summary(writer: &mut String, skipped: &[String])
    ensures
        final(writer)@ == old(writer)@ + skipped_summary_text(texts(skipped@)),
{
    if skipped.len() == 0 {
        assert(writer@ + Seq::<char>::empty() =~= writer@);
        return;
    }
    push_rule(writer);
    writer.append("\n");
    writer.append("Skipped Files:\n\n");
    let ghost start = writer@;
    let ghost all = texts(skipped@);
    let mut i: usize = 0;
    assert(all.take(0) =~= Seq::<Seq<char>>::empty());
    assert(writer@ + Seq::<char>::empty() =~= writer@);
    while i < skipped.len()
        invariant
            i <= skipped.len(),
            all == texts(skipped@),
            writer@ == start + lines_text(all.take(i as int)),
        decreases skipped.len() - i,
    {
        let ghost before = writer@;
        writer.append(skipped[i].as_str());
        writer.append("\n");
        proof {
            let upto = all.take(i + 1);
            assert(upto.drop_last() =~= all.take(i as int));
            assert(upto.last() == skipped@[i as int]@);
            assert(writer@ =~= before + upto.last() + "\n"@);
            assert(writer@ =~= start + lines_text(upto));
        }
        i += 1;
    }
    assert(all.take(skipped@.len() as int) =~= all);
    assert(writer@ =~= old(writer)@ + skipped_summary_text(all));
}

/// Writes a snapshot of the traversal `entries` of `root` to `writer`: the
/// header, the file types, the directory, the tree, the file contents, and
/// what was left out. `output_path` is the path of the snapshot itself,
/// whose content is never shown.
pub fn write_snapshot(
    writer: &mut String,
    entries: &Vec<Entry>,
    root: &str,
    output_path: &str,
    gitignore: &Matcher,
)
    requires
        all_decidable(entries@, root@, *gitignore),
    ensures
        exists|timestamp: Seq<char>|
            final(writer)@ == old(writer)@ + snapshot_text(
                timestamp,
                entries@,
                root@,
                output_path@,
                *gitignore,
            ),
{
    let ghost files = kept(entries@, root@, *gitignore);
    let mut skipped: Vec<String> = Vec::new();
    print_header(writer);
    let ghost timestamp = choose|timestamp: Seq<char>|
        writer@ == old(writer)@ + header_text(timestamp);
    let ghost top = writer@;
    print_file_type_summary(writer, entries, root, gitignore);
    let ghost body = file_type_summary_text(files);
    print_working_directory(writer, root);
    proof {
        lemma_append_twice(top, body, working_directory_text(root@));
    }
    let ghost body = body + working_directory_text(root@);
    print_directory_tree(writer, entries, root, gitignore);
    proof {
        lemma_append_twice(top, body, directory_tree_text(files, root@));
    }
    let ghost body = body + directory_tree_text(files, root@);
    process_files(writer, &mut skipped, entries, root, output_path, gitignore);
    proof {
        lemma_append_twice(top, body, contents_title());
        lemma_append_twice(top, body + contents_title(), blocks(files, output_path@));
        assert(texts(skipped@) =~= skip_records(files, output_path@));
    }
    let ghost body = body + contents_title() + blocks(files, output_path@);
    print_skipped_summary(writer, skipped.as_slice());
    proof {
        let last = skipped_summary_text(skip_records(files, output_path@));
        lemma_append_twice(top, body, last);
        lemma_append_twice(old(writer)@, header_text(timestamp), body + last);
        assert(body + last == body_text(entries@, root@, output_path@, *gitignore));
        assert(writer@ == old(writer)@ + snapshot_text(
            timestamp,
            entries@,
            root@,
            output_path@,
            *gitignore,
        ));
    }
}

proof fn lemma_append_twice(a: Seq<char>, b: Seq<char>, c: Seq<char>)
    ensures
        (a + b) + c == a + (b + c),
{
    assert((a + b) + c =~= a + (b + c));
}

} // verus!
