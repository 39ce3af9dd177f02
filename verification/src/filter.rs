//! The ignore matcher: the rules of a directory's rule file, compiled once,
//! and the test that decides whether an entry is left out of a snapshot.

use vstd::prelude::*;
use vstd::slice::*;
use vstd::string::*;
use vstd::utf8::*;
use ignore::gitignore::Gitignore;
use ignore::gitignore::GitignoreBuilder;
use crate::entry::Entry;
use crate::path::{after_slashes, contains_component, has_component, lemma_after_slashes_bounds};
use crate::path::{relative, strip_root, under};
use crate::text::{chars_of, utf8_text};

verus! {

#[verifier::external_type_specification]
#[verifier::external_body]
pub struct ExGitignore(ignore::gitignore::Gitignore);

#[verifier::external_type_specification]
#[verifier::external_body]
pub struct ExGitignoreBuilder(ignore::gitignore::GitignoreBuilder);

#[verifier::external_type_specification]
#[verifier::external_body]
pub struct ExError(ignore::Error);

/// The directory that a builder holds: the one it was made for, as the
/// builder keeps it.
pub uninterp spec fn builder_root(b: GitignoreBuilder) -> Seq<char>;

/// The rules that a builder holds, each as the text it was taken from, in
/// the order in which they were taken.
pub uninterp spec fn builder_lines(b: GitignoreBuilder) -> Seq<Seq<char>>;

/// The directory that a matcher holds.
pub uninterp spec fn matcher_root(m: Gitignore) -> Seq<char>;

/// The rules that a matcher holds, each as the text it was taken from, in
/// their order.
pub uninterp spec fn matcher_lines(m: Gitignore) -> Seq<Seq<char>>;

/// The rule that a builder takes from one line of a rule file, as the text
/// that it keeps of the line, or `None` where it takes none: the line is a
/// comment, or blank, or no pattern that the builder can read.
pub uninterp spec fn rule_kept(line: Seq<char>) -> Option<Seq<char>>;

/// Whether these rules compile into a matcher.
pub uninterp spec fn rules_compile(rules: Seq<Seq<char>>) -> bool;

/// Whether a matcher that holds the directory `root` and the rules `rules`
/// finds `path` ignored: the last rule that matches `path` or one of its
/// parent directories is not a negated one. `is_dir` says whether `path`
/// names a directory.
pub uninterp spec fn rules_ignore(
    root: Seq<char>,
    rules: Seq<Seq<char>>,
    path: Seq<char>,
    is_dir: bool,
) -> bool;

/// The rules that a builder takes from the lines of a rule file, in their
/// order.
pub open spec fn rules_kept(lines: Seq<Seq<char>>) -> Seq<Seq<char>>
    decreases lines.len(),
{
    if lines.len() == 0 {
        Seq::empty()
    } else {
        match rule_kept(lines.last()) {
            Some(rule) => rules_kept(lines.drop_last()).push(rule),
            None => rules_kept(lines.drop_last()),
        }
    }
}

/// The directory as a builder keeps it: without `./` at its start.
pub open spec fn stored_root(root: Seq<char>) -> Seq<char> {
    if root.len() >= 2 && root[0] == '.' && root[1] == '/' {
        root.skip(2)
    } else {
        root
    }
}

/// The rules of a directory, compiled into a matcher.
pub struct Matcher {
    inner: Gitignore,
}

impl Matcher {
    /// The directory that the matcher holds.
    pub closed spec fn root(&self) -> Seq<char> {
        matcher_root(self.inner)
    }

    /// The rules that the matcher holds, each as the text it was taken
    /// from, in their order.
    pub closed spec fn rules(&self) -> Seq<Seq<char>> {
        matcher_lines(self.inner)
    }

    /// Whether the matcher holds no rule.
    pub fn is_empty(&self) -> (r: bool)
        ensures
            r == (self.rules().len() == 0),
    {
        has_no_rule(&self.inner)
    }
}

/// The name of the directory in which version control keeps its own files.
pub open spec fn vcs_dir() -> Seq<char> {
    ".git"@
}

/// A path that a matcher can take: it does not start with a separator, and
/// no two separators follow each other in it.
pub open spec fn matchable(p: Seq<char>) -> bool {
    &&& p.len() > 0 ==> p[0] != '/'
    &&& forall|i: int| 0 <= i < p.len() - 1 && #[trigger] p[i] == '/' ==> p[i + 1] != '/'
}

/// The form in which a path is matched: relative to `root` where it lies
/// under `root`, and unchanged where it does not.
pub open spec fn relative_form(path: Seq<char>, root: Seq<char>) -> Seq<char> {
    if under(path, root) {
        relative(path, root)
    } else {
        path
    }
}

/// Whether an entry can be put to a matcher: its relative form holds the
/// version-control directory, which settles the matter without the matcher,
/// or the matcher holds no rule, or the relative form is a path that a
/// matcher with rules can take.
pub open spec fn decidable(path: Seq<char>, root: Seq<char>, m: Matcher) -> bool {
    ||| has_component(relative_form(path, root), vcs_dir())
    ||| m.rules().len() == 0
    ||| matchable(relative_form(path, root))
}

/// Whether the entry at `path` is left out of a snapshot of `root`: a
/// component of its relative form is the version-control directory, or the
/// matcher finds the relative form ignored.
pub open spec fn excluded(path: Seq<char>, is_dir: bool, root: Seq<char>, m: Matcher) -> bool {
    has_component(relative_form(path, root), vcs_dir()) || rules_ignore(
        m.root(),
        m.rules(),
        relative_form(path, root),
        is_dir,
    )
}

/// The number of bytes of `b` before its first newline (all of them if it
/// has none).
pub open spec fn first_newline(b: Seq<u8>) -> nat
    decreases b.len(),
{
    if b.len() == 0 || b[0] == 10 {
        0
    } else {
        1 + first_newline(b.drop_first())
    }
}

/// A line without the carriage return at its end, if it has one.
pub open spec fn without_return(line: Seq<u8>) -> Seq<u8> {
    if line.len() > 0 && line.last() == 13 {
        line.drop_last()
    } else {
        line
    }
}

/// A line without the byte-order marks at its start.
pub open spec fn without_mark(line: Seq<char>) -> Seq<char>
    decreases line.len(),
{
    if line.len() > 0 && line[0] == '\u{feff}' {
        without_mark(line.drop_first())
    } else {
        line
    }
}

/// The lines of the rule file `b`, up to the first one that is not valid
/// UTF-8. A line ends at a newline, or at the end of the file; the newline
/// and a carriage return before it are not part of the line. `first` says
/// that `b` starts with the first line of the file, which loses its
/// byte-order marks.
pub open spec fn rules_in(b: Seq<u8>, first: bool) -> Seq<Seq<char>>
    decreases b.len(),
{
    if b.len() == 0 {
        Seq::empty()
    } else {
        let k = first_newline(b);
        let line = if k < b.len() {
            without_return(b.take(k as int))
        } else {
            b
        };
        let text = if first {
            without_mark(decode_utf8(line))
        } else {
            decode_utf8(line)
        };
        if !valid_utf8(line) {
            Seq::empty()
        } else if k < b.len() {
            seq![text] + rules_in(b.skip(k as int + 1), false)
        } else {
            seq![text]
        }
    }
}

/// The rule lines that a rule file holds.
pub open spec fn rule_lines(file: Seq<u8>) -> Seq<Seq<char>> {
    rules_in(file, true)
}

/// Why no matcher could be built.
#[derive(Debug)]
pub struct BuildError {
    /// What the rule compiler said.
    pub message: String,
}

/// `GitignoreBuilder::new`: a builder for the rules of the directory `root`
/// that holds no rule yet. It keeps `root` without a leading `./`.
#[verifier::external_body]
fn new_builder(root: &str) -> (b: GitignoreBuilder)
    ensures
        builder_root(b) == stored_root(root@),
        builder_lines(b) == Seq::<Seq<char>>::empty(),
{
    GitignoreBuilder::new(root)
}

/// `GitignoreBuilder::add_line`: offers one line of a rule file to the
/// builder. The builder takes a rule from it and puts it behind those that
/// it holds, or takes nothing and stays as it is, where the line is blank, a
/// comment or no pattern that it can read. Which of these happens depends on
/// the line alone; it is not handed on.
#[verifier::external_body]
fn offer_line(b: &mut GitignoreBuilder, line: &str)
    ensures
        builder_root(*final(b)) == builder_root(*old(b)),
        builder_lines(*final(b)) == match rule_kept(line@) {
            Some(rule) => builder_lines(*old(b)).push(rule),
            None => builder_lines(*old(b)),
        },
{
    let _ = b.add_line(None, line);
}

/// `GitignoreBuilder::build`: compiles the rules that the builder holds
/// into a matcher with the builder's directory and rules, or fails. Whether
/// it fails depends on the rules and on nothing else; without a rule it
/// does not fail.
#[verifier::external_body]
fn compile(b: &GitignoreBuilder) -> (r: Result<Gitignore, ignore::Error>)
    ensures
        r is Ok <==> rules_compile(builder_lines(*b)),
        builder_lines(*b).len() == 0 ==> r is Ok,
        r matches Ok(m) ==> matcher_root(m) == builder_root(*b) && matcher_lines(m)
            == builder_lines(*b),
{
    b.build()
}

/// The message of an `ignore::Error`, as its `Display` writes it. Nothing is
/// claimed of the text.
#[verifier::external_body]
fn error_message(e: &ignore::Error) -> (r: String) {
    e.to_string()
}

/// `Gitignore::matched_path_or_any_parents`, then `Match::is_ignore`: whether
/// the last rule of the matcher that matches `path` or one of its parent
/// directories says that it is ignored.
///
/// A matcher without a rule finds nothing ignored, whatever the path. One
/// with rules first takes a leading `./` and the text of its own root off
/// the path, with one separator after the root, and panics if what is left
/// starts with a separator. A path that starts with none and holds no two in
/// a row cannot be left so, whatever is taken off its front.
#[verifier::external_body]
fn verdict(m: &Gitignore, path: &str, is_dir: bool) -> (r: bool)
    requires
        matcher_lines(*m).len() == 0 || matchable(path@),
    ensures
        r == rules_ignore(matcher_root(*m), matcher_lines(*m), path@, is_dir),
        matcher_lines(*m).len() == 0 ==> !r,
{
    m.matched_path_or_any_parents(path, is_dir).is_ignore()
}

/// `Gitignore::is_empty`: whether the matcher holds no rule.
#[verifier::external_body]
fn has_no_rule(m: &Gitignore) -> (r: bool)
    ensures
        r == (matcher_lines(*m).len() == 0),
{
    m.is_empty()
}

proof fn lemma_first_newline(b: Seq<u8>)
    ensures
        first_newline(b) <= b.len(),
        first_newline(b) < b.len() ==> b[first_newline(b) as int] == 10,
        forall|j: int| 0 <= j < first_newline(b) ==> b[j] != 10,
    decreases b.len(),
{
    if b.len() > 0 && b[0] != 10 {
        let rest = b.drop_first();
        lemma_first_newline(rest);
        assert forall|j: int| 0 <= j < first_newline(b) implies b[j] != 10 by {
            if j > 0 {
                assert(rest[j - 1] == b[j]);
            }
        }
    }
}

/// The first newline is where a byte is a newline and none before it is.
proof fn lemma_first_newline_is(b: Seq<u8>, k: int)
    requires
        0 <= k <= b.len(),
        k < b.len() ==> b[k] == 10,
        forall|j: int| 0 <= j < k ==> b[j] != 10,
    ensures
        first_newline(b) == k,
{
    lemma_first_newline(b);
}

fn strip_mark<'a>(line: &'a str) -> (r: &'a str)
    ensures
        r@ == without_mark(line@),
{
    let c = chars_of(line);
    let mut k: usize = 0;
    assert(line@.skip(0) =~= line@);
    while k < c.len() && c[k] == '\u{feff}'
        invariant
            k <= c.len(),
            c@ == line@,
            without_mark(line@) == without_mark(line@.skip(k as int)),
        decreases c.len() - k,
    {
        assert(line@.skip(k as int).drop_first() =~= line@.skip(k + 1));
        k += 1;
    }
    line.substring_char(k, c.len())
}

/// Compiles the rule file of the directory `root` into a matcher. `rules`
/// holds the bytes of the file, and is empty where the directory has none.
///
/// A line that the rule compiler cannot read is passed over. The build fails
/// only if the rules as a whole do not compile.
pub fn build_gitignore(root: &str, rules: &[u8]) -> (r: Result<Matcher, BuildError>)
    ensures
        r is Ok <==> rules_compile(rules_kept(rule_lines(rules@))),
        rules_kept(rule_lines(rules@)).len() == 0 ==> r is Ok,
        r matches Ok(m) ==> m.root() == stored_root(root@) && m.rules() == rules_kept(
            rule_lines(rules@),
        ),
{
    let mut builder = new_builder(root);
    let n = rules.len();
    let mut pos: usize = 0;
    let mut first = true;
    let ghost mut seen: Seq<Seq<char>> = Seq::empty();
    assert(rules@.skip(0) =~= rules@);
    assert(seen + rule_lines(rules@) =~= rule_lines(rules@));
    while pos < n
        invariant
            n == rules@.len(),
            pos <= n,
            first ==> pos == 0,
            builder_root(builder) == stored_root(root@),
            builder_lines(builder) == rules_kept(seen),
            rule_lines(rules@) == seen + rules_in(rules@.skip(pos as int), first),
        decreases n - pos,
    {
        let ghost rest = rules@.skip(pos as int);
        let ghost offered = seen;
        let mut end: usize = pos;
        while end < n && rules[end] != 10
            invariant
                n == rules@.len(),
                pos <= end <= n,
                forall|j: int| pos <= j < end ==> rules@[j] != 10,
            decreases n - end,
        {
            end += 1;
        }
        proof {
            assert forall|j: int| 0 <= j < end - pos implies rest[j] != 10 by {
                assert(rest[j] == rules@[pos + j]);
            }
            lemma_first_newline_is(rest, end - pos);
        }
        let stop = if end < n && end > pos && rules[end - 1] == 13 {
            end - 1
        } else {
            end
        };
        let line = slice_subrange(rules, pos, stop);
        proof {
            if end < n {
                assert(rest.take(end - pos) =~= rules@.subrange(pos as int, end as int));
                assert(line@ =~= without_return(rest.take(end - pos)));
                assert(rest.skip(end - pos + 1) =~= rules@.skip(end + 1));
            } else {
                assert(line@ =~= rest);
            }
        }
        match utf8_text(line) {
            None => {
                pos = n;
            },
            Some(text) => {
                let text = if first {
                    strip_mark(text)
                } else {
                    text
                };
                offer_line(&mut builder, text);
                proof {
                    seen = offered.push(text@);
                    assert(seen.drop_last() =~= offered);
                }
                if end < n {
                    pos = end + 1;
                } else {
                    pos = n;
                }
                assert(offered + (seq![text@] + rules_in(rules@.skip(pos as int), false))
                    =~= offered.push(text@) + rules_in(rules@.skip(pos as int), false));
            },
        }
        first = false;
    }
    assert(seen + Seq::<Seq<char>>::empty() =~= seen);
    match compile(&builder) {
        Ok(m) => Ok(Matcher { inner: m }),
        Err(e) => Err(BuildError { message: error_message(&e) }),
    }
}

/// An entry in the version-control directory of `root`, or anywhere below
/// it, is left out, whatever the rules say.
pub proof fn lemma_vcs_is_excluded(path: Seq<char>, is_dir: bool, root: Seq<char>, m: Matcher)
    requires
        under(path, root),
        has_component(relative(path, root), vcs_dir()),
    ensures
        decidable(path, root, m),
        excluded(path, is_dir, root, m),
{
}

/// An entry outside the version-control directory is left out only if the
/// matcher finds it ignored: one that the rules keep, be it by a negated
/// pattern after a pattern that leaves it out, is kept.
pub proof fn lemma_kept_unless_ignored(path: Seq<char>, is_dir: bool, root: Seq<char>, m: Matcher)
    requires
        !has_component(relative_form(path, root), vcs_dir()),
        !rules_ignore(m.root(), m.rules(), relative_form(path, root), is_dir),
    ensures
        !excluded(path, is_dir, root, m),
{
}

/// A path under `root` in which no two separators follow each other can be
/// put to a matcher.
pub proof fn lemma_clean_path_is_decidable(path: Seq<char>, root: Seq<char>, m: Matcher)
    requires
        under(path, root),
        forall|i: int| 0 <= i < path.len() - 1 && #[trigger] path[i] == '/' ==> path[i + 1] != '/',
    ensures
        matchable(relative(path, root)),
        decidable(path, root, m),
{
    lemma_after_slashes_bounds(path, root.len() as int);
    let k = after_slashes(path, root.len() as int);
    let rel = relative(path, root);
    assert forall|i: int| 0 <= i < rel.len() - 1 && #[trigger] rel[i] == '/' implies rel[i + 1]
        != '/' by {
        assert(rel[i] == path[k + i]);
        assert(rel[i + 1] == path[k + i + 1]);
    }
}

/// Whether `path` is one that a matcher can take.
pub fn is_matchable(path: &str) -> (r: bool)
    ensures
        r == matchable(path@),
{
    let p = chars_of(path);
    if p.len() == 0 {
        return true;
    }
    if p[0] == '/' {
        return false;
    }
    let mut i: usize = 1;
    while i < p.len()
        invariant
            1 <= i <= p.len(),
            p@ == path@,
            forall|j: int| 0 <= j < i - 1 && #[trigger] p@[j] == '/' ==> p@[j + 1] != '/',
        decreases p.len() - i,
    {
        if p[i - 1] == '/' && p[i] == '/' {
            return false;
        }
        i += 1;
    }
    true
}

/// Whether `entry` can be put to a matcher in a snapshot of `root`.
pub fn can_decide(entry: &Entry, root: &str, gitignore: &Matcher) -> (r: bool)
    ensures
        r == decidable(entry.path@, root@, *gitignore),
{
    let path = entry.path.as_str();
    let rel = match strip_root(path, root) {
        Some(rel) => rel,
        None => path,
    };
    proof {
        reveal_strlit(".git");
    }
    contains_component(rel, ".git") || gitignore.is_empty() || is_matchable(rel)
}

/// Whether `entry` is left out of a snapshot of `root`.
///
/// The entry's path is taken relative to `root`, or as it is where it does
/// not lie under `root`. An entry is left out if a component of that path is
/// the version-control directory, whatever the rules say; otherwise if the
/// matcher finds that path ignored.
pub fn is_excluded(entry: &Entry, root: &str, gitignore: &Matcher) -> (r: bool)
    requires
        decidable(entry.path@, root@, *gitignore),
    ensures
        r == excluded(entry.path@, entry.is_dir, root@, *gitignore),
{
    let path = entry.path.as_str();
    let rel = match strip_root(path, root) {
        Some(rel) => rel,
        None => path,
    };
    if contains_component(rel, ".git") {
        return true;
    }
    verdict(&gitignore.inner, rel, entry.is_dir)
}

} // verus!
