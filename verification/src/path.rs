//! Paths as the snapshot reads them: texts whose components are separated
//! by `/`.

use vstd::prelude::*;
use vstd::string::*;
use crate::text::chars_of;

verus! {

/// The first index at or after `k` that holds no separator (the length of
/// `p` if there is none).
pub open spec fn after_slashes(p: Seq<char>, k: int) -> int
    decreases p.len() - k,
{
    if 0 <= k < p.len() && p[k] == '/' {
        after_slashes(p, k + 1)
    } else {
        k
    }
}

/// `path` is `root` or lies below it: it starts with the text of `root`,
/// and that text ends where a component of `path` ends.
pub open spec fn under(path: Seq<char>, root: Seq<char>) -> bool {
    &&& root.len() <= path.len()
    &&& path.subrange(0, root.len() as int) == root
    &&& (root.len() == 0 || root.len() == path.len() || root.last() == '/'
        || path[root.len() as int] == '/')
}

/// What is left of a path under `root` once `root` and the separators that
/// follow it are taken away. It is empty for `root` itself.
pub open spec fn relative(path: Seq<char>, root: Seq<char>) -> Seq<char>
    recommends
        under(path, root),
{
    path.skip(after_slashes(path, root.len() as int))
}

/// A component of `p` starts at index `i` and reads `name`.
pub open spec fn component_at(p: Seq<char>, name: Seq<char>, i: int) -> bool {
    &&& 0 <= i
    &&& i + name.len() <= p.len()
    &&& (i == 0 || p[i - 1] == '/')
    &&& p.subrange(i, i + name.len()) == name
    &&& (i + name.len() == p.len() || p[i + name.len()] == '/')
}

/// Some component of `p` reads `name`. Meant for a `name` that is not empty
/// and holds no separator.
pub open spec fn has_component(p: Seq<char>, name: Seq<char>) -> bool {
    exists|i: int| component_at(p, name, i)
}

/// The index of the last `c` in `s`, or -1 if `s` holds none.
pub open spec fn last_index_of(s: Seq<char>, c: char) -> int
    decreases s.len(),
{
    if s.len() == 0 {
        -1
    } else if s.last() == c {
        s.len() - 1
    } else {
        last_index_of(s.drop_last(), c)
    }
}

/// The last component of a path: what follows its last separator.
pub open spec fn file_name(path: Seq<char>) -> Seq<char> {
    path.skip(last_index_of(path, '/') + 1)
}

/// The extension of a path: what follows the last dot of its file name.
/// A name without a dot has none, nor has one whose only dot comes first,
/// nor has the parent directory `..`.
pub open spec fn extension(path: Seq<char>) -> Option<Seq<char>> {
    let name = file_name(path);
    let dot = last_index_of(name, '.');
    if dot <= 0 || name == seq!['.', '.'] {
        None
    } else {
        Some(name.skip(dot + 1))
    }
}

pub proof fn lemma_after_slashes_bounds(p: Seq<char>, k: int)
    requires
        0 <= k <= p.len(),
    ensures
        k <= after_slashes(p, k) <= p.len(),
        after_slashes(p, k) < p.len() ==> p[after_slashes(p, k)] != '/',
    decreases p.len() - k,
{
    if k < p.len() && p[k] == '/' {
        lemma_after_slashes_bounds(p, k + 1);
    }
}

pub proof fn lemma_last_index_of(s: Seq<char>, c: char)
    ensures
        -1 <= last_index_of(s, c) < s.len(),
        last_index_of(s, c) >= 0 ==> s[last_index_of(s, c)] == c,
        forall|j: int| last_index_of(s, c) < j < s.len() ==> s[j] != c,
    decreases s.len(),
{
    if s.len() > 0 && s.last() != c {
        lemma_last_index_of(s.drop_last(), c);
        assert forall|j: int| last_index_of(s, c) < j < s.len() implies s[j] != c by {
            if j < s.len() - 1 {
                assert(s.drop_last()[j] == s[j]);
            }
        }
    }
}

/// The last index of `c` is the one index that holds `c` with no `c` after
/// it.
pub proof fn lemma_last_index_of_is(s: Seq<char>, c: char, k: int)
    requires
        -1 <= k < s.len(),
        k >= 0 ==> s[k] == c,
        forall|j: int| k < j < s.len() ==> s[j] != c,
    ensures
        last_index_of(s, c) == k,
{
    lemma_last_index_of(s, c);
}

/// `path` without `root` and the separators after it, if `path` lies under
/// `root`.
pub fn strip_root<'a>(path: &'a str, root: &str) -> (r: Option<&'a str>)
    ensures
        r is Some <==> under(path@, root@),
        r matches Some(s) ==> s@ == relative(path@, root@),
{
    let p = chars_of(path);
    let b = chars_of(root);
    if b.len() > p.len() {
        return None;
    }
    let mut i: usize = 0;
    while i < b.len()
        invariant
            i <= b.len() <= p.len(),
            p@ == path@,
            b@ == root@,
            forall|j: int| 0 <= j < i ==> p@[j] == b@[j],
        decreases b.len() - i,
    {
        if p[i] != b[i] {
            assert(path@.subrange(0, root@.len() as int)[i as int] != root@[i as int]);
            return None;
        }
        i += 1;
    }
    assert(path@.subrange(0, root@.len() as int) =~= root@);
    let bounded = b.len() == 0 || b.len() == p.len() || b[b.len() - 1] == '/' || p[b.len()]
        == '/';
    if !bounded {
        return None;
    }
    let mut k: usize = b.len();
    while k < p.len() && p[k] == '/'
        invariant
            b.len() <= k <= p.len(),
            p@ == path@,
            after_slashes(p@, b.len() as int) == after_slashes(p@, k as int),
        decreases p.len() - k,
    {
        k += 1;
    }
    Some(path.substring_char(k, p.len()))
}

fn reads_at(p: &Vec<char>, name: &Vec<char>, i: usize) -> (r: bool)
    requires
        i + name.len() <= p.len(),
    ensures
        r == (p@.subrange(i as int, i + name.len()) == name@),
{
    let mut j: usize = 0;
    while j < name.len()
        invariant
            j <= name.len(),
            i + name.len() <= p.len(),
            forall|t: int| 0 <= t < j ==> p@[i + t] == name@[t],
        decreases name.len() - j,
    {
        if p[i + j] != name[j] {
            assert(p@.subrange(i as int, i + name.len())[j as int] != name@[j as int]);
            return false;
        }
        j += 1;
    }
    assert(p@.subrange(i as int, i + name.len()) =~= name@);
    true
}

/// Whether some component of `path` reads `name`.
pub fn contains_component(path: &str, name: &str) -> (r: bool)
    ensures
        r == has_component(path@, name@),
{
    let p = chars_of(path);
    let m = chars_of(name);
    if m.len() > p.len() {
        return false;
    }
    let last = p.len() - m.len();
    let mut i: usize = 0;
    while i < last
        invariant
            p@ == path@,
            m@ == name@,
            last == p.len() - m.len(),
            i <= last,
            forall|j: int| 0 <= j < i ==> !component_at(p@, m@, j),
        decreases last - i,
    {
        let starts = i == 0 || p[i - 1] == '/';
        if starts && p[i + m.len()] == '/' && reads_at(&p, &m, i) {
            assert(component_at(p@, m@, i as int));
            return true;
        }
        i += 1;
    }
    let starts = last == 0 || p[last - 1] == '/';
    let found = starts && reads_at(&p, &m, last);
    proof {
        if found {
            assert(component_at(p@, m@, last as int));
        } else {
            assert(!component_at(p@, m@, last as int));
        }
    }
    found
}

/// The extension of `path`, if it has one.
pub fn extension_of<'a>(path: &'a str) -> (r: Option<&'a str>)
    ensures
        r is Some <==> extension(path@) is Some,
        r matches Some(s) ==> extension(path@) == Some(s@),
{
    let p = chars_of(path);
    let n = p.len();
    // the file name starts after the last separator
    let mut start: usize = n;
    while start > 0 && p[start - 1] != '/'
        invariant
            start <= n,
            n == p.len(),
            forall|j: int| start <= j < n ==> p@[j] != '/',
        decreases start,
    {
        start -= 1;
    }
    proof {
        lemma_last_index_of_is(p@, '/', start - 1);
    }
    let ghost name = p@.skip(start as int);
    assert(name == file_name(path@));
    // the extension starts after the last dot of the file name
    let mut dot: usize = n;
    while dot > start && p[dot - 1] != '.'
        invariant
            start <= dot <= n,
            n == p.len(),
            forall|j: int| dot <= j < n ==> p@[j] != '.',
        decreases dot,
    {
        dot -= 1;
    }
    proof {
        assert forall|j: int| dot - 1 - start < j < name.len() implies name[j] != '.' by {
            assert(name[j] == p@[start + j]);
        }
        lemma_last_index_of_is(name, '.', dot - 1 - start);
    }
    if dot - start <= 1 {
        return None;
    }
    if n - start == 2 && p[start] == '.' && p[start + 1] == '.' {
        assert(name =~= seq!['.', '.']);
        return None;
    }
    assert(name != seq!['.', '.']) by {
        if name.len() == 2 {
            assert(name[0] == p@[start as int]);
            assert(name[1] == p@[start + 1]);
        }
    }
    assert(name.skip(dot - start) =~= p@.skip(dot as int));
    Some(path.substring_char(dot, n))
}

} // verus!
