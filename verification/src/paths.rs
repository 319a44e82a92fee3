//! File system paths, handled as text. What `std::path` decides about a path
//! (its last component, its stem, how two paths order) is asked of `std::path`.

use std::path::Path;
use vstd::prelude::*;

verus! {

/// The last component of a path, as `Path::file_name` gives it (`None` for a
/// path that ends in `..` or is a root).
pub uninterp spec fn path_file_name(path: Seq<char>) -> Option<Seq<char>>;

/// The last component of a path without its extension, as `Path::file_stem` gives it.
pub uninterp spec fn path_file_stem(path: Seq<char>) -> Option<Seq<char>>;

/// How `std::path::Path` orders two paths (component by component):
/// -1, 0 or 1 for less, equal and greater.
pub uninterp spec fn path_order(a: Seq<char>, b: Seq<char>) -> int;

/// The text after the last `/` of a path (the whole path when it has none).
pub open spec fn last_segment(path: Seq<char>) -> Seq<char>
    decreases path.len(),
{
    if path.len() == 0 || path.last() == '/' {
        Seq::empty()
    } else {
        last_segment(path.drop_last()).push(path.last())
    }
}

/// The path ends in an ordinary name: the text after its last `/` is neither
/// empty nor `.` nor `..`.
pub open spec fn ends_in_plain_name(path: Seq<char>) -> bool {
    let s = last_segment(path);
    s.len() > 0 && s != seq!['.'] && s != seq!['.', '.']
}

/// The position of the last `c` in `s`, or -1 when there is none.
pub open spec fn last_index_of(s: Seq<char>, c: char) -> int
    decreases s.len(),
{
    if s.len() == 0 {
        -1
    } else if s.last() == c {
        s.len() - 1
    } else {
        last_index_of(s.drop_last(), c)
    }
}

/// The stem of a file name as `Path::file_stem` documents it: the whole name
/// when it holds no `.` or its only `.` is the first character, else the part
/// before the last `.`.
pub open spec fn stem_of(name: Seq<char>) -> Seq<char> {
    let i = last_index_of(name, '.');
    if i <= 0 {
        name
    } else {
        name.subrange(0, i)
    }
}

/// `Path::file_name` on a path given as text; the result is named by
/// `path_file_name`. How `std::path` splits a path into components is not
/// restated here, beyond what its documentation gives for a path whose last
/// component is an ordinary name: that name is the result.
#[verifier::external_body]
pub(crate) fn file_name(path: &str) -> (name: Option<String>)
    ensures
        match name {
            Some(n) => path_file_name(path@) == Some(n@) && (ends_in_plain_name(path@) ==> n@ == last_segment(path@)),
            None => path_file_name(path@).is_none() && !ends_in_plain_name(path@),
        },
{
    Path::new(path).file_name().and_then(|n| n.to_str()).map(|n| n.to_string())
}

/// `Path::file_stem` on a path given as text; the result is named by
/// `path_file_stem`. For a path whose last component is an ordinary name, the
/// result is that name's stem by the rule `Path::file_stem` documents.
#[verifier::external_body]
pub(crate) fn file_stem(path: &str) -> (stem: Option<String>)
    ensures
        match stem {
            Some(s) => path_file_stem(path@) == Some(s@) && (ends_in_plain_name(path@) ==> s@ == stem_of(last_segment(path@))),
            None => path_file_stem(path@).is_none() && !ends_in_plain_name(path@),
        },
{
    Path::new(path).file_stem().and_then(|n| n.to_str()).map(|n| n.to_string())
}

/// `Ord::cmp` of two paths. `Ord` is a total order: swapping the two paths
/// reverses the result, and a path that comes no later than `a` comes no
/// later than `b` when `a` comes no later than `b`.
#[verifier::external_body]
pub(crate) fn compare_paths(a: &str, b: &str) -> (order: i8)
    ensures
        order == path_order(a@, b@),
        -1 <= order <= 1,
        path_order(b@, a@) + order == 0,
        order <= 0 ==> forall|c: Seq<char>| #[trigger] path_order(c, a@) <= 0 ==> path_order(c, b@) <= 0,
{
    match Path::new(a).cmp(Path::new(b)) {
        std::cmp::Ordering::Less => -1,
        std::cmp::Ordering::Equal => 0,
        std::cmp::Ordering::Greater => 1,
    }
}

} // verus!

verus! {

/// `base` with `rel` joined to it the way `PathBuf::join` does on Unix: an
/// absolute `rel` replaces `base`; otherwise a `/` goes between them when `base`
/// is not empty and does not already end in one.
pub open spec fn joined(base: Seq<char>, rel: Seq<char>) -> Seq<char> {
    if rel.len() > 0 && rel[0] == '/' {
        rel
    } else if base.len() == 0 || base.last() == '/' {
        base + rel
    } else {
        base + seq!['/'] + rel
    }
}

/// Joins a path to a base path (`PathBuf::join`).
pub fn join_path(base: &str, rel: &str) -> (p: String)
    ensures
        p@ == joined(base@, rel@),
{
    let b = crate::text::chars_of(base);
    let r = crate::text::chars_of(rel);
    if r.len() > 0 && r[0] == '/' {
        return rel.to_string();
    }
    let mut out = base.to_string();
    if b.len() > 0 && b[b.len() - 1] != '/' {
        crate::text::push_char(&mut out, '/');
    }
    out.append(rel);
    out
}

} // verus!

verus! {

/// A name without `/`, written after a text that is empty or ends in `/`, is
/// the last segment of the whole.
pub proof fn lemma_last_segment_after_slash(base: Seq<char>, name: Seq<char>)
    requires
        base.len() == 0 || base.last() == '/',
        !name.contains('/'),
    ensures
        last_segment(base + name) == name,
    decreases name.len(),
{
    if name.len() == 0 {
        assert(base + name =~= base);
    } else {
        let init = name.drop_last();
        assert(!init.contains('/')) by {
            if init.contains('/') {
                let i = choose|i: int| 0 <= i < init.len() && init[i] == '/';
                assert(name[i] == '/');
            }
        }
        assert(name.last() != '/') by {
            assert(name[name.len() - 1] == name.last());
        }
        lemma_last_segment_after_slash(base, init);
        assert((base + name).drop_last() =~= base + init);
        assert((base + name).last() == name.last());
        assert(init.push(name.last()) =~= name);
    }
}

/// Text free of `c`, written after `s`, leaves the last `c` where it was.
pub proof fn lemma_last_index_before(s: Seq<char>, tail: Seq<char>, c: char)
    requires
        !tail.contains(c),
    ensures
        last_index_of(s + tail, c) == last_index_of(s, c),
    decreases tail.len(),
{
    if tail.len() == 0 {
        assert(s + tail =~= s);
    } else {
        let init = tail.drop_last();
        assert(!init.contains(c)) by {
            if init.contains(c) {
                let i = choose|i: int| 0 <= i < init.len() && init[i] == c;
                assert(tail[i] == c);
            }
        }
        assert(tail.last() != c) by {
            assert(tail[tail.len() - 1] == tail.last());
        }
        lemma_last_index_before(s, init, c);
        assert((s + tail).drop_last() =~= s + init);
        assert((s + tail).last() == tail.last());
    }
}

} // verus!
