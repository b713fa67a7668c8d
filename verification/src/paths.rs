//! Unix path handling on character sequences: the final component, stem and
//! extension of a file name, absolute paths, joining, and the parent directory
//! (which the standard library computes).
use vstd::prelude::*;
use crate::seqs::{lemma_rfind_char, rfind_char, rfind_char_in};
use crate::text::str_to_chars;
use vstd::slice::slice_to_vec;

verus! {

/// The final component of a path when it is a normal name (`Path::file_name`):
/// trailing separators and `.` components are ignored, and a path ending in
/// `..`, the root or a leading `.` has none.
pub open spec fn file_name_spec(p: Seq<char>) -> Option<Seq<char>>
    decreases p.len(),
{
    if p.len() == 0 {
        None
    } else if p.last() == '/' {
        file_name_spec(p.drop_last())
    } else {
        match rfind_char(p, '/') {
            None => if p == seq!['.'] || p == seq!['.', '.'] {
                None
            } else {
                Some(p)
            },
            Some(k) => {
                if 0 <= k < p.len() {
                    let seg = p.skip(k + 1);
                    if seg == seq!['.'] {
                        file_name_spec(p.take(k))
                    } else if seg == seq!['.', '.'] {
                        None
                    } else {
                        Some(seg)
                    }
                } else {
                    None
                }
            },
        }
    }
}

/// The stem of a file name (`Path::file_stem`): the part before the final `.`,
/// or the whole name when it has no `.` other than a leading one.
pub open spec fn stem_of_name(name: Seq<char>) -> Seq<char> {
    match rfind_char(name, '.') {
        Some(k) => if k == 0 {
            name
        } else {
            name.take(k)
        },
        None => name,
    }
}

/// The extension of a file name (`Path::extension`): the part after the final
/// `.`, unless that `.` starts the name.
pub open spec fn extension_of_name(name: Seq<char>) -> Option<Seq<char>> {
    match rfind_char(name, '.') {
        Some(k) => if k == 0 {
            None
        } else {
            Some(name.skip(k + 1))
        },
        None => None,
    }
}

/// The stem of a path's file name.
pub open spec fn file_stem_spec(p: Seq<char>) -> Option<Seq<char>> {
    match file_name_spec(p) {
        Some(n) => Some(stem_of_name(n)),
        None => None,
    }
}

/// The extension of a path's file name.
pub open spec fn extension_spec(p: Seq<char>) -> Option<Seq<char>> {
    match file_name_spec(p) {
        Some(n) => extension_of_name(n),
        None => None,
    }
}

/// Unix absolute paths start at the root.
pub open spec fn is_absolute_spec(p: Seq<char>) -> bool {
    p.len() > 0 && p[0] == '/'
}

/// The final normal component of a path.
pub fn file_name_of(p: &[char]) -> (r: Option<Vec<char>>)
    ensures
        r matches Some(n) ==> file_name_spec(p@) == Some(n@),
        r is None ==> file_name_spec(p@) is None,
{
    let mut end = p.len();
    assert(p@.take(end as int) == p@);
    loop
        invariant
            end <= p.len(),
            file_name_spec(p@.take(end as int)) == file_name_spec(p@),
        decreases end,
    {
        let ghost q = p@.take(end as int);
        if end == 0 {
            return None;
        }
        if p[end - 1] == '/' {
            assert(q.drop_last() == p@.take(end - 1));
            end -= 1;
            continue ;
        }
        let prefix = &p[0..end];
        assert(prefix@ == q);
        match rfind_char_in(prefix, '/') {
            None => {
                if (end == 1 && p[0] == '.') || (end == 2 && p[0] == '.' && p[1] == '.') {
                    proof {
                        if end == 1 {
                            assert(q == seq!['.']);
                        } else {
                            assert(q == seq!['.', '.']);
                        }
                    }
                    return None;
                }
                assert(q != seq!['.']);
                assert(q != seq!['.', '.']);
                let mut v: Vec<char> = Vec::new();
                let mut i: usize = 0;
                while i < end
                    invariant
                        i <= end <= p.len(),
                        v@ == p@.take(i as int),
                    decreases end - i,
                {
                    v.push(p[i]);
                    i += 1;
                }
                return Some(v);
            },
            Some(k) => {
                proof {
                    lemma_rfind_char(q, '/');
                }
                let seg_len = end - k - 1;
                if seg_len == 1 && p[k + 1] == '.' {
                    assert(q.skip(k + 1) == seq!['.']);
                    assert(q.take(k as int) == p@.take(k as int));
                    end = k;
                    continue ;
                }
                if seg_len == 2 && p[k + 1] == '.' && p[k + 2] == '.' {
                    assert(q.skip(k + 1) == seq!['.', '.']);
                    return None;
                }
                proof {
                    if seg_len == 1 {
                        assert(q.skip(k + 1)[0] == p@[k + 1]);
                    }
                    if seg_len == 2 {
                        assert(q.skip(k + 1)[0] == p@[k + 1]);
                        assert(q.skip(k + 1)[1] == p@[k + 2]);
                    }
                }
                let mut v: Vec<char> = Vec::new();
                let mut i: usize = k + 1;
                while i < end
                    invariant
                        k + 1 <= i <= end <= p.len(),
                        v@ == p@.subrange(k + 1, i as int),
                    decreases end - i,
                {
                    v.push(p[i]);
                    i += 1;
                }
                assert(v@ == q.skip(k + 1));
                return Some(v);
            },
        }
    }
}

/// The stem of a file name.
pub fn stem_of(name: &[char]) -> (r: Vec<char>)
    ensures
        r@ == stem_of_name(name@),
{
    proof {
        lemma_rfind_char(name@, '.');
    }
    match rfind_char_in(name, '.') {
        Some(k) => {
            if k == 0 {
                slice_to_vec(&name)
            } else {
                slice_to_vec(&name[0..k])
            }
        },
        None => slice_to_vec(&name),
    }
}

/// The extension of a file name.
pub fn extension_of(name: &[char]) -> (r: Option<Vec<char>>)
    ensures
        r matches Some(e) ==> extension_of_name(name@) == Some(e@),
        r is None ==> extension_of_name(name@) is None,
{
    proof {
        lemma_rfind_char(name@, '.');
    }
    match rfind_char_in(name, '.') {
        Some(k) => {
            if k == 0 {
                None
            } else {
                assert(k < name.len());
                Some(slice_to_vec(&name[k + 1..name.len()]))
            }
        },
        None => None,
    }
}

/// Whether a Unix path is absolute.
pub fn is_absolute(p: &[char]) -> (b: bool)
    ensures
        b == is_absolute_spec(p@),
{
    p.len() > 0 && p[0] == '/'
}

/// The directory that contains a path, as `Path::parent` gives it.
pub uninterp spec fn std_parent(path: Seq<char>) -> Option<Seq<char>>;

/// The parent directory of a path.
///
/// Trusted: `Path::parent` followed by a lossless string conversion (the path
/// comes from a `&str`, so it is valid UTF-8). The result is named by
/// `std_parent`; nothing more is claimed about it.
#[verifier::external_body]
pub(crate) fn path_parent(path: &str) -> (r: Option<String>)
    ensures
        r matches Some(s) ==> std_parent(path@) == Some(s@),
        r is None ==> std_parent(path@) is None,
{
    std::path::Path::new(path).parent().map(|p| p.to_string_lossy().into_owned())
}

/// The parent of a path as characters, with the empty path when there is none.
pub fn parent_or_empty(path: &str) -> (r: Vec<char>)
    ensures
        r@ == match std_parent(path@) {
            Some(p) => p,
            None => Seq::<char>::empty(),
        },
{
    match path_parent(path) {
        Some(s) => str_to_chars(s.as_str()),
        None => Vec::new(),
    }
}

/// Joining a relative name onto a directory: the name replaces the directory
/// when it is absolute, and a separator goes between them unless the directory
/// is empty or already ends in one (`Path::join` on Unix).
pub open spec fn join_spec(dir: Seq<char>, name: Seq<char>) -> Seq<char> {
    if is_absolute_spec(name) {
        name
    } else if dir.len() == 0 || dir.last() == '/' {
        dir + name
    } else {
        dir + seq!['/'] + name
    }
}

/// Joins a name onto a directory.
pub fn join(dir: &[char], name: &[char]) -> (r: Vec<char>)
    ensures
        r@ == join_spec(dir@, name@),
{
    if is_absolute(name) {
        return slice_to_vec(&name);
    }
    let mut r = slice_to_vec(dir);
    if !(dir.len() == 0 || dir[dir.len() - 1] == '/') {
        r.push('/');
    }
    let mut i: usize = 0;
    let ghost base = r@;
    while i < name.len()
        invariant
            i <= name.len(),
            r@ == base + name@.take(i as int),
        decreases name.len() - i,
    {
        r.push(name[i]);
        i += 1;
        assert(base + name@.take(i as int) == (base + name@.take(i - 1)).push(name@[i - 1]));
    }
    assert(name@.take(name.len() as int) == name@);
    r
}

} // verus!
