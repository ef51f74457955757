//! File paths as text: joining, file names and extensions.

use vstd::prelude::*;
use vstd::slice::slice_subrange;

use crate::text;
use crate::text::{chars_of, rfind_char, to_ascii_lower};

verus! {

/// `dir` and `name` joined by one slash; an empty directory adds nothing.
pub open spec fn joined(dir: Seq<char>, name: Seq<char>) -> Seq<char> {
    if dir.len() == 0 {
        name
    } else if dir.last() == '/' {
        dir + name
    } else {
        dir + seq!['/'] + name
    }
}

/// Joins a directory and a relative name.
pub fn join(dir: &str, name: &str) -> (s: String)
    ensures
        s@ == joined(dir@, name@),
{
    let d = chars_of(dir);
    let mut s = dir.to_owned();
    if d.len() > 0 && d[d.len() - 1] != '/' {
        s.push('/');
        proof {
            assert(s@ =~= dir@ + seq!['/']);
        }
    }
    s.append(name);
    proof {
        if dir@.len() == 0 {
            assert(s@ =~= name@);
        }
    }
    s
}

/// A path without the slashes at its end and the components `.` among them.
pub open spec fn bare(path: Seq<char>) -> Seq<char>
    decreases path.len(),
{
    let n = path.len() as int;
    if n > 0 && path[n - 1] == '/' {
        bare(path.drop_last())
    } else if n > 1 && path[n - 1] == '.' && path[n - 2] == '/' {
        bare(path.drop_last())
    } else {
        path
    }
}

/// What follows the last slash.
pub open spec fn after_slash(path: Seq<char>) -> Seq<char> {
    match text::last_index(path, '/') {
        Some(i) => path.skip(i + 1),
        None => path,
    }
}

/// The last component of a path, unless that is the root, `.` or `..`.
pub open spec fn file_name(path: Seq<char>) -> Option<Seq<char>> {
    let name = after_slash(bare(path));
    if name.len() == 0 || name == seq!['.'] || name == seq!['.', '.'] {
        None
    } else {
        Some(name)
    }
}

/// The extension of a file name: what follows the last dot, unless that dot comes first.
pub open spec fn extension(name: Seq<char>) -> Option<Seq<char>> {
    match text::last_index(name, '.') {
        Some(d) => if d > 0 {
            Some(name.skip(d + 1))
        } else {
            None
        },
        None => None,
    }
}

/// A file name without its extension.
pub open spec fn stem(name: Seq<char>) -> Seq<char> {
    match text::last_index(name, '.') {
        Some(d) => if d > 0 {
            name.take(d)
        } else {
            name
        },
        None => name,
    }
}

/// A path without the slashes at its end and the components `.` among them.
pub fn bare_of<'a>(path: &'a [char]) -> (r: &'a [char])
    ensures
        r@ == bare(path@),
{
    let mut n: usize = path.len();
    proof {
        assert(path@.take(n as int) =~= path@);
    }
    while n > 0 && (path[n - 1] == '/' || (n > 1 && path[n - 1] == '.' && path[n - 2] == '/'))
        invariant
            n <= path@.len(),
            bare(path@) == bare(path@.take(n as int)),
        decreases n,
    {
        proof {
            assert(path@.take(n as int).drop_last() =~= path@.take(n - 1));
        }
        n = n - 1;
    }
    let r = slice_subrange(path, 0, n);
    proof {
        assert(r@ =~= path@.take(n as int));
    }
    r
}

/// The last component of a path.
pub fn file_name_of<'a>(path: &'a [char]) -> (r: Option<&'a [char]>)
    ensures
        match r {
            Some(name) => file_name(path@) == Some(name@),
            None => file_name(path@) is None,
        },
{
    let c = bare_of(path);
    let n: usize = c.len();
    let name = match rfind_char(c, '/') {
        Some(i) => {
            let r = slice_subrange(c, i + 1, n);
            proof {
                assert(r@ =~= c@.skip(i + 1));
            }
            r
        },
        None => c,
    };
    let m: usize = name.len();
    proof {
        assert(m == 1 && name@[0] == '.' ==> name@ =~= seq!['.']);
        assert(m == 2 && name@[0] == '.' && name@[1] == '.' ==> name@ =~= seq!['.', '.']);
    }
    if m == 0 || (m == 1 && name[0] == '.') || (m == 2 && name[0] == '.' && name[1] == '.') {
        None
    } else {
        Some(name)
    }
}

/// The extension of a file name.
pub fn extension_of<'a>(name: &'a [char]) -> (r: Option<&'a [char]>)
    ensures
        match r {
            Some(e) => extension(name@) == Some(e@),
            None => extension(name@) is None,
        },
{
    let n: usize = name.len();
    match rfind_char(name, '.') {
        Some(d) => {
            if d > 0 {
                let e = slice_subrange(name, d + 1, n);
                proof {
                    assert(e@ =~= name@.skip(d + 1));
                }
                Some(e)
            } else {
                None
            }
        },
        None => None,
    }
}

/// A file name without its extension.
pub fn stem_of<'a>(name: &'a [char]) -> (r: &'a [char])
    ensures
        r@ == stem(name@),
{
    match rfind_char(name, '.') {
        Some(d) => {
            if d > 0 {
                let e = slice_subrange(name, 0, d);
                proof {
                    assert(e@ =~= name@.take(d as int));
                }
                e
            } else {
                name
            }
        },
        None => name,
    }
}

/// The extension of a path's file name, if it has one.
pub open spec fn path_extension(path: Seq<char>) -> Option<Seq<char>> {
    match file_name(path) {
        Some(name) => extension(name),
        None => None,
    }
}

/// The extension of a path's file name in lower case, if it has one.
pub open spec fn lower_extension(path: Seq<char>) -> Option<Seq<char>> {
    match path_extension(path) {
        Some(e) => Some(text::ascii_lower(e)),
        None => None,
    }
}

/// The lower-case extension of a path.
pub fn lower_extension_of(path: &str) -> (r: Option<Vec<char>>)
    ensures
        match r {
            Some(e) => lower_extension(path@) == Some(e@),
            None => lower_extension(path@) is None,
        },
{
    let p = chars_of(path);
    match file_name_of(p.as_slice()) {
        Some(name) => match extension_of(name) {
            Some(e) => Some(to_ascii_lower(e)),
            None => None,
        },
        None => None,
    }
}

/// `path` is `dir` or lies below it, both given in canonical form.
pub open spec fn is_under(path: Seq<char>, dir: Seq<char>) -> bool {
    text::starts_with(path, dir) && (path.len() == dir.len() || (dir.len() > 0 && dir.last() == '/')
        || path[dir.len() as int] == '/')
}

/// Whether a canonical path is a directory or lies below it.
pub fn lies_under(path: &str, dir: &str) -> (b: bool)
    ensures
        b == is_under(path@, dir@),
{
    let p = chars_of(path);
    let d = chars_of(dir);
    text::has_prefix(p.as_slice(), d.as_slice()) && (p.len() == d.len() || (d.len() > 0 && d[d.len()
        - 1] == '/') || p[d.len()] == '/')
}

/// The name that was joined to a directory is the file name again.
pub proof fn law_joined_names_are_file_names(dir: Seq<char>, name: Seq<char>)
    requires
        text::free_of(name, '/'),
        name.len() > 0,
        name != seq!['.'],
        name != seq!['.', '.'],
    ensures
        file_name(joined(dir, name)) == Some(name),
        file_name(joined(dir, name) + seq!['/']) == Some(name),
{
    let s = joined(dir, name);
    let n = s.len() as int;
    let m = name.len() as int;
    assert(s.skip(n - m) =~= name);
    assert(s[n - 1] == name[m - 1]);
    assert(n > m ==> s[n - m - 1] == '/');
    if s[n - 1] == '.' && n > 1 && s[n - 2] == '/' {
        if m > 1 {
            assert(s[n - 2] == name[m - 2]);
        } else {
            assert(name =~= seq!['.']);
        }
    }
    assert(bare(s) == s);
    let t = s + seq!['/'];
    assert(t.drop_last() =~= s);
    assert(bare(t) == s);
    text::law_places_of_a_character(s, '/');
    match text::last_index(s, '/') {
        Some(i) => {
            if i >= n - m {
                assert(name[i - (n - m)] == s[i]);
            }
            if n > m {
                assert(s[n - m - 1] == '/');
                assert(i == n - m - 1);
            }
        },
        None => {
            assert(n == m);
            assert(s =~= name);
        },
    }
}

/// A name is its stem, a dot and its extension: what stands before the last dot and behind it.
pub proof fn law_names_part_at_their_last_dot(front: Seq<char>, e: Seq<char>)
    requires
        text::free_of(e, '.'),
    ensures
        front.len() > 0 ==> extension(front + seq!['.'] + e) == Some(e) && stem(
            front + seq!['.'] + e,
        ) == front,
        extension(seq!['.'] + e) is None && stem(seq!['.'] + e) == seq!['.'] + e,
        extension(e) is None && stem(e) == e,
{
    let s = front + seq!['.'] + e;
    let n = front.len() as int;
    text::law_places_of_a_character(s, '.');
    text::law_places_of_a_character(e, '.');
    assert(s[n] == '.');
    if let Some(i) = text::last_index(s, '.') {
        if i > n {
            assert(e[i - (n + 1)] == s[i]);
        }
        assert(s.skip(n + 1) =~= e);
        assert(s.take(n) =~= front);
    }
    let h = seq!['.'] + e;
    text::law_places_of_a_character(h, '.');
    assert(h[0] == '.');
    if let Some(i) = text::last_index(h, '.') {
        if i > 0 {
            assert(e[i - 1] == h[i]);
        }
    }
}

/// What is joined to a directory lies under it, and what only begins with the same characters does
/// not.
pub proof fn law_directories_hold_what_is_joined(dir: Seq<char>, name: Seq<char>, c: char)
    requires
        dir.len() > 0,
    ensures
        is_under(joined(dir, name), dir),
        is_under(dir, dir),
        dir.last() != '/' && c != '/' ==> !is_under(dir + seq![c] + name, dir),
        !is_under(dir.drop_last(), dir),
{
    let s = joined(dir, name);
    assert(s.subrange(0, dir.len() as int) =~= dir);
    assert(dir.subrange(0, dir.len() as int) =~= dir);
    if dir.last() != '/' {
        assert(s[dir.len() as int] == '/');
    }
    assert((dir + seq![c] + name)[dir.len() as int] == c);
}

} // verus!
