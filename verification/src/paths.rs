//! File names for the command line: where the HTML goes and what the page is called.
use vstd::prelude::*;
use crate::htmlutil::push_char;
use crate::docx_run::last_index_of;

verus! {

broadcast use vstd::string::group_string_axioms;

/// The index of the last path separator ('/' or '\\') in `s`, or -1.
pub open spec fn last_separator(s: Seq<char>) -> int {
    let a = last_index_of(s, '/');
    let b = last_index_of(s, '\\');
    if a >= b {
        a
    } else {
        b
    }
}

/// The default output name: the input with its extension (a '.' after the last separator)
/// replaced by ".html", or ".html" appended when it has none.
pub open spec fn default_output(s: Seq<char>) -> Seq<char> {
    let d = last_index_of(s, '.');
    if d >= 0 && d > last_separator(s) {
        s.take(d) + ".html"@
    } else {
        s + ".html"@
    }
}

/// The file name of `path` without directories and without its extension; a name that only
/// begins with '.' keeps it.
pub open spec fn base_name_of(path: Seq<char>) -> Seq<char> {
    let name = path.skip(last_separator(path) + 1);
    let d = last_index_of(name, '.');
    if d > 0 {
        name.take(d)
    } else {
        name
    }
}

fn chars_of(s: &str) -> (v: Vec<char>)
    ensures
        v@ == s@,
{
    let mut v: Vec<char> = Vec::new();
    for c in it: s.chars()
        invariant
            it.seq() == s@,
            v@ == s@.take(it.index() as int),
    {
        assert(c == s@[it.index() as int]);
        v.push(c);
        assert(v@ =~= s@.take(it.index() + 1));
    }
    assert(s@.take(s@.len() as int) =~= s@);
    v
}

/// The index of the last `c` in `v`, if there is one.
fn last_index(v: &Vec<char>, c: char) -> (r: Option<usize>)
    ensures
        match r {
            Some(i) => i == last_index_of(v@, c) && i < v@.len(),
            None => last_index_of(v@, c) == -1,
        },
{
    let mut i: usize = v.len();
    assert(v@.take(i as int) =~= v@);
    while i > 0
        invariant
            i <= v@.len(),
            last_index_of(v@, c) == last_index_of(v@.take(i as int), c),
        decreases i,
    {
        assert(v@.take(i as int).last() == v@[i - 1]);
        if v[i - 1] == c {
            return Some(i - 1);
        }
        assert(v@.take(i as int).drop_last() =~= v@.take(i - 1));
        i -= 1;
    }
    None
}

/// The later of two optional positions.
fn later(a: Option<usize>, b: Option<usize>) -> (r: Option<usize>)
    ensures
        match (a, b) {
            (None, None) => r is None,
            (Some(x), None) => r == Some(x),
            (None, Some(y)) => r == Some(y),
            (Some(x), Some(y)) => r == Some(if x >= y { x } else { y }),
        },
{
    match (a, b) {
        (None, None) => None,
        (Some(x), None) => Some(x),
        (None, Some(y)) => Some(y),
        (Some(x), Some(y)) => Some(if x >= y { x } else { y }),
    }
}

/// The characters `v[lo..hi]` as a string.
fn text_between(v: &Vec<char>, lo: usize, hi: usize) -> (s: String)
    requires
        lo <= hi <= v@.len(),
    ensures
        s@ == v@.subrange(lo as int, hi as int),
{
    let mut s = String::new();
    let mut i = lo;
    while i < hi
        invariant
            lo <= i <= hi <= v@.len(),
            s@ == v@.subrange(lo as int, i as int),
        decreases hi - i,
    {
        push_char(&mut s, v[i]);
        assert(s@ =~= v@.subrange(lo as int, i + 1));
        i += 1;
    }
    s
}

pub fn default_output_path(input: &str) -> (r: String)
    ensures
        r@ == default_output(input@),
{
    let v = chars_of(input);
    let dot = last_index(&v, '.');
    let sep = later(last_index(&v, '/'), last_index(&v, '\\'));
    let cut = match (dot, sep) {
        (Some(d), None) => Some(d),
        (Some(d), Some(p)) => if d > p { Some(d) } else { None },
        _ => None,
    };
    let mut r = match cut {
        Some(d) => text_between(&v, 0, d),
        None => text_between(&v, 0, v.len()),
    };
    r.append(".html");
    proof {
        assert(v@.subrange(0, v@.len() as int) =~= v@);
        if let Some(d) = cut {
            assert(v@.subrange(0, d as int) =~= v@.take(d as int));
        }
    }
    r
}

pub fn base_name(path: &str) -> (r: String)
    ensures
        r@ == base_name_of(path@),
{
    let v = chars_of(path);
    let sep = later(last_index(&v, '/'), last_index(&v, '\\'));
    let n = v.len();
    let start = match sep {
        Some(p) => p + 1,
        None => 0,
    };
    let name = text_between(&v, start, n);
    let nv = chars_of(name.as_str());
    let dot = last_index(&nv, '.');
    proof {
        assert(nv@ =~= v@.skip(start as int));
    }
    match dot {
        Some(d) => if d > 0 {
            proof {
                assert(nv@.subrange(0, d as int) =~= nv@.take(d as int));
            }
            text_between(&nv, 0, d)
        } else {
            proof {
                assert(nv@.subrange(0, nv@.len() as int) =~= nv@);
            }
            text_between(&nv, 0, nv.len())
        },
        None => {
            proof {
                assert(nv@.subrange(0, nv@.len() as int) =~= nv@);
            }
            text_between(&nv, 0, nv.len())
        },
    }
}

} // verus!
