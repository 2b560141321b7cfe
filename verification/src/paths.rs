//! Verified helpers over path strings.
//!
//! Paths travel through the library as plain `String`s.  These helpers give
//! the few path operations the runtime needs — extension, parent directory,
//! joining, prefix stripping — exact contracts over the `Seq<char>` views.

use vstd::prelude::*;
use vstd::string::StrSliceExecFns;
use vstd::string::StringExecFns;

verus! {

/// The index right after the last `/` of `p`, or `0` when `p` has none:
/// where the file name of `p` begins.
pub open spec fn spec_base_start(p: Seq<char>) -> int {
    match p.index_of_last('/') {
        Some(i) => i + 1,
        None => 0,
    }
}

/// The file-name part of `p`: everything after the last `/`.
pub open spec fn spec_base_name(p: Seq<char>) -> Seq<char> {
    p.subrange(spec_base_start(p), p.len() as int)
}

/// The extension of `p`: what follows the last `.` of the file name,
/// provided that dot is preceded by at least one character.  `None` for
/// dotless names and for names that only start with a dot.
pub open spec fn spec_extension(p: Seq<char>) -> Option<Seq<char>> {
    let b = spec_base_name(p);
    match b.index_of_last('.') {
        Some(d) => if d > 0 {
            Some(b.subrange(d + 1, b.len() as int))
        } else {
            None
        },
        None => None,
    }
}

/// The directory part of `p`: everything before the last `/`, empty when
/// `p` has no separator.
pub open spec fn spec_parent(p: Seq<char>) -> Seq<char> {
    match p.index_of_last('/') {
        Some(i) => p.subrange(0, i),
        None => Seq::empty(),
    }
}

/// `a` and `b` joined with a single separator.
pub open spec fn spec_joined(a: Seq<char>, b: Seq<char>) -> Seq<char> {
    a + seq!['/'] + b
}

/// Does `p` begin with the directory `d`, that is with `d` followed by `/`?
pub open spec fn spec_has_dir_prefix(p: Seq<char>, d: Seq<char>) -> bool {
    &&& p.len() > d.len()
    &&& p.subrange(0, d.len() as int) == d
    &&& p[d.len() as int] == '/'
}

/// `p` with a leading directory `d` removed, or `p` itself when `d` is no
/// prefix of it.
pub open spec fn spec_strip_prefix(p: Seq<char>, d: Seq<char>) -> Seq<char> {
    if spec_has_dir_prefix(p, d) {
        p.subrange(d.len() as int + 1, p.len() as int)
    } else {
        p
    }
}

/// Index of the last occurrence of `c` in `s`, or `None` when `s` has none.
fn last_char_at(s: &str, c: char) -> (r: Option<usize>)
    ensures
        match r {
            Some(i) => i < s@.len() && s@.index_of_last(c) == Some(i as int),
            None => s@.index_of_last(c) is None,
        },
{
    let n = s.unicode_len();
    let mut i = n;
    while i > 0
        invariant
            i <= n,
            n == s@.len(),
            forall|j: int| i <= j < n ==> s@[j] != c,
        decreases i,
    {
        i = i - 1;
        let ch = s.get_char(i);
        if ch == c {
            proof {
                s@.index_of_last_ensures(c);
                assert(s@[i as int] == c);
            }
            return Some(i);
        }
    }
    proof {
        s@.index_of_last_ensures(c);
        if s@.index_of_last(c) is Some {
            let k = s@.index_of_last(c)->Some_0;
            assert(s@[k] == c);
        }
    }
    None
}

/// The extension of `path`, as `spec_extension` describes it.
pub fn extension_of(path: &str) -> (r: Option<String>)
    ensures
        match r {
            Some(e) => spec_extension(path@) == Some(e@),
            None => spec_extension(path@) is None,
        },
{
    let n = path.unicode_len();
    let b0: usize = match last_char_at(path, '/') {
        Some(i) => i + 1,
        None => 0,
    };
    let base = path.substring_char(b0, n);
    proof {
        assert(base@ =~= spec_base_name(path@));
    }
    let m = base.unicode_len();
    match last_char_at(base, '.') {
        Some(d) => {
            if d > 0 {
                let e = base.substring_char(d + 1, m);
                proof {
                    assert(e@ =~= spec_extension(path@)->Some_0);
                }
                Some(e.to_owned())
            } else {
                None
            }
        },
        None => None,
    }
}

/// The directory part of `path`, as `spec_parent` describes it.
pub fn parent_of(path: &str) -> (r: String)
    ensures
        r@ == spec_parent(path@),
{
    match last_char_at(path, '/') {
        Some(i) => {
            let p = path.substring_char(0, i);
            proof {
                assert(p@ =~= spec_parent(path@));
            }
            p.to_owned()
        },
        None => {
            proof {
                assert(Seq::<char>::empty() =~= spec_parent(path@));
            }
            String::new()
        },
    }
}

/// `a` and `b` joined with a `/` between them.
pub fn join_path(a: &str, b: &str) -> (r: String)
    ensures
        r@ == spec_joined(a@, b@),
{
    let mut r = a.to_owned();
    r.append("/");
    r.append(b);
    proof {
        reveal_strlit("/");
        assert(r@ =~= spec_joined(a@, b@));
    }
    r
}

/// Is `path` relative, that is empty or without a leading `/`?
pub fn is_relative(path: &str) -> (r: bool)
    ensures
        r == (path@.len() == 0 || path@[0] != '/'),
{
    let n = path.unicode_len();
    if n == 0 {
        true
    } else {
        path.get_char(0) != '/'
    }
}

/// `path` with a leading directory `dir` removed, as `spec_strip_prefix`
/// describes it.
pub fn strip_dir_prefix(path: &str, dir: &str) -> (r: String)
    ensures
        r@ == spec_strip_prefix(path@, dir@),
{
    let n = path.unicode_len();
    let dn = dir.unicode_len();
    if n > dn {
        let head = path.substring_char(0, dn).to_owned();
        let dir_owned = dir.to_owned();
        if head == dir_owned && path.get_char(dn) == '/' {
            let rest = path.substring_char(dn + 1, n);
            proof {
                assert(spec_has_dir_prefix(path@, dir@));
                assert(rest@ =~= spec_strip_prefix(path@, dir@));
            }
            return rest.to_owned();
        }
    }
    path.to_owned()
}

/// Does some element of `v` have the view `x`?
pub open spec fn seq_contains_str(v: Seq<String>, x: Seq<char>) -> bool {
    exists|i: int| 0 <= i < v.len() && v[i]@ == x
}

/// Does `v` hold a string equal to `x`?
pub fn contains_string(v: &Vec<String>, x: &str) -> (r: bool)
    ensures
        r == seq_contains_str(v@, x@),
{
    let xs = x.to_owned();
    let mut i: usize = 0;
    while i < v.len()
        invariant
            i <= v@.len(),
            xs@ == x@,
            forall|j: int| 0 <= j < i ==> v@[j]@ != x@,
        decreases v@.len() - i,
    {
        if v[i] == xs {
            return true;
        }
        i = i + 1;
    }
    false
}

/// A copy of `v` with every later duplicate removed; the first occurrences
/// keep their order.
pub fn dedup_strings(v: &Vec<String>) -> (r: Vec<String>)
    ensures
        forall|i: int, j: int| 0 <= i < j < r@.len() ==> r@[i]@ != r@[j]@,
        forall|i: int| 0 <= i < v@.len() ==> seq_contains_str(r@, #[trigger] v@[i]@),
        forall|i: int| 0 <= i < r@.len() ==> seq_contains_str(v@, #[trigger] r@[i]@),
{
    let mut r: Vec<String> = Vec::new();
    let mut i: usize = 0;
    while i < v.len()
        invariant
            i <= v@.len(),
            forall|a: int, b: int| 0 <= a < b < r@.len() ==> r@[a]@ != r@[b]@,
            forall|a: int| 0 <= a < i ==> seq_contains_str(r@, #[trigger] v@[a]@),
            forall|a: int| 0 <= a < r@.len() ==> seq_contains_str(v@, #[trigger] r@[a]@),
        decreases v@.len() - i,
    {
        if !contains_string(&r, v[i].as_str()) {
            let ghost old_r = r@;
            r.push(v[i].clone());
            proof {
                assert(forall|a: int| 0 <= a < old_r.len() ==> r@[a] == old_r[a]);
                assert(r@[r@.len() - 1]@ == v@[i as int]@);
            }
        }
        i = i + 1;
    }
    r
}

/// A copy of `v`: the same strings in the same order.
pub fn clone_strings(v: &Vec<String>) -> (r: Vec<String>)
    ensures
        r@ == v@,
{
    let mut r: Vec<String> = Vec::new();
    let mut i: usize = 0;
    while i < v.len()
        invariant
            i <= v@.len(),
            r@ =~= v@.subrange(0, i as int),
        decreases v@.len() - i,
    {
        r.push(v[i].clone());
        i = i + 1;
    }
    proof {
        assert(r@ =~= v@);
    }
    r
}

} // verus!
