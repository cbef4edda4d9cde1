//! File paths as text.
//!
//! The library keeps file paths as strings separated by `/`.  A path's
//! components are the non-empty pieces between separators; a path that
//! starts with `/` is absolute.

use vstd::prelude::*;
use vstd::string::StringExecFns;
use crate::util::text::{chars_of, string_of_range};

verus! {

/// `p` without trailing separators; a path made only of separators keeps one.
pub open spec fn trim_end_seps(p: Seq<char>) -> Seq<char>
    decreases p.len(),
{
    if p.len() > 1 && p[p.len() - 1] == '/' {
        trim_end_seps(p.drop_last())
    } else {
        p
    }
}

/// The index just past the last separator among the first `i` characters of
/// `t`, or 0 when there is none.
pub open spec fn name_start(t: Seq<char>, i: int) -> int
    decreases i,
{
    if i <= 0 {
        0
    } else if t[i - 1] == '/' {
        i
    } else {
        name_start(t, i - 1)
    }
}

/// The last component of a path, unless the path has none or it is `.` or `..`.
pub open spec fn spec_file_name(p: Seq<char>) -> Option<Seq<char>> {
    let t = trim_end_seps(p);
    let name = t.subrange(name_start(t, t.len() as int), t.len() as int);
    if name.len() == 0 || name == "."@ || name == ".."@ {
        None
    } else {
        Some(name)
    }
}

/// The path without its last component; `None` for an empty path and for
/// the root.
pub open spec fn spec_parent(p: Seq<char>) -> Option<Seq<char>> {
    let t = trim_end_seps(p);
    let start = name_start(t, t.len() as int);
    if t.len() == 0 || start == t.len() {
        None
    } else if start == 0 {
        Some(Seq::empty())
    } else {
        Some(trim_end_seps(t.subrange(0, start)))
    }
}

/// The index of the last `.` among the first `i` characters, or -1.
pub open spec fn last_dot(name: Seq<char>, i: int) -> int
    decreases i,
{
    if i <= 0 {
        -1
    } else if name[i - 1] == '.' {
        i - 1
    } else {
        last_dot(name, i - 1)
    }
}

/// The file name without its extension: the text before the last `.`,
/// unless that `.` starts the name.
pub open spec fn spec_file_stem(p: Seq<char>) -> Option<Seq<char>> {
    match spec_file_name(p) {
        None => None,
        Some(name) => {
            let d = last_dot(name, name.len() as int);
            if d <= 0 {
                Some(name)
            } else {
                Some(name.subrange(0, d))
            }
        },
    }
}

/// `part` appended to `base`: an absolute `part` replaces `base`, and a
/// separator is put between them when `base` is non-empty and does not end
/// in one.
pub open spec fn spec_join(base: Seq<char>, part: Seq<char>) -> Seq<char> {
    if part.len() > 0 && part[0] == '/' {
        part
    } else if base.len() > 0 && base[base.len() - 1] != '/' {
        base + "/"@ + part
    } else {
        base + part
    }
}

proof fn lemma_trim_unfold(p: Seq<char>, k: int)
    requires
        1 < k <= p.len(),
        p[k - 1] == '/',
    ensures
        trim_end_seps(p.subrange(0, k)) == trim_end_seps(p.subrange(0, k - 1)),
{
    assert(p.subrange(0, k).drop_last() =~= p.subrange(0, k - 1));
}

/// The number of characters of `cs` that remain once trailing separators go.
fn trimmed_len(cs: &Vec<char>) -> (k: usize)
    ensures
        k <= cs.len(),
        cs@.subrange(0, k as int) == trim_end_seps(cs@),
{
    let mut k = cs.len();
    assert(cs@.subrange(0, k as int) =~= cs@);
    while k > 1 && cs[k - 1] == '/'
        invariant
            k <= cs.len(),
            trim_end_seps(cs@.subrange(0, k as int)) == trim_end_seps(cs@),
        decreases k,
    {
        proof {
            lemma_trim_unfold(cs@, k as int);
        }
        k = k - 1;
    }
    k
}

/// The index just past the last separator among the first `k` characters.
fn find_name_start(cs: &Vec<char>, k: usize) -> (j: usize)
    requires
        k <= cs.len(),
    ensures
        j <= k,
        j == name_start(cs@.subrange(0, k as int), k as int),
{
    let ghost t = cs@.subrange(0, k as int);
    let mut j = k;
    while j > 0 && cs[j - 1] != '/'
        invariant
            j <= k <= cs.len(),
            t == cs@.subrange(0, k as int),
            name_start(t, k as int) == name_start(t, j as int),
        decreases j,
    {
        j = j - 1;
    }
    j
}

/// The last component of a path; `None` when the path has none, or when it
/// is `.` or `..`.
pub fn file_name(path: &str) -> (res: Option<String>)
    ensures
        match res {
            Some(s) => spec_file_name(path@) == Some(s@),
            None => spec_file_name(path@) is None,
        },
{
    let cs = chars_of(path);
    let k = trimmed_len(&cs);
    let start = find_name_start(&cs, k);
    let ghost t = trim_end_seps(path@);
    assert(t == cs@.subrange(0, k as int));
    let name = string_of_range(path, start, k);
    assert(name@ =~= t.subrange(name_start(t, t.len() as int), t.len() as int));
    let dot = String::from_str(".");
    let dotdot = String::from_str("..");
    if k == start || name == dot || name == dotdot {
        None
    } else {
        Some(name)
    }
}

/// The path without its last component; `None` for an empty path and for
/// the root.
pub fn parent(path: &str) -> (res: Option<String>)
    ensures
        match res {
            Some(s) => spec_parent(path@) == Some(s@),
            None => spec_parent(path@) is None,
        },
{
    let cs = chars_of(path);
    let k = trimmed_len(&cs);
    let start = find_name_start(&cs, k);
    let ghost t = trim_end_seps(path@);
    assert(t == cs@.subrange(0, k as int));
    if k == 0 || start == k {
        None
    } else if start == 0 {
        Some(String::new())
    } else {
        let head = string_of_range(path, 0, start);
        let hcs = chars_of(head.as_str());
        let hk = trimmed_len(&hcs);
        let res = string_of_range(head.as_str(), 0, hk);
        assert(head@ =~= t.subrange(0, start as int));
        Some(res)
    }
}

/// The index of the last `.` in `cs`, or `None`.
fn find_last_dot(cs: &Vec<char>) -> (res: Option<usize>)
    ensures
        match res {
            Some(d) => d < cs.len() && d as int == last_dot(cs@, cs.len() as int),
            None => last_dot(cs@, cs.len() as int) == -1,
        },
{
    let mut j = cs.len();
    while j > 0 && cs[j - 1] != '.'
        invariant
            j <= cs.len(),
            last_dot(cs@, cs.len() as int) == last_dot(cs@, j as int),
        decreases j,
    {
        j = j - 1;
    }
    if j == 0 {
        None
    } else {
        Some(j - 1)
    }
}

/// The file name without its extension.
pub fn file_stem(path: &str) -> (res: Option<String>)
    ensures
        match res {
            Some(s) => spec_file_stem(path@) == Some(s@),
            None => spec_file_stem(path@) is None,
        },
{
    match file_name(path) {
        None => None,
        Some(name) => {
            let cs = chars_of(name.as_str());
            match find_last_dot(&cs) {
                Some(d) => {
                    if d == 0 {
                        Some(name)
                    } else {
                        let stem = string_of_range(name.as_str(), 0, d);
                        Some(stem)
                    }
                },
                None => Some(name),
            }
        },
    }
}

/// `part` appended to `base` as a path.
pub fn join(base: &str, part: &str) -> (res: String)
    ensures
        res@ == spec_join(base@, part@),
{
    let pn = part.unicode_len();
    if pn > 0 && part.get_char(0) == '/' {
        return String::from_str(part);
    }
    let bn = base.unicode_len();
    let mut out = String::from_str(base);
    if bn > 0 && base.get_char(bn - 1) != '/' {
        out.append("/");
    }
    out.append(part);
    out
}

/// Whether a file or directory exists at `path`.
///
/// Calls std's `Path::exists`.  What it answers depends on the file system
/// at the moment of the call, so the contract states nothing of it.
#[verifier::external_body]
pub(crate) fn path_exists(path: &str) -> (res: bool) {
    std::path::Path::new(path).exists()
}

} // verus!
