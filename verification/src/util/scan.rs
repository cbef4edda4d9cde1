//! Searching, splitting and reading numbers in text.

use vstd::prelude::*;
use crate::util::text::{chars_of, is_white, is_whitespace, string_of_range, trim, trim_bounds};

verus! {

/// Whether `needle` occurs in `hay` at index `i`.
pub open spec fn occurs_at(hay: Seq<char>, needle: Seq<char>, i: int) -> bool {
    0 <= i && i + needle.len() <= hay.len() && hay.subrange(i, i + needle.len()) == needle
}

/// Whether `needle` occurs somewhere in `hay` (the empty text occurs
/// everywhere).
pub open spec fn has_text(hay: Seq<char>, needle: Seq<char>) -> bool {
    exists|i: int| occurs_at(hay, needle, i)
}

/// Whether `s` begins with `p`.
pub open spec fn begins_with(s: Seq<char>, p: Seq<char>) -> bool {
    occurs_at(s, p, 0)
}

/// Whether `s` ends with `p`.
pub open spec fn finishes_with(s: Seq<char>, p: Seq<char>) -> bool {
    p.len() <= s.len() && occurs_at(s, p, s.len() - p.len())
}

/// Whether `n` occurs in `h` at `i`, for an `i` that leaves room for it.
fn occurs_at_index(h: &Vec<char>, n: &Vec<char>, i: usize) -> (res: bool)
    requires
        i + n.len() <= h.len(),
    ensures
        res == occurs_at(h@, n@, i as int),
{
    let mut k: usize = 0;
    while k < n.len()
        invariant
            i + n.len() <= h.len(),
            k <= n.len(),
            forall|j: int| 0 <= j < k ==> h@[i + j] == n@[j],
        decreases n.len() - k,
    {
        if h[i + k] != n[k] {
            proof {
                assert(h@.subrange(i as int, i + n.len())[k as int] != n@[k as int]);
            }
            return false;
        }
        k = k + 1;
    }
    proof {
        assert(h@.subrange(i as int, i + n.len()) =~= n@);
    }
    true
}

/// Whether `needle` occurs in `hay`.
pub fn text_contains(hay: &str, needle: &str) -> (res: bool)
    ensures
        res == has_text(hay@, needle@),
{
    let h = chars_of(hay);
    let n = chars_of(needle);
    if n.len() > h.len() {
        assert(forall|i: int| !occurs_at(hay@, needle@, i));
        return false;
    }
    let last = h.len() - n.len();
    let mut i: usize = 0;
    loop
        invariant
            h@ == hay@,
            n@ == needle@,
            last == h.len() - n.len(),
            i <= last,
            forall|j: int| 0 <= j < i ==> !occurs_at(hay@, needle@, j),
        ensures
            forall|j: int| 0 <= j <= last ==> !occurs_at(hay@, needle@, j),
        decreases last - i,
    {
        if occurs_at_index(&h, &n, i) {
            return true;
        }
        if i == last {
            break;
        }
        i = i + 1;
    }
    assert forall|j: int| !occurs_at(hay@, needle@, j) by {
        if 0 <= j <= last {
        }
    }
    false
}

/// The first index at or after `i` where `needle` occurs in `hay`, if any.
pub open spec fn find_from(hay: Seq<char>, needle: Seq<char>, i: int) -> Option<int>
    decreases hay.len() + 1 - i,
{
    if i < 0 || i + needle.len() > hay.len() {
        None
    } else if occurs_at(hay, needle, i) {
        Some(i)
    } else {
        find_from(hay, needle, i + 1)
    }
}

/// The first index where `needle` occurs in `hay`, as `find_from` from the
/// start.
pub fn find_text(hay: &Vec<char>, needle: &Vec<char>) -> (res: Option<usize>)
    ensures
        res matches Some(i) ==> find_from(hay@, needle@, 0) == Some(i as int) && i + needle.len() <= hay.len(),
        res is None ==> find_from(hay@, needle@, 0) is None,
{
    if needle.len() > hay.len() {
        return None;
    }
    let last = hay.len() - needle.len();
    let mut i: usize = 0;
    while i <= last
        invariant
            last + needle.len() == hay.len(),
            find_from(hay@, needle@, 0) == find_from(hay@, needle@, i as int),
        decreases last + 1 - i,
    {
        if occurs_at_index(hay, needle, i) {
            return Some(i);
        }
        if i == last {
            assert(find_from(hay@, needle@, i + 1) is None);
            return None;
        }
        i = i + 1;
    }
    None
}

/// The last index of `c` in `s`, if any.
pub open spec fn last_index_of(s: Seq<char>, c: char) -> Option<int>
    decreases s.len(),
{
    if s.len() == 0 {
        None
    } else if s.last() == c {
        Some(s.len() - 1)
    } else {
        last_index_of(s.drop_last(), c)
    }
}

/// The last index of `c` in `cs`, as `last_index_of` says.
pub fn find_last_char(cs: &Vec<char>, c: char) -> (res: Option<usize>)
    ensures
        res matches Some(i) ==> last_index_of(cs@, c) == Some(i as int) && i < cs.len(),
        res is None ==> last_index_of(cs@, c) is None,
{
    let mut j: usize = cs.len();
    proof {
        assert(cs@.subrange(0, j as int) =~= cs@);
    }
    while j > 0
        invariant
            j <= cs.len(),
            last_index_of(cs@, c) == last_index_of(cs@.subrange(0, j as int), c),
        decreases j,
    {
        proof {
            assert(cs@.subrange(0, j as int).drop_last() =~= cs@.subrange(0, j - 1));
        }
        if cs[j - 1] == c {
            return Some(j - 1);
        }
        j = j - 1;
    }
    None
}

/// Whether `s` begins with `p`.
pub fn text_starts_with(s: &str, p: &str) -> (res: bool)
    ensures
        res == begins_with(s@, p@),
{
    let h = chars_of(s);
    let n = chars_of(p);
    if n.len() > h.len() {
        return false;
    }
    occurs_at_index(&h, &n, 0)
}

/// Whether `s` ends with `p`.
pub fn text_ends_with(s: &str, p: &str) -> (res: bool)
    ensures
        res == finishes_with(s@, p@),
{
    let h = chars_of(s);
    let n = chars_of(p);
    if n.len() > h.len() {
        return false;
    }
    occurs_at_index(&h, &n, h.len() - n.len())
}

/// `s` without leading and trailing white space.
pub fn trimmed(s: &str) -> (res: String)
    ensures
        res@ == trim(s@),
{
    let cs = chars_of(s);
    let (a, b) = trim_bounds(&cs, 0, cs.len());
    proof {
        assert(cs@.subrange(0, cs@.len() as int) =~= s@);
    }
    string_of_range(s, a, b)
}

/// The first index at or after `i` that holds no white space, or the length.
pub open spec fn skip_white(s: Seq<char>, i: int) -> int
    decreases s.len() - i,
{
    if i >= s.len() {
        s.len() as int
    } else if is_white(s[i]) {
        skip_white(s, i + 1)
    } else {
        i
    }
}

/// The first index at or after `i` that holds white space, or the length.
pub open spec fn word_end(s: Seq<char>, i: int) -> int
    decreases s.len() - i,
{
    if i >= s.len() {
        s.len() as int
    } else if is_white(s[i]) {
        i
    } else {
        word_end(s, i + 1)
    }
}

/// Where the skip over white space stops.
pub proof fn lemma_skip_white(s: Seq<char>, i: int)
    requires
        0 <= i <= s.len(),
    ensures
        i <= skip_white(s, i) <= s.len(),
        skip_white(s, i) < s.len() ==> !is_white(s[skip_white(s, i)]),
        forall|k: int| i <= k < skip_white(s, i) ==> is_white(s[k]),
    decreases s.len() - i,
{
    if i < s.len() && is_white(s[i]) {
        lemma_skip_white(s, i + 1);
    }
}

/// Where a word stops.
pub proof fn lemma_word_end(s: Seq<char>, i: int)
    requires
        0 <= i <= s.len(),
    ensures
        i <= word_end(s, i) <= s.len(),
        word_end(s, i) < s.len() ==> is_white(s[word_end(s, i)]),
        forall|k: int| i <= k < word_end(s, i) ==> !is_white(s[k]),
    decreases s.len() - i,
{
    if i < s.len() && !is_white(s[i]) {
        lemma_word_end(s, i + 1);
    }
}

/// The words of `s` from index `i` on: the maximal runs of characters that
/// are not white space.
pub open spec fn words_from(s: Seq<char>, i: int) -> Seq<Seq<char>>
    decreases s.len() - i,
{
    if i < 0 || i >= s.len() {
        Seq::empty()
    } else {
        let a = skip_white(s, i);
        if a >= s.len() {
            Seq::empty()
        } else {
            proof {
                lemma_skip_white(s, i);
                lemma_word_end(s, a + 1);
            }
            let b = word_end(s, a);
            seq![s.subrange(a, b)] + words_from(s, b)
        }
    }
}

/// The words of `s`, as std's `str::split_whitespace` gives them.
pub open spec fn words(s: Seq<char>) -> Seq<Seq<char>> {
    words_from(s, 0)
}

/// Splits `s` at white space, dropping empty pieces.
pub fn split_words(s: &str) -> (res: Vec<String>)
    ensures
        res.deep_view() == words(s@),
{
    let cs = chars_of(s);
    let n = cs.len();
    let mut out: Vec<String> = Vec::new();
    let mut i: usize = 0;
    while i < n
        invariant
            cs@ == s@,
            n == s@.len(),
            i <= n,
            out.deep_view() + words_from(s@, i as int) == words(s@),
        decreases n - i,
    {
        let ghost before = out.deep_view();
        let mut a = i;
        while a < n && is_whitespace(cs[a])
            invariant
                cs@ == s@,
                n == s@.len(),
                i <= a <= n,
                skip_white(s@, i as int) == skip_white(s@, a as int),
            decreases n - a,
        {
            a = a + 1;
        }
        if a == n {
            proof {
                assert(words_from(s@, i as int) == Seq::<Seq<char>>::empty());
                assert(words_from(s@, n as int) == Seq::<Seq<char>>::empty());
            }
            i = n;
        } else {
            let mut b = a + 1;
            proof {
                assert(word_end(s@, a as int) == word_end(s@, a + 1));
            }
            while b < n && !is_whitespace(cs[b])
                invariant
                    cs@ == s@,
                    n == s@.len(),
                    a < b <= n,
                    word_end(s@, a as int) == word_end(s@, b as int),
                decreases n - b,
            {
                b = b + 1;
            }
            let w = string_of_range(s, a, b);
            out.push(w);
            proof {
                assert(skip_white(s@, i as int) == a);
                assert(word_end(s@, a as int) == b);
                assert(out.deep_view() =~= before.push(w@));
                assert(words_from(s@, i as int) == seq![s@.subrange(a as int, b as int)] + words_from(
                    s@,
                    b as int,
                ));
                assert(out.deep_view() + words_from(s@, b as int) =~= before + words_from(s@, i as int));
            }
            i = b;
        }
    }
    proof {
        assert(words_from(s@, n as int) == Seq::<Seq<char>>::empty());
        assert(out.deep_view() + Seq::<Seq<char>>::empty() =~= out.deep_view());
    }
    out
}

/// Whether `c` is one of the ASCII digits `0` to `9`.
pub open spec fn is_digit(c: char) -> bool {
    '0' <= c <= '9'
}

/// The number the ASCII digits of `s` spell in decimal.
pub open spec fn digits_value(s: Seq<char>) -> nat
    decreases s.len(),
{
    if s.len() == 0 {
        0
    } else {
        digits_value(s.drop_last()) * 10 + ((s.last() as nat) - ('0' as nat)) as nat
    }
}

/// `s` without one leading `+`.
pub open spec fn unsigned_digits(s: Seq<char>) -> Seq<char> {
    if s.len() > 0 && s[0] == '+' {
        s.drop_first()
    } else {
        s
    }
}

/// What std's `str::parse::<usize>` gives for `s`: an optional `+` followed
/// by at least one ASCII digit, whose value fits in a `usize`.
pub open spec fn parsed_usize(s: Seq<char>) -> Option<usize> {
    let t = unsigned_digits(s);
    if t.len() > 0 && (forall|k: int| 0 <= k < t.len() ==> is_digit(t[k])) && digits_value(t)
        <= usize::MAX {
        Some(digits_value(t) as usize)
    } else {
        None
    }
}

/// A longer run of digits is worth at least as much as its start.
proof fn lemma_digits_prefix(t: Seq<char>, j: int)
    requires
        0 <= j <= t.len(),
    ensures
        digits_value(t.subrange(0, j)) <= digits_value(t),
    decreases t.len() - j,
{
    if j < t.len() {
        lemma_digits_prefix(t, j + 1);
        assert(t.subrange(0, j + 1).drop_last() =~= t.subrange(0, j));
    } else {
        assert(t.subrange(0, j) =~= t);
    }
}

/// Reads a decimal number as std's `str::parse::<usize>` does.
pub fn parse_usize(s: &str) -> (res: Option<usize>)
    ensures
        res == parsed_usize(s@),
{
    let cs = chars_of(s);
    let mut start: usize = 0;
    if cs.len() > 0 && cs[0] == '+' {
        start = 1;
    }
    let ghost t = unsigned_digits(s@);
    proof {
        assert(t =~= s@.subrange(start as int, s@.len() as int));
    }
    if start == cs.len() {
        return None;
    }
    let mut k: usize = start;
    while k < cs.len()
        invariant
            cs@ == s@,
            start <= k <= cs.len(),
            t =~= s@.subrange(start as int, s@.len() as int),
            t == unsigned_digits(s@),
            forall|j: int| 0 <= j < k - start ==> is_digit(t[j]),
        decreases cs.len() - k,
    {
        if !('0' <= cs[k] && cs[k] <= '9') {
            proof {
                assert(!is_digit(t[k - start]));
            }
            return None;
        }
        k = k + 1;
    }
    let mut value: usize = 0;
    let mut k: usize = start;
    while k < cs.len()
        invariant
            cs@ == s@,
            start <= k <= cs.len(),
            t =~= s@.subrange(start as int, s@.len() as int),
            t == unsigned_digits(s@),
            forall|j: int| 0 <= j < t.len() ==> is_digit(t[j]),
            value == digits_value(t.subrange(0, k - start)),
        decreases cs.len() - k,
    {
        proof {
            assert(is_digit(t[k - start]));
            assert(t[k - start] == cs@[k as int]);
        }
        let d = (cs[k] as u32 - '0' as u32) as usize;
        proof {
            assert(t.subrange(0, k + 1 - start).drop_last() =~= t.subrange(0, k - start));
            assert(t.subrange(0, k + 1 - start).last() == cs@[k as int]);
        }
        let grown = value.checked_mul(10);
        match grown {
            Some(v10) => {
                let next = v10.checked_add(d);
                match next {
                    Some(v) => {
                        value = v;
                    },
                    None => {
                        proof {
                            lemma_digits_prefix(t, k + 1 - start);
                        }
                        return None;
                    },
                }
            },
            None => {
                proof {
                    lemma_digits_prefix(t, k + 1 - start);
                }
                return None;
            },
        }
        k = k + 1;
    }
    proof {
        assert(t.subrange(0, k - start) =~= t);
    }
    Some(value)
}

} // verus!
