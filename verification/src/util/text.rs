//! Text helpers: decimal rendering of integers.

use vstd::prelude::*;
use vstd::string::StringExecFns;

verus! {

/// The decimal digit character for a value below ten.
pub open spec fn digit_char(d: nat) -> char {
    if d == 0 { '0' }
    else if d == 1 { '1' }
    else if d == 2 { '2' }
    else if d == 3 { '3' }
    else if d == 4 { '4' }
    else if d == 5 { '5' }
    else if d == 6 { '6' }
    else if d == 7 { '7' }
    else if d == 8 { '8' }
    else { '9' }
}

/// The decimal representation of `n`, without sign or leading zeros
/// (zero is written `"0"`).
pub open spec fn decimal(n: nat) -> Seq<char>
    decreases n,
{
    if n < 10 {
        seq![digit_char(n)]
    } else {
        decimal(n / 10).push(digit_char(n % 10))
    }
}

/// The one-character string of a decimal digit.
fn digit_str(d: u64) -> (res: &'static str)
    requires
        d < 10,
    ensures
        res@ == seq![digit_char(d as nat)],
{
    if d == 0 {
        proof { reveal_strlit("0"); }
        "0"
    } else if d == 1 {
        proof { reveal_strlit("1"); }
        "1"
    } else if d == 2 {
        proof { reveal_strlit("2"); }
        "2"
    } else if d == 3 {
        proof { reveal_strlit("3"); }
        "3"
    } else if d == 4 {
        proof { reveal_strlit("4"); }
        "4"
    } else if d == 5 {
        proof { reveal_strlit("5"); }
        "5"
    } else if d == 6 {
        proof { reveal_strlit("6"); }
        "6"
    } else if d == 7 {
        proof { reveal_strlit("7"); }
        "7"
    } else if d == 8 {
        proof { reveal_strlit("8"); }
        "8"
    } else {
        proof { reveal_strlit("9"); }
        "9"
    }
}

/// Renders an unsigned integer in decimal.
pub(crate) fn u64_to_decimal(n: u64) -> (res: String)
    ensures
        res@ == decimal(n as nat),
    decreases n,
{
    if n < 10 {
        String::from_str(digit_str(n))
    } else {
        let mut s = u64_to_decimal(n / 10);
        let d = digit_str(n % 10);
        s.append(d);
        proof {
            assert(s@ =~= decimal((n / 10) as nat).push(digit_char((n % 10) as nat)));
        }
        s
    }
}


/// True when two strings hold the same characters.
pub fn str_eq(a: &str, b: &str) -> (res: bool)
    ensures
        res == (a@ == b@),
{
    let x = String::from_str(a);
    let y = String::from_str(b);
    x == y
}

/// The characters of a string, in order.
pub fn chars_of(s: &str) -> (res: Vec<char>)
    ensures
        res@ == s@,
{
    let n = s.unicode_len();
    let mut out: Vec<char> = Vec::new();
    let mut i: usize = 0;
    while i < n
        invariant
            n == s@.len(),
            i <= n,
            out@ == s@.subrange(0, i as int),
        decreases n - i,
    {
        out.push(s.get_char(i));
        i = i + 1;
    }
    out
}

/// The string made of the characters `chars[from..to]`.
pub fn string_of_range(s: &str, from: usize, to: usize) -> (res: String)
    requires
        from <= to <= s@.len(),
    ensures
        res@ == s@.subrange(from as int, to as int),
{
    let piece = s.substring_char(from, to);
    String::from_str(piece)
}


/// The index of the first `\n` at or after `i`, or the length when there is
/// none.
pub open spec fn newline_from(s: Seq<char>, i: int) -> int
    decreases s.len() - i,
{
    if i >= s.len() {
        s.len() as int
    } else if s[i] == '\n' {
        i
    } else {
        newline_from(s, i + 1)
    }
}

/// Where the search for a line ending stops, and that it skips no `\\n`.
pub proof fn lemma_newline_from(s: Seq<char>, i: int)
    requires
        0 <= i <= s.len(),
    ensures
        i <= newline_from(s, i) <= s.len(),
        newline_from(s, i) < s.len() ==> s[newline_from(s, i)] == '\n',
        forall|k: int| i <= k < newline_from(s, i) ==> s[k] != '\n',
    decreases s.len() - i,
{
    if i < s.len() && s[i] != '\n' {
        lemma_newline_from(s, i + 1);
    }
}

/// A line without the `\r` of a `\r\n` ending.
pub open spec fn strip_cr(line: Seq<char>) -> Seq<char> {
    if line.len() > 0 && line.last() == '\r' {
        line.drop_last()
    } else {
        line
    }
}

/// The lines of a text, as std's `str::lines` splits them: at each `\n`,
/// with a `\r` just before it dropped; a final line ending adds no empty
/// line.
pub open spec fn text_lines(s: Seq<char>) -> Seq<Seq<char>>
    decreases s.len(),
{
    if s.len() == 0 {
        Seq::empty()
    } else {
        let i = newline_from(s, 0);
        if i >= s.len() {
            seq![s]
        } else {
            proof {
                lemma_newline_from(s, 0);
            }
            seq![strip_cr(s.subrange(0, i))] + text_lines(s.subrange(i + 1, s.len() as int))
        }
    }
}

/// Splits a text into its lines, as std's `str::lines` does.
pub fn split_lines(text: &str) -> (res: Vec<String>)
    ensures
        res.deep_view() == text_lines(text@),
{
    let cs = chars_of(text);
    let n = cs.len();
    let ghost s = text@;
    let mut out: Vec<String> = Vec::new();
    let mut start: usize = 0;
    proof {
        assert(s.subrange(0, s.len() as int) =~= s);
    }
    while start < n
        invariant
            cs@ == s,
            s == text@,
            n == s.len(),
            start <= n,
            out.deep_view() + text_lines(s.subrange(start as int, n as int)) == text_lines(s),
        decreases n - start,
    {
        let ghost rest = s.subrange(start as int, n as int);
        let mut i = start;
        while i < n && cs[i] != '\n'
            invariant
                cs@ == s,
                n == s.len(),
                start <= i <= n,
                rest == s.subrange(start as int, n as int),
                newline_from(rest, 0) == newline_from(rest, i - start),
            decreases n - i,
        {
            i = i + 1;
        }
        proof {
            lemma_newline_from(rest, 0);
            assert(newline_from(rest, 0) == i - start);
        }
        let mut end = i;
        if end > start && cs[end - 1] == '\r' && i < n {
            end = end - 1;
        }
        let line = string_of_range(text, start, end);
        let ghost before = out.deep_view();
        out.push(line);
        proof {
            assert(out.deep_view() =~= before.push(line@));
            if i < n {
                assert(strip_cr(rest.subrange(0, i - start)) =~= s.subrange(start as int, end as int));
                assert(rest.subrange(i - start + 1, rest.len() as int) =~= s.subrange(i + 1, n as int));
                assert(text_lines(rest) == seq![strip_cr(rest.subrange(0, i - start))] + text_lines(
                    s.subrange(i + 1, n as int),
                ));
                assert(out.deep_view() + text_lines(s.subrange(i + 1, n as int)) =~= before + text_lines(rest));
            } else {
                assert(rest =~= s.subrange(start as int, end as int));
                assert(text_lines(rest) == seq![rest]);
                assert(s.subrange(n as int, n as int) =~= Seq::<char>::empty());
                assert(out.deep_view() + text_lines(s.subrange(n as int, n as int)) =~= before + text_lines(rest));
            }
        }
        if i < n {
            start = i + 1;
        } else {
            start = n;
        }
    }
    proof {
        assert(s.subrange(start as int, n as int) =~= Seq::<char>::empty());
        assert(out.deep_view() + Seq::<Seq<char>>::empty() =~= out.deep_view());
    }
    out
}

/// The number of bytes UTF-8 takes for `c`.
pub open spec fn utf8_width(c: char) -> nat {
    if (c as u32) < 0x80 {
        1
    } else if (c as u32) < 0x800 {
        2
    } else if (c as u32) < 0x10000 {
        3
    } else {
        4
    }
}

/// The number of bytes of the UTF-8 encoding of `s`.
pub open spec fn utf8_len(s: Seq<char>) -> nat
    decreases s.len(),
{
    if s.len() == 0 {
        0
    } else {
        utf8_len(s.drop_last()) + utf8_width(s.last())
    }
}

/// The number of bytes UTF-8 takes for `c`.
pub fn char_width(c: char) -> (res: usize)
    ensures
        res == utf8_width(c),
{
    let v = c as u32;
    if v < 0x80 {
        1
    } else if v < 0x800 {
        2
    } else if v < 0x10000 {
        3
    } else {
        4
    }
}

/// The number of bytes of the first `k` characters of `s`.
pub open spec fn bytes_before(s: Seq<char>, k: int) -> nat {
    utf8_len(s.subrange(0, k))
}

/// The bytes of two texts put together are the bytes of each.
pub proof fn lemma_utf8_len_add(a: Seq<char>, b: Seq<char>)
    ensures
        utf8_len(a + b) == utf8_len(a) + utf8_len(b),
    decreases b.len(),
{
    if b.len() == 0 {
        assert(a + b =~= a);
    } else {
        assert((a + b).drop_last() =~= a + b.drop_last());
        lemma_utf8_len_add(a, b.drop_last());
    }
}

/// A prefix takes no more bytes than the whole text.
pub proof fn lemma_bytes_before_bound(s: Seq<char>, k: int)
    requires
        0 <= k <= s.len(),
    ensures
        bytes_before(s, k) <= utf8_len(s),
{
    assert(s =~= s.subrange(0, k) + s.subrange(k, s.len() as int));
    lemma_utf8_len_add(s.subrange(0, k), s.subrange(k, s.len() as int));
}

/// The number of bytes of the first `k` characters of `cs`.
pub fn bytes_to(cs: &Vec<char>, k: usize) -> (res: usize)
    requires
        k <= cs.len(),
        utf8_len(cs@) <= usize::MAX,
    ensures
        res == bytes_before(cs@, k as int),
{
    let mut sum: usize = 0;
    let mut i: usize = 0;
    while i < k
        invariant
            k <= cs.len(),
            utf8_len(cs@) <= usize::MAX,
            i <= k,
            sum == bytes_before(cs@, i as int),
        decreases k - i,
    {
        proof {
            assert(cs@.subrange(0, i + 1).drop_last() =~= cs@.subrange(0, i as int));
            lemma_bytes_before_bound(cs@, i + 1);
        }
        sum = sum + char_width(cs[i]);
        i = i + 1;
    }
    sum
}

/// The length of a string in bytes.
///
/// Calls std's `str::len`, which counts the bytes of the string's UTF-8
/// encoding; the contract states that count.
#[verifier::external_body]
pub(crate) fn byte_len(s: &str) -> (res: usize)
    ensures
        res == utf8_len(s@),
{
    s.len()
}

/// The text that std's `str::to_uppercase` makes of `s`.
pub uninterp spec fn uppercased(s: Seq<char>) -> Seq<char>;

/// Upper-cases a string.
///
/// Calls std's `str::to_uppercase`; its contract names the result by
/// `uppercased` and claims nothing more of it (the Unicode case tables are
/// std's).
#[verifier::external_body]
pub(crate) fn to_uppercase(s: &str) -> (res: String)
    ensures
        res@ == uppercased(s@),
{
    s.to_uppercase()
}

/// Whether `c` has the Unicode `White_Space` property, which std's
/// `char::is_whitespace` tests: the ASCII tab, line feed, vertical tab,
/// form feed, carriage return and space, next line, no-break space, Ogham
/// space mark, the spaces from en quad to hair space, the line and paragraph
/// separators, narrow no-break space, medium mathematical space and
/// ideographic space.
pub open spec fn is_white(c: char) -> bool {
    let v = c as u32;
    ||| 0x9 <= v <= 0xd
    ||| v == 0x20
    ||| v == 0x85
    ||| v == 0xa0
    ||| v == 0x1680
    ||| 0x2000 <= v <= 0x200a
    ||| v == 0x2028
    ||| v == 0x2029
    ||| v == 0x202f
    ||| v == 0x205f
    ||| v == 0x3000
}

/// Whether `c` is white space, as `is_white` says.
pub(crate) fn is_whitespace(c: char) -> (res: bool)
    ensures
        res == is_white(c),
{
    let v = c as u32;
    (0x9 <= v && v <= 0xd) || v == 0x20 || v == 0x85 || v == 0xa0 || v == 0x1680 || (0x2000 <= v && v
        <= 0x200a) || v == 0x2028 || v == 0x2029 || v == 0x202f || v == 0x205f || v == 0x3000
}

/// The number of leading white-space characters.
pub open spec fn lead_white(s: Seq<char>) -> nat
    decreases s.len(),
{
    if s.len() > 0 && is_white(s[0]) {
        1 + lead_white(s.drop_first())
    } else {
        0
    }
}

/// The number of trailing white-space characters.
pub open spec fn trail_white(s: Seq<char>) -> nat
    decreases s.len(),
{
    if s.len() > 0 && is_white(s[s.len() - 1]) {
        1 + trail_white(s.drop_last())
    } else {
        0
    }
}

/// `s` without leading and trailing white space.
pub open spec fn trim(s: Seq<char>) -> Seq<char> {
    let a = lead_white(s) as int;
    if a == s.len() {
        Seq::empty()
    } else {
        s.subrange(a, s.len() - trail_white(s) as int)
    }
}

/// The leading white space of `s` is everything before its first
/// character that is not white space.
pub proof fn lemma_lead_white_first(s: Seq<char>)
    ensures
        lead_white(s) <= s.len(),
        forall|i: int| 0 <= i < lead_white(s) ==> is_white(#[trigger] s[i]),
        lead_white(s) < s.len() ==> !is_white(s[lead_white(s) as int]),
    decreases s.len(),
{
    if s.len() > 0 && is_white(s[0]) {
        let d = s.drop_first();
        lemma_lead_white_first(d);
        assert forall|i: int| 0 <= i < lead_white(s) implies is_white(#[trigger] s[i]) by {
            if i > 0 {
                assert(s[i] == d[i - 1]);
            }
        }
        if lead_white(s) < s.len() {
            assert(s[lead_white(s) as int] == d[lead_white(d) as int]);
        }
    }
}

/// White space put in front of a text adds to its leading white space.
pub proof fn lemma_lead_white_prefix(w: Seq<char>, s: Seq<char>)
    requires
        forall|i: int| 0 <= i < w.len() ==> is_white(#[trigger] w[i]),
    ensures
        lead_white(w + s) == w.len() + lead_white(s),
    decreases w.len(),
{
    if w.len() > 0 {
        assert((w + s).drop_first() =~= w.drop_first() + s);
        assert((w + s)[0] == w[0]);
        lemma_lead_white_prefix(w.drop_first(), s);
    } else {
        assert(w + s =~= s);
    }
}

/// White space put in front of a text that is not all white space leaves
/// its trailing white space as it was.
pub proof fn lemma_trail_white_prefix(w: Seq<char>, s: Seq<char>)
    requires
        lead_white(s) < s.len(),
    ensures
        trail_white(w + s) == trail_white(s),
    decreases s.len(),
{
    lemma_lead_white_first(s);
    let a = lead_white(s) as int;
    let l = s.len() - 1;
    assert((w + s)[w.len() + l] == s[l]);
    if is_white(s[l]) {
        let d = s.drop_last();
        assert(a < l);
        lemma_lead_white_first(d);
        assert(d[a] == s[a]);
        if lead_white(d) >= d.len() {
            assert(is_white(d[a]));
        }
        assert((w + s).drop_last() =~= w + d);
        lemma_trail_white_prefix(w, d);
    }
}

/// White space put in front of a text does not change the trimmed text.
pub proof fn lemma_trim_prefix(w: Seq<char>, s: Seq<char>)
    requires
        forall|i: int| 0 <= i < w.len() ==> is_white(#[trigger] w[i]),
    ensures
        trim(w + s) == trim(s),
{
    lemma_lead_white_prefix(w, s);
    lemma_lead_white_first(s);
    if lead_white(s) < s.len() {
        lemma_trail_white_prefix(w, s);
        lemma_trail_bound(s);
        lemma_lead_white_first(s);
        let a = lead_white(s) as int;
        let t = trail_white(s) as int;
        if a > s.len() - t {
            // The first character that is not white space lies before the
            // trailing white space.
            lemma_trail_white_last(s);
        }
        assert((w + s).subrange(w.len() + a, (w + s).len() - t) =~= s.subrange(a, s.len() - t));
    }
}

/// The trailing white space of `s` is everything after its last character
/// that is not white space.
pub proof fn lemma_trail_white_last(s: Seq<char>)
    ensures
        trail_white(s) <= s.len(),
        forall|i: int| s.len() - trail_white(s) <= i < s.len() ==> is_white(#[trigger] s[i]),
    decreases s.len(),
{
    if s.len() > 0 && is_white(s[s.len() - 1]) {
        let d = s.drop_last();
        lemma_trail_white_last(d);
        assert forall|i: int| s.len() - trail_white(s) <= i < s.len() implies is_white(#[trigger] s[i]) by {
            if i < s.len() - 1 {
                assert(s[i] == d[i]);
            }
        }
    }
}


proof fn lemma_lead_step(s: Seq<char>, a: int, to: int)
    requires
        0 <= a < to <= s.len(),
        is_white(s[a]),
    ensures
        lead_white(s.subrange(a, to)) == 1 + lead_white(s.subrange(a + 1, to)),
{
    assert(s.subrange(a, to).drop_first() =~= s.subrange(a + 1, to));
}

proof fn lemma_trail_step(s: Seq<char>, from: int, b: int)
    requires
        0 <= from < b <= s.len(),
        is_white(s[b - 1]),
    ensures
        trail_white(s.subrange(from, b)) == 1 + trail_white(s.subrange(from, b - 1)),
{
    assert(s.subrange(from, b).drop_last() =~= s.subrange(from, b - 1));
}

proof fn lemma_lead_bound(s: Seq<char>)
    ensures
        lead_white(s) <= s.len(),
    decreases s.len(),
{
    if s.len() > 0 && is_white(s[0]) {
        lemma_lead_bound(s.drop_first());
    }
}

proof fn lemma_trail_bound(s: Seq<char>)
    ensures
        trail_white(s) <= s.len(),
    decreases s.len(),
{
    if s.len() > 0 && is_white(s[s.len() - 1]) {
        lemma_trail_bound(s.drop_last());
    }
}

/// The bounds of the trimmed text of `cs[from..to]`.
pub fn trim_bounds(cs: &Vec<char>, from: usize, to: usize) -> (res: (usize, usize))
    requires
        from <= to <= cs.len(),
    ensures
        from <= res.0 <= res.1 <= to,
        cs@.subrange(res.0 as int, res.1 as int) == trim(cs@.subrange(from as int, to as int)),
{
    let ghost piece = cs@.subrange(from as int, to as int);
    let mut a = from;
    while a < to && is_whitespace(cs[a])
        invariant
            from <= a <= to <= cs.len(),
            lead_white(piece) == (a - from) + lead_white(cs@.subrange(a as int, to as int)),
        decreases to - a,
    {
        proof {
            lemma_lead_step(cs@, a as int, to as int);
        }
        a = a + 1;
    }
    if a == to {
        proof {
            assert(cs@.subrange(a as int, to as int).len() == 0);
            assert(lead_white(piece) == piece.len());
            assert(cs@.subrange(a as int, a as int) =~= Seq::<char>::empty());
        }
        return (a, a);
    }
    proof {
        assert(!is_white(cs@[a as int]));
        assert(cs@.subrange(a as int, to as int)[0] == cs@[a as int]);
        assert(lead_white(cs@.subrange(a as int, to as int)) == 0);
    }
    let mut b = to;
    while b > a && is_whitespace(cs[b - 1])
        invariant
            from <= a < to <= cs.len(),
            a < b <= to,
            !is_white(cs@[a as int]),
            trail_white(piece) == (to - b) + trail_white(cs@.subrange(from as int, b as int)),
        decreases b,
    {
        proof {
            lemma_trail_step(cs@, from as int, b as int);
        }
        b = b - 1;
    }
    proof {
        assert(b > a);
        assert(cs@.subrange(from as int, b as int)[b - from - 1] == cs@[b - 1]);
        assert(trail_white(cs@.subrange(from as int, b as int)) == 0);
        assert(cs@.subrange(a as int, b as int) =~= piece.subrange(a - from, piece.len() - trail_white(piece) as int));
    }
    (a, b)
}

} // verus!
