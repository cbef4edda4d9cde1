//! How the editor shows C and C++ completions and symbols from the language
//! server: the label text, the part of it that filtering matches, and how
//! it is highlighted.

use vstd::prelude::*;
use vstd::string::StringExecFns;
use crate::util::scan::{
    begins_with, find_from, find_last_char, find_text, finishes_with, last_index_of, text_ends_with,
    text_starts_with, trimmed,
};
use crate::util::text::{
    byte_len, bytes_before, bytes_to, chars_of, lemma_utf8_len_add,
    string_of_range, trim, utf8_len, utf8_width,
};

verus! {

/// The LSP completion item kind of a method.
pub const KIND_METHOD: i32 = 2;

/// The LSP completion item kind of a function.
pub const KIND_FUNCTION: i32 = 3;

/// The LSP completion item kind of a field.
pub const KIND_FIELD: i32 = 5;

/// The LSP completion item kind of a variable.
pub const KIND_VARIABLE: i32 = 6;

/// The LSP completion item kind of a class.
pub const KIND_CLASS: i32 = 7;

/// The LSP completion item kind of an interface.
pub const KIND_INTERFACE: i32 = 8;

/// The LSP completion item kind of a value.
pub const KIND_VALUE: i32 = 12;

/// The LSP completion item kind of an enum.
pub const KIND_ENUM: i32 = 13;

/// The LSP completion item kind of a keyword.
pub const KIND_KEYWORD: i32 = 14;

/// The LSP completion item kind of an enum member.
pub const KIND_ENUM_MEMBER: i32 = 20;

/// The LSP completion item kind of a constant.
pub const KIND_CONSTANT: i32 = 21;

/// The LSP completion item kind of a struct.
pub const KIND_STRUCT: i32 = 22;

/// A highlight name of the editor's syntax themes.
#[derive(Debug, Clone, Copy, PartialEq, Eq, Structural)]
pub enum HighlightName {
    Type,
    Variant,
    Keyword,
    Constant,
}

/// How a completion label is highlighted.
#[derive(Debug, Clone, Copy, PartialEq, Eq, Structural)]
pub enum LabelHighlight {
    /// As C++ code: the text is the field declaration inside
    /// `struct S { .. }`.
    AsField,
    /// As C++ code: the text on its own.
    AsCode,
    /// Its first bytes, up to the given end, with the named highlight, when
    /// the grammar has it.
    Named(HighlightName, usize),
    /// Not at all.
    Plain,
}

/// The label the editor shows for a completion: its text, the byte range
/// of the text that filtering matches, and how it is highlighted.
#[derive(Debug, Clone)]
pub struct CompletionLabel {
    pub text: String,
    pub filter_start: usize,
    pub filter_end: usize,
    pub highlight: LabelHighlight,
}

/// `s` without a leading bullet `•`.
pub open spec fn strip_bullet(s: Seq<char>) -> Seq<char> {
    if s.len() > 0 && s[0] == '•' {
        s.drop_first()
    } else {
        s
    }
}

/// Whether the kind is a function or a method.
pub open spec fn is_callable(kind: Option<i32>) -> bool {
    kind == Some(KIND_FUNCTION) || kind == Some(KIND_METHOD)
}

/// The label of a completion before any detail is put in front: the label
/// without a leading bullet, trimmed, followed by the trimmed label detail
/// when there is one, with a space between unless the item is a function
/// or a method or either side already has the space.
pub open spec fn base_label(label: Seq<char>, label_detail: Option<Seq<char>>, kind: Option<i32>) -> Seq<char> {
    let d = match label_detail {
        Some(d) => trim(d),
        None => Seq::empty(),
    };
    let l = trim(strip_bullet(label));
    if d.len() == 0 {
        l
    } else if !is_callable(kind) && !finishes_with(l, seq![' ']) && !begins_with(d, seq![' ']) {
        l + seq![' '] + d
    } else {
        l + d
    }
}

/// The byte range of the first occurrence of `filter` in `text`, or
/// `default` when there is no filter text or it does not occur.
pub open spec fn filter_range(text: Seq<char>, filter: Option<Seq<char>>, default: (int, int)) -> (int, int) {
    match filter {
        Some(f) => match find_from(text, f, 0) {
            Some(i) => (bytes_before(text, i) as int, bytes_before(text, i + f.len()) as int),
            None => default,
        },
        None => default,
    }
}

/// The byte offset of the last `(` in `text`, or its length when it has
/// none.
pub open spec fn paren_end(text: Seq<char>) -> int {
    match last_index_of(text, '(') {
        Some(j) => bytes_before(text, j) as int,
        None => utf8_len(text) as int,
    }
}

/// The highlight name for a completion kind, if it has one.
pub open spec fn kind_highlight(kind: i32) -> Option<HighlightName> {
    if kind == KIND_STRUCT || kind == KIND_INTERFACE || kind == KIND_CLASS || kind == KIND_ENUM {
        Some(HighlightName::Type)
    } else if kind == KIND_ENUM_MEMBER {
        Some(HighlightName::Variant)
    } else if kind == KIND_KEYWORD {
        Some(HighlightName::Keyword)
    } else if kind == KIND_VALUE || kind == KIND_CONSTANT {
        Some(HighlightName::Constant)
    } else {
        None
    }
}

/// The label of a completion: text, filter start and end, and highlight.
///
/// A field, constant, variable, function or method with a detail (its type)
/// shows the detail, a space and the label; filtering matches the filter
/// text where it occurs, else what follows the detail (for a function or a
/// method, up to the last `(` when that lies past the detail).  Any other
/// item shows its label, filtered on the filter text where it occurs, else
/// on the whole text; a kind with a highlight name highlights the text up
/// to its last `(`.
pub open spec fn completion_label_spec(
    label: Seq<char>,
    label_detail: Option<Seq<char>>,
    detail: Option<Seq<char>>,
    kind: Option<i32>,
    filter_text: Option<Seq<char>>,
) -> (Seq<char>, (int, int), LabelHighlight) {
    let l = base_label(label, label_detail, kind);
    match detail {
        Some(d) if kind == Some(KIND_FIELD) || kind == Some(KIND_CONSTANT) || kind == Some(KIND_VARIABLE)
            || is_callable(kind) => {
            let text = d + seq![' '] + l;
            let start = (utf8_len(d) + 1) as int;
            let end = if is_callable(kind) && paren_end(text) > start {
                paren_end(text)
            } else {
                utf8_len(text) as int
            };
            let highlight = if kind == Some(KIND_FIELD) {
                LabelHighlight::AsField
            } else {
                LabelHighlight::AsCode
            };
            (text, filter_range(text, filter_text, (start, end)), highlight)
        },
        _ => {
            let highlight = match kind {
                Some(k) => match kind_highlight(k) {
                    Some(h) => LabelHighlight::Named(h, paren_end(l) as usize),
                    None => LabelHighlight::Plain,
                },
                None => LabelHighlight::Plain,
            };
            (l, filter_range(l, filter_text, (0, utf8_len(l) as int)), highlight)
        },
    }
}

/// The byte range of the first occurrence of `filter` in `text`, or the
/// default range.
fn find_filter(text: &String, filter_text: Option<&str>, default_start: usize, default_end: usize) -> (res: (
    usize,
    usize,
))
    requires
        utf8_len(text@) <= usize::MAX,
    ensures
        (res.0 as int, res.1 as int) == filter_range(
            text@,
            match filter_text {
                Some(f) => Some(f@),
                None => None,
            },
            (default_start as int, default_end as int),
        ),
{
    match filter_text {
        Some(f) => {
            let cs = chars_of(text.as_str());
            let fs = chars_of(f);
            match find_text(&cs, &fs) {
                Some(i) => {
                    proof {
                        assert(cs@ =~= text@.subrange(0, text@.len() as int));
                        assert(fs@ =~= f@.subrange(0, f@.len() as int));
                    }
                    let start = bytes_to(&cs, i);
                    let end = bytes_to(&cs, i + fs.len());
                    (start, end)
                },
                None => {
                    proof {
                        assert(cs@ =~= text@.subrange(0, text@.len() as int));
                        assert(fs@ =~= f@.subrange(0, f@.len() as int));
                    }
                    (default_start, default_end)
                },
            }
        },
        None => (default_start, default_end),
    }
}

/// The byte offset of the last `(` in `text`, or its length.
fn paren_offset(text: &String) -> (res: usize)
    requires
        utf8_len(text@) <= usize::MAX,
    ensures
        res as int == paren_end(text@),
{
    let cs = chars_of(text.as_str());
    proof {
        assert(cs@ =~= text@.subrange(0, text@.len() as int));
    }
    match find_last_char(&cs, '(') {
        Some(j) => bytes_to(&cs, j),
        None => byte_len(text.as_str()),
    }
}

/// The label text before any detail is put in front, as `base_label`.
fn make_base_label(label: &str, label_detail: Option<&str>, kind: Option<i32>) -> (res: String)
    ensures
        res@ == base_label(
            label@,
            match label_detail {
                Some(d) => Some(d@),
                None => None,
            },
            kind,
        ),
{
    let d = match label_detail {
        Some(d) => trimmed(d),
        None => String::new(),
    };
    let n = label.unicode_len();
    let stripped = if n > 0 && label.get_char(0) == '•' {
        let s = string_of_range(label, 1, n);
        proof {
            assert(s@ =~= label@.drop_first());
        }
        s
    } else {
        proof {
            assert(label@.subrange(0, n as int) =~= label@);
        }
        string_of_range(label, 0, n)
    };
    let mut l = trimmed(stripped.as_str());
    if d.as_str().unicode_len() == 0 {
        return l;
    }
    let callable = match kind {
        Some(k) => k == KIND_FUNCTION || k == KIND_METHOD,
        None => false,
    };
    proof {
        reveal_strlit(" ");
        assert(" "@ =~= seq![' ']);
    }
    let ghost l0 = l@;
    let ghost d0 = d@;
    if !callable && !text_ends_with(l.as_str(), " ") && !text_starts_with(d.as_str(), " ") {
        l.append(" ");
        l.append(d.as_str());
        assert(l@ =~= l0 + seq![' '] + d0);
    } else {
        l.append(d.as_str());
    }
    l
}

/// The label the editor shows for a C or C++ completion item, made of the
/// item's label, label detail, detail (its type), kind and filter text, as
/// `completion_label_spec` says.
pub fn completion_label(
    label: &str,
    label_detail: Option<&str>,
    detail: Option<&str>,
    kind: Option<i32>,
    filter_text: Option<&str>,
) -> (res: CompletionLabel)
    ensures
        ({
            let spec = completion_label_spec(
                label@,
                match label_detail {
                    Some(d) => Some(d@),
                    None => None,
                },
                match detail {
                    Some(d) => Some(d@),
                    None => None,
                },
                kind,
                match filter_text {
                    Some(f) => Some(f@),
                    None => None,
                },
            );
            &&& res.text@ == spec.0
            &&& res.filter_start as int == spec.1.0
            &&& res.filter_end as int == spec.1.1
            &&& res.highlight == spec.2
        }),
{
    let l = make_base_label(label, label_detail, kind);
    let with_detail = match kind {
        Some(k) => k == KIND_FIELD || k == KIND_CONSTANT || k == KIND_VARIABLE || k == KIND_FUNCTION || k
            == KIND_METHOD,
        None => false,
    };
    match detail {
        Some(d) if with_detail => {
            let mut text = String::from_str(d);
            proof {
                reveal_strlit(" ");
            }
            text.append(" ");
            text.append(l.as_str());
            assert(" "@ =~= seq![' ']);
            proof {
                lemma_utf8_len_add(d@, seq![' ']);
                lemma_utf8_len_add(d@ + seq![' '], l@);
                assert(utf8_len(seq![' ']) == 1) by {
                    assert(seq![' '].drop_last() =~= Seq::<char>::empty());
                    assert(seq![' '].last() == ' ');
                    assert((' ' as u32) == 32);
                    assert(utf8_len(Seq::<char>::empty()) == 0);
                    assert(utf8_width(' ') == 1);
                }
            }
            let total = byte_len(text.as_str());
            let start = byte_len(d) + 1;
            let callable = k_callable(kind);
            let end = if callable {
                let p = paren_offset(&text);
                if p > start {
                    p
                } else {
                    total
                }
            } else {
                total
            };
            let (fs, fe) = find_filter(&text, filter_text, start, end);
            let highlight = if kind == Some(KIND_FIELD) {
                LabelHighlight::AsField
            } else {
                LabelHighlight::AsCode
            };
            CompletionLabel { text, filter_start: fs, filter_end: fe, highlight }
        },
        _ => {
            let total = byte_len(l.as_str());
            let highlight = match kind {
                Some(k) => {
                    let name = if k == KIND_STRUCT || k == KIND_INTERFACE || k == KIND_CLASS || k == KIND_ENUM {
                        Some(HighlightName::Type)
                    } else if k == KIND_ENUM_MEMBER {
                        Some(HighlightName::Variant)
                    } else if k == KIND_KEYWORD {
                        Some(HighlightName::Keyword)
                    } else if k == KIND_VALUE || k == KIND_CONSTANT {
                        Some(HighlightName::Constant)
                    } else {
                        None
                    };
                    match name {
                        Some(h) => LabelHighlight::Named(h, paren_offset(&l)),
                        None => LabelHighlight::Plain,
                    }
                },
                None => LabelHighlight::Plain,
            };
            let (fs, fe) = find_filter(&l, filter_text, 0, total);
            CompletionLabel { text: l, filter_start: fs, filter_end: fe, highlight }
        },
    }
}

/// Whether the kind is a function or a method, as `is_callable`.
fn k_callable(kind: Option<i32>) -> (res: bool)
    ensures
        res == is_callable(kind),
{
    match kind {
        Some(k) => k == KIND_FUNCTION || k == KIND_METHOD,
        None => false,
    }
}

/// The LSP symbol kind of a module.
pub const SYMBOL_MODULE: i32 = 2;

/// The LSP symbol kind of a class.
pub const SYMBOL_CLASS: i32 = 5;

/// The LSP symbol kind of a method.
pub const SYMBOL_METHOD: i32 = 6;

/// The LSP symbol kind of an enum.
pub const SYMBOL_ENUM: i32 = 10;

/// The LSP symbol kind of an interface.
pub const SYMBOL_INTERFACE: i32 = 11;

/// The LSP symbol kind of a function.
pub const SYMBOL_FUNCTION: i32 = 12;

/// The LSP symbol kind of a constant.
pub const SYMBOL_CONSTANT: i32 = 14;

/// The LSP symbol kind of a struct.
pub const SYMBOL_STRUCT: i32 = 23;

/// The LSP symbol kind of a type parameter.
pub const SYMBOL_TYPE_PARAMETER: i32 = 26;

/// The label the editor shows for a symbol: its text, the byte range of
/// the text that filtering matches, and the C++ code whose highlighting,
/// over the display byte range, colours the text.
#[derive(Debug, Clone)]
pub struct SymbolLabel {
    pub text: String,
    pub filter_start: usize,
    pub filter_end: usize,
    pub code: String,
    pub display_start: usize,
    pub display_end: usize,
}

/// Whether a symbol kind is labelled by its name alone.
pub open spec fn is_callable_symbol(kind: i32) -> bool {
    kind == SYMBOL_METHOD || kind == SYMBOL_FUNCTION
}

/// The C++ code put before and after a symbol's name to highlight it, for
/// the kinds that get a label.
pub open spec fn symbol_code(kind: i32) -> Option<(Seq<char>, Seq<char>)> {
    if is_callable_symbol(kind) {
        Some(("void "@, " () {}"@))
    } else if kind == SYMBOL_STRUCT {
        Some(("struct "@, " {}"@))
    } else if kind == SYMBOL_ENUM {
        Some(("enum "@, " {}"@))
    } else if kind == SYMBOL_INTERFACE || kind == SYMBOL_CLASS {
        Some(("class "@, " {}"@))
    } else if kind == SYMBOL_CONSTANT {
        Some(("const int "@, " = 0;"@))
    } else if kind == SYMBOL_MODULE {
        Some(("namespace "@, " {}"@))
    } else if kind == SYMBOL_TYPE_PARAMETER {
        Some(("typename "@, " {};"@))
    } else {
        None
    }
}

/// The label the editor shows for a C or C++ symbol, `None` for a kind it
/// does not label.  The code is the name between the kind's code before
/// and after it.  A function or method shows its name, displayed from
/// after `void `, and is filtered on all of it; any other kind shows the
/// code up to the end of the name, filtered on the name.
pub fn symbol_label(name: &str, kind: i32) -> (res: Option<SymbolLabel>)
    ensures
        res is Some <==> symbol_code(kind) is Some,
        res matches Some(l) ==> {
            let (pre, post) = symbol_code(kind)->Some_0;
            let p = utf8_len(pre) as int;
            let n = utf8_len(name@) as int;
            &&& l.code@ == pre + name@ + post
            &&& if is_callable_symbol(kind) {
                &&& l.text@ == name@
                &&& l.filter_start == 0 && l.filter_end as int == n
                &&& l.display_start as int == p && l.display_end as int == p + n
            } else {
                &&& l.text@ == pre + name@
                &&& l.filter_start as int == p && l.filter_end as int == p + n
                &&& l.display_start == 0 && l.display_end as int == p + n
            }
        },
{
    let callable = kind == SYMBOL_METHOD || kind == SYMBOL_FUNCTION;
    let (pre, post): (&str, &str) = if callable {
        ("void ", " () {}")
    } else if kind == SYMBOL_STRUCT {
        ("struct ", " {}")
    } else if kind == SYMBOL_ENUM {
        ("enum ", " {}")
    } else if kind == SYMBOL_INTERFACE || kind == SYMBOL_CLASS {
        ("class ", " {}")
    } else if kind == SYMBOL_CONSTANT {
        ("const int ", " = 0;")
    } else if kind == SYMBOL_MODULE {
        ("namespace ", " {}")
    } else if kind == SYMBOL_TYPE_PARAMETER {
        ("typename ", " {};")
    } else {
        return None;
    };
    assert(symbol_code(kind) == Some((pre@, post@)));
    let mut code = String::from_str(pre);
    code.append(name);
    code.append(post);
    let total = byte_len(code.as_str());
    let p = byte_len(pre);
    let n = byte_len(name);
    proof {
        lemma_utf8_len_add(pre@, name@);
        lemma_utf8_len_add(pre@ + name@, post@);
    }
    if callable {
        let text = String::from_str(name);
        Some(SymbolLabel { text, filter_start: 0, filter_end: n, code, display_start: p, display_end: p + n })
    } else {
        let mut text = String::from_str(pre);
        text.append(name);
        Some(SymbolLabel { text, filter_start: p, filter_end: p + n, code, display_start: 0, display_end: p + n })
    }
}

/// Which symbols get a label: exactly modules (2), classes (5), methods
/// (6), enums (10), interfaces (11), functions (12), constants (14),
/// structs (23) and type parameters (26), by their LSP symbol kinds.  A
/// class is labelled as an interface is, `class <name> {}`, and every
/// label's filter range starts where its code puts the name: after 5 bytes
/// (`void `, `enum `), 6 (`class `), 7 (`struct `), 9 (`typename `) or 10
/// (`const int `, `namespace `).
pub proof fn lemma_symbol_kinds_labelled(kind: i32)
    ensures
        symbol_code(kind) is Some <==> (kind == 2 || kind == 5 || kind == 6 || kind == 10 || kind == 11
            || kind == 12 || kind == 14 || kind == 23 || kind == 26),
        symbol_code(5) == symbol_code(11),
        symbol_code(5) == Some(("class "@, " {}"@)),
        symbol_code(kind) matches Some((pre, post)) ==> utf8_len(pre) == if kind == 6 || kind == 12 || kind == 10 {
            5nat
        } else if kind == 5 || kind == 11 {
            6nat
        } else if kind == 23 {
            7nat
        } else if kind == 26 {
            9nat
        } else {
            10nat
        },
{
    reveal_strlit("void ");
    reveal_strlit("class ");
    reveal_strlit("struct ");
    reveal_strlit("enum ");
    reveal_strlit("const int ");
    reveal_strlit("namespace ");
    reveal_strlit("typename ");
    reveal_with_fuel(utf8_len, 11);
}

} // verus!
