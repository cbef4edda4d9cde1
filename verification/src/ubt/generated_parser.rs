//! Reading UE generated headers (`.generated.h`): the class they belong
//! to, the reflected properties and functions they declare, where the
//! `GENERATED_BODY` macro stands, and the files they include.

use vstd::prelude::*;
use vstd::string::StringExecFns;
use crate::util::path::{file_name, file_stem, spec_file_name, spec_file_stem};
use crate::util::pattern::{
    compile, compiled_from, compiled_source, group_text, held_source, match_groups, match_opt, Pattern,
};
use crate::util::scan::{begins_with, finishes_with, has_text, text_contains, text_ends_with, text_starts_with, trimmed};
use crate::util::seqs::{lemma_somes_push, somes};
use crate::util::text::{
    is_white, lead_white, lemma_lead_white_first, lemma_trail_white_last, lemma_trim_prefix, split_lines,
    string_of_range, text_lines, trail_white, trim,
};

verus! {

/// A `UPROPERTY(...)` with its declaration on the same line: the type is
/// group 1, the name group 2.
pub const PROPERTY_PATTERN: &'static str = r"UPROPERTY\(.*\)\s+(?P<type>[\w:]+)\s+(?P<name>\w+);";

/// A `UFUNCTION(...)` with its declaration on the same line: the return
/// type is group 1, the name group 2.
pub const FUNCTION_PATTERN: &'static str = r"UFUNCTION\(.*\)\s+(?:static\s+)?(?P<return>[\w:]+)\s+(?P<name>\w+)\s*\(";

/// An `#include "file"` directive: the file is group 1.
pub const INCLUDE_PATTERN: &'static str = r#"#include\s+"(?P<file>[^"]+)""#;

/// A variable declaration: the type is group 1, the name group 2.
pub const DECL_PATTERN: &'static str = r"(?P<type>[\w:]+)\s+(?P<name>\w+);";

/// A function declaration: the return type is group 1, the name group 2.
pub const FUNC_DECL_PATTERN: &'static str = r"(?:static\s+)?(?P<return>[\w:]+)\s+(?P<name>\w+)\s*\(";

/// The suffix of a generated header's stem.
pub const GENERATED_SUFFIX: &'static str = ".generated";

/// The end of a generated header's file name.
pub const GENERATED_HEADER_SUFFIX: &'static str = ".generated.h";

/// The name (group 2) and type (group 1) of a declaration match, when both
/// took part.
pub open spec fn name_and_type(g: Seq<Option<Seq<char>>>) -> Option<(Seq<char>, Seq<char>)> {
    if g.len() > 2 && g[1] is Some && g[2] is Some {
        Some((g[2]->0, g[1]->0))
    } else {
        None
    }
}

/// The name and type of a match, if there is a match.
pub open spec fn name_and_type_in(m: Option<Seq<Option<Seq<char>>>>) -> Option<(Seq<char>, Seq<char>)> {
    match m {
        Some(g) => name_and_type(g),
        None => None,
    }
}

/// What line `k` declares under `marker`: a declaration that `own` finds on
/// the line itself; failing a match there, a line that starts (after white
/// space) with `marker` declares what `next` finds on the following line.
pub open spec fn declared_at(
    lines: Seq<Seq<char>>,
    k: int,
    own: Seq<char>,
    marker: Seq<char>,
    next: Seq<char>,
) -> Option<(Seq<char>, Seq<char>)> {
    match match_groups(own, lines[k]) {
        Some(g) => name_and_type(g),
        None => if begins_with(trim(lines[k]), marker) && k + 1 < lines.len() {
            name_and_type_in(match_groups(next, lines[k + 1]))
        } else {
            None
        },
    }
}

/// A property as values: name, type, offset, flags.
pub type PropertyView = (Seq<char>, Seq<char>, usize, Seq<Seq<char>>);

/// A function as values: name, return type, parameters, flags.
pub type FunctionView = (Seq<char>, Seq<char>, Seq<Seq<char>>, Seq<Seq<char>>);

/// The property line `k` declares, if any.
pub open spec fn property_at(lines: Seq<Seq<char>>, k: int) -> Option<PropertyView> {
    match declared_at(lines, k, PROPERTY_PATTERN@, "UPROPERTY"@, DECL_PATTERN@) {
        Some(d) => Some((d.0, d.1, 0usize, Seq::empty())),
        None => None,
    }
}

/// The function line `k` declares, if any.
pub open spec fn function_at(lines: Seq<Seq<char>>, k: int) -> Option<FunctionView> {
    match declared_at(lines, k, FUNCTION_PATTERN@, "UFUNCTION"@, FUNC_DECL_PATTERN@) {
        Some(d) => Some((d.0, d.1, Seq::empty(), Seq::empty())),
        None => None,
    }
}

/// The properties declared in the first `n` lines, in order.
pub open spec fn properties_upto(lines: Seq<Seq<char>>, n: int) -> Seq<PropertyView> {
    somes(Seq::new(n as nat, |k: int| property_at(lines, k)))
}

/// The functions declared in the first `n` lines, in order.
pub open spec fn functions_upto(lines: Seq<Seq<char>>, n: int) -> Seq<FunctionView> {
    somes(Seq::new(n as nat, |k: int| function_at(lines, k)))
}

/// Whether a line holds the `GENERATED_BODY()` or `GENERATED_UCLASS_BODY()`
/// macro.
pub open spec fn marks_body(line: Seq<char>) -> bool {
    has_text(line, "GENERATED_BODY()"@) || has_text(line, "GENERATED_UCLASS_BODY()"@)
}

/// The number (from 1) of the last of the first `n` lines that holds the
/// body macro.
pub open spec fn body_line_upto(lines: Seq<Seq<char>>, n: int) -> Option<int>
    decreases n,
{
    if n <= 0 {
        None
    } else if marks_body(lines[n - 1]) {
        Some(n)
    } else {
        body_line_upto(lines, n - 1)
    }
}

/// The file each line includes, in order.
pub open spec fn includes_of(lines: Seq<Seq<char>>) -> Seq<Seq<char>> {
    somes(lines.map_values(|l: Seq<char>| include_on(l)))
}

/// The file a line includes, if it holds an `#include "..."`.
pub open spec fn include_on(line: Seq<char>) -> Option<Seq<char>> {
    match match_groups(INCLUDE_PATTERN@, line) {
        Some(g) => if g.len() > 1 { g[1] } else { None },
        None => None,
    }
}

/// The class a generated header belongs to: its file stem without the
/// `.generated` suffix.
pub open spec fn class_name_of(path: Seq<char>) -> Option<Seq<char>> {
    match spec_file_stem(path) {
        Some(stem) => Some(
            if finishes_with(stem, GENERATED_SUFFIX@) {
                stem.subrange(0, stem.len() - GENERATED_SUFFIX@.len())
            } else {
                stem
            },
        ),
        None => None,
    }
}

/// Metadata of a reflected property.
#[derive(Debug, Clone)]
pub struct PropertyMetadata {
    pub name: String,
    pub property_type: String,
    pub offset: usize,
    pub flags: Vec<String>,
}

impl DeepView for PropertyMetadata {
    type V = PropertyView;

    open spec fn deep_view(&self) -> PropertyView {
        (self.name@, self.property_type@, self.offset, self.flags.deep_view())
    }
}

/// Metadata of a reflected function.
#[derive(Debug, Clone)]
pub struct FunctionMetadata {
    pub name: String,
    pub return_type: String,
    pub parameters: Vec<String>,
    pub flags: Vec<String>,
}

impl DeepView for FunctionMetadata {
    type V = FunctionView;

    open spec fn deep_view(&self) -> FunctionView {
        (self.name@, self.return_type@, self.parameters.deep_view(), self.flags.deep_view())
    }
}

/// The reflection data of a generated header.
#[derive(Debug, Clone)]
pub struct ReflectionData {
    pub properties: Vec<PropertyMetadata>,
    pub functions: Vec<FunctionMetadata>,
    /// The number (from 1) of the last line holding the body macro.
    pub generated_body_line: Option<usize>,
}

/// What a generated header tells.
#[derive(Debug, Clone)]
pub struct GeneratedInfo {
    pub file_path: String,
    pub class_name: String,
    pub reflection_data: ReflectionData,
    pub include_dependencies: Vec<String>,
}

/// The name (group 2) and type (group 1) of a declaration match, when both
/// took part.
pub fn name_and_type_of(groups: &Vec<Option<String>>) -> (res: Option<(String, String)>)
    ensures
        match res {
            Some(p) => name_and_type(groups.deep_view()) == Some((p.0@, p.1@)),
            None => name_and_type(groups.deep_view()) is None,
        },
{
    match (group_text(groups, 2), group_text(groups, 1)) {
        (Some(name), Some(ty)) => Some((name, ty)),
        _ => None,
    }
}

/// The name and type of the declaration `re` finds in `line`.
fn name_type_in(re: &Option<Pattern>, line: &str) -> (res: Option<(String, String)>)
    ensures
        forall|s: Seq<char>|
            compiled_from(*re, s) ==> match res {
                Some(p) => name_and_type_in(match_groups(s, line@)) == Some((p.0@, p.1@)),
                None => name_and_type_in(match_groups(s, line@)) is None,
            },
{
    match match_opt(re, line) {
        Some(g) => name_and_type_of(&g),
        None => None,
    }
}

/// Reads UE generated headers.
pub struct GeneratedHeaderParser {
    property_re: Option<Pattern>,
    function_re: Option<Pattern>,
    include_re: Option<Pattern>,
}

impl GeneratedHeaderParser {
    /// Each expression is compiled from its pattern.
    #[verifier::type_invariant]
    spec fn holds_patterns(self) -> bool {
        &&& compiled_from(self.property_re, PROPERTY_PATTERN@)
        &&& compiled_from(self.function_re, FUNCTION_PATTERN@)
        &&& compiled_from(self.include_re, INCLUDE_PATTERN@)
    }

    /// A parser with its three expressions compiled.
    pub fn new() -> (res: Self)
        ensures
            res@ == (
                compiled_source(PROPERTY_PATTERN@),
                compiled_source(FUNCTION_PATTERN@),
                compiled_source(INCLUDE_PATTERN@),
            ),
    {
        GeneratedHeaderParser {
            property_re: compile(PROPERTY_PATTERN),
            function_re: compile(FUNCTION_PATTERN),
            include_re: compile(INCLUDE_PATTERN),
        }
    }

    /// The class a generated header belongs to: the file stem without its
    /// `.generated` suffix (`MyClass.generated.h` gives `MyClass`); none
    /// when the path has no file name.
    pub fn extract_class_name(&self, path: &str) -> (res: Option<String>)
        ensures
            res.deep_view() == class_name_of(path@),
    {
        match file_stem(path) {
            Some(stem) => {
                if text_ends_with(stem.as_str(), GENERATED_SUFFIX) {
                    let n = stem.as_str().unicode_len();
                    let k = GENERATED_SUFFIX.unicode_len();
                    Some(string_of_range(stem.as_str(), 0, n - k))
                } else {
                    Some(stem)
                }
            },
            None => None,
        }
    }

    /// The declaration line `i` makes under `marker`.
    fn declared_line(
        lines: &Vec<String>,
        i: usize,
        own: &Option<Pattern>,
        marker: &str,
        next: &Option<Pattern>,
    ) -> (res: Option<(String, String)>)
        requires
            i < lines.len(),
        ensures
            forall|so: Seq<char>, sn: Seq<char>|
                compiled_from(*own, so) && compiled_from(*next, sn) ==> match res {
                    Some(p) => declared_at(lines.deep_view(), i as int, so, marker@, sn) == Some(
                        (p.0@, p.1@),
                    ),
                    None => declared_at(lines.deep_view(), i as int, so, marker@, sn) is None,
                },
    {
        let line = lines[i].as_str();
        match match_opt(own, line) {
            Some(g) => name_and_type_of(&g),
            None => {
                let t = trimmed(line);
                if text_starts_with(t.as_str(), marker) && i + 1 < lines.len() {
                    name_type_in(next, lines[i + 1].as_str())
                } else {
                    None
                }
            },
        }
    }

    /// The reflected properties and functions a generated header declares,
    /// in order, and the number of the last line holding the body macro.
    pub fn parse_reflection_data(&self, content: &str) -> (res: ReflectionData)
        ensures
            res.properties.deep_view() == properties_upto(
                text_lines(content@),
                text_lines(content@).len() as int,
            ),
            res.functions.deep_view() == functions_upto(
                text_lines(content@),
                text_lines(content@).len() as int,
            ),
            match res.generated_body_line {
                Some(n) => body_line_upto(text_lines(content@), text_lines(content@).len() as int)
                    == Some(n as int),
                None => body_line_upto(text_lines(content@), text_lines(content@).len() as int)
                    is None,
            },
    {
        proof {
            use_type_invariant(self);
        }
        let lines = split_lines(content);
        let ghost ls = text_lines(content@);
        let decl_re = compile(DECL_PATTERN);
        let func_decl_re = compile(FUNC_DECL_PATTERN);
        let mut properties: Vec<PropertyMetadata> = Vec::new();
        let mut functions: Vec<FunctionMetadata> = Vec::new();
        let mut body_line: Option<usize> = None;
        let mut i: usize = 0;
        while i < lines.len()
            invariant
                lines.deep_view() == ls,
                i <= lines.len(),
                compiled_from(self.property_re, PROPERTY_PATTERN@),
                compiled_from(self.function_re, FUNCTION_PATTERN@),
                compiled_from(decl_re, DECL_PATTERN@),
                compiled_from(func_decl_re, FUNC_DECL_PATTERN@),
                properties.deep_view() == properties_upto(ls, i as int),
                functions.deep_view() == functions_upto(ls, i as int),
                match body_line {
                    Some(n) => body_line_upto(ls, i as int) == Some(n as int),
                    None => body_line_upto(ls, i as int) is None,
                },
            decreases lines.len() - i,
        {
            let ghost pf = |k: int| property_at(ls, k);
            let ghost ff = |k: int| function_at(ls, k);
            proof {
                assert(Seq::new((i + 1) as nat, pf) =~= Seq::new(i as nat, pf).push(pf(i as int)));
                assert(Seq::new((i + 1) as nat, ff) =~= Seq::new(i as nat, ff).push(ff(i as int)));
                lemma_somes_push(Seq::new(i as nat, pf), pf(i as int));
                lemma_somes_push(Seq::new(i as nat, ff), ff(i as int));
            }
            let p = Self::declared_line(&lines, i, &self.property_re, "UPROPERTY", &decl_re);
            match p {
                Some((name, property_type)) => {
                    let ghost before = properties.deep_view();
                    let m = PropertyMetadata { name, property_type, offset: 0, flags: Vec::new() };
                    properties.push(m);
                    proof {
                        assert(m.flags.deep_view() =~= Seq::<Seq<char>>::empty());
                        assert(properties.deep_view() =~= before.push(m.deep_view()));
                    }
                },
                None => {},
            }
            let f = Self::declared_line(&lines, i, &self.function_re, "UFUNCTION", &func_decl_re);
            match f {
                Some((name, return_type)) => {
                    let ghost before = functions.deep_view();
                    let m = FunctionMetadata { name, return_type, parameters: Vec::new(), flags: Vec::new() };
                    functions.push(m);
                    proof {
                        assert(m.flags.deep_view() =~= Seq::<Seq<char>>::empty());
                        assert(m.parameters.deep_view() =~= Seq::<Seq<char>>::empty());
                        assert(functions.deep_view() =~= before.push(m.deep_view()));
                    }
                },
                None => {},
            }
            let line = lines[i].as_str();
            if text_contains(line, "GENERATED_BODY()") || text_contains(line, "GENERATED_UCLASS_BODY()") {
                body_line = Some(i + 1);
            }
            i = i + 1;
        }
        ReflectionData { properties, functions, generated_body_line: body_line }
    }

    /// The files a header includes with `#include "..."`, in order.
    pub fn parse_includes(&self, content: &str) -> (res: Vec<String>)
        ensures
            res.deep_view() == includes_of(text_lines(content@)),
    {
        proof {
            use_type_invariant(self);
        }
        let lines = split_lines(content);
        let ghost ls = text_lines(content@);
        let ghost fi = |l: Seq<char>| include_on(l);
        let mut includes: Vec<String> = Vec::new();
        let mut i: usize = 0;
        while i < lines.len()
            invariant
                lines.deep_view() == ls,
                i <= lines.len(),
                fi == (|l: Seq<char>| include_on(l)),
                compiled_from(self.include_re, INCLUDE_PATTERN@),
                includes.deep_view() == somes(ls.take(i as int).map_values(fi)),
            decreases lines.len() - i,
        {
            proof {
                assert(ls.take(i + 1).map_values(fi) =~= ls.take(i as int).map_values(fi).push(fi(ls[i as int])));
                lemma_somes_push(ls.take(i as int).map_values(fi), fi(ls[i as int]));
            }
            match match_opt(&self.include_re, lines[i].as_str()) {
                Some(g) => {
                    match group_text(&g, 1) {
                        Some(file) => {
                            let ghost before = includes.deep_view();
                            includes.push(file);
                            proof {
                                assert(includes.deep_view() =~= before.push(file@));
                            }
                        },
                        None => {},
                    }
                },
                None => {},
            }
            i = i + 1;
        }
        proof {
            assert(ls.take(i as int) =~= ls);
        }
        includes
    }

    /// What the generated header at `path` with text `content` tells; none
    /// when the path has no file name.
    pub fn parse_content(&self, path: &str, content: &str) -> (res: Option<GeneratedInfo>)
        ensures
            res is Some <==> class_name_of(path@) is Some,
            res matches Some(info) ==> {
                &&& info.file_path@ == path@
                &&& Some(info.class_name@) == class_name_of(path@)
                &&& info.reflection_data.properties.deep_view() == properties_upto(
                    text_lines(content@),
                    text_lines(content@).len() as int,
                )
                &&& info.reflection_data.functions.deep_view() == functions_upto(
                    text_lines(content@),
                    text_lines(content@).len() as int,
                )
                &&& match info.reflection_data.generated_body_line {
                    Some(n) => body_line_upto(text_lines(content@), text_lines(content@).len() as int)
                        == Some(n as int),
                    None => body_line_upto(text_lines(content@), text_lines(content@).len() as int)
                        is None,
                }
                &&& info.include_dependencies.deep_view() == includes_of(text_lines(content@))
            },
    {
        match self.extract_class_name(path) {
            Some(class_name) => {
                let reflection_data = self.parse_reflection_data(content);
                let include_dependencies = self.parse_includes(content);
                Some(
                    GeneratedInfo {
                        file_path: String::from_str(path),
                        class_name,
                        reflection_data,
                        include_dependencies,
                    },
                )
            },
            None => None,
        }
    }

    /// Whether a path names a generated header: its file name ends with
    /// `.generated.h`.
    pub fn is_generated_header(path: &str) -> (res: bool)
        ensures
            res == (spec_file_name(path@) matches Some(n) && finishes_with(n, GENERATED_HEADER_SUFFIX@)),
    {
        match file_name(path) {
            Some(n) => text_ends_with(n.as_str(), GENERATED_HEADER_SUFFIX),
            None => false,
        }
    }
}

impl View for GeneratedHeaderParser {
    /// The texts of the property, function and include expressions held.
    type V = (Option<Seq<char>>, Option<Seq<char>>, Option<Seq<char>>);

    closed spec fn view(&self) -> Self::V {
        (held_source(self.property_re), held_source(self.function_re), held_source(self.include_re))
    }
}

impl Default for GeneratedHeaderParser {
    fn default() -> (res: Self)
        ensures
            res@ == (
                compiled_source(PROPERTY_PATTERN@),
                compiled_source(FUNCTION_PATTERN@),
                compiled_source(INCLUDE_PATTERN@),
            ),
    {
        Self::new()
    }
}

/// Indenting a line of a header does not change the properties and
/// functions found in it: a line that starts with `UPROPERTY` or
/// `UFUNCTION` after any white space is a marker line, whatever white
/// space it starts with.  This holds for every indentation of every line
/// whose matches under the four expressions indentation leaves alone (as
/// the unanchored searches of the declaration expressions do).
pub proof fn lemma_indentation_irrelevant(lines: Seq<Seq<char>>, k: int, w: Seq<char>)
    requires
        0 <= k < lines.len(),
        forall|i: int| 0 <= i < w.len() ==> is_white(#[trigger] w[i]),
        match_groups(PROPERTY_PATTERN@, w + lines[k]) == match_groups(PROPERTY_PATTERN@, lines[k]),
        match_groups(FUNCTION_PATTERN@, w + lines[k]) == match_groups(FUNCTION_PATTERN@, lines[k]),
        match_groups(DECL_PATTERN@, w + lines[k]) == match_groups(DECL_PATTERN@, lines[k]),
        match_groups(FUNC_DECL_PATTERN@, w + lines[k]) == match_groups(FUNC_DECL_PATTERN@, lines[k]),
    ensures
        properties_upto(lines.update(k, w + lines[k]), lines.len() as int) == properties_upto(
            lines,
            lines.len() as int,
        ),
        functions_upto(lines.update(k, w + lines[k]), lines.len() as int) == functions_upto(
            lines,
            lines.len() as int,
        ),
{
    let l2 = lines.update(k, w + lines[k]);
    lemma_trim_prefix(w, lines[k]);
    assert forall|j: int| 0 <= j < lines.len() implies property_at(l2, j) == property_at(lines, j) && function_at(
        l2,
        j,
    ) == function_at(lines, j) by {
        if j != k && j + 1 != k {
            assert(l2[j] == lines[j]);
            if j + 1 < lines.len() {
                assert(l2[j + 1] == lines[j + 1]);
            }
        } else if j == k {
            if j + 1 < lines.len() {
                assert(l2[j + 1] == lines[j + 1]);
            }
        } else {
            assert(l2[j] == lines[j]);
        }
    }
    let n = lines.len() as nat;
    assert(Seq::new(n, |j: int| property_at(l2, j)) =~= Seq::new(n, |j: int| property_at(lines, j)));
    assert(Seq::new(n, |j: int| function_at(l2, j)) =~= Seq::new(n, |j: int| function_at(lines, j)));
}

/// A line of white space, then `UPROPERTY(...)`, with no declaration of its
/// own declares the property the next line declares, as the same line
/// without the white space does.
pub proof fn lemma_indented_marker(lines: Seq<Seq<char>>, k: int, w: Seq<char>)
    requires
        0 <= k < lines.len() - 1,
        forall|i: int| 0 <= i < w.len() ==> is_white(#[trigger] w[i]),
        begins_with(lines[k], "UPROPERTY"@),
        match_groups(PROPERTY_PATTERN@, w + lines[k]) is None,
    ensures
        property_at(lines.update(k, w + lines[k]), k) == match name_and_type_in(
            match_groups(DECL_PATTERN@, lines[k + 1]),
        ) {
            Some(d) => Some((d.0, d.1, 0usize, Seq::<Seq<char>>::empty())),
            None => None,
        },
{
    let line = lines[k];
    lemma_trim_prefix(w, line);
    reveal_strlit("UPROPERTY");
    lemma_lead_white_first(line);
    assert(!is_white(line[0])) by {
        assert(line.subrange(0, 9) == "UPROPERTY"@);
        assert(line[0] == line.subrange(0, 9)[0]);
        assert(('U' as u32) == 85);
    }
    assert(lead_white(line) == 0);
    lemma_trail_white_last(line);
    let t = trail_white(line) as int;
    assert(line.subrange(0, 9)[8] == 'Y');
    assert(!is_white(line[8]));
    assert(t <= line.len() - 9) by {
        if t > line.len() - 9 {
            assert(is_white(line[8]));
        }
    }
    assert(trim(line) == line.subrange(0, line.len() - t));
    assert(trim(line).subrange(0, 9) =~= line.subrange(0, 9));
    assert(begins_with(trim(line), "UPROPERTY"@));
    assert(lines.update(k, w + line)[k + 1] == lines[k + 1]);
}

} // verus!
