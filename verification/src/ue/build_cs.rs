//! `.Build.cs` files: the module dependencies, include paths and
//! preprocessor definitions a module's rules add.
//!
//! A list is added either as
//! `Property.AddRange(new string[] { "a", "b" })` or one item at a time as
//! `Property.Add("a")`.

use vstd::prelude::*;
use vstd::string::StringExecFns;
use crate::util::pattern::{compile, compiled_from, escape, escaped, match_all_opt, match_groups_all};

verus! {

/// A quoted string; group 1 is its text.
pub const STRING_PATTERN: &'static str = r#""([^"]*)""#;

/// What follows a property's name in an `AddRange` call; group 1 is the
/// text between the braces.
pub const ADD_RANGE_SUFFIX: &'static str = r#"\s*\.\s*AddRange\s*\(\s*new\s+string\[\]\s*\{\s*([^}]*)\s*\}\s*\)"#;

/// What follows a property's name in an `Add` call; group 1 is the text
/// between the quotes.
pub const ADD_SUFFIX: &'static str = r#"\s*\.\s*Add\s*\(\s*"([^"]*)"\s*\)"#;

/// Group 1 of a match, as a list of one, when it took part in the match.
pub open spec fn group_one(g: Seq<Option<Seq<char>>>) -> Seq<Seq<char>> {
    if g.len() > 1 && g[1] is Some {
        seq![g[1]->0]
    } else {
        Seq::empty()
    }
}

/// Group 1 of each match, in order.
pub open spec fn first_groups(ms: Seq<Seq<Option<Seq<char>>>>) -> Seq<Seq<char>>
    decreases ms.len(),
{
    if ms.len() == 0 {
        Seq::empty()
    } else {
        first_groups(ms.drop_last()) + group_one(ms.last())
    }
}

/// The texts of the quoted strings in `list`.
pub open spec fn quoted_strings(list: Seq<char>) -> Seq<Seq<char>> {
    first_groups(match_groups_all(STRING_PATTERN@, list))
}

/// The quoted strings in group 1 of each match, in order.
pub open spec fn listed_strings(ms: Seq<Seq<Option<Seq<char>>>>) -> Seq<Seq<char>>
    decreases ms.len(),
{
    if ms.len() == 0 {
        Seq::empty()
    } else {
        let g = ms.last();
        listed_strings(ms.drop_last()) + if g.len() > 1 && g[1] is Some {
            quoted_strings(g[1]->0)
        } else {
            Seq::empty()
        }
    }
}

/// The expression for `property.AddRange(new string[] { ... })`.
pub open spec fn add_range_pattern(property: Seq<char>) -> Seq<char> {
    escaped(property) + ADD_RANGE_SUFFIX@
}

/// The expression for `property.Add("...")`.
pub open spec fn add_pattern(property: Seq<char>) -> Seq<char> {
    escaped(property) + ADD_SUFFIX@
}

/// The strings added to `property` in `content`: those of every
/// `AddRange` call, then those of every `Add` call.
pub open spec fn added_strings(content: Seq<char>, property: Seq<char>) -> Seq<Seq<char>> {
    listed_strings(match_groups_all(add_range_pattern(property), content)) + first_groups(
        match_groups_all(add_pattern(property), content),
    )
}

/// The strings added to `property`, or nothing when there are none.
pub open spec fn string_array(content: Seq<char>, property: Seq<char>) -> Option<Seq<Seq<char>>> {
    if added_strings(content, property).len() == 0 {
        None
    } else {
        Some(added_strings(content, property))
    }
}

/// Appends group 1 of each match.
fn push_first_groups(items: &mut Vec<String>, ms: &Vec<Vec<Option<String>>>)
    ensures
        final(items).deep_view() == old(items).deep_view() + first_groups(ms.deep_view()),
{
    let ghost start = items.deep_view();
    let mut i: usize = 0;
    while i < ms.len()
        invariant
            i <= ms.len(),
            items.deep_view() == start + first_groups(ms.deep_view().take(i as int)),
        decreases ms.len() - i,
    {
        let ghost before = items.deep_view();
        let m = &ms[i];
        proof {
            assert(ms.deep_view().take(i + 1).drop_last() =~= ms.deep_view().take(i as int));
            assert(ms.deep_view()[i as int] == m.deep_view());
        }
        if m.len() > 1 {
            match &m[1] {
                Some(s) => {
                    items.push(String::from_str(s.as_str()));
                    proof {
                        assert(m.deep_view()[1] == Some(s@));
                        assert(items.deep_view() =~= before.push(s@));
                    }
                },
                None => {},
            }
        }
        proof {
            assert(items.deep_view() =~= start + first_groups(ms.deep_view().take(i + 1)));
        }
        i = i + 1;
    }
    proof {
        assert(ms.deep_view().take(i as int) =~= ms.deep_view());
    }
}

/// Group 1 of each match, in order.
pub fn first_groups_of(ms: &Vec<Vec<Option<String>>>) -> (res: Vec<String>)
    ensures
        res.deep_view() == first_groups(ms.deep_view()),
{
    let mut items: Vec<String> = Vec::new();
    push_first_groups(&mut items, ms);
    proof {
        assert(Seq::<Seq<char>>::empty() + first_groups(ms.deep_view()) =~= first_groups(ms.deep_view()));
    }
    items
}

/// Parsed `.Build.cs` information.
#[derive(Debug, Clone)]
pub struct BuildCsInfo {
    pub public_dependencies: Vec<String>,
    pub private_dependencies: Vec<String>,
    pub public_include_paths: Vec<String>,
    pub private_include_paths: Vec<String>,
    pub public_definitions: Vec<String>,
    pub private_definitions: Vec<String>,
}

impl BuildCsInfo {
    /// The strings added to `property` in `content`, if there are any:
    /// those of every `AddRange` call, then those of every `Add` call
    /// (`PublicDependencyModuleNames.AddRange(new string[] { "Core" })`
    /// adds `Core` to `PublicDependencyModuleNames`).
    pub fn extract_string_array(content: &str, property: &str) -> (res: Option<Vec<String>>)
        ensures
            res.deep_view() == string_array(content@, property@),
    {
        let esc = escape(property);
        let mut range_text = String::from_str(esc.as_str());
        range_text.append(ADD_RANGE_SUFFIX);
        let mut add_text = String::from_str(esc.as_str());
        add_text.append(ADD_SUFFIX);
        let mut items: Vec<String> = Vec::new();
        let string_re = compile(STRING_PATTERN);
        let range_re = compile(range_text.as_str());
        let lists = match_all_opt(&range_re, content);
        let ghost ls = lists.deep_view();
        proof {
            assert(range_text@ == add_range_pattern(property@));
            assert(compiled_from(range_re, add_range_pattern(property@)));
            assert(ls == match_groups_all(add_range_pattern(property@), content@));
        }
        let mut i: usize = 0;
        while i < lists.len()
            invariant
                lists.deep_view() == ls,
                i <= lists.len(),
                items.deep_view() == listed_strings(ls.take(i as int)),
                compiled_from(string_re, STRING_PATTERN@),
            decreases lists.len() - i,
        {
            let m = &lists[i];
            proof {
                assert(ls.take(i + 1).drop_last() =~= ls.take(i as int));
                assert(ls[i as int] == m.deep_view());
            }
            if m.len() > 1 {
                match &m[1] {
                    Some(list) => {
                        let strings = match_all_opt(&string_re, list.as_str());
                        proof {
                            assert(m.deep_view()[1] == Some(list@));
                            assert(strings.deep_view() == match_groups_all(STRING_PATTERN@, list@));
                        }
                        push_first_groups(&mut items, &strings);
                    },
                    None => {},
                }
            }
            proof {
                assert(items.deep_view() =~= listed_strings(ls.take(i + 1)));
            }
            i = i + 1;
        }
        proof {
            assert(ls.take(i as int) =~= ls);
        }
        let add_re = compile(add_text.as_str());
        proof {
            assert(add_text@ == add_pattern(property@));
            assert(compiled_from(add_re, add_pattern(property@)));
        }
        let singles = match_all_opt(&add_re, content);
        push_first_groups(&mut items, &singles);
        if items.len() == 0 {
            None
        } else {
            Some(items)
        }
    }

    /// The lists a `.Build.cs` file adds, read from its text; a list that is
    /// never added to is empty.
    pub fn from_content(content: &str) -> (res: BuildCsInfo)
        ensures
            res.public_dependencies.deep_view() == added_strings(
                content@,
                "PublicDependencyModuleNames"@,
            ),
            res.private_dependencies.deep_view() == added_strings(
                content@,
                "PrivateDependencyModuleNames"@,
            ),
            res.public_include_paths.deep_view() == added_strings(content@, "PublicIncludePaths"@),
            res.private_include_paths.deep_view() == added_strings(
                content@,
                "PrivateIncludePaths"@,
            ),
            res.public_definitions.deep_view() == added_strings(content@, "PublicDefinitions"@),
            res.private_definitions.deep_view() == added_strings(content@, "PrivateDefinitions"@),
    {
        BuildCsInfo {
            public_dependencies: strings_or_none(content, "PublicDependencyModuleNames"),
            private_dependencies: strings_or_none(content, "PrivateDependencyModuleNames"),
            public_include_paths: strings_or_none(content, "PublicIncludePaths"),
            private_include_paths: strings_or_none(content, "PrivateIncludePaths"),
            public_definitions: strings_or_none(content, "PublicDefinitions"),
            private_definitions: strings_or_none(content, "PrivateDefinitions"),
        }
    }
}

/// The strings added to `property`, or an empty list.
fn strings_or_none(content: &str, property: &str) -> (res: Vec<String>)
    ensures
        res.deep_view() == added_strings(content@, property@),
{
    match BuildCsInfo::extract_string_array(content, property) {
        Some(items) => items,
        None => Vec::new(),
    }
}

impl Default for BuildCsInfo {
    fn default() -> (res: Self)
        ensures
            res.public_dependencies@.len() == 0,
            res.private_dependencies@.len() == 0,
            res.public_include_paths@.len() == 0,
            res.private_include_paths@.len() == 0,
            res.public_definitions@.len() == 0,
            res.private_definitions@.len() == 0,
    {
        BuildCsInfo {
            public_dependencies: Vec::new(),
            private_dependencies: Vec::new(),
            public_include_paths: Vec::new(),
            private_include_paths: Vec::new(),
            public_definitions: Vec::new(),
            private_definitions: Vec::new(),
        }
    }
}

/// Every match whose group 1 took part contributes that group.
proof fn lemma_first_groups_has(ms: Seq<Seq<Option<Seq<char>>>>, i: int)
    requires
        0 <= i < ms.len(),
        ms[i].len() > 1,
        ms[i][1] is Some,
    ensures
        first_groups(ms).contains(ms[i][1]->0),
    decreases ms.len(),
{
    if i < ms.len() - 1 {
        lemma_first_groups_has(ms.drop_last(), i);
        let f = first_groups(ms.drop_last());
        let t = choose|t: int| 0 <= t < f.len() && f[t] == ms[i][1]->0;
        assert(first_groups(ms)[t] == f[t]);
    } else {
        let f = first_groups(ms);
        assert(f[f.len() - 1] == ms[i][1]->0);
    }
}

/// Every `AddRange` match contributes each quoted string of its list.
proof fn lemma_listed_strings_has(ms: Seq<Seq<Option<Seq<char>>>>, i: int, x: Seq<char>)
    requires
        0 <= i < ms.len(),
        ms[i].len() > 1,
        ms[i][1] is Some,
        quoted_strings(ms[i][1]->0).contains(x),
    ensures
        listed_strings(ms).contains(x),
    decreases ms.len(),
{
    if i < ms.len() - 1 {
        lemma_listed_strings_has(ms.drop_last(), i, x);
        let f = listed_strings(ms.drop_last());
        let t = choose|t: int| 0 <= t < f.len() && f[t] == x;
        assert(listed_strings(ms)[t] == f[t]);
    } else {
        let f = listed_strings(ms.drop_last());
        let q = quoted_strings(ms[i][1]->0);
        let t = choose|t: int| 0 <= t < q.len() && q[t] == x;
        assert(listed_strings(ms)[f.len() + t] == x);
    }
}

/// What `extract_string_array` gives for `property` in `content`, in terms
/// of what the `AddRange` and `Add` expressions match there: every string
/// of every `AddRange` list and every `Add` call's string is in the result,
/// whatever other calls there are; the `AddRange` strings come first, then
/// the `Add` strings in order; the result has as many strings as the two
/// together (`None` when that is none).
pub proof fn lemma_string_array_collects(content: Seq<char>, property: Seq<char>)
    ensures
        ({
            let ranges = match_groups_all(add_range_pattern(property), content);
            let adds = match_groups_all(add_pattern(property), content);
            let listed = listed_strings(ranges);
            let singles = first_groups(adds);
            &&& string_array(content, property) is None <==> listed.len() + singles.len() == 0
            &&& string_array(content, property) matches Some(r) ==> {
                &&& r.len() == listed.len() + singles.len()
                &&& r.subrange(0, listed.len() as int) == listed
                &&& r.subrange(listed.len() as int, r.len() as int) == singles
                &&& forall|i: int|
                    0 <= i < adds.len() && adds[i].len() > 1 && adds[i][1] is Some ==> r.contains(
                        #[trigger] adds[i][1]->0,
                    )
                &&& forall|i: int, x: Seq<char>|
                    0 <= i < ranges.len() && ranges[i].len() > 1 && ranges[i][1] is Some
                        && #[trigger] quoted_strings(ranges[i][1]->0).contains(x) ==> r.contains(x)
            }
        }),
{
    let ranges = match_groups_all(add_range_pattern(property), content);
    let adds = match_groups_all(add_pattern(property), content);
    let listed = listed_strings(ranges);
    let singles = first_groups(adds);
    let all = listed + singles;
    assert(added_strings(content, property) == all);
    assert(all.subrange(0, listed.len() as int) =~= listed);
    assert(all.subrange(listed.len() as int, all.len() as int) =~= singles);
    assert forall|i: int| 0 <= i < adds.len() && adds[i].len() > 1 && adds[i][1] is Some implies all.contains(
        #[trigger] adds[i][1]->0,
    ) by {
        lemma_first_groups_has(adds, i);
        let t = choose|t: int| 0 <= t < singles.len() && singles[t] == adds[i][1]->0;
        assert(all[listed.len() + t] == singles[t]);
    }
    assert forall|i: int, x: Seq<char>|
        0 <= i < ranges.len() && ranges[i].len() > 1 && ranges[i][1] is Some && #[trigger] quoted_strings(
            ranges[i][1]->0,
        ).contains(x) implies all.contains(x) by {
        lemma_listed_strings_has(ranges, i, x);
        let t = choose|t: int| 0 <= t < listed.len() && listed[t] == x;
        assert(all[t] == listed[t]);
    }
}

} // verus!
