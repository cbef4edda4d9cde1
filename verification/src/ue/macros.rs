//! UE5 macro recognition and parsing.
//!
//! Handles UE-specific macros such as UCLASS, USTRUCT, UENUM, UINTERFACE,
//! UPROPERTY, UFUNCTION, GENERATED_BODY and GENERATED_UCLASS_BODY.

use vstd::prelude::*;
use crate::util::span::Span;
use crate::util::text::{chars_of, str_eq, string_of_range, trim, trim_bounds};

verus! {

/// Kind of UE macro.
#[derive(Debug, Clone, Copy, PartialEq, Eq, Structural)]
pub enum UEMacroKind {
    UClass,
    UStruct,
    UEnum,
    UInterface,
    UProperty,
    UFunction,
    UDelegate,
    GeneratedBody,
    GeneratedUClassBody,
}

impl UEMacroKind {
    /// The macro kind that a macro name denotes.
    pub open spec fn spec_from_str(s: Seq<char>) -> Option<UEMacroKind> {
        if s == "UCLASS"@ {
            Some(UEMacroKind::UClass)
        } else if s == "USTRUCT"@ {
            Some(UEMacroKind::UStruct)
        } else if s == "UENUM"@ {
            Some(UEMacroKind::UEnum)
        } else if s == "UINTERFACE"@ {
            Some(UEMacroKind::UInterface)
        } else if s == "UPROPERTY"@ {
            Some(UEMacroKind::UProperty)
        } else if s == "UFUNCTION"@ {
            Some(UEMacroKind::UFunction)
        } else if s == "UDELEGATE"@ {
            Some(UEMacroKind::UDelegate)
        } else if s == "GENERATED_BODY"@ {
            Some(UEMacroKind::GeneratedBody)
        } else if s == "GENERATED_UCLASS_BODY"@ {
            Some(UEMacroKind::GeneratedUClassBody)
        } else {
            None
        }
    }

    /// The macro name of a kind.
    pub open spec fn spec_name(self) -> Seq<char> {
        match self {
            UEMacroKind::UClass => "UCLASS"@,
            UEMacroKind::UStruct => "USTRUCT"@,
            UEMacroKind::UEnum => "UENUM"@,
            UEMacroKind::UInterface => "UINTERFACE"@,
            UEMacroKind::UProperty => "UPROPERTY"@,
            UEMacroKind::UFunction => "UFUNCTION"@,
            UEMacroKind::UDelegate => "UDELEGATE"@,
            UEMacroKind::GeneratedBody => "GENERATED_BODY"@,
            UEMacroKind::GeneratedUClassBody => "GENERATED_UCLASS_BODY"@,
        }
    }

    /// The macro kind that a macro name denotes, if any.
    pub fn from_str(s: &str) -> (res: Option<Self>)
        ensures
            res == Self::spec_from_str(s@),
    {
        if str_eq(s, "UCLASS") {
            Some(UEMacroKind::UClass)
        } else if str_eq(s, "USTRUCT") {
            Some(UEMacroKind::UStruct)
        } else if str_eq(s, "UENUM") {
            Some(UEMacroKind::UEnum)
        } else if str_eq(s, "UINTERFACE") {
            Some(UEMacroKind::UInterface)
        } else if str_eq(s, "UPROPERTY") {
            Some(UEMacroKind::UProperty)
        } else if str_eq(s, "UFUNCTION") {
            Some(UEMacroKind::UFunction)
        } else if str_eq(s, "UDELEGATE") {
            Some(UEMacroKind::UDelegate)
        } else if str_eq(s, "GENERATED_BODY") {
            Some(UEMacroKind::GeneratedBody)
        } else if str_eq(s, "GENERATED_UCLASS_BODY") {
            Some(UEMacroKind::GeneratedUClassBody)
        } else {
            None
        }
    }

    /// The macro name of this kind.
    pub fn as_str(&self) -> (res: &'static str)
        ensures
            res@ == self.spec_name(),
    {
        match self {
            UEMacroKind::UClass => "UCLASS",
            UEMacroKind::UStruct => "USTRUCT",
            UEMacroKind::UEnum => "UENUM",
            UEMacroKind::UInterface => "UINTERFACE",
            UEMacroKind::UProperty => "UPROPERTY",
            UEMacroKind::UFunction => "UFUNCTION",
            UEMacroKind::UDelegate => "UDELEGATE",
            UEMacroKind::GeneratedBody => "GENERATED_BODY",
            UEMacroKind::GeneratedUClassBody => "GENERATED_UCLASS_BODY",
        }
    }
}

/// Reading back the name of a macro kind gives that kind.
pub proof fn lemma_macro_name_round_trip(k: UEMacroKind)
    ensures
        UEMacroKind::spec_from_str(k.spec_name()) == Some(k),
{
    reveal_strlit("UCLASS");
    reveal_strlit("USTRUCT");
    reveal_strlit("UENUM");
    reveal_strlit("UINTERFACE");
    reveal_strlit("UPROPERTY");
    reveal_strlit("UFUNCTION");
    reveal_strlit("UDELEGATE");
    reveal_strlit("GENERATED_BODY");
    reveal_strlit("GENERATED_UCLASS_BODY");
    let s = k.spec_name();
    let names = seq![
        "UCLASS"@,
        "USTRUCT"@,
        "UENUM"@,
        "UINTERFACE"@,
        "UPROPERTY"@,
        "UFUNCTION"@,
        "UDELEGATE"@,
        "GENERATED_BODY"@,
        "GENERATED_UCLASS_BODY"@,
    ];
    // Distinct names differ in length or in their second character.
    assert forall|i: int, j: int| 0 <= i < 9 && 0 <= j < 9 && i != j implies names[i] != names[j] by {
        if names[i].len() == names[j].len() {
            assert(names[i][1] != names[j][1]);
        }
    }
    match k {
        UEMacroKind::UClass => assert(s == names[0]),
        UEMacroKind::UStruct => assert(s == names[1] && s != names[0]),
        UEMacroKind::UEnum => assert(s == names[2] && s != names[0] && s != names[1]),
        UEMacroKind::UInterface => assert(s == names[3] && s != names[0] && s != names[1] && s != names[2]),
        UEMacroKind::UProperty => assert(s == names[4] && s != names[0] && s != names[1] && s != names[2] && s != names[3]),
        UEMacroKind::UFunction => assert(s == names[5] && s != names[0] && s != names[1] && s != names[2] && s != names[3] && s != names[4]),
        UEMacroKind::UDelegate => assert(s == names[6] && s != names[0] && s != names[1] && s != names[2] && s != names[3] && s != names[4] && s != names[5]),
        UEMacroKind::GeneratedBody => assert(s == names[7] && s != names[0] && s != names[1] && s != names[2] && s != names[3] && s != names[4] && s != names[5] && s != names[6]),
        UEMacroKind::GeneratedUClassBody => assert(s == names[8] && s != names[0] && s != names[1] && s != names[2] && s != names[3] && s != names[4] && s != names[5] && s != names[6] && s != names[7]),
    }
}

/// A UE macro invocation.
#[derive(Debug, Clone)]
pub struct UEMacro {
    pub kind: UEMacroKind,
    pub span: Span,
    pub specifiers: Vec<String>,
}

impl UEMacro {
    /// A macro invocation without specifiers.
    pub fn new(kind: UEMacroKind, span: Span) -> (res: Self)
        ensures
            res.kind == kind,
            res.span == span,
            res.specifiers@.len() == 0,
    {
        UEMacro { kind, span, specifiers: Vec::new() }
    }

    /// This invocation with its specifiers replaced.
    pub fn with_specifiers(self, specifiers: Vec<String>) -> (res: Self)
        ensures
            res.kind == self.kind,
            res.span == self.span,
            res.specifiers == specifiers,
    {
        let mut m = self;
        m.specifiers = specifiers;
        m
    }
}

/// The index of the first comma, or -1 when there is none.
pub open spec fn first_comma(s: Seq<char>) -> int
    decreases s.len(),
{
    if s.len() == 0 {
        -1
    } else if s[0] == ',' {
        0
    } else {
        let r = first_comma(s.drop_first());
        if r < 0 {
            -1
        } else {
            r + 1
        }
    }
}

/// A one-element list holding `p`, or nothing when `p` is empty.
pub open spec fn keep_nonempty(p: Seq<char>) -> Seq<Seq<char>> {
    if p.len() > 0 {
        seq![p]
    } else {
        Seq::empty()
    }
}

/// The comma-separated pieces of `s`, each trimmed of white space, with the
/// empty pieces dropped.
pub open spec fn spec_specifiers(s: Seq<char>) -> Seq<Seq<char>>
    decreases s.len(),
{
    let k = first_comma(s);
    if k < 0 || k >= s.len() {
        keep_nonempty(trim(s))
    } else {
        keep_nonempty(trim(s.subrange(0, k))) + spec_specifiers(s.subrange(k + 1, s.len() as int))
    }
}

proof fn lemma_first_comma_at(t: Seq<char>, j: int)
    requires
        0 <= j < t.len(),
        t[j] == ',',
        forall|k: int| 0 <= k < j ==> t[k] != ',',
    ensures
        first_comma(t) == j,
    decreases j,
{
    if j > 0 {
        lemma_first_comma_at(t.drop_first(), j - 1);
    }
}

proof fn lemma_first_comma_none(t: Seq<char>)
    requires
        forall|k: int| 0 <= k < t.len() ==> t[k] != ',',
    ensures
        first_comma(t) == -1,
    decreases t.len(),
{
    if t.len() > 0 {
        lemma_first_comma_none(t.drop_first());
    }
}

/// Parses UE macro specifiers: the comma-separated pieces of `input`,
/// trimmed, with empty pieces dropped.
pub fn parse_specifiers(input: &str) -> (res: Vec<String>)
    ensures
        res.deep_view() == spec_specifiers(input@),
{
    let cs = chars_of(input);
    let n = cs.len();
    let mut out: Vec<String> = Vec::new();
    let mut start: usize = 0;
    let mut i: usize = 0;
    proof {
        assert(input@.subrange(0, n as int) =~= input@);
        assert(out.deep_view() + spec_specifiers(input@) =~= spec_specifiers(input@));
    }
    while i < n
        invariant
            n == cs.len(),
            cs@ == input@,
            start <= i <= n,
            forall|k: int| start <= k < i ==> cs@[k] != ',',
            spec_specifiers(input@) == out.deep_view() + spec_specifiers(
                input@.subrange(start as int, n as int),
            ),
        decreases n - i,
    {
        if cs[i] == ',' {
            let ghost t = input@.subrange(start as int, n as int);
            proof {
                lemma_first_comma_at(t, i - start);
                assert(t.subrange(0, i - start) =~= input@.subrange(start as int, i as int));
                assert(t.subrange(i - start + 1, t.len() as int) =~= input@.subrange(
                    i + 1,
                    n as int,
                ));
            }
            let (a, b) = trim_bounds(&cs, start, i);
            let ghost before = out.deep_view();
            if a < b {
                let piece = string_of_range(input, a, b);
                out.push(piece);
                proof {
                    assert(out.deep_view() =~= before.push(piece@));
                    assert(keep_nonempty(trim(input@.subrange(start as int, i as int))) =~= seq![
                        piece@,
                    ]);
                }
            } else {
                proof {
                    assert(keep_nonempty(trim(input@.subrange(start as int, i as int))) =~= Seq::<
                        Seq<char>,
                    >::empty());
                }
            }
            proof {
                assert(spec_specifiers(input@) == out.deep_view() + spec_specifiers(
                    input@.subrange(i + 1, n as int),
                ));
            }
            start = i + 1;
        }
        i = i + 1;
    }
    let ghost t = input@.subrange(start as int, n as int);
    proof {
        lemma_first_comma_none(t);
    }
    let (a, b) = trim_bounds(&cs, start, n);
    let ghost before = out.deep_view();
    if a < b {
        let piece = string_of_range(input, a, b);
        out.push(piece);
        proof {
            assert(out.deep_view() =~= before.push(piece@));
        }
    }
    proof {
        assert(spec_specifiers(input@) =~= out.deep_view());
    }
    out
}

} // verus!
