//! Cross references between Blueprints and C++ symbols.
//!
//! The tracker keeps the references it was given grouped by symbol and by
//! Blueprint path, and lists the implementable and native events apart.
//! Its contracts speak of the log of references added since it was created
//! or last cleared.

use vstd::prelude::*;
use crate::index::symbol::SymbolId;
use crate::ue_integration::asset_tracker::position_of_symbol;
use crate::util::grouped::{
    flatten_upto, group_of, groups_match, has_key, lemma_filter_push, lemma_flatten_select,
    lemma_group_absent, lemma_group_contains, lemma_group_keys, lemma_groups_empty,
    lemma_groups_push_existing, lemma_groups_push_keyless, lemma_groups_push_new,
};
use crate::util::span::{FileId, Span};
use crate::util::text::str_eq;

verus! {

/// Kind of Blueprint reference.
#[derive(Debug, Clone, Copy, PartialEq, Eq, Hash, Structural)]
pub enum BlueprintRefKind {
    /// BlueprintCallable function.
    Callable,
    /// BlueprintPure function.
    Pure,
    /// BlueprintImplementableEvent.
    ImplementableEvent,
    /// BlueprintNativeEvent.
    NativeEvent,
    /// BlueprintReadOnly property.
    ReadOnlyProperty,
    /// BlueprintReadWrite property.
    ReadWriteProperty,
    /// Blueprint class inheritance.
    Inheritance,
    /// Blueprint component reference.
    Component,
}

/// A reference from a Blueprint to a C++ symbol.
#[derive(Debug, Clone)]
pub struct BlueprintReference {
    /// The symbol referenced from the Blueprint.
    pub symbol_id: SymbolId,
    /// Kind of Blueprint reference.
    pub kind: BlueprintRefKind,
    /// Location in the C++ source.
    pub span: Span,
    /// The C++ source file.
    pub file_id: FileId,
    /// Blueprint asset path, if known.
    pub blueprint_path: Option<String>,
    /// Blueprint asset name.
    pub blueprint_name: Option<String>,
}

/// A copy of an optional string.
fn copy_opt_string(s: &Option<String>) -> (res: Option<String>)
    ensures
        res == *s,
{
    match s {
        Some(t) => Some(t.clone()),
        None => None,
    }
}

/// A copy of a reference.
fn copy_reference(r: &BlueprintReference) -> (res: BlueprintReference)
    ensures
        res == *r,
{
    BlueprintReference {
        symbol_id: r.symbol_id,
        kind: r.kind,
        span: r.span,
        file_id: r.file_id,
        blueprint_path: copy_opt_string(&r.blueprint_path),
        blueprint_name: copy_opt_string(&r.blueprint_name),
    }
}

/// The referenced symbol, as the key of a reference's group.
pub open spec fn symbol_key() -> spec_fn(BlueprintReference) -> Option<SymbolId> {
    |r: BlueprintReference| Some(r.symbol_id)
}

/// The Blueprint path, when known, as the key of a reference's group.
pub open spec fn blueprint_key() -> spec_fn(BlueprintReference) -> Option<Seq<char>> {
    |r: BlueprintReference|
        match r.blueprint_path {
            Some(p) => Some(p@),
            None => None,
        }
}

/// A reference itself.
pub open spec fn whole_ref() -> spec_fn(BlueprintReference) -> BlueprintReference {
    |r: BlueprintReference| r
}

/// The referenced symbol.
pub open spec fn ref_symbol() -> spec_fn(BlueprintReference) -> SymbolId {
    |r: BlueprintReference| r.symbol_id
}

/// Whether a reference is of kind `kind`.
pub open spec fn of_kind(kind: BlueprintRefKind) -> spec_fn(BlueprintReference) -> bool {
    |r: BlueprintReference| r.kind == kind
}

/// The references that a list of borrowed references points to.
pub open spec fn derefs(s: Seq<&BlueprintReference>) -> Seq<BlueprintReference> {
    s.map_values(|r: &BlueprintReference| *r)
}

/// Whether a reference is to `s`.
pub open spec fn to_symbol(s: SymbolId) -> spec_fn(BlueprintReference) -> bool {
    |r: BlueprintReference| r.symbol_id == s
}

/// The references to `s`, in the order they were added.
pub open spec fn refs_of(log: Seq<BlueprintReference>, s: SymbolId) -> Seq<BlueprintReference> {
    group_of(log, symbol_key(), whole_ref(), s)
}

/// Whether some reference to `s` is one of the two kinds.
pub open spec fn has_ref_of_kinds(log: Seq<BlueprintReference>, s: SymbolId, a: BlueprintRefKind, b: BlueprintRefKind) -> bool {
    exists|t: int| 0 <= t < log.len() && log[t].symbol_id == s && (#[trigger] log[t].kind == a || log[t].kind == b)
}

/// Tracks Blueprint-to-C++ cross references.
pub struct BlueprintRefTracker {
    symbols: Vec<SymbolId>,
    symbol_refs: Vec<Vec<BlueprintReference>>,
    blueprints: Vec<String>,
    blueprint_symbols: Vec<Vec<SymbolId>>,
    implementable_events: Vec<BlueprintReference>,
    native_events: Vec<BlueprintReference>,
    log: Ghost<Seq<BlueprintReference>>,
}

/// The index of `s` among `keys`, if it is there.
fn position_of_str(keys: &Vec<String>, s: &str) -> (res: Option<usize>)
    ensures
        res matches Some(i) ==> i < keys.len() && keys.deep_view()[i as int] == s@,
        res is None ==> !keys.deep_view().contains(s@),
{
    let mut i: usize = 0;
    while i < keys.len()
        invariant
            i <= keys.len(),
            forall|t: int| 0 <= t < i ==> keys.deep_view()[t] != s@,
        decreases keys.len() - i,
    {
        if str_eq(keys[i].as_str(), s) {
            return Some(i);
        }
        i = i + 1;
    }
    None
}

impl BlueprintRefTracker {
    /// The references added since the tracker was created or cleared.
    pub closed spec fn log(&self) -> Seq<BlueprintReference> {
        self.log@
    }

    /// The groups of references by symbol.
    closed spec fn symbol_groups(&self) -> Seq<Seq<BlueprintReference>> {
        self.symbol_refs@.map_values(|v: Vec<BlueprintReference>| v@)
    }

    /// Whether the groups and event lists hold the log.
    pub closed spec fn wf(&self) -> bool {
        let log = self.log@;
        &&& groups_match(log, symbol_key(), whole_ref(), self.symbols@, self.symbol_groups())
        &&& groups_match(log, blueprint_key(), ref_symbol(), self.blueprints.deep_view(), self.blueprint_symbols@.map_values(|v: Vec<SymbolId>| v@))
        &&& self.implementable_events@ == log.filter(of_kind(BlueprintRefKind::ImplementableEvent))
        &&& self.native_events@ == log.filter(of_kind(BlueprintRefKind::NativeEvent))
    }

    /// A tracker without references.
    pub fn new() -> (res: Self)
        ensures
            res.wf(),
            res.log() == Seq::<BlueprintReference>::empty(),
    {
        let res = BlueprintRefTracker {
            symbols: Vec::new(),
            symbol_refs: Vec::new(),
            blueprints: Vec::new(),
            blueprint_symbols: Vec::new(),
            implementable_events: Vec::new(),
            native_events: Vec::new(),
            log: Ghost(Seq::empty()),
        };
        proof {
            lemma_groups_empty(symbol_key(), whole_ref());
            lemma_groups_empty(blueprint_key(), ref_symbol());
            assert(res.symbol_groups() =~= Seq::<Seq<BlueprintReference>>::empty());
            assert(res.blueprints.deep_view() =~= Seq::<Seq<char>>::empty());
            assert(res.blueprint_symbols@.map_values(|v: Vec<SymbolId>| v@) =~= Seq::<Seq<SymbolId>>::empty());
            reveal(Seq::filter);
        }
        res
    }

    /// Adds a reference: implementable and native events are also listed
    /// apart.
    pub fn add_reference(&mut self, reference: BlueprintReference)
        requires
            old(self).wf(),
        ensures
            final(self).wf(),
            final(self).log() == old(self).log().push(reference),
    {
        let ghost r = reference;
        let ghost log0 = self.log@;
        let ghost log1 = log0.push(r);
        let symbol_id = reference.symbol_id;
        proof {
            lemma_filter_push(log0, of_kind(BlueprintRefKind::ImplementableEvent), r);
            lemma_filter_push(log0, of_kind(BlueprintRefKind::NativeEvent), r);
        }
        match reference.kind {
            BlueprintRefKind::ImplementableEvent => {
                self.implementable_events.push(copy_reference(&reference));
            },
            BlueprintRefKind::NativeEvent => {
                self.native_events.push(copy_reference(&reference));
            },
            _ => {},
        }
        // Group by Blueprint path.
        let ghost bkeys = self.blueprints.deep_view();
        let ghost bgroups = self.blueprint_symbols@.map_values(|v: Vec<SymbolId>| v@);
        match &reference.blueprint_path {
            Some(path) => {
                match position_of_str(&self.blueprints, path.as_str()) {
                    Some(j) => {
                        proof {
                            lemma_groups_push_existing(log0, blueprint_key(), ref_symbol(), bkeys, bgroups, r, j as int);
                        }
                        self.blueprint_symbols[j].push(symbol_id);
                        proof {
                            assert(self.blueprint_symbols@.map_values(|v: Vec<SymbolId>| v@) =~= bgroups.update(
                                j as int,
                                bgroups[j as int].push(ref_symbol()(r)),
                            ));
                        }
                    },
                    None => {
                        proof {
                            lemma_groups_push_new(log0, blueprint_key(), ref_symbol(), bkeys, bgroups, r, path@);
                        }
                        self.blueprints.push(path.clone());
                        let mut g: Vec<SymbolId> = Vec::new();
                        g.push(symbol_id);
                        self.blueprint_symbols.push(g);
                        proof {
                            assert(self.blueprints.deep_view() =~= bkeys.push(path@));
                            assert(self.blueprint_symbols@.map_values(|v: Vec<SymbolId>| v@) =~= bgroups.push(seq![ref_symbol()(r)]));
                        }
                    },
                }
            },
            None => {
                proof {
                    lemma_groups_push_keyless(log0, blueprint_key(), ref_symbol(), bkeys, bgroups, r);
                }
            },
        }
        // Group by symbol.
        let ghost skeys = self.symbols@;
        let ghost sgroups = self.symbol_groups();
        match position_of_symbol(&self.symbols, symbol_id) {
            Some(i) => {
                proof {
                    lemma_groups_push_existing(log0, symbol_key(), whole_ref(), skeys, sgroups, r, i as int);
                }
                self.symbol_refs[i].push(reference);
                proof {
                    assert(self.symbol_groups() =~= sgroups.update(i as int, sgroups[i as int].push(r)));
                }
            },
            None => {
                proof {
                    lemma_groups_push_new(log0, symbol_key(), whole_ref(), skeys, sgroups, r, symbol_id);
                }
                self.symbols.push(symbol_id);
                let mut g: Vec<BlueprintReference> = Vec::new();
                g.push(reference);
                self.symbol_refs.push(g);
                proof {
                    assert(self.symbol_groups() =~= sgroups.push(seq![r]));
                }
            },
        }
        self.log = Ghost(log1);
    }

    /// The references to `symbol_id`, in the order they were added; `None`
    /// when there are none.
    pub fn get_blueprint_references(&self, symbol_id: SymbolId) -> (res: Option<&Vec<BlueprintReference>>)
        requires
            self.wf(),
        ensures
            res is Some <==> has_key(self.log(), symbol_key(), symbol_id),
            res matches Some(v) ==> v@ == refs_of(self.log(), symbol_id),
    {
        match position_of_symbol(&self.symbols, symbol_id) {
            Some(i) => {
                assert(self.symbol_groups()[i as int] == self.symbol_refs@[i as int]@);
                Some(&self.symbol_refs[i])
            },
            None => {
                proof {
                    lemma_group_absent(self.log@, symbol_key(), whole_ref(), self.symbols@, self.symbol_groups(), symbol_id);
                }
                None
            },
        }
    }

    /// The symbols that the Blueprint at `blueprint_path` references, one per
    /// reference, in order; `None` when there are none.
    pub fn get_symbols_in_blueprint(&self, blueprint_path: &str) -> (res: Option<&Vec<SymbolId>>)
        requires
            self.wf(),
        ensures
            res is Some <==> has_key(self.log(), blueprint_key(), blueprint_path@),
            res matches Some(v) ==> v@ == group_of(self.log(), blueprint_key(), ref_symbol(), blueprint_path@),
    {
        match position_of_str(&self.blueprints, blueprint_path) {
            Some(j) => {
                assert(self.blueprint_symbols@.map_values(|v: Vec<SymbolId>| v@)[j as int] == self.blueprint_symbols@[j as int]@);
                Some(&self.blueprint_symbols[j])
            },
            None => {
                proof {
                    lemma_group_absent(
                        self.log@,
                        blueprint_key(),
                        ref_symbol(),
                        self.blueprints.deep_view(),
                        self.blueprint_symbols@.map_values(|v: Vec<SymbolId>| v@),
                        blueprint_path@,
                    );
                }
                None
            },
        }
    }

    /// The implementable events (those a Blueprint must implement), in order.
    pub fn get_implementable_events(&self) -> (res: &Vec<BlueprintReference>)
        requires
            self.wf(),
        ensures
            res@ == self.log().filter(of_kind(BlueprintRefKind::ImplementableEvent)),
    {
        &self.implementable_events
    }

    /// The native events (those with a C++ implementation), in order.
    pub fn get_native_events(&self) -> (res: &Vec<BlueprintReference>)
        requires
            self.wf(),
        ensures
            res@ == self.log().filter(of_kind(BlueprintRefKind::NativeEvent)),
    {
        &self.native_events
    }

    /// The references whose symbol is not among `valid_symbols`, grouped by
    /// symbol: for every symbol, its references in the result are none when
    /// it is valid and all of them, in order, when it is not.
    pub fn find_orphaned_references(&self, valid_symbols: &Vec<SymbolId>) -> (res: Vec<BlueprintReference>)
        requires
            self.wf(),
        ensures
            forall|s: SymbolId|
                #[trigger] res@.filter(to_symbol(s)) == if valid_symbols@.contains(s) {
                    Seq::<BlueprintReference>::empty()
                } else {
                    refs_of(self.log(), s)
                },
    {
        let ghost keys = self.symbols@;
        let ghost groups = self.symbol_groups();
        let ghost chosen = Seq::new(
            keys.len(),
            |i: int| if valid_symbols@.contains(keys[i]) { Seq::<BlueprintReference>::empty() } else { groups[i] },
        );
        let mut out: Vec<BlueprintReference> = Vec::new();
        let mut i: usize = 0;
        while i < self.symbols.len()
            invariant
                self.wf(),
                keys == self.symbols@,
                groups == self.symbol_groups(),
                chosen.len() == keys.len(),
                forall|t: int| 0 <= t < keys.len() ==> #[trigger] chosen[t] == if valid_symbols@.contains(keys[t]) {
                    Seq::<BlueprintReference>::empty()
                } else {
                    groups[t]
                },
                i <= self.symbols.len(),
                out@ == flatten_upto(chosen, i as int),
            decreases self.symbols.len() - i,
        {
            let ghost before = out@;
            match position_of_symbol(valid_symbols, self.symbols[i]) {
                Some(_) => {
                    proof {
                        assert(flatten_upto(chosen, i + 1) =~= before + Seq::<BlueprintReference>::empty());
                    }
                },
                None => {
                    let refs = &self.symbol_refs[i];
                    let ghost g = refs@;
                    assert(g == groups[i as int]);
                    let mut k: usize = 0;
                    while k < refs.len()
                        invariant
                            refs@ == g,
                            k <= refs.len(),
                            out@ == before + g.subrange(0, k as int),
                        decreases refs.len() - k,
                    {
                        out.push(copy_reference(&refs[k]));
                        proof {
                            assert(out@ =~= before + g.subrange(0, k + 1));
                        }
                        k = k + 1;
                    }
                    proof {
                        assert(g.subrange(0, k as int) =~= g);
                        assert(chosen[i as int] == g);
                    }
                },
            }
            i = i + 1;
        }
        proof {
            let log = self.log@;
            assert forall|t: int, u: int| 0 <= t < chosen.len() && 0 <= u < chosen[t].len() implies #[trigger] symbol_key()(
                chosen[t][u],
            ) == Some(keys[t]) by {
                lemma_group_keys(log, symbol_key(), whole_ref(), keys[t]);
                assert(groups[t] == group_of(log, symbol_key(), whole_ref(), keys[t]));
            }
            assert forall|s: SymbolId| #[trigger] out@.filter(to_symbol(s)) == if valid_symbols@.contains(s) {
                Seq::<BlueprintReference>::empty()
            } else {
                refs_of(log, s)
            } by {
                lemma_flatten_select(chosen, keys, symbol_key(), keys.len() as int, s);
                assert(to_symbol(s) =~= (|x: BlueprintReference| symbol_key()(x) == Some(s)));
                if keys.contains(s) {
                    let j = choose|j: int| 0 <= j < keys.len() && keys[j] == s;
                    assert(groups[j] == refs_of(log, s));
                } else {
                    lemma_group_absent(log, symbol_key(), whole_ref(), keys, groups, s);
                }
            }
        }
        out
    }

    /// Whether some reference to `symbol_id` is from a callable or pure
    /// Blueprint function node.
    pub fn is_blueprint_callable(&self, symbol_id: SymbolId) -> (res: bool)
        requires
            self.wf(),
        ensures
            res == has_ref_of_kinds(self.log(), symbol_id, BlueprintRefKind::Callable, BlueprintRefKind::Pure),
    {
        self.has_kinds(symbol_id, BlueprintRefKind::Callable, BlueprintRefKind::Pure)
    }

    /// Whether some reference to `symbol_id` reads or writes it as a
    /// Blueprint property.
    pub fn is_blueprint_accessible(&self, symbol_id: SymbolId) -> (res: bool)
        requires
            self.wf(),
        ensures
            res == has_ref_of_kinds(
                self.log(),
                symbol_id,
                BlueprintRefKind::ReadOnlyProperty,
                BlueprintRefKind::ReadWriteProperty,
            ),
    {
        self.has_kinds(symbol_id, BlueprintRefKind::ReadOnlyProperty, BlueprintRefKind::ReadWriteProperty)
    }

    /// Whether some reference to `symbol_id` is of kind `a` or `b`.
    fn has_kinds(&self, symbol_id: SymbolId, a: BlueprintRefKind, b: BlueprintRefKind) -> (res: bool)
        requires
            self.wf(),
        ensures
            res == has_ref_of_kinds(self.log(), symbol_id, a, b),
    {
        let ghost log = self.log@;
        match position_of_symbol(&self.symbols, symbol_id) {
            Some(i) => {
                let refs = &self.symbol_refs[i];
                let ghost g = refs@;
                assert(g == refs_of(log, symbol_id)) by {
                    assert(self.symbol_groups()[i as int] == g);
                }
                let mut found = false;
                let mut k: usize = 0;
                while k < refs.len()
                    invariant
                        refs@ == g,
                        k <= refs.len(),
                        found <==> exists|u: int| 0 <= u < k && (#[trigger] g[u].kind == a || g[u].kind == b),
                    decreases refs.len() - k,
                {
                    if refs[k].kind == a || refs[k].kind == b {
                        found = true;
                    }
                    k = k + 1;
                }
                proof {
                    if found {
                        let u = choose|u: int| 0 <= u < k && (#[trigger] g[u].kind == a || g[u].kind == b);
                        assert(g.contains(g[u]));
                        lemma_group_contains(log, symbol_key(), symbol_id, g[u]);
                        let t = choose|t: int| 0 <= t < log.len() && log[t] == g[u];
                        assert(log[t].symbol_id == symbol_id && (log[t].kind == a || log[t].kind == b));
                    }
                    if has_ref_of_kinds(log, symbol_id, a, b) {
                        let t = choose|t: int| 0 <= t < log.len() && log[t].symbol_id == symbol_id && (#[trigger] log[t].kind == a || log[t].kind == b);
                        assert(log.contains(log[t]));
                        lemma_group_contains(log, symbol_key(), symbol_id, log[t]);
                        let w = choose|w: int| 0 <= w < g.len() && g[w] == log[t];
                        assert(g[w].kind == a || g[w].kind == b);
                    }
                }
                found
            },
            None => {
                proof {
                    lemma_group_absent(log, symbol_key(), whole_ref(), self.symbols@, self.symbol_groups(), symbol_id);
                    if has_ref_of_kinds(log, symbol_id, a, b) {
                        let t = choose|t: int| 0 <= t < log.len() && log[t].symbol_id == symbol_id && (#[trigger] log[t].kind == a || log[t].kind == b);
                        assert(symbol_key()(log[t]) == Some(symbol_id));
                    }
                }
                false
            },
        }
    }

    /// The references of kind `kind`, grouped by symbol: for every symbol,
    /// its references in the result are its references of that kind, in
    /// order.
    pub fn get_references_by_kind(&self, kind: BlueprintRefKind) -> (res: Vec<&BlueprintReference>)
        requires
            self.wf(),
        ensures
            forall|s: SymbolId|
                #[trigger] derefs(res@).filter(to_symbol(s)) == refs_of(
                    self.log(),
                    s,
                ).filter(of_kind(kind)),
    {
        let ghost keys = self.symbols@;
        let ghost groups = self.symbol_groups();
        let ghost chosen = Seq::new(keys.len(), |i: int| groups[i].filter(of_kind(kind)));
        let mut out: Vec<&BlueprintReference> = Vec::new();
        let mut i: usize = 0;
        proof {
            assert(derefs(out@) =~= flatten_upto(chosen, 0));
        }
        while i < self.symbols.len()
            invariant
                self.wf(),
                keys == self.symbols@,
                groups == self.symbol_groups(),
                chosen.len() == keys.len(),
                forall|t: int| 0 <= t < keys.len() ==> #[trigger] chosen[t] == groups[t].filter(of_kind(kind)),
                i <= self.symbols.len(),
                derefs(out@) == flatten_upto(chosen, i as int),
            decreases self.symbols.len() - i,
        {
            let ghost before = derefs(out@);
            let refs = &self.symbol_refs[i];
            let ghost g = refs@;
            assert(g == groups[i as int]);
            let mut k: usize = 0;
            proof {
                reveal(Seq::filter);
                assert(g.subrange(0, 0) =~= Seq::<BlueprintReference>::empty());
                assert(before + Seq::<BlueprintReference>::empty() =~= before);
            }
            while k < refs.len()
                invariant
                    refs@ == g,
                    k <= refs.len(),
                    derefs(out@) == before + g.subrange(0, k as int).filter(of_kind(kind)),
                decreases refs.len() - k,
            {
                let ghost cur = out@;
                proof {
                    assert(g.subrange(0, k + 1) =~= g.subrange(0, k as int).push(g[k as int]));
                    lemma_filter_push(g.subrange(0, k as int), of_kind(kind), g[k as int]);
                }
                assert(refs[k as int] == g[k as int]);
                if refs[k].kind == kind {
                    out.push(&refs[k]);
                    proof {
                        assert(derefs(out@) =~= derefs(cur).push(g[k as int]));
                    }
                }
                k = k + 1;
            }
            proof {
                assert(g.subrange(0, k as int) =~= g);
                assert(flatten_upto(chosen, i + 1) == flatten_upto(chosen, i as int) + chosen[i as int]);
            }
            i = i + 1;
        }
        proof {
            let log = self.log@;
            assert forall|t: int, u: int| 0 <= t < chosen.len() && 0 <= u < chosen[t].len() implies #[trigger] symbol_key()(
                chosen[t][u],
            ) == Some(keys[t]) by {
                lemma_group_keys(log, symbol_key(), whole_ref(), keys[t]);
                assert(groups[t] == group_of(log, symbol_key(), whole_ref(), keys[t]));
                groups[t].lemma_filter_contains_rev(of_kind(kind), chosen[t][u]);
                assert(chosen[t].contains(chosen[t][u]));
                let w = choose|w: int| 0 <= w < groups[t].len() && groups[t][w] == chosen[t][u];
            }
            assert forall|s: SymbolId| #[trigger] derefs(out@).filter(to_symbol(s)) == refs_of(
                log,
                s,
            ).filter(of_kind(kind)) by {
                lemma_flatten_select(chosen, keys, symbol_key(), keys.len() as int, s);
                assert(to_symbol(s) =~= (|x: BlueprintReference| symbol_key()(x) == Some(s)));
                if keys.contains(s) {
                    let j = choose|j: int| 0 <= j < keys.len() && keys[j] == s;
                    assert(groups[j] == refs_of(log, s));
                } else {
                    lemma_group_absent(log, symbol_key(), whole_ref(), keys, groups, s);
                    reveal(Seq::filter);
                }
            }
        }
        out
    }

    /// Forgets every reference.
    pub fn clear(&mut self)
        ensures
            final(self).wf(),
            final(self).log() == Seq::<BlueprintReference>::empty(),
    {
        *self = BlueprintRefTracker::new();
    }
}

impl Default for BlueprintRefTracker {
    fn default() -> (res: Self)
        ensures
            res.wf(),
            res.log() == Seq::<BlueprintReference>::empty(),
    {
        Self::new()
    }
}

} // verus!
