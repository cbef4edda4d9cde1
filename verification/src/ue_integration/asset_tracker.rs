//! Tracking of the assets that C++ code references.
//!
//! The tracker keeps the references it was given, grouped by asset path,
//! by source file and by referencing symbol.  Its contracts speak of the
//! log of references added since it was created or last cleared.

use vstd::prelude::*;
use vstd::string::StringExecFns;
use crate::index::symbol::SymbolId;
use crate::util::grouped::{
    group_of, groups_match, has_key, lemma_filter_push, lemma_filter_split, lemma_group_absent, lemma_group_push,
    lemma_group_contains, lemma_groups_empty, lemma_groups_push_existing, lemma_groups_push_keyless,
    lemma_groups_push_new, lemma_sum_push, lemma_sum_update, sum_of,
};
use crate::util::seqs::{lemma_push_contains, lemma_push_no_duplicates};
use crate::util::span::{FileId, Span};
use crate::util::text::str_eq;

verus! {

/// Kind of Unreal Engine asset.
#[derive(Debug, Clone, Copy, PartialEq, Eq, Hash, Structural)]
pub enum AssetKind {
    /// Blueprint class (.uasset).
    Blueprint,
    /// Material (.uasset).
    Material,
    /// Texture (.uasset).
    Texture,
    /// Static mesh (.uasset).
    StaticMesh,
    /// Skeletal mesh (.uasset).
    SkeletalMesh,
    /// Sound (.uasset).
    Sound,
    /// Particle system (.uasset).
    ParticleSystem,
    /// Animation (.uasset).
    Animation,
    /// Widget Blueprint (.uasset).
    Widget,
    /// Data table (.uasset).
    DataTable,
    /// Config file (.ini).
    Config,
    /// Other asset type.
    Other,
}

/// A reference to an asset from C++ code.
#[derive(Debug, Clone)]
pub struct AssetReference {
    /// Asset path (e.g. "/Game/Blueprints/MyBlueprint").
    pub asset_path: String,
    /// Asset kind.
    pub kind: AssetKind,
    /// Location in the C++ source where it is referenced.
    pub span: Span,
    /// Source file containing the reference.
    pub file_id: FileId,
    /// Symbol that references the asset, if any.
    pub symbol_id: Option<SymbolId>,
    /// Whether the reference loads the asset (hard) or not (soft).
    pub is_hard_reference: bool,
}

/// Reference counts of an asset tracker.
#[derive(Debug, Clone)]
pub struct AssetStatistics {
    pub total_assets: usize,
    pub total_references: usize,
    pub hard_references: usize,
    pub soft_references: usize,
}

/// The asset path of a reference, as the key of its group.
pub open spec fn path_key() -> spec_fn(AssetReference) -> Option<Seq<char>> {
    |r: AssetReference| Some(r.asset_path@)
}

/// The source file of a reference, as the key of its group.
pub open spec fn file_key() -> spec_fn(AssetReference) -> Option<FileId> {
    |r: AssetReference| Some(r.file_id)
}

/// The referencing symbol of a reference, when it has one.
pub open spec fn symbol_key() -> spec_fn(AssetReference) -> Option<SymbolId> {
    |r: AssetReference| r.symbol_id
}

/// A reference itself.
pub open spec fn whole_ref() -> spec_fn(AssetReference) -> AssetReference {
    |r: AssetReference| r
}

/// The asset path of a reference.
pub open spec fn ref_path() -> spec_fn(AssetReference) -> Seq<char> {
    |r: AssetReference| r.asset_path@
}

/// Whether a reference is hard.
pub open spec fn is_hard() -> spec_fn(AssetReference) -> bool {
    |r: AssetReference| r.is_hard_reference
}

/// Whether a reference is soft.
pub open spec fn is_soft() -> spec_fn(AssetReference) -> bool {
    |r: AssetReference| !r.is_hard_reference
}

/// The references to the asset at `path`, in the order they were added.
pub open spec fn refs_to(log: Seq<AssetReference>, path: Seq<char>) -> Seq<AssetReference> {
    group_of(log, path_key(), whole_ref(), path)
}

/// Whether some reference names the asset at `path`.
pub open spec fn referenced(log: Seq<AssetReference>, path: Seq<char>) -> bool {
    has_key(log, path_key(), path)
}

/// The number of references in a group.
spec fn group_len() -> spec_fn(Seq<AssetReference>) -> nat {
    |g: Seq<AssetReference>| g.len()
}

/// The number of hard references in a group.
spec fn group_hard() -> spec_fn(Seq<AssetReference>) -> nat {
    |g: Seq<AssetReference>| g.filter(is_hard()).len()
}

/// Tracks the asset references of C++ code.
pub struct AssetTracker {
    paths: Vec<String>,
    path_refs: Vec<Vec<AssetReference>>,
    files: Vec<FileId>,
    file_paths: Vec<Vec<String>>,
    symbols: Vec<SymbolId>,
    symbol_paths: Vec<Vec<String>>,
    log: Ghost<Seq<AssetReference>>,
}

/// The index of `s` among `keys`, if it is there.
fn position_of_str(keys: &Vec<String>, s: &str) -> (res: Option<usize>)
    ensures
        res matches Some(i) ==> i < keys.len() && keys.deep_view()[i as int] == s@,
        res is None ==> !keys.deep_view().contains(s@),
{
    let mut i: usize = 0;
    while i < keys.len()
        invariant
            i <= keys.len(),
            forall|t: int| 0 <= t < i ==> keys.deep_view()[t] != s@,
        decreases keys.len() - i,
    {
        if str_eq(keys[i].as_str(), s) {
            return Some(i);
        }
        i = i + 1;
    }
    None
}

/// The index of `f` among `keys`, if it is there.
fn position_of_file(keys: &Vec<FileId>, f: FileId) -> (res: Option<usize>)
    ensures
        res matches Some(i) ==> i < keys.len() && keys@[i as int] == f,
        res is None ==> !keys@.contains(f),
{
    let mut i: usize = 0;
    while i < keys.len()
        invariant
            i <= keys.len(),
            forall|t: int| 0 <= t < i ==> keys@[t] != f,
        decreases keys.len() - i,
    {
        if keys[i] == f {
            return Some(i);
        }
        i = i + 1;
    }
    None
}

/// The index of `s` among `keys`, if it is there.
pub(crate) fn position_of_symbol(keys: &Vec<SymbolId>, s: SymbolId) -> (res: Option<usize>)
    ensures
        res matches Some(i) ==> i < keys.len() && keys@[i as int] == s,
        res is None ==> !keys@.contains(s),
{
    let mut i: usize = 0;
    while i < keys.len()
        invariant
            i <= keys.len(),
            forall|t: int| 0 <= t < i ==> keys@[t] != s,
        decreases keys.len() - i,
    {
        if keys[i] == s {
            return Some(i);
        }
        i = i + 1;
    }
    None
}

impl AssetTracker {
    /// The references added since the tracker was created or cleared.
    pub closed spec fn log(&self) -> Seq<AssetReference> {
        self.log@
    }

    /// The groups of references by asset path.
    closed spec fn path_groups(&self) -> Seq<Seq<AssetReference>> {
        self.path_refs@.map_values(|v: Vec<AssetReference>| v@)
    }

    /// Whether the groups hold the log.
    pub closed spec fn wf(&self) -> bool {
        let log = self.log@;
        &&& log.len() <= usize::MAX
        &&& groups_match(log, path_key(), whole_ref(), self.paths.deep_view(), self.path_groups())
        &&& groups_match(log, file_key(), ref_path(), self.files@, self.file_paths.deep_view())
        &&& groups_match(log, symbol_key(), ref_path(), self.symbols@, self.symbol_paths.deep_view())
        &&& sum_of(self.path_groups(), group_len()) == log.len()
        &&& sum_of(self.path_groups(), group_hard()) == log.filter(is_hard()).len()
    }

    /// A tracker without references.
    pub fn new() -> (res: Self)
        ensures
            res.wf(),
            res.log() == Seq::<AssetReference>::empty(),
    {
        let res = AssetTracker {
            paths: Vec::new(),
            path_refs: Vec::new(),
            files: Vec::new(),
            file_paths: Vec::new(),
            symbols: Vec::new(),
            symbol_paths: Vec::new(),
            log: Ghost(Seq::empty()),
        };
        proof {
            lemma_groups_empty(path_key(), whole_ref());
            lemma_groups_empty(file_key(), ref_path());
            lemma_groups_empty(symbol_key(), ref_path());
            assert(res.paths.deep_view() =~= Seq::<Seq<char>>::empty());
            assert(res.path_groups() =~= Seq::<Seq<AssetReference>>::empty());
            assert(res.file_paths.deep_view() =~= Seq::<Seq<Seq<char>>>::empty());
            assert(res.symbol_paths.deep_view() =~= Seq::<Seq<Seq<char>>>::empty());
            reveal(Seq::filter);
        }
        res
    }

    /// Adds a reference.
    pub fn add_reference(&mut self, reference: AssetReference)
        requires
            old(self).wf(),
            old(self).log().len() < usize::MAX,
        ensures
            final(self).wf(),
            final(self).log() == old(self).log().push(reference),
    {
        let ghost r = reference;
        let ghost log0 = self.log@;
        let ghost log1 = log0.push(r);
        let path = reference.asset_path.clone();
        // Group by source file.
        let ghost fkeys = self.files@;
        let ghost fgroups = self.file_paths.deep_view();
        match position_of_file(&self.files, reference.file_id) {
            Some(j) => {
                proof {
                    lemma_groups_push_existing(log0, file_key(), ref_path(), fkeys, fgroups, r, j as int);
                }
                let ghost fp0 = self.file_paths@;
                self.file_paths[j].push(path.clone());
                proof {
                    assert(self.file_paths@[j as int].deep_view() =~= fp0[j as int].deep_view().push(ref_path()(r)));
                    assert forall|t: int| 0 <= t < fgroups.len() implies self.file_paths.deep_view()[t] == fgroups.update(
                        j as int,
                        fgroups[j as int].push(ref_path()(r)),
                    )[t] by {
                        if t != j as int {
                            assert(self.file_paths@[t] == fp0[t]);
                        }
                    }
                    assert(self.file_paths.deep_view() =~= fgroups.update(
                        j as int,
                        fgroups[j as int].push(ref_path()(r)),
                    ));
                }
            },
            None => {
                proof {
                    lemma_groups_push_new(log0, file_key(), ref_path(), fkeys, fgroups, r, r.file_id);
                }
                self.files.push(reference.file_id);
                let mut g: Vec<String> = Vec::new();
                g.push(path.clone());
                let ghost fp0 = self.file_paths@;
                assert(g.deep_view() =~= seq![ref_path()(r)]);
                self.file_paths.push(g);
                proof {
                    assert forall|t: int| 0 <= t < fgroups.len() + 1 implies self.file_paths.deep_view()[t] == fgroups.push(seq![ref_path()(r)])[t] by {
                        if t < fgroups.len() {
                            assert(self.file_paths@[t] == fp0[t]);
                        }
                    }
                    assert(self.file_paths.deep_view() =~= fgroups.push(seq![ref_path()(r)]));
                }
            },
        }
        // Group by referencing symbol.
        let ghost skeys = self.symbols@;
        let ghost sgroups = self.symbol_paths.deep_view();
        match reference.symbol_id {
            Some(sid) => {
                match position_of_symbol(&self.symbols, sid) {
                    Some(j) => {
                        proof {
                            lemma_groups_push_existing(log0, symbol_key(), ref_path(), skeys, sgroups, r, j as int);
                        }
                        let ghost sp0 = self.symbol_paths@;
                        self.symbol_paths[j].push(path.clone());
                        proof {
                            assert(self.symbol_paths@[j as int].deep_view() =~= sp0[j as int].deep_view().push(ref_path()(r)));
                            assert forall|t: int| 0 <= t < sgroups.len() implies self.symbol_paths.deep_view()[t] == sgroups.update(
                                j as int,
                                sgroups[j as int].push(ref_path()(r)),
                            )[t] by {
                                if t != j as int {
                                    assert(self.symbol_paths@[t] == sp0[t]);
                                }
                            }
                            assert(self.symbol_paths.deep_view() =~= sgroups.update(
                                j as int,
                                sgroups[j as int].push(ref_path()(r)),
                            ));
                        }
                    },
                    None => {
                        proof {
                            lemma_groups_push_new(log0, symbol_key(), ref_path(), skeys, sgroups, r, sid);
                        }
                        self.symbols.push(sid);
                        let mut g: Vec<String> = Vec::new();
                        g.push(path.clone());
                        let ghost sp0 = self.symbol_paths@;
                        assert(g.deep_view() =~= seq![ref_path()(r)]);
                        self.symbol_paths.push(g);
                        proof {
                            assert forall|t: int| 0 <= t < sgroups.len() + 1 implies self.symbol_paths.deep_view()[t] == sgroups.push(seq![ref_path()(r)])[t] by {
                                if t < sgroups.len() {
                                    assert(self.symbol_paths@[t] == sp0[t]);
                                }
                            }
                            assert(self.symbol_paths.deep_view() =~= sgroups.push(seq![ref_path()(r)]));
                        }
                    },
                }
            },
            None => {
                proof {
                    lemma_groups_push_keyless(log0, symbol_key(), ref_path(), skeys, sgroups, r);
                }
            },
        }
        // Group by asset path.
        let ghost pkeys = self.paths.deep_view();
        let ghost pgroups = self.path_groups();
        proof {
            lemma_filter_push(log0, is_hard(), r);
        }
        match position_of_str(&self.paths, path.as_str()) {
            Some(i) => {
                proof {
                    lemma_groups_push_existing(log0, path_key(), whole_ref(), pkeys, pgroups, r, i as int);
                    lemma_sum_update(pgroups, group_len(), i as int, pgroups[i as int].push(r));
                    lemma_sum_update(pgroups, group_hard(), i as int, pgroups[i as int].push(r));
                    lemma_filter_push(pgroups[i as int], is_hard(), r);
                }
                self.path_refs[i].push(reference);
                proof {
                    assert(self.path_groups() =~= pgroups.update(i as int, pgroups[i as int].push(r)));
                }
            },
            None => {
                proof {
                    lemma_groups_push_new(log0, path_key(), whole_ref(), pkeys, pgroups, r, r.asset_path@);
                    lemma_sum_push(pgroups, group_len(), seq![r]);
                    lemma_sum_push(pgroups, group_hard(), seq![r]);
                    lemma_filter_push(Seq::<AssetReference>::empty(), is_hard(), r);
                    reveal(Seq::filter);
                    assert(seq![r] =~= Seq::<AssetReference>::empty().push(r));
                }
                self.paths.push(path);
                let mut g: Vec<AssetReference> = Vec::new();
                g.push(reference);
                self.path_refs.push(g);
                proof {
                    assert(self.paths.deep_view() =~= pkeys.push(r.asset_path@));
                    assert(self.path_groups() =~= pgroups.push(seq![r]));
                }
            },
        }
        self.log = Ghost(log1);
    }

    /// The references to the asset at `asset_path`, in the order they were
    /// added; `None` when there are none.
    pub fn get_asset_references(&self, asset_path: &str) -> (res: Option<&Vec<AssetReference>>)
        requires
            self.wf(),
        ensures
            res is Some <==> referenced(self.log(), asset_path@),
            res matches Some(v) ==> v@ == refs_to(self.log(), asset_path@),
    {
        match position_of_str(&self.paths, asset_path) {
            Some(i) => {
                assert(self.path_groups()[i as int] == self.path_refs@[i as int]@);
                Some(&self.path_refs[i])
            },
            None => {
                proof {
                    lemma_group_absent(self.log@, path_key(), whole_ref(), self.paths.deep_view(), self.path_groups(), asset_path@);
                }
                None
            },
        }
    }

    /// The paths of the assets referenced in `file_id`, one per reference,
    /// in the order they were added; `None` when there are none.
    pub fn get_assets_in_file(&self, file_id: FileId) -> (res: Option<&Vec<String>>)
        requires
            self.wf(),
        ensures
            res is Some <==> has_key(self.log(), file_key(), file_id),
            res matches Some(v) ==> v.deep_view() == group_of(self.log(), file_key(), ref_path(), file_id),
    {
        match position_of_file(&self.files, file_id) {
            Some(j) => {
                assert(self.file_paths.deep_view()[j as int] == self.file_paths@[j as int].deep_view());
                Some(&self.file_paths[j])
            },
            None => {
                proof {
                    lemma_group_absent(self.log@, file_key(), ref_path(), self.files@, self.file_paths.deep_view(), file_id);
                }
                None
            },
        }
    }

    /// The paths of the assets that `symbol_id` references, one per
    /// reference, in the order they were added; `None` when there are none.
    pub fn get_assets_for_symbol(&self, symbol_id: SymbolId) -> (res: Option<&Vec<String>>)
        requires
            self.wf(),
        ensures
            res is Some <==> has_key(self.log(), symbol_key(), symbol_id),
            res matches Some(v) ==> v.deep_view() == group_of(self.log(), symbol_key(), ref_path(), symbol_id),
    {
        match position_of_symbol(&self.symbols, symbol_id) {
            Some(j) => {
                assert(self.symbol_paths.deep_view()[j as int] == self.symbol_paths@[j as int].deep_view());
                Some(&self.symbol_paths[j])
            },
            None => {
                proof {
                    lemma_group_absent(self.log@, symbol_key(), ref_path(), self.symbols@, self.symbol_paths.deep_view(), symbol_id);
                }
                None
            },
        }
    }

    /// Whether some reference names the asset at `asset_path`.
    pub fn is_asset_referenced(&self, asset_path: &str) -> (res: bool)
        requires
            self.wf(),
        ensures
            res == referenced(self.log(), asset_path@),
    {
        match position_of_str(&self.paths, asset_path) {
            Some(_) => true,
            None => {
                proof {
                    lemma_group_absent(self.log@, path_key(), whole_ref(), self.paths.deep_view(), self.path_groups(), asset_path@);
                }
                false
            },
        }
    }

    /// The assets among `all_assets` that no reference names, in order.
    pub fn find_unreferenced_assets(&self, all_assets: &Vec<String>) -> (res: Vec<String>)
        requires
            self.wf(),
        ensures
            res.deep_view() == all_assets.deep_view().filter(|p: Seq<char>| !referenced(self.log(), p)),
    {
        let ghost log = self.log@;
        let ghost keep = |p: Seq<char>| !referenced(log, p);
        let mut out: Vec<String> = Vec::new();
        let mut i: usize = 0;
        proof {
            reveal(Seq::filter);
            assert(all_assets.deep_view().subrange(0, 0) =~= Seq::<Seq<char>>::empty());
        }
        while i < all_assets.len()
            invariant
                self.wf(),
                log == self.log@,
                keep == (|p: Seq<char>| !referenced(log, p)),
                i <= all_assets.len(),
                out.deep_view() == all_assets.deep_view().subrange(0, i as int).filter(keep),
            decreases all_assets.len() - i,
        {
            let ghost before = out.deep_view();
            let ghost p = all_assets.deep_view()[i as int];
            proof {
                assert(all_assets.deep_view().subrange(0, i + 1) =~= all_assets.deep_view().subrange(0, i as int).push(p));
                lemma_filter_push(all_assets.deep_view().subrange(0, i as int), keep, p);
            }
            assert(all_assets[i as int]@ == p);
            if !self.is_asset_referenced(all_assets[i].as_str()) {
                out.push(all_assets[i].clone());
                proof {
                    assert(keep(p));
                    assert(out.deep_view() =~= before.push(p));
                }
            } else {
                proof {
                    assert(!keep(p));
                }
            }
            i = i + 1;
        }
        proof {
            assert(all_assets.deep_view().subrange(0, i as int) =~= all_assets.deep_view());
        }
        out
    }

    /// The referenced assets that are not among `existing_assets`, each once.
    pub fn find_missing_assets(&self, existing_assets: &Vec<String>) -> (res: Vec<String>)
        requires
            self.wf(),
        ensures
            res.deep_view().no_duplicates(),
            forall|p: Seq<char>|
                #[trigger] res.deep_view().contains(p) <==> referenced(self.log(), p)
                    && !existing_assets.deep_view().contains(p),
    {
        let ghost keys = self.paths.deep_view();
        let mut out: Vec<String> = Vec::new();
        let mut i: usize = 0;
        while i < self.paths.len()
            invariant
                self.wf(),
                keys == self.paths.deep_view(),
                i <= self.paths.len(),
                out.deep_view().no_duplicates(),
                forall|p: Seq<char>|
                    #[trigger] out.deep_view().contains(p) <==> (exists|t: int| 0 <= t < i && keys[t] == p)
                        && !existing_assets.deep_view().contains(p),
            decreases self.paths.len() - i,
        {
            let ghost before = out.deep_view();
            let ghost p = keys[i as int];
            match position_of_str(existing_assets, self.paths[i].as_str()) {
                Some(_) => {
                    proof {
                        assert forall|q: Seq<char>|
                            #[trigger] out.deep_view().contains(q) <==> (exists|t: int| 0 <= t < i + 1 && keys[t] == q)
                                && !existing_assets.deep_view().contains(q) by {
                            if (exists|t: int| 0 <= t < i + 1 && keys[t] == q) && q != p {
                                let t = choose|t: int| 0 <= t < i + 1 && keys[t] == q;
                                assert(t < i);
                            }
                        }
                    }
                },
                None => {
                    out.push(self.paths[i].clone());
                    proof {
                        assert(out.deep_view() =~= before.push(p));
                        assert(!before.contains(p)) by {
                            if before.contains(p) {
                                let t = choose|t: int| 0 <= t < i && keys[t] == p;
                                assert(keys[t] == keys[i as int]);
                            }
                        }
                        lemma_push_no_duplicates(before, p);
                        assert forall|q: Seq<char>|
                            #[trigger] out.deep_view().contains(q) <==> (exists|t: int| 0 <= t < i + 1 && keys[t] == q)
                                && !existing_assets.deep_view().contains(q) by {
                            lemma_push_contains(before, p, q);
                            if q == p {
                                assert(0 <= i < i + 1 && keys[i as int] == q);
                            } else if exists|t: int| 0 <= t < i + 1 && keys[t] == q {
                                let t = choose|t: int| 0 <= t < i + 1 && keys[t] == q;
                                assert(t < i);
                            }
                        }
                    }
                },
            }
            i = i + 1;
        }
        proof {
            assert forall|p: Seq<char>|
                #[trigger] out.deep_view().contains(p) <==> referenced(self.log@, p)
                    && !existing_assets.deep_view().contains(p) by {
                if referenced(self.log@, p) {
                    assert(keys.contains(p));
                    let t = choose|t: int| 0 <= t < keys.len() && keys[t] == p;
                }
                if exists|t: int| 0 <= t < i && keys[t] == p {
                    let t = choose|t: int| 0 <= t < i && keys[t] == p;
                    assert(has_key(self.log@, path_key(), keys[t]));
                }
            }
        }
        out
    }

    /// The references to `asset_path` that pass `hard == want_hard`, in order.
    fn references_of_strength(&self, asset_path: &str, want_hard: bool) -> (res: Vec<&AssetReference>)
        requires
            self.wf(),
        ensures
            res@.map_values(|r: &AssetReference| *r) == refs_to(self.log(), asset_path@).filter(
                |r: AssetReference| r.is_hard_reference == want_hard,
            ),
    {
        let ghost pred = |r: AssetReference| r.is_hard_reference == want_hard;
        let mut out: Vec<&AssetReference> = Vec::new();
        match position_of_str(&self.paths, asset_path) {
            Some(i) => {
                let refs = &self.path_refs[i];
                let ghost g = refs@;
                assert(g == refs_to(self.log@, asset_path@)) by {
                    assert(self.path_groups()[i as int] == g);
                }
                let mut k: usize = 0;
                proof {
                    reveal(Seq::filter);
                    assert(g.subrange(0, 0) =~= Seq::<AssetReference>::empty());
                    assert(out@.map_values(|r: &AssetReference| *r) =~= Seq::<AssetReference>::empty());
                }
                while k < refs.len()
                    invariant
                        refs@ == g,
                        pred == (|r: AssetReference| r.is_hard_reference == want_hard),
                        k <= refs.len(),
                        out@.map_values(|r: &AssetReference| *r) == g.subrange(0, k as int).filter(pred),
                    decreases refs.len() - k,
                {
                    let ghost before = out@;
                    proof {
                        assert(g.subrange(0, k + 1) =~= g.subrange(0, k as int).push(g[k as int]));
                        lemma_filter_push(g.subrange(0, k as int), pred, g[k as int]);
                    }
                    assert(refs[k as int] == g[k as int]);
                    if refs[k].is_hard_reference == want_hard {
                        out.push(&refs[k]);
                        proof {
                            assert(pred(g[k as int]));
                            assert(out@.map_values(|r: &AssetReference| *r) =~= before.map_values(
                                |r: &AssetReference| *r,
                            ).push(g[k as int]));
                        }
                    } else {
                        proof {
                            assert(!pred(g[k as int]));
                        }
                    }
                    k = k + 1;
                }
                proof {
                    assert(g.subrange(0, k as int) =~= g);
                }
                out
            },
            None => {
                proof {
                    lemma_group_absent(self.log@, path_key(), whole_ref(), self.paths.deep_view(), self.path_groups(), asset_path@);
                    reveal(Seq::filter);
                    assert(out@.map_values(|r: &AssetReference| *r) =~= Seq::<AssetReference>::empty());
                }
                out
            },
        }
    }

    /// The hard references to `asset_path` (those that load it), in order.
    pub fn get_hard_references(&self, asset_path: &str) -> (res: Vec<&AssetReference>)
        requires
            self.wf(),
        ensures
            res@.map_values(|r: &AssetReference| *r) == refs_to(self.log(), asset_path@).filter(
                |r: AssetReference| r.is_hard_reference,
            ),
    {
        let res = self.references_of_strength(asset_path, true);
        proof {
            assert((|r: AssetReference| r.is_hard_reference == true) =~= (|r: AssetReference| r.is_hard_reference));
        }
        res
    }

    /// The soft references to `asset_path` (those that do not load it), in
    /// order.
    pub fn get_soft_references(&self, asset_path: &str) -> (res: Vec<&AssetReference>)
        requires
            self.wf(),
        ensures
            res@.map_values(|r: &AssetReference| *r) == refs_to(self.log(), asset_path@).filter(
                |r: AssetReference| !r.is_hard_reference,
            ),
    {
        let res = self.references_of_strength(asset_path, false);
        proof {
            assert((|r: AssetReference| r.is_hard_reference == false) =~= (|r: AssetReference| !r.is_hard_reference));
        }
        res
    }

    /// The paths of the assets that some reference of kind `kind` names,
    /// each once.
    pub fn get_assets_by_kind(&self, kind: AssetKind) -> (res: Vec<String>)
        requires
            self.wf(),
        ensures
            res.deep_view().no_duplicates(),
            forall|p: Seq<char>|
                #[trigger] res.deep_view().contains(p) <==> exists|t: int|
                    0 <= t < self.log().len() && self.log()[t].asset_path@ == p && #[trigger] self.log()[t].kind == kind,
    {
        let ghost log = self.log@;
        let ghost keys = self.paths.deep_view();
        let mut out: Vec<String> = Vec::new();
        let mut i: usize = 0;
        while i < self.paths.len()
            invariant
                self.wf(),
                log == self.log@,
                keys == self.paths.deep_view(),
                i <= self.paths.len(),
                out.deep_view().no_duplicates(),
                forall|p: Seq<char>|
                    #[trigger] out.deep_view().contains(p) <==> (exists|t: int| 0 <= t < i && keys[t] == p)
                        && exists|u: int| 0 <= u < log.len() && log[u].asset_path@ == p && #[trigger] log[u].kind == kind,
            decreases self.paths.len() - i,
        {
            let refs = &self.path_refs[i];
            let ghost g = refs@;
            let ghost p = keys[i as int];
            assert(g == refs_to(log, p)) by {
                assert(self.path_groups()[i as int] == g);
            }
            let mut found = false;
            let mut k: usize = 0;
            while k < refs.len()
                invariant
                    refs@ == g,
                    k <= refs.len(),
                    found <==> exists|u: int| 0 <= u < k && #[trigger] g[u].kind == kind,
                decreases refs.len() - k,
            {
                if refs[k].kind == kind {
                    found = true;
                }
                k = k + 1;
            }
            proof {
                // A reference of this kind in the group is one in the log, and back.
                if found {
                    let u = choose|u: int| 0 <= u < k && #[trigger] g[u].kind == kind;
                    lemma_group_contains(log, path_key(), p, g[u]);
                    assert(g.contains(g[u]));
                    let t = choose|t: int| 0 <= t < log.len() && log[t] == g[u];
                    assert(log[t].asset_path@ == p && log[t].kind == kind);
                }
                if exists|u: int| 0 <= u < log.len() && log[u].asset_path@ == p && #[trigger] log[u].kind == kind {
                    let u = choose|u: int| 0 <= u < log.len() && log[u].asset_path@ == p && #[trigger] log[u].kind == kind;
                    assert(log.contains(log[u]));
                    lemma_group_contains(log, path_key(), p, log[u]);
                    assert(g.contains(log[u]));
                    let w = choose|w: int| 0 <= w < g.len() && g[w] == log[u];
                    assert(g[w].kind == kind);
                }
            }
            let ghost before = out.deep_view();
            if found {
                out.push(self.paths[i].clone());
                proof {
                    assert(out.deep_view() =~= before.push(p));
                    assert(!before.contains(p)) by {
                        if before.contains(p) {
                            let t = choose|t: int| 0 <= t < i && keys[t] == p;
                            assert(keys[t] == keys[i as int]);
                        }
                    }
                    lemma_push_no_duplicates(before, p);
                    assert forall|q: Seq<char>|
                        #[trigger] out.deep_view().contains(q) <==> (exists|t: int| 0 <= t < i + 1 && keys[t] == q)
                            && exists|u: int| 0 <= u < log.len() && log[u].asset_path@ == q && #[trigger] log[u].kind == kind by {
                        lemma_push_contains(before, p, q);
                        if q == p {
                            assert(0 <= i < i + 1 && keys[i as int] == q);
                        } else if exists|t: int| 0 <= t < i + 1 && keys[t] == q {
                            let t = choose|t: int| 0 <= t < i + 1 && keys[t] == q;
                            assert(t < i);
                        }
                    }
                }
            } else {
                proof {
                    assert forall|q: Seq<char>|
                        #[trigger] out.deep_view().contains(q) <==> (exists|t: int| 0 <= t < i + 1 && keys[t] == q)
                            && exists|u: int| 0 <= u < log.len() && log[u].asset_path@ == q && #[trigger] log[u].kind == kind by {
                        if (exists|t: int| 0 <= t < i + 1 && keys[t] == q) && q != p {
                            let t = choose|t: int| 0 <= t < i + 1 && keys[t] == q;
                            assert(t < i);
                        }
                    }
                }
            }
            i = i + 1;
        }
        proof {
            assert forall|p: Seq<char>|
                #[trigger] out.deep_view().contains(p) <==> exists|t: int|
                    0 <= t < log.len() && log[t].asset_path@ == p && #[trigger] log[t].kind == kind by {
                if exists|t: int| 0 <= t < log.len() && log[t].asset_path@ == p && #[trigger] log[t].kind == kind {
                    let t = choose|t: int| 0 <= t < log.len() && log[t].asset_path@ == p && #[trigger] log[t].kind == kind;
                    assert(path_key()(log[t]) == Some(p));
                    assert(has_key(log, path_key(), p));
                    assert(keys.contains(p));
                    let w = choose|w: int| 0 <= w < keys.len() && keys[w] == p;
                }
            }
        }
        out
    }

    /// The dependency chain of an asset: the path named by each reference
    /// to it, in order.
    pub fn get_dependency_chain(&self, asset_path: &str) -> (res: Vec<String>)
        requires
            self.wf(),
        ensures
            res.deep_view() == refs_to(self.log(), asset_path@).map_values(ref_path()),
    {
        let mut chain: Vec<String> = Vec::new();
        match position_of_str(&self.paths, asset_path) {
            Some(i) => {
                let refs = &self.path_refs[i];
                let ghost g = refs@;
                assert(g == refs_to(self.log@, asset_path@)) by {
                    assert(self.path_groups()[i as int] == g);
                }
                let mut k: usize = 0;
                while k < refs.len()
                    invariant
                        refs@ == g,
                        k <= refs.len(),
                        chain.deep_view() == g.subrange(0, k as int).map_values(ref_path()),
                    decreases refs.len() - k,
                {
                    let ghost before = chain.deep_view();
                    assert(refs[k as int] == g[k as int]);
                    chain.push(refs[k].asset_path.clone());
                    proof {
                        assert(chain.deep_view() =~= before.push(g[k as int].asset_path@));
                        assert(g.subrange(0, k + 1).map_values(ref_path()) =~= g.subrange(0, k as int).map_values(
                            ref_path(),
                        ).push(ref_path()(g[k as int])));
                    }
                    k = k + 1;
                }
                proof {
                    assert(g.subrange(0, k as int) =~= g);
                }
                chain
            },
            None => {
                proof {
                    lemma_group_absent(self.log@, path_key(), whole_ref(), self.paths.deep_view(), self.path_groups(), asset_path@);
                    assert(chain.deep_view() =~= Seq::<Seq<char>>::empty());
                    assert(refs_to(self.log@, asset_path@).map_values(ref_path()) =~= Seq::<Seq<char>>::empty());
                }
                chain
            },
        }
    }

    /// Forgets every reference.
    pub fn clear(&mut self)
        ensures
            final(self).wf(),
            final(self).log() == Seq::<AssetReference>::empty(),
    {
        *self = AssetTracker::new();
    }

    /// Counts of the tracked references: distinct assets, references, and
    /// how many of them are hard and soft.
    pub fn get_statistics(&self) -> (res: AssetStatistics)
        requires
            self.wf(),
        ensures
            res.total_assets == self.log().map_values(ref_path()).to_set().len(),
            res.total_references == self.log().len(),
            res.hard_references == self.log().filter(is_hard()).len(),
            res.soft_references == self.log().filter(is_soft()).len(),
    {
        let ghost log = self.log@;
        let ghost groups = self.path_groups();
        let mut total: usize = 0;
        let mut hard: usize = 0;
        let mut i: usize = 0;
        while i < self.path_refs.len()
            invariant
                self.wf(),
                log == self.log@,
                groups == self.path_groups(),
                i <= self.path_refs.len(),
                total == sum_of(groups.subrange(0, i as int), group_len()),
                hard == sum_of(groups.subrange(0, i as int), group_hard()),
            decreases self.path_refs.len() - i,
        {
            let refs = &self.path_refs[i];
            let ghost g = refs@;
            assert(groups[i as int] == g);
            proof {
                assert(groups.subrange(0, i + 1) =~= groups.subrange(0, i as int).push(g));
                lemma_sum_push(groups.subrange(0, i as int), group_len(), g);
                lemma_sum_push(groups.subrange(0, i as int), group_hard(), g);
                lemma_sum_prefix_bound(groups, group_len(), i as int + 1);
                lemma_sum_prefix_bound(groups, group_hard(), i as int + 1);
                assert(groups.subrange(0, groups.len() as int) =~= groups);
                log.lemma_filter_len(is_hard());
            }
            let mut k: usize = 0;
            let mut h: usize = 0;
            proof {
                reveal(Seq::filter);
                assert(g.subrange(0, 0) =~= Seq::<AssetReference>::empty());
            }
            while k < refs.len()
                invariant
                    refs@ == g,
                    k <= refs.len(),
                    h == g.subrange(0, k as int).filter(is_hard()).len(),
                    h <= k,
                decreases refs.len() - k,
            {
                proof {
                    assert(g.subrange(0, k + 1) =~= g.subrange(0, k as int).push(g[k as int]));
                    lemma_filter_push(g.subrange(0, k as int), is_hard(), g[k as int]);
                }
                if refs[k].is_hard_reference {
                    h = h + 1;
                }
                k = k + 1;
            }
            proof {
                assert(g.subrange(0, k as int) =~= g);
            }
            total = total + refs.len();
            hard = hard + h;
            i = i + 1;
        }
        proof {
            assert(groups.subrange(0, i as int) =~= groups);
            lemma_filter_split(log, is_hard());
            assert((|x: AssetReference| !is_hard()(x)) =~= is_soft());
            // The distinct paths are the keys.
            let keys = self.paths.deep_view();
            keys.unique_seq_to_set();
            assert forall|p: Seq<char>| #[trigger] keys.to_set().contains(p) <==> log.map_values(ref_path()).to_set().contains(p) by {
                if keys.contains(p) {
                    let w = choose|w: int| 0 <= w < keys.len() && keys[w] == p;
                    assert(has_key(log, path_key(), keys[w]));
                    let t = choose|t: int| 0 <= t < log.len() && #[trigger] path_key()(log[t]) == Some(keys[w]);
                    assert(log.map_values(ref_path())[t] == p);
                }
                if log.map_values(ref_path()).contains(p) {
                    let t = choose|t: int| 0 <= t < log.len() && log.map_values(ref_path())[t] == p;
                    assert(path_key()(log[t]) == Some(p));
                    assert(has_key(log, path_key(), p));
                }
            }
            assert(keys.to_set() =~= log.map_values(ref_path()).to_set());
        }
        AssetStatistics {
            total_assets: self.paths.len(),
            total_references: total,
            hard_references: hard,
            soft_references: total - hard,
        }
    }
}

/// A prefix of the groups totals no more than all of them.
proof fn lemma_sum_prefix_bound(groups: Seq<Seq<AssetReference>>, f: spec_fn(Seq<AssetReference>) -> nat, i: int)
    requires
        0 <= i <= groups.len(),
    ensures
        sum_of(groups.subrange(0, i), f) <= sum_of(groups, f),
    decreases groups.len() - i,
{
    if i < groups.len() {
        lemma_sum_prefix_bound(groups, f, i + 1);
        assert(groups.subrange(0, i + 1).drop_last() =~= groups.subrange(0, i));
    } else {
        assert(groups.subrange(0, i) =~= groups);
    }
}

/// Every tracked reference is either hard or soft.
pub proof fn lemma_hard_and_soft_make_all(log: Seq<AssetReference>)
    ensures
        log.filter(is_hard()).len() + log.filter(is_soft()).len() == log.len(),
{
    lemma_filter_split(log, is_hard());
    assert((|x: AssetReference| !is_hard()(x)) =~= is_soft());
}

impl Default for AssetTracker {
    fn default() -> (res: Self)
        ensures
            res.wf(),
            res.log() == Seq::<AssetReference>::empty(),
    {
        Self::new()
    }
}

/// What adding a reference does to what the tracker answers: the
/// reference joins the end of its asset's references, its asset path joins
/// the end of its file's assets and, when it names a symbol, of that
/// symbol's assets; its asset counts as referenced; every other asset, file
/// and symbol keeps its answer.
pub proof fn lemma_add_reference_law(log: Seq<AssetReference>, r: AssetReference)
    ensures
        refs_to(log.push(r), r.asset_path@) == refs_to(log, r.asset_path@).push(r),
        forall|p: Seq<char>| p != r.asset_path@ ==> #[trigger] refs_to(log.push(r), p) == refs_to(log, p),
        referenced(log.push(r), r.asset_path@),
        forall|p: Seq<char>| p != r.asset_path@ ==> #[trigger] referenced(log.push(r), p) == referenced(log, p),
        group_of(log.push(r), file_key(), ref_path(), r.file_id) == group_of(log, file_key(), ref_path(), r.file_id).push(
            r.asset_path@,
        ),
        forall|f: FileId|
            f != r.file_id ==> #[trigger] group_of(log.push(r), file_key(), ref_path(), f) == group_of(
                log,
                file_key(),
                ref_path(),
                f,
            ),
        forall|s: SymbolId|
            #[trigger] group_of(log.push(r), symbol_key(), ref_path(), s) == if r.symbol_id == Some(s) {
                group_of(log, symbol_key(), ref_path(), s).push(r.asset_path@)
            } else {
                group_of(log, symbol_key(), ref_path(), s)
            },
{
    lemma_group_push(log, path_key(), whole_ref(), r, r.asset_path@);
    assert forall|p: Seq<char>| p != r.asset_path@ implies #[trigger] refs_to(log.push(r), p) == refs_to(log, p) by {
        lemma_group_push(log, path_key(), whole_ref(), r, p);
    }
    assert(path_key()(log.push(r)[log.len() as int]) == Some(r.asset_path@));
    assert forall|p: Seq<char>| p != r.asset_path@ implies #[trigger] referenced(log.push(r), p) == referenced(log, p) by {
        if referenced(log, p) {
            let t = choose|t: int| 0 <= t < log.len() && #[trigger] path_key()(log[t]) == Some(p);
            assert(log.push(r)[t] == log[t]);
        }
        if referenced(log.push(r), p) {
            let t = choose|t: int| 0 <= t < log.push(r).len() && #[trigger] path_key()(log.push(r)[t]) == Some(p);
            assert(t < log.len());
            assert(log.push(r)[t] == log[t]);
        }
    }
    lemma_group_push(log, file_key(), ref_path(), r, r.file_id);
    assert forall|f: FileId| f != r.file_id implies #[trigger] group_of(log.push(r), file_key(), ref_path(), f)
        == group_of(log, file_key(), ref_path(), f) by {
        lemma_group_push(log, file_key(), ref_path(), r, f);
    }
    assert forall|s: SymbolId| #[trigger] group_of(log.push(r), symbol_key(), ref_path(), s) == if r.symbol_id == Some(s) {
        group_of(log, symbol_key(), ref_path(), s).push(r.asset_path@)
    } else {
        group_of(log, symbol_key(), ref_path(), s)
    } by {
        lemma_group_push(log, symbol_key(), ref_path(), r, s);
    }
}

} // verus!
