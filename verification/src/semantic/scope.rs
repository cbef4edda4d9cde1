//! Lexical scopes and name lookup through them.

use vstd::prelude::*;
use crate::index::symbol::SymbolId;
use crate::util::interning::InternedString;
use crate::util::span::FileId;

verus! {

/// Unique identifier of a scope.
#[derive(Debug, Clone, Copy, PartialEq, Eq, Hash, Structural)]
pub struct ScopeId(pub u32);

/// Kind of scope.
#[derive(Debug, Clone, Copy, PartialEq, Eq, Structural)]
pub enum ScopeKind {
    Global,
    Namespace,
    Class,
    Function,
    Block,
}

/// A lexical scope with its name bindings.
#[derive(Debug, Clone)]
pub struct Scope {
    pub id: ScopeId,
    pub kind: ScopeKind,
    pub parent: Option<ScopeId>,
    pub file_id: FileId,
    /// Child scopes.
    pub children: Vec<ScopeId>,
    /// The symbol the scope belongs to (for namespace, class and function
    /// scopes).
    pub symbol: Option<SymbolId>,
    /// The name bindings, earliest first; a name is bound by its first
    /// entry.
    pub bindings: Vec<(InternedString, SymbolId)>,
}

/// The symbol of the first binding of `name` at or after index `j`.
pub open spec fn binding_from(bindings: Seq<(InternedString, SymbolId)>, name: InternedString, j: int) -> Option<SymbolId>
    decreases bindings.len() - j,
{
    if j < 0 || j >= bindings.len() {
        None
    } else if bindings[j].0 == name {
        Some(bindings[j].1)
    } else {
        binding_from(bindings, name, j + 1)
    }
}

/// Changing the entry at `i` to another with the same name changes nothing
/// that other names find.
proof fn lemma_binding_other(
    a: Seq<(InternedString, SymbolId)>,
    b: Seq<(InternedString, SymbolId)>,
    i: int,
    name: InternedString,
    n: InternedString,
    j: int,
)
    requires
        0 <= j,
        n != name,
        a.len() <= b.len(),
        forall|t: int| 0 <= t < a.len() && t != i ==> a[t] == b[t],
        forall|t: int| a.len() <= t < b.len() ==> b[t].0 == name,
        0 <= i < a.len() ==> a[i].0 == name && b[i].0 == name,
    ensures
        binding_from(b, n, j) == binding_from(a, n, j),
    decreases b.len() - j,
{
    if j < b.len() {
        lemma_binding_other(a, b, i, name, n, j + 1);
    }
}

/// From `j` on, the first entry named `name` is at `i`.
proof fn lemma_binding_first(b: Seq<(InternedString, SymbolId)>, name: InternedString, i: int, j: int)
    requires
        0 <= j <= i < b.len(),
        b[i].0 == name,
        forall|t: int| j <= t < i ==> b[t].0 != name,
    ensures
        binding_from(b, name, j) == Some(b[i].1),
    decreases i - j,
{
    if j < i {
        lemma_binding_first(b, name, i, j + 1);
    }
}

/// From `j` on, no entry is named `name`.
proof fn lemma_binding_none(b: Seq<(InternedString, SymbolId)>, name: InternedString, j: int)
    requires
        0 <= j,
        forall|t: int| j <= t < b.len() ==> b[t].0 != name,
    ensures
        binding_from(b, name, j) is None,
    decreases b.len() - j,
{
    if j < b.len() {
        lemma_binding_none(b, name, j + 1);
    }
}

impl Scope {
    /// The symbol that `name` is bound to in this scope, if any.
    pub open spec fn binding(&self, name: InternedString) -> Option<SymbolId> {
        binding_from(self.bindings@, name, 0)
    }

    /// A scope without bindings or children.
    pub fn new(id: ScopeId, kind: ScopeKind, parent: Option<ScopeId>, file_id: FileId) -> (res: Self)
        ensures
            res.id == id,
            res.kind == kind,
            res.parent == parent,
            res.file_id == file_id,
            res.children@.len() == 0,
            res.symbol is None,
            forall|n: InternedString| #[trigger] res.binding(n) is None,
    {
        let res = Scope {
            id,
            kind,
            parent,
            file_id,
            children: Vec::new(),
            symbol: None,
            bindings: Vec::new(),
        };
        res
    }

    /// The position of the binding of `name`, if any.
    fn binding_position(&self, name: InternedString) -> (res: Option<usize>)
        ensures
            res matches Some(i) ==> i < self.bindings@.len() && self.bindings@[i as int].0 == name
                && forall|t: int| 0 <= t < i ==> self.bindings@[t].0 != name,
            res is None ==> forall|i: int| 0 <= i < self.bindings@.len() ==> self.bindings@[i].0 != name,
    {
        let mut i: usize = 0;
        while i < self.bindings.len()
            invariant
                i <= self.bindings@.len(),
                forall|t: int| 0 <= t < i ==> self.bindings@[t].0 != name,
            decreases self.bindings@.len() - i,
        {
            if self.bindings[i].0 == name {
                return Some(i);
            }
            i = i + 1;
        }
        None
    }

    /// Binds `name` to `symbol` in this scope, replacing an earlier binding.
    pub fn add_binding(&mut self, name: InternedString, symbol: SymbolId)
        ensures
            forall|n: InternedString| #[trigger] final(self).binding(n) == if n == name {
                Some(symbol)
            } else {
                old(self).binding(n)
            },
            final(self).id == old(self).id,
            final(self).kind == old(self).kind,
            final(self).parent == old(self).parent,
            final(self).file_id == old(self).file_id,
            final(self).children == old(self).children,
            final(self).symbol == old(self).symbol,
    {
        let ghost before = self.bindings@;
        match self.binding_position(name) {
            Some(i) => {
                self.bindings.set(i, (name, symbol));
                proof {
                    let after = self.bindings@;
                    assert forall|n: InternedString| #[trigger] binding_from(after, n, 0) == if n == name {
                        Some(symbol)
                    } else {
                        binding_from(before, n, 0)
                    } by {
                        if n == name {
                            lemma_binding_first(after, name, i as int, 0);
                        } else {
                            lemma_binding_other(before, after, i as int, name, n, 0);
                        }
                    }
                }
            },
            None => {
                self.bindings.push((name, symbol));
                proof {
                    let after = self.bindings@;
                    assert forall|n: InternedString| #[trigger] binding_from(after, n, 0) == if n == name {
                        Some(symbol)
                    } else {
                        binding_from(before, n, 0)
                    } by {
                        if n == name {
                            lemma_binding_first(after, name, before.len() as int, 0);
                        } else {
                            lemma_binding_other(before, after, -1, name, n, 0);
                        }
                    }
                }
            },
        }
    }

    /// The symbol bound to `name` in this scope only.
    pub fn lookup_local(&self, name: InternedString) -> (res: Option<SymbolId>)
        ensures
            res == self.binding(name),
    {
        match self.binding_position(name) {
            Some(i) => {
                proof {
                    lemma_binding_first(self.bindings@, name, i as int, 0);
                }
                Some(self.bindings[i].1)
            },
            None => {
                proof {
                    lemma_binding_none(self.bindings@, name, 0);
                }
                None
            },
        }
    }
}

/// The position of the first scope with id `id` at or after `j`, if any.
pub open spec fn first_with_id_from(scopes: Seq<Scope>, id: ScopeId, j: int) -> Option<int>
    decreases scopes.len() - j,
{
    if j < 0 || j >= scopes.len() {
        None
    } else if scopes[j].id == id {
        Some(j)
    } else {
        first_with_id_from(scopes, id, j + 1)
    }
}

/// The position of the first scope with id `id`, if any.
pub open spec fn first_with_id(scopes: Seq<Scope>, id: ScopeId) -> Option<int> {
    first_with_id_from(scopes, id, 0)
}

/// What looking `name` up from scope `id` finds when the walk up the
/// parent chain may visit at most `steps` scopes: the symbol bound to it in
/// the nearest scope of the chain that binds it.
pub open spec fn lookup_from(scopes: Seq<Scope>, id: ScopeId, name: InternedString, steps: nat) -> Option<SymbolId>
    decreases steps,
{
    if steps == 0 {
        None
    } else {
        match first_with_id(scopes, id) {
            None => None,
            Some(i) => {
                let s = scopes[i];
                if s.binding(name) is Some {
                    s.binding(name)
                } else {
                    match s.parent {
                        Some(p) => lookup_from(scopes, p, name, (steps - 1) as nat),
                        None => None,
                    }
                }
            },
        }
    }
}

/// What `first_with_id_from` finds, and that it skips no scope with the id.
proof fn lemma_first_with_id_from(scopes: Seq<Scope>, id: ScopeId, j: int)
    requires
        0 <= j,
    ensures
        first_with_id_from(scopes, id, j) matches Some(i) ==> j <= i < scopes.len() && scopes[i].id
            == id && forall|t: int| j <= t < i ==> scopes[t].id != id,
        first_with_id_from(scopes, id, j) is None ==> forall|t: int|
            j <= t < scopes.len() ==> scopes[t].id != id,
    decreases scopes.len() - j,
{
    if j < scopes.len() {
        lemma_first_with_id_from(scopes, id, j + 1);
    }
}

/// The search from `j` finds `i` when `i` is the first match from `j` on.
proof fn lemma_first_with_id_at(scopes: Seq<Scope>, id: ScopeId, i: int, j: int)
    requires
        0 <= j <= i < scopes.len(),
        scopes[i].id == id,
        forall|t: int| j <= t < i ==> scopes[t].id != id,
    ensures
        first_with_id_from(scopes, id, j) == Some(i),
    decreases i - j,
{
    if j < i {
        lemma_first_with_id_at(scopes, id, i, j + 1);
    }
}

/// The search from `j` finds nothing when no scope from `j` on matches.
proof fn lemma_first_with_id_none(scopes: Seq<Scope>, id: ScopeId, j: int)
    requires
        0 <= j,
        forall|t: int| j <= t < scopes.len() ==> scopes[t].id != id,
    ensures
        first_with_id_from(scopes, id, j) is None,
    decreases scopes.len() - j,
{
    if j < scopes.len() {
        lemma_first_with_id_none(scopes, id, j + 1);
    }
}

/// Searching after a push finds what the search before found, else the
/// pushed scope when it matches.
proof fn lemma_first_with_id_push(scopes: Seq<Scope>, s: Scope, id: ScopeId)
    ensures
        first_with_id(scopes.push(s), id) == match first_with_id(scopes, id) {
            Some(i) => Some(i),
            None => if s.id == id {
                Some(scopes.len() as int)
            } else {
                None
            },
        },
{
    let p = scopes.push(s);
    lemma_first_with_id_from(scopes, id, 0);
    match first_with_id(scopes, id) {
        Some(i) => {
            lemma_first_with_id_at(p, id, i, 0);
        },
        None => {
            if s.id == id {
                lemma_first_with_id_at(p, id, scopes.len() as int, 0);
            } else {
                lemma_first_with_id_none(p, id, 0);
            }
        },
    }
}

/// Where a new scope with id `new_id` is recorded as a child of `parent`:
/// the first existing scope with that id, else the new scope itself when it
/// is its own parent.
pub open spec fn parent_slot(scopes: Seq<Scope>, parent: Option<ScopeId>, new_id: ScopeId) -> Option<int> {
    match parent {
        None => None,
        Some(p) => match first_with_id(scopes, p) {
            Some(i) => Some(i),
            None => if p == new_id {
                Some(scopes.len() as int)
            } else {
                None
            },
        },
    }
}

/// Whether `a` and `b` agree in everything but their children.
pub open spec fn same_but_children(a: Scope, b: Scope) -> bool {
    &&& a.id == b.id
    &&& a.kind == b.kind
    &&& a.parent == b.parent
    &&& a.file_id == b.file_id
    &&& a.symbol == b.symbol
    &&& forall|n: InternedString| #[trigger] a.binding(n) == b.binding(n)
}

/// The scopes of a file.
#[derive(Debug, Clone)]
pub struct ScopeManager {
    scopes: Vec<Scope>,
    next_id: u32,
}

impl ScopeManager {
    /// The scopes, in the order they were created.
    pub closed spec fn scopes(&self) -> Seq<Scope> {
        self.scopes@
    }

    /// The id the next scope gets.
    pub closed spec fn spec_next_id(&self) -> u32 {
        self.next_id
    }

    /// A manager without scopes.
    pub fn new() -> (res: Self)
        ensures
            res.scopes() == Seq::<Scope>::empty(),
            res.spec_next_id() == 0,
    {
        ScopeManager { scopes: Vec::new(), next_id: 0 }
    }

    /// The position of the first scope with id `id`.
    fn position(&self, id: ScopeId) -> (res: Option<usize>)
        ensures
            res matches Some(i) ==> i < self.scopes@.len() && first_with_id(self.scopes@, id) == Some(i as int),
            res is None ==> first_with_id(self.scopes@, id) is None,
    {
        let mut i: usize = 0;
        while i < self.scopes.len()
            invariant
                i <= self.scopes@.len(),
                forall|t: int| 0 <= t < i ==> self.scopes@[t].id != id,
            decreases self.scopes@.len() - i,
        {
            if self.scopes[i].id == id {
                proof {
                    lemma_first_with_id_at(self.scopes@, id, i as int, 0);
                }
                return Some(i);
            }
            i = i + 1;
        }
        proof {
            lemma_first_with_id_none(self.scopes@, id, 0);
        }
        None
    }

    /// Creates a scope with the next id, and records the id among the
    /// children of the first scope with the parent's id, when there is one.
    pub fn create_scope(&mut self, kind: ScopeKind, parent: Option<ScopeId>, file_id: FileId) -> (res:
        ScopeId)
        requires
            old(self).spec_next_id() < u32::MAX,
        ensures
            res.0 == old(self).spec_next_id(),
            final(self).spec_next_id() == old(self).spec_next_id() + 1,
            final(self).scopes().len() == old(self).scopes().len() + 1,
            ({
                let fresh = final(self).scopes().last();
                &&& fresh.id == res
                &&& fresh.kind == kind
                &&& fresh.parent == parent
                &&& fresh.file_id == file_id
                &&& fresh.symbol is None
                &&& forall|n: InternedString| #[trigger] fresh.binding(n) is None
                &&& fresh.children@ == if parent_slot(old(self).scopes(), parent, res) == Some(
                    old(self).scopes().len() as int,
                ) {
                    seq![res]
                } else {
                    Seq::<ScopeId>::empty()
                }
            }),
            forall|i: int|
                0 <= i < old(self).scopes().len() ==> same_but_children(
                    #[trigger] final(self).scopes()[i],
                    old(self).scopes()[i],
                ) && final(self).scopes()[i].children@ == if parent_slot(old(self).scopes(), parent, res)
                    == Some(i) {
                    old(self).scopes()[i].children@.push(res)
                } else {
                    old(self).scopes()[i].children@
                },
    {
        let id = ScopeId(self.next_id);
        self.next_id = self.next_id + 1;
        let scope = Scope::new(id, kind, parent, file_id);
        let ghost scope_v = scope;
        let ghost before = self.scopes@;
        self.scopes.push(scope);
        let ghost pushed = self.scopes@;
        proof {
            assert forall|q: ScopeId| #[trigger] first_with_id(pushed, q) == match first_with_id(before, q) {
                Some(i) => Some(i),
                None => if q == id {
                    Some(before.len() as int)
                } else {
                    None
                },
            } by {
                lemma_first_with_id_push(before, scope_v, q);
            }
        }
        match parent {
            Some(p) => {
                match self.position(p) {
                    Some(i) => {
                        self.scopes[i].children.push(id);
                        proof {
                            assert forall|t: int| 0 <= t < pushed.len() && t != i as int implies self.scopes@[t]
                                == pushed[t] by {}
                        }
                    },
                    None => {},
                }
            },
            None => {},
        }
        proof {
            let fresh = self.scopes@[before.len() as int];
            assert(pushed[before.len() as int] == scope_v);
            assert(fresh.id == id && fresh.kind == kind && fresh.parent == parent && fresh.file_id == file_id);
            assert(fresh.symbol is None);
            assert(fresh.bindings == scope_v.bindings);
            assert forall|n: InternedString| #[trigger] fresh.binding(n) is None by {
                assert(scope_v.binding(n) is None);
            }
            if parent_slot(before, parent, id) == Some(before.len() as int) {
                assert(fresh.children@ =~= seq![id]);
            } else {
                assert(fresh.children@ =~= Seq::<ScopeId>::empty());
            }
            assert forall|i: int| 0 <= i < before.len() implies same_but_children(
                #[trigger] self.scopes@[i],
                before[i],
            ) && self.scopes@[i].children@ == if parent_slot(before, parent, id) == Some(i) {
                before[i].children@.push(id)
            } else {
                before[i].children@
            } by {
                assert(pushed[i] == before[i]);
            }
        }
        id
    }

    /// The first scope with id `id`, if any.
    pub fn get_scope(&self, id: ScopeId) -> (res: Option<&Scope>)
        ensures
            res is Some <==> first_with_id(self.scopes(), id) is Some,
            res matches Some(s) ==> *s == self.scopes()[first_with_id(self.scopes(), id)->Some_0],
    {
        match self.position(id) {
            Some(i) => Some(&self.scopes[i]),
            None => None,
        }
    }

    /// The first scope with id `id`, for changing it, if any.
    pub fn get_scope_mut(&mut self, id: ScopeId) -> (res: Option<&mut Scope>)
        ensures
            res is Some <==> first_with_id(old(self).scopes(), id) is Some,
            final(self).spec_next_id() == old(self).spec_next_id(),
            res matches Some(r) ==> *r == old(self).scopes()[first_with_id(old(self).scopes(), id)->Some_0]
                && final(self).scopes() == old(self).scopes().update(
                first_with_id(old(self).scopes(), id)->Some_0,
                *final(r),
            ),
            res is None ==> final(self).scopes() == old(self).scopes(),
    {
        match self.position(id) {
            Some(i) => Some(&mut self.scopes[i]),
            None => None,
        }
    }

    /// The symbol that `name` is bound to in the nearest scope that binds it,
    /// walking from scope `scope_id` up the parent chain; the walk visits
    /// at most as many scopes as there are, which is every scope of a chain
    /// that does not come back to a scope it left.
    pub fn lookup(&self, scope_id: ScopeId, name: InternedString) -> (res: Option<SymbolId>)
        ensures
            res == lookup_from(self.scopes(), scope_id, name, self.scopes().len()),
    {
        let mut current = scope_id;
        let mut steps: usize = self.scopes.len();
        while steps > 0
            invariant
                lookup_from(self.scopes@, scope_id, name, self.scopes@.len()) == lookup_from(
                    self.scopes@,
                    current,
                    name,
                    steps as nat,
                ),
            decreases steps,
        {
            match self.position(current) {
                Some(i) => {
                    let scope = &self.scopes[i];
                    match scope.lookup_local(name) {
                        Some(symbol) => {
                            return Some(symbol);
                        },
                        None => {},
                    }
                    match scope.parent {
                        Some(p) => {
                            current = p;
                        },
                        None => {
                            return None;
                        },
                    }
                },
                None => {
                    return None;
                },
            }
            steps = steps - 1;
        }
        None
    }

    /// Binds `name` to `symbol` in the first scope with id `scope_id`, if
    /// there is one.
    pub fn add_binding(&mut self, scope_id: ScopeId, name: InternedString, symbol: SymbolId)
        ensures
            final(self).spec_next_id() == old(self).spec_next_id(),
            final(self).scopes().len() == old(self).scopes().len(),
            forall|i: int|
                0 <= i < old(self).scopes().len() && first_with_id(old(self).scopes(), scope_id) != Some(i)
                    ==> #[trigger] final(self).scopes()[i] == old(self).scopes()[i],
            first_with_id(old(self).scopes(), scope_id) matches Some(i) ==> {
                &&& final(self).scopes()[i].children == old(self).scopes()[i].children
                &&& final(self).scopes()[i].id == old(self).scopes()[i].id
                &&& final(self).scopes()[i].kind == old(self).scopes()[i].kind
                &&& final(self).scopes()[i].parent == old(self).scopes()[i].parent
                &&& final(self).scopes()[i].file_id == old(self).scopes()[i].file_id
                &&& final(self).scopes()[i].symbol == old(self).scopes()[i].symbol
                &&& forall|n: InternedString| #[trigger] final(self).scopes()[i].binding(n) == if n == name {
                    Some(symbol)
                } else {
                    old(self).scopes()[i].binding(n)
                }
            },
    {
        match self.position(scope_id) {
            Some(i) => {
                self.scopes[i].add_binding(name, symbol);
            },
            None => {},
        }
    }
}

impl Default for ScopeManager {
    /// A manager without scopes.
    fn default() -> (res: Self)
        ensures
            res.scopes() == Seq::<Scope>::empty(),
    {
        Self::new()
    }
}

/// Whether two lists of scopes differ at most in the scopes' kinds (and
/// files, symbols and children): the same ids, parents and bindings in the
/// same places.
pub open spec fn same_but_kinds(a: Seq<Scope>, b: Seq<Scope>) -> bool {
    &&& a.len() == b.len()
    &&& forall|i: int|
        0 <= i < a.len() ==> (#[trigger] a[i]).id == b[i].id && a[i].parent == b[i].parent && a[i].bindings@
            == b[i].bindings@
}

/// Scopes with the same ids in the same places are found at the same place.
proof fn lemma_first_with_id_same(a: Seq<Scope>, b: Seq<Scope>, id: ScopeId, j: int)
    requires
        same_but_kinds(a, b),
    ensures
        first_with_id_from(a, id, j) == first_with_id_from(b, id, j),
    decreases a.len() - j,
{
    if 0 <= j < a.len() {
        assert(a[j].id == b[j].id);
        lemma_first_with_id_same(a, b, id, j + 1);
    }
}

/// Lookup does not depend on what kind of scope each scope is: scopes that
/// differ only in their kinds give the same answer for every scope, name
/// and step budget.
pub proof fn lemma_lookup_ignores_kinds(a: Seq<Scope>, b: Seq<Scope>, id: ScopeId, name: InternedString, steps: nat)
    requires
        same_but_kinds(a, b),
    ensures
        lookup_from(a, id, name, steps) == lookup_from(b, id, name, steps),
    decreases steps,
{
    lemma_first_with_id_same(a, b, id, 0);
    lemma_first_with_id_from(a, id, 0);
    if steps > 0 {
        match first_with_id(a, id) {
            Some(i) => {
                assert(a[i].id == b[i].id && a[i].parent == b[i].parent && a[i].bindings@ == b[i].bindings@);
                assert(a[i].binding(name) == b[i].binding(name));
                match a[i].parent {
                    Some(p) => lemma_lookup_ignores_kinds(a, b, p, name, (steps - 1) as nat),
                    None => {},
                }
            },
            None => {},
        }
    }
}

/// Lookup walks up the parent chain: a scope that binds the name answers
/// with its binding; one that does not answers what its parent answers with
/// one step less; one without a parent, or a scope id that names no scope,
/// answers nothing.
pub proof fn lemma_lookup_walks_up(scopes: Seq<Scope>, id: ScopeId, name: InternedString, steps: nat)
    ensures
        first_with_id(scopes, id) matches Some(i) ==> {
            let s = scopes[i];
            &&& s.binding(name) is Some ==> lookup_from(scopes, id, name, steps + 1) == s.binding(name)
            &&& s.binding(name) is None ==> lookup_from(scopes, id, name, steps + 1) == match s.parent {
                Some(p) => lookup_from(scopes, p, name, steps),
                None => None,
            }
        },
        first_with_id(scopes, id) is None ==> lookup_from(scopes, id, name, steps) is None,
{
}

/// What lookup finds is bound to the name in some scope: a lookup that
/// answers `Some(x)` found a scope binding the name to `x`.
pub proof fn lemma_lookup_found_binding(scopes: Seq<Scope>, id: ScopeId, name: InternedString, steps: nat)
    ensures
        lookup_from(scopes, id, name, steps) matches Some(x) ==> exists|i: int|
            0 <= i < scopes.len() && #[trigger] scopes[i].binding(name) == Some(x),
    decreases steps,
{
    if steps > 0 {
        lemma_first_with_id_from(scopes, id, 0);
        match first_with_id(scopes, id) {
            Some(i) => {
                if scopes[i].binding(name) is None {
                    match scopes[i].parent {
                        Some(p) => lemma_lookup_found_binding(scopes, p, name, (steps - 1) as nat),
                        None => {},
                    }
                }
            },
            None => {},
        }
    }
}

} // verus!
