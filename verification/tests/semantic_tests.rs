use cherry_sight::index::SymbolId;
use cherry_sight::semantic::{Scope, ScopeId, ScopeKind, ScopeManager};
use cherry_sight::util::{FileId, Interner};

#[test]
fn test_interner_basic() {
    let mut interner = Interner::new();

    let hello = interner.intern("hello");
    let world = interner.intern("world");
    let hello2 = interner.intern("hello");

    assert_eq!(hello, hello2);
    assert_ne!(hello, world);

    assert_eq!(interner.resolve(hello), "hello");
    assert_eq!(interner.resolve(world), "world");
}

#[test]
fn test_interner_get() {
    let mut interner = Interner::new();

    assert_eq!(interner.get("nonexistent"), None);

    let hello = interner.intern("hello");
    assert_eq!(interner.get("hello"), Some(hello));
}

#[test]
fn interner_handles_are_positions() {
    let mut interner = Interner::default();
    assert_eq!(interner.intern("a").0, 0);
    assert_eq!(interner.intern("b").0, 1);
    assert_eq!(interner.intern("a").0, 0);
    assert_eq!(interner.resolve(interner.get("b").unwrap()), "b");
}

#[test]
fn scopes_nest_and_lookup_walks_up() {
    let mut interner = Interner::new();
    let x = interner.intern("x");
    let y = interner.intern("y");
    let file = FileId::new(1);
    let mut scopes = ScopeManager::new();
    let global = scopes.create_scope(ScopeKind::Global, None, file);
    let func = scopes.create_scope(ScopeKind::Function, Some(global), file);
    let block = scopes.create_scope(ScopeKind::Block, Some(func), file);
    assert_eq!((global, func, block), (ScopeId(0), ScopeId(1), ScopeId(2)));
    assert_eq!(scopes.get_scope(global).unwrap().children, vec![func]);
    assert_eq!(scopes.get_scope(func).unwrap().children, vec![block]);

    scopes.add_binding(global, x, SymbolId::new(10));
    scopes.add_binding(func, x, SymbolId::new(20));
    scopes.add_binding(global, y, SymbolId::new(30));
    assert_eq!(scopes.lookup(block, x), Some(SymbolId::new(20)));
    assert_eq!(scopes.lookup(block, y), Some(SymbolId::new(30)));
    assert_eq!(scopes.lookup(global, x), Some(SymbolId::new(10)));
    assert_eq!(scopes.lookup(ScopeId(9), x), None);

    scopes.get_scope_mut(func).unwrap().symbol = Some(SymbolId::new(7));
    assert_eq!(scopes.get_scope(func).unwrap().symbol, Some(SymbolId::new(7)));
    assert!(scopes.get_scope_mut(ScopeId(9)).is_none());
}

#[test]
fn a_scope_rebinding_a_name_keeps_the_latest_symbol() {
    let mut interner = Interner::new();
    let x = interner.intern("x");
    let mut scope = Scope::new(ScopeId(0), ScopeKind::Class, None, FileId::new(1));
    assert_eq!(scope.lookup_local(x), None);
    scope.add_binding(x, SymbolId::new(1));
    scope.add_binding(x, SymbolId::new(2));
    assert_eq!(scope.lookup_local(x), Some(SymbolId::new(2)));
}

#[test]
fn a_lookup_through_a_cycle_of_parents_ends() {
    let mut interner = Interner::new();
    let x = interner.intern("x");
    let mut scopes = ScopeManager::new();
    let a = scopes.create_scope(ScopeKind::Block, Some(ScopeId(1)), FileId::new(1));
    let b = scopes.create_scope(ScopeKind::Block, Some(a), FileId::new(1));
    assert_eq!(b, ScopeId(1));
    assert_eq!(scopes.lookup(a, x), None);
    let own = scopes.create_scope(ScopeKind::Block, Some(ScopeId(2)), FileId::new(1));
    assert_eq!(scopes.get_scope(own).unwrap().children, vec![own]);
}
