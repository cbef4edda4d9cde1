use cherry_sight::lsp::ServerCapabilities;
use cherry_sight::parser::{Edit, Position};
use cherry_sight::project_panel::{ProjectPanelViewMode, SolutionEntryId};
use cherry_sight::semantic::{ScopeId, ScopeKind};
use cherry_sight::types::{TypeChecker, TypeDef, TypeInference};
use cherry_sight::util::InternedString;

#[test]
fn test_solution_entry_id_eq() {
    let id1 = SolutionEntryId::Folder("abc".to_string());
    let id2 = SolutionEntryId::Folder("abc".to_string());
    let id3 = SolutionEntryId::Folder("def".to_string());

    assert_eq!(id1, id2);
    assert_ne!(id1, id3);
}

#[test]
fn solution_entry_ids_of_different_kinds_differ() {
    assert_ne!(SolutionEntryId::Project("g".to_string()), SolutionEntryId::Folder("g".to_string()));
    assert_eq!(ProjectPanelViewMode::default(), ProjectPanelViewMode::FileTree);
}

#[test]
fn capabilities() {
    let none = ServerCapabilities::new();
    assert!(!none.completion && !none.hover && !none.references);
    let all = ServerCapabilities::full();
    assert!(all.text_document_sync && all.definition && all.references);
}

#[test]
fn simple_edit_counts_bytes() {
    let e = Edit::simple(3..5, "héllo");
    assert_eq!(e.start_byte, 3);
    assert_eq!(e.old_end_byte, 5);
    assert_eq!(e.new_end_byte, 3 + "héllo".len());
    assert_eq!(e.new_end_byte, 9);
    let z = Position::zero();
    assert_eq!((z.row, z.column), (0, 0));
}

#[test]
fn scope_and_type_checker_basics() {
    assert_eq!(ScopeId(3), ScopeId(3));
    assert_ne!(ScopeKind::Class, ScopeKind::Block);
    let _checker = TypeChecker::new();
}

#[test]
fn test_solution_view_state_expansion() {
    let mut state = cherry_sight::project_panel::SolutionViewState::new();
    let id = SolutionEntryId::Folder("test".to_string());

    assert!(!state.is_expanded(&id));

    state.expand(&id);
    assert!(state.is_expanded(&id));

    state.collapse(&id);
    assert!(!state.is_expanded(&id));

    state.toggle_expanded(&id);
    assert!(state.is_expanded(&id));

    state.toggle_expanded(&id);
    assert!(!state.is_expanded(&id));
}

#[test]
fn collapsing_removes_every_copy_of_an_entry() {
    let mut state = cherry_sight::project_panel::SolutionViewState::default();
    let id = SolutionEntryId::Project("p".to_string());
    state.expanded_ids.push(id.clone());
    state.expanded_ids.push(id.clone());
    state.expand(&SolutionEntryId::Folder("f".to_string()));
    assert_eq!(state.expanded_ids.len(), 3);
    state.collapse(&id);
    assert!(!state.is_expanded(&id));
    assert!(state.is_expanded(&SolutionEntryId::Folder("f".to_string())));
}

#[test]
fn test_type_placeholders() {
    let t = TypeDef::new(InternedString(3));
    assert_eq!(t.name, InternedString(3));
    assert!(TypeInference::new().infer_auto("1 + 2").is_none());
    assert!(!TypeChecker::new().is_compatible(&t, &t.clone()));
}
