use cherry_sight::project_panel::{
    DirectoryItem, ProjectFileItem, SlnItem, SolutionEntry, SolutionEntryId, SolutionModel,
    SolutionViewState,
};

fn project(name: &str, guid: &str, rel: &str) -> SlnItem {
    SlnItem {
        name: name.to_string(),
        guid: guid.to_string(),
        relative_path: rel.to_string(),
        is_folder: false,
        is_project: true,
        children: Vec::new(),
    }
}

fn folder(name: &str, guid: &str, children: Vec<SlnItem>) -> SlnItem {
    SlnItem {
        name: name.to_string(),
        guid: guid.to_string(),
        relative_path: name.to_string(),
        is_folder: true,
        is_project: false,
        children,
    }
}

fn sample_state() -> SolutionViewState {
    let model = SolutionModel {
        name: "My".to_string(),
        roots: vec![
            project("Game", "G1", "Game/Game.vcxproj"),
            folder("Engine", "F1", vec![project("Core", "C1", "Engine/Core.vcxproj")]),
            folder("Apps", "F2", Vec::new()),
        ],
    };
    let mut state = SolutionViewState::new();
    state.load_parsed_solution("/ws/My.sln".to_string(), model);
    state
}

fn names_and_depths(state: &SolutionViewState) -> Vec<(String, usize)> {
    state
        .visible_entries
        .iter()
        .map(|e| (e.name().to_string(), e.depth()))
        .collect()
}

#[test]
fn test_solution_root_lists_folders_first_by_name() {
    let mut state = sample_state();
    state.update_visible_entries();
    assert_eq!(
        names_and_depths(&state),
        vec![
            ("My".to_string(), 0),
            ("Apps".to_string(), 1),
            ("Engine".to_string(), 1),
            ("Game".to_string(), 1),
        ]
    );
}

#[test]
fn test_collapsed_solution_shows_only_itself() {
    let mut state = sample_state();
    state.collapse(&SolutionEntryId::Solution("/ws/My.sln".to_string()));
    state.update_visible_entries();
    assert_eq!(names_and_depths(&state), vec![("My".to_string(), 0)]);
}

#[test]
fn test_expanded_folder_shows_its_items() {
    let mut state = sample_state();
    state.expand(&SolutionEntryId::Folder("F1".to_string()));
    state.update_visible_entries();
    assert_eq!(
        names_and_depths(&state),
        vec![
            ("My".to_string(), 0),
            ("Apps".to_string(), 1),
            ("Engine".to_string(), 1),
            ("Core".to_string(), 2),
            ("Game".to_string(), 1),
        ]
    );
}

#[test]
fn test_expanded_project_loads_and_shows_files() {
    let mut state = sample_state();
    state.expand(&SolutionEntryId::Project("G1".to_string()));
    state.update_visible_entries();
    assert_eq!(
        state.projects_to_load(),
        vec![("/ws/Game/Game.vcxproj".to_string(), "G1".to_string())]
    );

    let tree = DirectoryItem {
        name: String::new(),
        path: String::new(),
        children: vec![DirectoryItem {
            name: "Source".to_string(),
            path: "Source".to_string(),
            children: Vec::new(),
            files: vec![ProjectFileItem {
                relative_path: "Source/A.cpp".to_string(),
                file_name: Some("A.cpp".to_string()),
            }],
        }],
        files: vec![
            ProjectFileItem { relative_path: "b.h".to_string(), file_name: Some("b.h".to_string()) },
            ProjectFileItem { relative_path: "a.h".to_string(), file_name: Some("a.h".to_string()) },
        ],
    };
    state.insert_parsed_project("/ws/Game/Game.vcxproj".to_string(), tree);
    state.update_visible_entries();
    assert!(state.projects_to_load().is_empty());
    assert_eq!(
        names_and_depths(&state),
        vec![
            ("My".to_string(), 0),
            ("Apps".to_string(), 1),
            ("Engine".to_string(), 1),
            ("Game".to_string(), 1),
            ("Source".to_string(), 2),
            ("a.h".to_string(), 2),
            ("b.h".to_string(), 2),
        ]
    );
    let last = state.visible_entries.last().unwrap();
    assert_eq!(last.file_path(), Some("/ws/Game/b.h"));

    state.expand(&SolutionEntryId::SourceFile("/ws/Game/Source".to_string()));
    state.update_visible_entries();
    let files: Vec<Option<String>> =
        state.visible_entries.iter().map(|e| e.file_path().map(|p| p.to_string())).collect();
    assert!(files.contains(&Some("/ws/Game/Source/A.cpp".to_string())));
}

#[test]
fn test_solution_entry_accessors() {
    let entry = SolutionEntry::Directory {
        name: "Source".to_string(),
        path: "/p/Source".to_string(),
        depth: 3,
    };
    assert_eq!(entry.id(), SolutionEntryId::SourceFile("/p/Source".to_string()));
    assert_eq!(entry.name(), "Source");
    assert_eq!(entry.depth(), 3);
    assert!(entry.is_expandable());
    assert_eq!(entry.file_path(), None);
    let file = SolutionEntry::SourceFile { name: "a.cpp".to_string(), path: "/p/a.cpp".to_string(), depth: 1 };
    assert!(!file.is_expandable());
    assert_eq!(file.file_path(), Some("/p/a.cpp"));
    let sol = SolutionEntry::Solution { name: "S".to_string(), path: "/s.sln".to_string() };
    assert_eq!(sol.depth(), 0);
}

#[test]
fn test_no_solution_no_entries() {
    let mut state = SolutionViewState::new();
    state.update_visible_entries();
    assert!(state.visible_entries.is_empty());
}
