use cherry_sight::index::SymbolId;
use cherry_sight::ue::{ModuleType, UEModule, UEProject};
use cherry_sight::ue_integration::{
    AssetKind, AssetReference, AssetTracker, BlueprintRefKind, BlueprintRefTracker,
    BlueprintReference, DependencyKind, ModuleDependencyGraph,
};
use cherry_sight::util::{FileId, Span};

fn create_test_module(name: &str, deps: Vec<&str>) -> UEModule {
    UEModule {
        name: name.to_string(),
        path: format!("Source/{}", name),
        module_type: ModuleType::Runtime,
        dependencies: deps.iter().map(|s| s.to_string()).collect(),
        public_include_paths: Vec::new(),
        private_include_paths: Vec::new(),
        public_defines: Vec::new(),
    }
}

fn project_of(modules: Vec<UEModule>) -> UEProject {
    UEProject {
        name: "TestProject".to_string(),
        path: "Test".to_string(),
        engine_path: Some("Engine".to_string()),
        modules,
        plugins: Vec::new(),
        engine_association: "5.3".to_string(),
        category: "Game".to_string(),
        description: "Test".to_string(),
    }
}

#[test]
fn test_build_dependency_graph() {
    let mut graph = ModuleDependencyGraph::new();

    let modules = vec![
        create_test_module("GameModule", vec!["Core", "Engine", "Slate"]),
        create_test_module("Core", vec![]),
        create_test_module("Engine", vec!["Core"]),
    ];

    let project = project_of(modules);

    graph.build_from_project(&project);

    // Check dependencies
    let game_deps = graph.get_dependencies("GameModule").unwrap();
    assert_eq!(game_deps.len(), 3);

    // Check reverse dependencies
    let core_reverse = graph.get_reverse_dependencies("Core").unwrap();
    assert!(core_reverse.contains(&"GameModule".to_string()));
    assert!(core_reverse.contains(&"Engine".to_string()));
}

#[test]
fn module_graph_test_transitive_dependencies() {
    let mut graph = ModuleDependencyGraph::new();

    let modules = vec![
        create_test_module("A", vec!["B"]),
        create_test_module("B", vec!["C"]),
        create_test_module("C", vec![]),
    ];

    let project = project_of(modules);

    graph.build_from_project(&project);

    let transitive = graph.get_transitive_dependencies("A");
    assert_eq!(transitive.len(), 2);
    assert!(transitive.contains(&"B".to_string()));
    assert!(transitive.contains(&"C".to_string()));
}

#[test]
fn module_graph_test_circular_dependency_detection() {
    let mut graph = ModuleDependencyGraph::new();

    let modules = vec![
        create_test_module("A", vec!["B"]),
        create_test_module("B", vec!["C"]),
        create_test_module("C", vec!["A"]), // Circular!
    ];

    let project = project_of(modules);

    graph.build_from_project(&project);

    let circular = graph.get_circular_dependencies();
    assert!(!circular.is_empty());
}

#[test]
fn module_graph_records_and_depth() {
    let mut graph = ModuleDependencyGraph::new();
    graph.build_from_project(&project_of(vec![
        create_test_module("A", vec!["B", "X"]),
        create_test_module("B", vec!["C"]),
        create_test_module("C", vec![]),
    ]));
    let deps = graph.get_dependencies("A").unwrap();
    assert_eq!(deps[0].from_module, "A");
    assert_eq!(deps[0].to_module, "B");
    assert_eq!(deps[1].to_module, "X");
    assert_eq!(deps[0].kind, DependencyKind::Public);
    assert_eq!(deps[0].depth, 0);
    // Only modules are keys; a name that is only depended on has no entry.
    assert!(graph.get_dependencies("X").is_none());
    assert!(graph.get_reverse_dependencies("A").is_none());
    assert_eq!(graph.get_module_depth("A"), 2);
    assert_eq!(graph.get_module_depth("C"), 0);
    assert_eq!(graph.get_module_depth("Unknown"), 0);
    assert!(graph.get_circular_dependencies().is_empty());
    assert!(graph.get_transitive_dependencies("Unknown").is_empty());
}

#[test]
fn module_graph_later_module_replaces_earlier() {
    let mut graph = ModuleDependencyGraph::new();
    graph.build_from_project(&project_of(vec![
        create_test_module("A", vec!["B"]),
        create_test_module("A", vec!["C"]),
    ]));
    let deps = graph.get_dependencies("A").unwrap();
    assert_eq!(deps.len(), 1);
    assert_eq!(deps[0].to_module, "C");
    assert!(graph.get_reverse_dependencies("B").is_none());
    // Rebuilding starts over.
    graph.build_from_project(&project_of(vec![create_test_module("Z", vec![])]));
    assert!(graph.get_dependencies("A").is_none());
}

#[test]
fn module_graph_self_dependency_is_a_cycle() {
    let mut graph = ModuleDependencyGraph::new();
    graph.build_from_project(&project_of(vec![create_test_module("A", vec!["A"])]));
    let cycles = graph.get_circular_dependencies();
    assert_eq!(cycles.len(), 1);
    assert_eq!(cycles[0], vec!["A".to_string()]);
    assert!(graph.get_transitive_dependencies("A").is_empty());
    assert_eq!(graph.get_module_depth("A"), 0);
}

fn asset_ref(path: &str, kind: AssetKind, start: u32, hard: bool, symbol: Option<SymbolId>) -> AssetReference {
    let file_id = FileId::new(1);
    AssetReference {
        asset_path: path.to_string(),
        kind,
        span: Span::new(file_id, start, start + 10),
        file_id,
        symbol_id: symbol,
        is_hard_reference: hard,
    }
}

#[test]
fn test_add_asset_reference() {
    let mut tracker = AssetTracker::new();

    let asset_path = "/Game/Blueprints/MyBlueprint";

    tracker.add_reference(asset_ref(asset_path, AssetKind::Blueprint, 0, true, None));

    assert!(tracker.is_asset_referenced(asset_path));
    let refs = tracker.get_asset_references(asset_path);
    assert!(refs.is_some());
    assert_eq!(refs.unwrap().len(), 1);
}

#[test]
fn test_hard_soft_references() {
    let mut tracker = AssetTracker::new();

    let asset_path = "/Game/Materials/MyMaterial";

    tracker.add_reference(asset_ref(asset_path, AssetKind::Material, 0, true, None));
    tracker.add_reference(asset_ref(asset_path, AssetKind::Material, 20, false, None));

    let hard_refs = tracker.get_hard_references(asset_path);
    let soft_refs = tracker.get_soft_references(asset_path);

    assert_eq!(hard_refs.len(), 1);
    assert_eq!(soft_refs.len(), 1);
}

#[test]
fn test_find_unreferenced_assets() {
    let mut tracker = AssetTracker::new();

    let asset1 = "/Game/Asset1".to_string();
    let asset2 = "/Game/Asset2".to_string();
    let asset3 = "/Game/Asset3".to_string();

    tracker.add_reference(asset_ref(&asset1, AssetKind::Blueprint, 0, true, None));

    let all_assets = vec![asset1, asset2.clone(), asset3.clone()];

    let unreferenced = tracker.find_unreferenced_assets(&all_assets);
    assert_eq!(unreferenced.len(), 2);
    assert!(unreferenced.contains(&asset2));
    assert!(unreferenced.contains(&asset3));
}

#[test]
fn test_assets_by_kind() {
    let mut tracker = AssetTracker::new();

    tracker.add_reference(asset_ref("/Game/BP1", AssetKind::Blueprint, 0, true, None));
    tracker.add_reference(asset_ref("/Game/Mat1", AssetKind::Material, 10, true, None));

    let blueprints = tracker.get_assets_by_kind(AssetKind::Blueprint);
    assert_eq!(blueprints.len(), 1);

    let materials = tracker.get_assets_by_kind(AssetKind::Material);
    assert_eq!(materials.len(), 1);
}

#[test]
fn asset_statistics_count_every_reference_once() {
    let mut tracker = AssetTracker::new();
    let s = Some(SymbolId::new(5));
    tracker.add_reference(asset_ref("/Game/A", AssetKind::Texture, 0, true, s));
    tracker.add_reference(asset_ref("/Game/A", AssetKind::Texture, 5, false, None));
    tracker.add_reference(asset_ref("/Game/B", AssetKind::Sound, 9, false, s));
    let stats = tracker.get_statistics();
    assert_eq!(stats.total_assets, 2);
    assert_eq!(stats.total_references, 3);
    assert_eq!(stats.hard_references, 1);
    assert_eq!(stats.soft_references, 2);
    assert_eq!(stats.hard_references + stats.soft_references, stats.total_references);

    assert_eq!(
        tracker.get_assets_in_file(FileId::new(1)).unwrap(),
        &vec!["/Game/A".to_string(), "/Game/A".to_string(), "/Game/B".to_string()]
    );
    assert_eq!(
        tracker.get_assets_for_symbol(SymbolId::new(5)).unwrap(),
        &vec!["/Game/A".to_string(), "/Game/B".to_string()]
    );
    assert!(tracker.get_assets_for_symbol(SymbolId::new(6)).is_none());
    assert_eq!(
        tracker.get_dependency_chain("/Game/A"),
        vec!["/Game/A".to_string(), "/Game/A".to_string()]
    );
    assert_eq!(
        tracker.find_missing_assets(&vec!["/Game/A".to_string()]),
        vec!["/Game/B".to_string()]
    );
    tracker.clear();
    assert!(!tracker.is_asset_referenced("/Game/A"));
    assert_eq!(tracker.get_statistics().total_references, 0);
}

fn bp_ref(symbol: u32, kind: BlueprintRefKind, start: u32, path: Option<&str>) -> BlueprintReference {
    let file_id = FileId::new(1);
    BlueprintReference {
        symbol_id: SymbolId::new(symbol),
        kind,
        span: Span::new(file_id, start, start + 10),
        file_id,
        blueprint_path: path.map(|p| p.to_string()),
        blueprint_name: None,
    }
}

#[test]
fn test_add_blueprint_reference() {
    let mut tracker = BlueprintRefTracker::new();

    let file_id = FileId::new(1);
    let symbol_id = SymbolId::new(100);

    let reference = BlueprintReference {
        symbol_id,
        kind: BlueprintRefKind::Callable,
        span: Span::new(file_id, 0, 10),
        file_id,
        blueprint_path: Some("/Game/Blueprints/MyBlueprint".to_string()),
        blueprint_name: Some("MyBlueprint".to_string()),
    };

    tracker.add_reference(reference);

    let refs = tracker.get_blueprint_references(symbol_id);
    assert!(refs.is_some());
    assert_eq!(refs.unwrap().len(), 1);
}

#[test]
fn test_implementable_events() {
    let mut tracker = BlueprintRefTracker::new();

    let file_id = FileId::new(1);
    let symbol_id = SymbolId::new(100);

    let event = BlueprintReference {
        symbol_id,
        kind: BlueprintRefKind::ImplementableEvent,
        span: Span::new(file_id, 0, 10),
        file_id,
        blueprint_path: None,
        blueprint_name: Some("OnCustomEvent".to_string()),
    };

    tracker.add_reference(event);

    let events = tracker.get_implementable_events();
    assert_eq!(events.len(), 1);
    assert_eq!(events[0].kind, BlueprintRefKind::ImplementableEvent);
}

#[test]
fn test_blueprint_callable_check() {
    let mut tracker = BlueprintRefTracker::new();

    let file_id = FileId::new(1);
    let symbol_id = SymbolId::new(100);

    let reference = BlueprintReference {
        symbol_id,
        kind: BlueprintRefKind::Callable,
        span: Span::new(file_id, 0, 10),
        file_id,
        blueprint_path: None,
        blueprint_name: None,
    };

    tracker.add_reference(reference);

    assert!(tracker.is_blueprint_callable(symbol_id));
    assert!(!tracker.is_blueprint_callable(SymbolId::new(999)));
}

#[test]
fn test_orphaned_references() {
    let mut tracker = BlueprintRefTracker::new();

    let file_id = FileId::new(1);
    let symbol_id_1 = SymbolId::new(100);
    let symbol_id_2 = SymbolId::new(200);

    tracker.add_reference(BlueprintReference {
        symbol_id: symbol_id_1,
        kind: BlueprintRefKind::Callable,
        span: Span::new(file_id, 0, 10),
        file_id,
        blueprint_path: None,
        blueprint_name: None,
    });

    tracker.add_reference(BlueprintReference {
        symbol_id: symbol_id_2,
        kind: BlueprintRefKind::Callable,
        span: Span::new(file_id, 10, 20),
        file_id,
        blueprint_path: None,
        blueprint_name: None,
    });

    let valid_symbols = vec![symbol_id_1];

    let orphaned = tracker.find_orphaned_references(&valid_symbols);
    assert_eq!(orphaned.len(), 1);
    assert_eq!(orphaned[0].symbol_id, symbol_id_2);
}

#[test]
fn blueprint_lookups_by_path_kind_and_access() {
    let mut tracker = BlueprintRefTracker::new();
    tracker.add_reference(bp_ref(1, BlueprintRefKind::ReadWriteProperty, 0, Some("/Game/BP")));
    tracker.add_reference(bp_ref(2, BlueprintRefKind::Pure, 10, Some("/Game/BP")));
    tracker.add_reference(bp_ref(1, BlueprintRefKind::NativeEvent, 20, None));
    assert_eq!(
        tracker.get_symbols_in_blueprint("/Game/BP").unwrap(),
        &vec![SymbolId::new(1), SymbolId::new(2)]
    );
    assert!(tracker.get_symbols_in_blueprint("/Game/Other").is_none());
    assert!(tracker.is_blueprint_accessible(SymbolId::new(1)));
    assert!(!tracker.is_blueprint_accessible(SymbolId::new(2)));
    assert!(tracker.is_blueprint_callable(SymbolId::new(2)));
    assert_eq!(tracker.get_native_events().len(), 1);
    let pure = tracker.get_references_by_kind(BlueprintRefKind::Pure);
    assert_eq!(pure.len(), 1);
    assert_eq!(pure[0].symbol_id, SymbolId::new(2));
    tracker.clear();
    assert!(tracker.get_blueprint_references(SymbolId::new(1)).is_none());
    assert!(tracker.get_native_events().is_empty());
}

#[test]
fn module_graph_depth_is_longest_path() {
    let mut graph = ModuleDependencyGraph::new();
    graph.build_from_project(&project_of(vec![
        create_test_module("A", vec!["B", "C"]),
        create_test_module("B", vec!["D"]),
        create_test_module("C", vec!["B"]),
        create_test_module("D", vec![]),
    ]));
    // The longest path is A -> C -> B -> D, though B is also A's first
    // dependency.
    assert_eq!(graph.get_module_depth("A"), 3);
    assert_eq!(graph.get_module_depth("C"), 2);
    assert_eq!(graph.get_module_depth("D"), 0);
    let mut other = ModuleDependencyGraph::new();
    other.build_from_project(&project_of(vec![
        create_test_module("A", vec!["C", "B"]),
        create_test_module("B", vec!["C"]),
        create_test_module("C", vec!["D"]),
    ]));
    assert_eq!(other.get_module_depth("A"), 3);
    // A path never returns to a module it has passed.
    let mut cyclic = ModuleDependencyGraph::new();
    cyclic.build_from_project(&project_of(vec![
        create_test_module("A", vec!["B"]),
        create_test_module("B", vec!["C", "A"]),
        create_test_module("C", vec!["A"]),
    ]));
    assert_eq!(cyclic.get_module_depth("A"), 2);
    assert_eq!(cyclic.get_module_depth("B"), 2);
}

#[test]
fn build_from_project_lists_each_module_and_its_dependents() {
    let mut graph = ModuleDependencyGraph::new();
    graph.build_from_project(&project_of(vec![create_test_module("Old", vec!["X"])]));
    graph.build_from_project(&project_of(vec![
        create_test_module("A", vec!["Core", "B", "Core"]),
        create_test_module("B", vec!["Core"]),
    ]));
    let a = graph.get_dependencies("A").unwrap();
    let names: Vec<&str> = a.iter().map(|d| d.to_module.as_str()).collect();
    assert_eq!(names, vec!["Core", "B", "Core"]);
    assert!(a.iter().all(|d| d.from_module == "A" && d.kind == DependencyKind::Public));
    assert!(graph.get_dependencies("Old").is_none());
    assert!(graph.get_dependencies("Core").is_none());
    let core = graph.get_reverse_dependencies("Core").unwrap();
    assert_eq!(core.iter().filter(|m| m.as_str() == "A").count(), 2);
    assert_eq!(core.iter().filter(|m| m.as_str() == "B").count(), 1);
    assert_eq!(core.len(), 3);
    assert!(graph.get_reverse_dependencies("X").is_none());
}

#[test]
fn add_reference_appends_to_each_answer() {
    let mut tracker = AssetTracker::new();
    let first = asset_ref("/Game/A", AssetKind::Blueprint, 0, true, Some(SymbolId::new(7)));
    let second = asset_ref("/Game/B", AssetKind::Texture, 20, false, None);
    let third = asset_ref("/Game/A", AssetKind::Blueprint, 40, false, Some(SymbolId::new(7)));
    tracker.add_reference(first.clone());
    tracker.add_reference(second.clone());
    tracker.add_reference(third.clone());
    let a_refs = tracker.get_asset_references("/Game/A").unwrap();
    assert_eq!(a_refs.len(), 2);
    assert_eq!(a_refs[0].span, first.span);
    assert_eq!(a_refs[1].span, third.span);
    assert_eq!(tracker.get_asset_references("/Game/B").unwrap().len(), 1);
    assert_eq!(
        tracker.get_assets_in_file(FileId::new(1)).unwrap(),
        &vec!["/Game/A".to_string(), "/Game/B".to_string(), "/Game/A".to_string()]
    );
    assert_eq!(
        tracker.get_assets_for_symbol(SymbolId::new(7)).unwrap(),
        &vec!["/Game/A".to_string(), "/Game/A".to_string()]
    );
    assert!(tracker.get_assets_for_symbol(SymbolId::new(8)).is_none());
    assert!(tracker.is_asset_referenced("/Game/B"));
    assert!(!tracker.is_asset_referenced("/Game/C"));
}

#[test]
fn transitive_dependencies_come_in_depth_first_order() {
    let mut graph = ModuleDependencyGraph::new();
    graph.build_from_project(&project_of(vec![
        create_test_module("A", vec!["B", "D"]),
        create_test_module("B", vec!["C", "A"]),
        create_test_module("C", vec![]),
        create_test_module("D", vec!["C", "E"]),
    ]));
    assert_eq!(
        graph.get_transitive_dependencies("A"),
        vec!["B".to_string(), "C".to_string(), "D".to_string(), "E".to_string()]
    );
    assert_eq!(
        graph.get_transitive_dependencies("D"),
        vec!["C".to_string(), "E".to_string()]
    );
}

#[test]
fn each_cycle_is_reported_once() {
    let mut graph = ModuleDependencyGraph::new();
    graph.build_from_project(&project_of(vec![
        create_test_module("A", vec!["B"]),
        create_test_module("B", vec!["C"]),
        create_test_module("C", vec!["A"]),
    ]));
    let cycles = graph.get_circular_dependencies();
    assert_eq!(cycles.len(), 1);
    assert_eq!(cycles[0], vec!["A".to_string(), "B".to_string(), "C".to_string()]);
    // A dependency listed twice closes the same cycle twice.
    let mut twice = ModuleDependencyGraph::new();
    twice.build_from_project(&project_of(vec![
        create_test_module("A", vec!["B"]),
        create_test_module("B", vec!["A", "A"]),
    ]));
    assert_eq!(twice.get_circular_dependencies().len(), 2);
}
