use cherry_sight::ue::generated_headers::GeneratedHeader;
use cherry_sight::ue::macros::{parse_specifiers, UEMacro};
use cherry_sight::ue::project::plugin_manifest_paths;
use cherry_sight::ue::{
    ModuleDescriptor, ModuleType, PluginManifest, PluginReference, ProjectManifest, UEMacroKind,
    UEModule, UEPlugin, UEProject,
};
use cherry_sight::util::{FileId, Span};

#[test]
fn test_macro_kind_from_str() {
    assert_eq!(UEMacroKind::from_str("UCLASS"), Some(UEMacroKind::UClass));
    assert_eq!(UEMacroKind::from_str("UPROPERTY"), Some(UEMacroKind::UProperty));
    assert_eq!(UEMacroKind::from_str("INVALID"), None);
}

#[test]
fn test_macro_kind_as_str() {
    assert_eq!(UEMacroKind::UClass.as_str(), "UCLASS");
    assert_eq!(UEMacroKind::UProperty.as_str(), "UPROPERTY");
}

#[test]
fn test_parse_specifiers() {
    let spec = "BlueprintType, Blueprintable";
    let parsed = parse_specifiers(spec);

    assert_eq!(parsed.len(), 2);
    assert!(parsed.contains(&"BlueprintType".to_string()));
    assert!(parsed.contains(&"Blueprintable".to_string()));
}

#[test]
fn test_macro_creation() {
    let file_id = FileId::new(1);
    let span = Span::new(file_id, 0, 10);

    let macro_inst =
        UEMacro::new(UEMacroKind::UClass, span).with_specifiers(vec!["BlueprintType".to_string()]);

    assert_eq!(macro_inst.kind, UEMacroKind::UClass);
    assert_eq!(macro_inst.specifiers.len(), 1);
}

#[test]
fn macro_names_round_trip() {
    for kind in [
        UEMacroKind::UClass,
        UEMacroKind::UStruct,
        UEMacroKind::UEnum,
        UEMacroKind::UProperty,
        UEMacroKind::UFunction,
        UEMacroKind::UInterface,
    ] {
        assert_eq!(UEMacroKind::from_str(kind.as_str()), Some(kind));
    }
}

#[test]
fn specifiers_are_trimmed_and_empty_pieces_dropped() {
    assert_eq!(parse_specifiers("  A ,, B  ,"), vec!["A".to_string(), "B".to_string()]);
    assert!(parse_specifiers("").is_empty());
    assert!(parse_specifiers(" , ").is_empty());
}

#[test]
fn test_module_type_from_str() {
    assert_eq!(ModuleType::from_str("Runtime"), Some(ModuleType::Runtime));
    assert_eq!(ModuleType::from_str("Editor"), Some(ModuleType::Editor));
    assert_eq!(ModuleType::from_str("Invalid"), None);
}

#[test]
fn test_module_creation() {
    let path = "/project/Source/MyModule";
    let project_root = "/project";

    let module = UEModule::from_descriptor("MyModule", "Runtime", path, project_root).unwrap();

    assert_eq!(module.name, "MyModule");
    assert_eq!(module.module_type, ModuleType::Runtime);
    assert!(module.include_paths().len() > 0);
}

#[test]
fn module_paths_and_defines() {
    let module = UEModule::from_descriptor("MyModule", "Runtime", "/p/Source/MyModule", "/p").unwrap();
    assert_eq!(
        module.include_paths(),
        vec![
            "/p/Source/MyModule/Public".to_string(),
            "/p/Source/MyModule/Classes".to_string(),
            "/p/Source/MyModule/Private".to_string()
        ]
    );
    assert_eq!(module.defines(), vec!["MYMODULE_API=".to_string()]);
    assert!(UEModule::from_descriptor("X", "Nonsense", "/p", "/p").is_none());
}

#[test]
fn module_from_build_cs_is_named_after_its_directory() {
    let m = UEModule::from_build_cs("/p/Source/Game/Game.Build.cs").unwrap();
    assert_eq!(m.name, "Game");
    assert_eq!(m.path, "/p/Source/Game/Game.Build.cs");
    assert_eq!(m.module_type, ModuleType::Runtime);
    assert!(m.include_paths().is_empty());
}

#[test]
fn test_generated_header_path() {
    let source = "/project/Source/MyModule/MyClass.h";
    let generated = GeneratedHeader::for_source_file(source).unwrap();

    assert_eq!(generated, "/project/Source/MyModule/MyClass.generated.h");
}

#[test]
fn generated_header_needs_a_file_name() {
    assert_eq!(GeneratedHeader::for_source_file("/"), None);
    assert!(!GeneratedHeader::exists_for("/"));
    assert!(!GeneratedHeader::exists_for("/no/such/dir/Thing.h"));
}

fn descriptor(name: &str, module_type: &str) -> ModuleDescriptor {
    ModuleDescriptor {
        name: name.to_string(),
        module_type: module_type.to_string(),
        loading_phase: "Default".to_string(),
    }
}

#[test]
fn plugin_from_manifest() {
    let manifest = PluginManifest {
        file_version: 3,
        version: 2,
        version_name: "1.1".to_string(),
        friendly_name: "Test Plugin".to_string(),
        description: "A plugin".to_string(),
        category: "Other".to_string(),
        modules: vec![descriptor("PluginCore", "Runtime"), descriptor("Broken", "Nope")],
    };
    let plugin = UEPlugin::from_manifest("/game/Plugins/TestPlugin/TestPlugin.uplugin", manifest);
    assert_eq!(plugin.name, "TestPlugin");
    assert_eq!(plugin.path, "/game/Plugins/TestPlugin");
    assert_eq!(plugin.version, 2);
    assert_eq!(plugin.modules.len(), 1);
    assert_eq!(plugin.modules[0].path, "/game/Plugins/TestPlugin/Source/PluginCore");
    assert_eq!(plugin.defines(), vec!["PLUGINCORE_API=".to_string()]);
    assert_eq!(plugin.include_paths().len(), 3);
}

#[test]
fn project_from_manifest() {
    let manifest = ProjectManifest {
        file_version: 3,
        engine_association: "5.3".to_string(),
        category: "Game".to_string(),
        description: "Test project".to_string(),
        modules: vec![descriptor("TestModule", "Runtime")],
        plugins: vec![
            PluginReference { name: "TestPlugin".to_string(), enabled: true },
            PluginReference { name: "Off".to_string(), enabled: false },
        ],
    };
    let paths = plugin_manifest_paths("/g/TestProject.uproject", &manifest.plugins);
    assert_eq!(paths, vec!["/g/Plugins/TestPlugin/TestPlugin.uplugin".to_string()]);

    let mut project = UEProject::from_manifest("/g/TestProject.uproject", manifest, Vec::new());
    assert_eq!(project.name, "TestProject");
    assert_eq!(project.path, "/g");
    assert_eq!(project.engine_association, "5.3");
    assert_eq!(project.category, "Game");
    assert_eq!(project.modules.len(), 1);
    assert_eq!(
        project.defines(),
        vec![
            "UE_GAME=1".to_string(),
            "UE_EDITOR=1".to_string(),
            "WITH_EDITOR=1".to_string(),
            "TESTMODULE_API=".to_string()
        ]
    );
    assert_eq!(project.include_paths().len(), 3);
    project.engine_path = Some("/Engine".to_string());
    let paths = project.include_paths();
    assert_eq!(paths.len(), 6);
    assert_eq!(paths[3], "/Engine/Source/Runtime/Core/Public");
    assert_eq!(paths[5], "/Engine/Source/Runtime/Engine/Public");
}
