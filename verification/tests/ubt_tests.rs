use cherry_sight::ubt::{UBTCommand, UBTExecutor};

#[test]
fn test_ubt_executor_creation() {
    let engine_path = "C:/UnrealEngine/UE_5.3".to_string();
    let project_path = "C:/Projects/MyProject/MyProject.uproject".to_string();

    let executor = UBTExecutor::new(engine_path, project_path);

    assert!(executor.ubt_path.contains("UnrealBuildTool.exe"));
}

#[test]
fn test_build_command_creation() {
    let command = UBTCommand::Build {
        target: "MyProjectEditor".to_string(),
        platform: "Win64".to_string(),
        configuration: "Development".to_string(),
    };

    // Structure test
    match command {
        UBTCommand::Build { target, platform, configuration } => {
            assert_eq!(target, "MyProjectEditor");
            assert_eq!(platform, "Win64");
            assert_eq!(configuration, "Development");
        }
        _ => panic!("Wrong command type"),
    }
}

#[test]
fn test_clean_command_creation() {
    let command = UBTCommand::Clean { target: "MyProject".to_string() };

    match command {
        UBTCommand::Clean { target } => {
            assert_eq!(target, "MyProject");
        }
        _ => panic!("Wrong command type"),
    }
}

#[test]
fn ubt_location_and_arguments() {
    let executor = UBTExecutor::new("/UE".to_string(), "/P/G.uproject".to_string());
    assert_eq!(executor.ubt_path, "/UE/Engine/Binaries/DotNET/UnrealBuildTool/UnrealBuildTool.exe");
    let build = UBTCommand::Build {
        target: "G".to_string(),
        platform: "Linux".to_string(),
        configuration: "Debug".to_string(),
    };
    assert_eq!(
        executor.command_arguments(&build),
        vec!["G", "Linux", "Debug", "-Project", "/P/G.uproject", "-WaitMutex", "-FromMsBuild"]
    );
    assert_eq!(
        executor.command_arguments(&UBTCommand::Clean { target: "G".to_string() }),
        vec!["G", "-Clean", "-Project", "/P/G.uproject"]
    );
    assert_eq!(
        executor.command_arguments(&UBTCommand::GenerateProjectFiles),
        vec!["-ProjectFiles", "-Project", "/P/G.uproject", "-Game", "-Engine"]
    );
    assert_eq!(
        executor.command_arguments(&UBTCommand::GetModuleDependencies { module: "Core".to_string() }),
        vec!["-Mode=QueryTargets", "-Module", "Core", "-Project", "/P/G.uproject"]
    );
    assert!(!executor.is_available());
    assert_eq!(UBTExecutor::build_log_lines("a\r\nb\n"), vec!["a", "b"]);
}
