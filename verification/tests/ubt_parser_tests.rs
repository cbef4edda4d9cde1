use cherry_sight::ubt::generated_parser::name_and_type_of;
use cherry_sight::ubt::{CompileError, CompileWarning, GeneratedHeaderParser, UBTOutputParser};
use cherry_sight::ue::build_cs::first_groups_of;
use cherry_sight::ue::BuildCsInfo;
use cherry_sight::util::pattern::group_text;

fn groups(items: &[Option<&str>]) -> Vec<Option<String>> {
    items.iter().map(|g| g.map(|s| s.to_string())).collect()
}

#[test]
fn test_parse_error() {
    let parser = UBTOutputParser::new();
    let line = r"C:\Project\Source\MyClass.cpp(42,10): error C2065: undeclared identifier";

    let error = parser.parse_error(line);
    assert!(error.is_some());

    let err = error.unwrap();
    assert_eq!(err.line, 42);
    assert_eq!(err.column, 10);
    assert!(err.file.contains("MyClass.cpp"));
}

#[test]
fn test_parse_warning() {
    let parser = UBTOutputParser::new();
    let line = r"C:\Project\Source\MyClass.cpp(100,5): warning C4101: unreferenced local variable";

    let warning = parser.parse_warning(line);
    assert!(warning.is_some());

    let warn = warning.unwrap();
    assert_eq!(warn.line, 100);
    assert_eq!(warn.column, 5);
}

#[test]
fn test_parse_compiled_file() {
    let parser = UBTOutputParser::new();
    let line = "  Compiling MyClass.cpp";

    let file = parser.parse_compiled_file(line);
    assert!(file.is_some());
}

#[test]
fn test_parse_build_output() {
    let parser = UBTOutputParser::new();
    let output = r"Compiling MyClass.cpp
C:\Project\Source\MyClass.cpp(42,10): error C2065: undeclared identifier
C:\Project\Source\MyClass.cpp(100,5): warning C4101: unreferenced local variable
Total build time: 45.67 seconds";

    let parsed = parser.parse(output);

    assert_eq!(parsed.errors.len(), 1);
    assert_eq!(parsed.warnings.len(), 1);
    assert_eq!(parsed.compiled_files.len(), 1);
    let duration: f64 = parsed
        .statistics
        .build_times
        .iter()
        .rev()
        .find_map(|t| t.parse::<f64>().ok())
        .unwrap_or(0.0);
    assert!((duration - 45.67).abs() < 0.01);
}

#[test]
fn test_is_success() {
    let parser = UBTOutputParser::new();

    assert!(parser.is_success("BUILD SUCCESSFUL"));
    assert!(parser.is_success("Completed in 30 seconds"));
    assert!(!parser.is_success("error C2065: undeclared"));
}

#[test]
fn test_parse_error_fields_exact() {
    let parser = UBTOutputParser::new();
    let err = parser
        .parse_error("Source/A.cpp(7,3): error C1001: internal error")
        .unwrap();
    assert_eq!(err.file, "Source/A.cpp");
    assert_eq!(err.line, 7);
    assert_eq!(err.column, 3);
    assert_eq!(err.message, "internal error");
    assert_eq!(err.error_code.as_deref(), Some("C1001"));
    assert!(parser.parse_warning("Source/A.cpp(7,3): error C1001: internal error").is_none());
    assert!(parser.parse_error("nothing to see here").is_none());
}

#[test]
fn test_parse_error_line_too_large() {
    let parser = UBTOutputParser::new();
    let line = "A.cpp(99999999999999999999999,1): error C1: too far";
    assert!(parser.parse_error(line).is_none());
}

#[test]
fn test_parse_compiled_header_and_parsing() {
    let parser = UBTOutputParser::new();
    assert_eq!(parser.parse_compiled_file("Parsing Actor.h").as_deref(), Some("Actor.h"));
    assert!(parser.parse_compiled_file("Linking Game.exe").is_none());
}

#[test]
fn test_build_time_text() {
    assert_eq!(
        UBTOutputParser::build_time_text("Total build time: 123.45 seconds").as_deref(),
        Some("123.45")
    );
    assert!(UBTOutputParser::build_time_text("Total build time:").is_none());
    assert!(UBTOutputParser::build_time_text("no times here").is_none());
}

#[test]
fn test_parse_counts_and_build_times() {
    let parser = UBTOutputParser::new();
    let output = "Compiling A.cpp\nCompiling B.cpp\nTotal build time: 1.5 seconds\nTotal build time: 2.5 seconds\n";
    let parsed = parser.parse(output);
    assert_eq!(parsed.statistics.compiled_files, 2);
    assert_eq!(parsed.compiled_files, vec!["A.cpp".to_string(), "B.cpp".to_string()]);
    assert_eq!(parsed.statistics.errors, 0);
    assert_eq!(parsed.statistics.total_files, 0);
    assert_eq!(parsed.statistics.build_times, vec!["1.5".to_string(), "2.5".to_string()]);
}

#[test]
fn test_error_summary() {
    let parser = UBTOutputParser::new();
    assert_eq!(parser.get_error_summary(&[]), "No errors");
    let errors: Vec<CompileError> = (1..=6)
        .map(|i| CompileError {
            file: format!("F{}.cpp", i),
            line: i,
            column: 1,
            message: format!("m{}", i),
            error_code: None,
        })
        .collect();
    let summary = parser.get_error_summary(&errors[..2]);
    assert_eq!(summary, "2 error(s) found:\n  F1.cpp(1): m1\n  F2.cpp(2): m2");
    let summary = parser.get_error_summary(&errors);
    assert_eq!(
        summary,
        "6 error(s) found:\n  F1.cpp(1): m1\n  F2.cpp(2): m2\n  F3.cpp(3): m3\n  F4.cpp(4): m4\n  F5.cpp(5): m5"
    );
}

#[test]
fn test_extract_class_name() {
    let parser = GeneratedHeaderParser::new();

    let path = "MyClass.generated.h";
    let class_name = parser.extract_class_name(path).unwrap();
    assert_eq!(class_name, "MyClass");
}

#[test]
fn test_extract_class_name_plain_and_missing() {
    let parser = GeneratedHeaderParser::new();
    assert_eq!(parser.extract_class_name("Dir/Actor.h").as_deref(), Some("Actor"));
    assert!(parser.extract_class_name("").is_none());
}

#[test]
fn test_parse_reflection_data() {
    let parser = GeneratedHeaderParser::new();

    let content = r#"
UPROPERTY(EditAnywhere, BlueprintReadWrite)
float Health;

UFUNCTION(BlueprintCallable)
void TakeDamage();

GENERATED_BODY()
"#;

    let data = parser.parse_reflection_data(content);

    assert_eq!(data.properties.len(), 1);
    assert_eq!(data.properties[0].name, "Health");
    assert_eq!(data.properties[0].property_type, "float");

    assert_eq!(data.functions.len(), 1);
    assert_eq!(data.functions[0].name, "TakeDamage");

    assert!(data.generated_body_line.is_some());
}

#[test]
fn test_parse_reflection_same_line_and_body_line() {
    let parser = GeneratedHeaderParser::new();
    let content = "UPROPERTY() int32 Ammo;\nUFUNCTION() static bool IsReady();\nGENERATED_UCLASS_BODY()\n";
    let data = parser.parse_reflection_data(content);
    assert_eq!(data.properties.len(), 1);
    assert_eq!(data.properties[0].name, "Ammo");
    assert_eq!(data.properties[0].property_type, "int32");
    assert_eq!(data.functions.len(), 1);
    assert_eq!(data.functions[0].name, "IsReady");
    assert_eq!(data.functions[0].return_type, "bool");
    assert_eq!(data.generated_body_line, Some(3));
}

#[test]
fn test_parse_includes() {
    let parser = GeneratedHeaderParser::new();

    let content = r#"
#include "CoreMinimal.h"
#include "GameFramework/Actor.h"
#include "MyClass.generated.h"
"#;

    let includes = parser.parse_includes(content);

    assert_eq!(includes.len(), 3);
    assert!(includes.iter().any(|p| p.contains("CoreMinimal.h")));
}

#[test]
fn test_parse_content() {
    let parser = GeneratedHeaderParser::new();
    let info = parser
        .parse_content("Intermediate/Hero.generated.h", "#include \"Hero.h\"\nGENERATED_BODY()\n")
        .unwrap();
    assert_eq!(info.class_name, "Hero");
    assert_eq!(info.file_path, "Intermediate/Hero.generated.h");
    assert_eq!(info.include_dependencies, vec!["Hero.h".to_string()]);
    assert_eq!(info.reflection_data.generated_body_line, Some(2));
    assert!(parser.parse_content("", "").is_none());
}

#[test]
fn test_is_generated_header() {
    assert!(GeneratedHeaderParser::is_generated_header("MyClass.generated.h"));
    assert!(!GeneratedHeaderParser::is_generated_header("MyClass.h"));
}

#[test]
fn test_extract_string_array() {
    let content = r#"
        PublicDependencyModuleNames.AddRange(new string[] { "Core", "Engine" });
        PrivateDependencyModuleNames.Add("Slate");
        "#;

    let public_deps =
        BuildCsInfo::extract_string_array(content, "PublicDependencyModuleNames").unwrap();
    assert_eq!(public_deps, vec!["Core", "Engine"]);

    let private_deps =
        BuildCsInfo::extract_string_array(content, "PrivateDependencyModuleNames").unwrap();
    assert_eq!(private_deps, vec!["Slate"]);
}

#[test]
fn test_extract_string_array_missing_and_escaped() {
    let content = r#"A.B.Add("x"); AxB.Add("y");"#;
    assert_eq!(BuildCsInfo::extract_string_array(content, "A.B").unwrap(), vec!["x"]);
    assert!(BuildCsInfo::extract_string_array(content, "Missing").is_none());
}

#[test]
fn test_parse_build_cs() {
    let build_cs_content = r#"
using UnrealBuildTool;

public class TestModule : ModuleRules
{
    public TestModule(ReadOnlyTargetRules Target) : base(Target)
    {
        PCHUsage = PCHUsageMode.UseExplicitOrSharedPCHs;

        PublicDependencyModuleNames.AddRange(new string[] {
            "Core",
            "CoreUObject",
            "Engine"
        });

        PrivateDependencyModuleNames.AddRange(new string[] {
            "Slate",
            "SlateCore"
        });

        PublicIncludePaths.Add("$(ModuleDir)/Public");
        PrivateIncludePaths.Add("$(ModuleDir)/Private");

        PublicDefinitions.Add("WITH_TESTMODULE=1");
    }
}
"#;

    let info = BuildCsInfo::from_content(build_cs_content);

    assert!(info.public_dependencies.contains(&"Core".to_string()));
    assert!(info.public_dependencies.contains(&"Engine".to_string()));
    assert!(info.private_dependencies.contains(&"Slate".to_string()));
    assert!(info.public_definitions.contains(&"WITH_TESTMODULE=1".to_string()));
    assert!(info.private_definitions.is_empty());
}

#[test]
fn test_diagnostic_from_groups() {
    let g = groups(&[Some("all"), Some("F.cpp"), Some("12"), Some("+3"), Some("C42"), Some("msg")]);
    let e = CompileError::from_groups(&g).unwrap();
    assert_eq!((e.file.as_str(), e.line, e.column, e.message.as_str()), ("F.cpp", 12, 3, "msg"));
    assert_eq!(e.error_code.as_deref(), Some("C42"));
    let w = CompileWarning::from_groups(&g).unwrap();
    assert_eq!(w.warning_code.as_deref(), Some("C42"));
    let bad_number = groups(&[Some("all"), Some("F.cpp"), Some("1x"), Some("3"), Some("C"), Some("m")]);
    assert!(CompileError::from_groups(&bad_number).is_none());
    let missing = groups(&[Some("all"), Some("F.cpp"), Some("1"), None, Some("C"), Some("m")]);
    assert!(CompileError::from_groups(&missing).is_none());
    assert!(CompileError::from_groups(&groups(&[Some("all")])).is_none());
}

#[test]
fn test_group_helpers() {
    let g = groups(&[Some("whole"), Some("float"), Some("Health"), None]);
    assert_eq!(group_text(&g, 2).as_deref(), Some("Health"));
    assert!(group_text(&g, 3).is_none());
    assert!(group_text(&g, 9).is_none());
    assert_eq!(name_and_type_of(&g), Some(("Health".to_string(), "float".to_string())));
    assert!(name_and_type_of(&groups(&[Some("w"), Some("int")])).is_none());
    let ms = vec![g.clone(), groups(&[Some("w")]), groups(&[Some("w"), Some("Engine")])];
    assert_eq!(first_groups_of(&ms), vec!["float".to_string(), "Engine".to_string()]);
}
