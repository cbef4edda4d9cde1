//! UnrealBuildTool commands: where the tool lies and what it is called with.
//! Running it is left to the caller.

use vstd::prelude::*;
use vstd::string::StringExecFns;
use crate::util::path::{join, path_exists, spec_join};
use crate::util::text::{split_lines, text_lines};

verus! {

/// The outcome of a UBT run.
#[derive(Debug, Clone)]
pub struct BuildResult {
    pub success: bool,
    pub stdout: String,
    pub stderr: String,
    pub exit_code: i32,
    pub duration_ms: u128,
}

/// A UBT command.
#[derive(Debug, Clone)]
pub enum UBTCommand {
    /// Build a target.
    Build { target: String, platform: String, configuration: String },
    /// Clean build artifacts.
    Clean { target: String },
    /// Generate project files.
    GenerateProjectFiles,
    /// Get module dependencies.
    GetModuleDependencies { module: String },
}

/// Runs UnrealBuildTool for a project.
pub struct UBTExecutor {
    /// Path to the UBT executable.
    pub ubt_path: String,
    /// Path of the project file (.uproject).
    pub project_path: String,
    /// Engine root path.
    pub engine_path: String,
}

/// Where UBT lies under an engine root:
/// `<engine>/Engine/Binaries/DotNET/UnrealBuildTool/UnrealBuildTool.exe`.
pub open spec fn ubt_location(engine: Seq<char>) -> Seq<char> {
    spec_join(
        spec_join(
            spec_join(spec_join(spec_join(engine, "Engine"@), "Binaries"@), "DotNET"@),
            "UnrealBuildTool"@,
        ),
        "UnrealBuildTool.exe"@,
    )
}

/// The arguments UBT is called with for `command` on the project `project`.
pub open spec fn command_args(command: UBTCommand, project: Seq<char>) -> Seq<Seq<char>> {
    match command {
        UBTCommand::Build { target, platform, configuration } => seq![
            target@,
            platform@,
            configuration@,
            "-Project"@,
            project,
            "-WaitMutex"@,
            "-FromMsBuild"@,
        ],
        UBTCommand::Clean { target } => seq![target@, "-Clean"@, "-Project"@, project],
        UBTCommand::GenerateProjectFiles => seq![
            "-ProjectFiles"@,
            "-Project"@,
            project,
            "-Game"@,
            "-Engine"@,
        ],
        UBTCommand::GetModuleDependencies { module } => seq![
            "-Mode=QueryTargets"@,
            "-Module"@,
            module@,
            "-Project"@,
            project,
        ],
    }
}

impl UBTExecutor {
    /// An executor for the project at `project_path`, using the UBT of the
    /// engine at `engine_path`.
    pub fn new(engine_path: String, project_path: String) -> (res: Self)
        ensures
            res.ubt_path@ == ubt_location(engine_path@),
            res.project_path == project_path,
            res.engine_path == engine_path,
    {
        let a = join(engine_path.as_str(), "Engine");
        let b = join(a.as_str(), "Binaries");
        let c = join(b.as_str(), "DotNET");
        let d = join(c.as_str(), "UnrealBuildTool");
        let ubt_path = join(d.as_str(), "UnrealBuildTool.exe");
        UBTExecutor { ubt_path, project_path, engine_path }
    }

    /// The arguments UBT is called with for `command`.
    pub fn command_arguments(&self, command: &UBTCommand) -> (res: Vec<String>)
        ensures
            res.deep_view() == command_args(*command, self.project_path@),
    {
        let mut args: Vec<String> = Vec::new();
        let project = self.project_path.clone();
        match command {
            UBTCommand::Build { target, platform, configuration } => {
                args.push(target.clone());
                args.push(platform.clone());
                args.push(configuration.clone());
                args.push(String::from_str("-Project"));
                args.push(project);
                args.push(String::from_str("-WaitMutex"));
                args.push(String::from_str("-FromMsBuild"));
            },
            UBTCommand::Clean { target } => {
                args.push(target.clone());
                args.push(String::from_str("-Clean"));
                args.push(String::from_str("-Project"));
                args.push(project);
            },
            UBTCommand::GenerateProjectFiles => {
                args.push(String::from_str("-ProjectFiles"));
                args.push(String::from_str("-Project"));
                args.push(project);
                args.push(String::from_str("-Game"));
                args.push(String::from_str("-Engine"));
            },
            UBTCommand::GetModuleDependencies { module } => {
                args.push(String::from_str("-Mode=QueryTargets"));
                args.push(String::from_str("-Module"));
                args.push(module.clone());
                args.push(String::from_str("-Project"));
                args.push(project);
            },
        }
        proof {
            assert(args.deep_view() =~= command_args(*command, self.project_path@));
        }
        args
    }

    /// Whether the UBT executable exists.
    pub fn is_available(&self) -> (res: bool) {
        path_exists(self.ubt_path.as_str())
    }

    /// The lines of a build log's content.
    pub fn build_log_lines(content: &str) -> (res: Vec<String>)
        ensures
            res.deep_view() == text_lines(content@),
    {
        split_lines(content)
    }
}

} // verus!
