//! UnrealBuildTool integration: running builds, reading their output and
//! reading the headers UBT generates.

pub mod executor;
pub mod generated_parser;
pub mod output_parser;

pub use executor::{BuildResult, UBTCommand, UBTExecutor};
pub use generated_parser::{
    FunctionMetadata, GeneratedHeaderParser, GeneratedInfo, PropertyMetadata, ReflectionData,
};
pub use output_parser::{BuildStatistics, CompileError, CompileWarning, ParsedOutput, UBTOutputParser};
