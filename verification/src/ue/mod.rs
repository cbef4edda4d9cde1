//! Unreal Engine 5 project structure: projects, plugins, modules, Build.cs
//! data, UE macros and generated headers.

pub mod build_cs;
pub mod descriptor;
pub mod error;
pub mod generated_headers;
pub mod macros;
pub mod module;
pub mod plugin;
pub mod project;

pub use build_cs::BuildCsInfo;
pub use descriptor::{ModuleDescriptor, PluginManifest, PluginReference, ProjectManifest};
pub use error::UeError;
pub use macros::UEMacroKind;
pub use module::{ModuleType, UEModule};
pub use plugin::UEPlugin;
pub use project::UEProject;
