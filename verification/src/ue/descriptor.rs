//! The contents of `.uproject` and `.uplugin` descriptor files.

use vstd::prelude::*;

verus! {

/// A module entry of a descriptor file.
#[derive(Debug, Clone)]
pub struct ModuleDescriptor {
    pub name: String,
    pub module_type: String,
    pub loading_phase: String,
}

/// A plugin entry of a `.uproject` file.
#[derive(Debug, Clone)]
pub struct PluginReference {
    pub name: String,
    pub enabled: bool,
}

/// The contents of a `.uplugin` file.
#[derive(Debug, Clone)]
pub struct PluginManifest {
    pub file_version: u32,
    pub version: u32,
    pub version_name: String,
    pub friendly_name: String,
    pub description: String,
    pub category: String,
    pub modules: Vec<ModuleDescriptor>,
}

/// The contents of a `.uproject` file.
#[derive(Debug, Clone)]
pub struct ProjectManifest {
    pub file_version: u32,
    pub engine_association: String,
    pub category: String,
    pub description: String,
    pub modules: Vec<ModuleDescriptor>,
    pub plugins: Vec<PluginReference>,
}

} // verus!
