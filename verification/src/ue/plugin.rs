//! UE5 plugins.

use vstd::prelude::*;
use vstd::string::StringExecFns;
use crate::ue::descriptor::{ModuleDescriptor, PluginManifest};
use crate::ue::module::{
    descriptor_module, extend_module_defines, extend_module_include_paths, modules_defines,
    modules_include_paths, ModuleType, UEModule,
};
use crate::util::path::{file_stem, join, parent, spec_file_stem, spec_join, spec_parent};

verus! {

/// A UE5 plugin.
#[derive(Debug, Clone)]
pub struct UEPlugin {
    pub name: String,
    pub path: String,
    pub version: u32,
    pub version_name: String,
    pub friendly_name: String,
    pub description: String,
    pub category: String,
    pub modules: Vec<UEModule>,
}

/// The name a descriptor file gives its project or plugin: the file stem,
/// or `Unknown`.
pub open spec fn descriptor_name(path: Seq<char>) -> Seq<char> {
    match spec_file_stem(path) {
        Some(s) => s,
        None => "Unknown"@,
    }
}

/// The directory of a descriptor file, or `.`.
pub open spec fn descriptor_dir(path: Seq<char>) -> Seq<char> {
    match spec_parent(path) {
        Some(d) => d,
        None => "."@,
    }
}

/// The directory of a module named `name` under the root `dir`:
/// `<dir>/Source/<name>`.
pub open spec fn module_dir(dir: Seq<char>, name: Seq<char>) -> Seq<char> {
    spec_join(spec_join(dir, "Source"@), name)
}

/// Whether `ms` are the modules that the descriptors `descs` give under the
/// root `dir`: one per descriptor with a known module type, in order.
pub open spec fn described_modules(ms: Seq<UEModule>, descs: Seq<ModuleDescriptor>, dir: Seq<char>) -> bool
    decreases descs.len(),
{
    if descs.len() == 0 {
        ms.len() == 0
    } else {
        let d = descs.last();
        if ModuleType::spec_from_str(d.module_type@) is Some {
            &&& ms.len() > 0
            &&& descriptor_module(ms.last(), d.name@, d.module_type@, module_dir(dir, d.name@))
            &&& described_modules(ms.drop_last(), descs.drop_last(), dir)
        } else {
            described_modules(ms, descs.drop_last(), dir)
        }
    }
}

/// The modules that module descriptors give under a root directory.
pub fn modules_from_descriptors(descs: &Vec<ModuleDescriptor>, dir: &str) -> (res: Vec<UEModule>)
    ensures
        described_modules(res@, descs@, dir@),
{
    let mut out: Vec<UEModule> = Vec::new();
    let mut i: usize = 0;
    proof {
        assert(descs@.subrange(0, 0) =~= Seq::<ModuleDescriptor>::empty());
    }
    while i < descs.len()
        invariant
            i <= descs.len(),
            described_modules(out@, descs@.subrange(0, i as int), dir@),
        decreases descs.len() - i,
    {
        let d = &descs[i];
        let source = join(dir, "Source");
        let module_dir_path = join(source.as_str(), d.name.as_str());
        let ghost before = out@;
        match UEModule::from_descriptor(d.name.as_str(), d.module_type.as_str(), module_dir_path.as_str(), dir) {
            Some(m) => {
                out.push(m);
                proof {
                    assert(out@.drop_last() =~= before);
                }
            },
            None => {},
        }
        proof {
            assert(descs@.subrange(0, i + 1).drop_last() =~= descs@.subrange(0, i as int));
            assert(descs@.subrange(0, i + 1).last() == descs@[i as int]);
        }
        i = i + 1;
    }
    proof {
        assert(descs@.subrange(0, descs.len() as int) =~= descs@);
    }
    out
}

/// The name of the descriptor file at `path`: its stem, or `Unknown`.
pub fn name_from_descriptor_path(path: &str) -> (res: String)
    ensures
        res@ == descriptor_name(path@),
{
    match file_stem(path) {
        Some(s) => s,
        None => String::from_str("Unknown"),
    }
}

/// The directory of the descriptor file at `path`, or `.`.
pub fn dir_from_descriptor_path(path: &str) -> (res: String)
    ensures
        res@ == descriptor_dir(path@),
{
    match parent(path) {
        Some(d) => d,
        None => String::from_str("."),
    }
}

impl UEPlugin {
    /// The plugin that a `.uplugin` file at `plugin_path` describes: named
    /// after the file, rooted at its directory, with the modules its
    /// descriptors give under `<dir>/Source/<name>`.
    pub fn from_manifest(plugin_path: &str, manifest: PluginManifest) -> (res: Self)
        ensures
            res.name@ == descriptor_name(plugin_path@),
            res.path@ == descriptor_dir(plugin_path@),
            res.version == manifest.version,
            res.version_name == manifest.version_name,
            res.friendly_name == manifest.friendly_name,
            res.description == manifest.description,
            res.category == manifest.category,
            described_modules(res.modules@, manifest.modules@, descriptor_dir(plugin_path@)),
    {
        let name = name_from_descriptor_path(plugin_path);
        let dir = dir_from_descriptor_path(plugin_path);
        let modules = modules_from_descriptors(&manifest.modules, dir.as_str());
        UEPlugin {
            name,
            path: dir,
            version: manifest.version,
            version_name: manifest.version_name,
            friendly_name: manifest.friendly_name,
            description: manifest.description,
            category: manifest.category,
            modules,
        }
    }

    /// All include paths of the plugin's modules, module after module.
    pub fn include_paths(&self) -> (res: Vec<String>)
        ensures
            res.deep_view() == modules_include_paths(self.modules@),
    {
        let mut out: Vec<String> = Vec::new();
        extend_module_include_paths(&mut out, &self.modules);
        assert(out.deep_view() =~= modules_include_paths(self.modules@));
        out
    }

    /// All defines of the plugin's modules, module after module.
    pub fn defines(&self) -> (res: Vec<String>)
        ensures
            res.deep_view() == modules_defines(self.modules@),
    {
        let mut out: Vec<String> = Vec::new();
        extend_module_defines(&mut out, &self.modules);
        assert(out.deep_view() =~= modules_defines(self.modules@));
        out
    }
}

/// The include paths of a list of plugins, plugin after plugin.
pub open spec fn plugins_include_paths(ps: Seq<UEPlugin>) -> Seq<Seq<char>>
    decreases ps.len(),
{
    if ps.len() == 0 {
        Seq::empty()
    } else {
        plugins_include_paths(ps.drop_last()) + modules_include_paths(ps.last().modules@)
    }
}

/// The defines of a list of plugins, plugin after plugin.
pub open spec fn plugins_defines(ps: Seq<UEPlugin>) -> Seq<Seq<char>>
    decreases ps.len(),
{
    if ps.len() == 0 {
        Seq::empty()
    } else {
        plugins_defines(ps.drop_last()) + modules_defines(ps.last().modules@)
    }
}

} // verus!
