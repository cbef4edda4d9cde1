//! UE5 projects.

use vstd::prelude::*;
use vstd::string::StringExecFns;
use crate::ue::descriptor::{PluginReference, ProjectManifest};
use crate::ue::module::{
    extend_module_defines, extend_module_include_paths, extend_strings, modules_defines,
    modules_include_paths, UEModule,
};
use crate::ue::plugin::{
    described_modules, descriptor_dir, descriptor_name, dir_from_descriptor_path,
    modules_from_descriptors, name_from_descriptor_path, plugins_defines, plugins_include_paths,
    UEPlugin,
};
use crate::util::path::{join, spec_join};

verus! {

/// An Unreal Engine project.
#[derive(Debug, Clone)]
pub struct UEProject {
    pub name: String,
    pub path: String,
    pub engine_path: Option<String>,
    pub modules: Vec<UEModule>,
    pub plugins: Vec<UEPlugin>,
    pub engine_association: String,
    pub category: String,
    pub description: String,
}

/// The engine include paths under an engine root.
pub open spec fn engine_include_paths(engine: Seq<char>) -> Seq<Seq<char>> {
    seq![
        spec_join(engine, "Source/Runtime/Core/Public"@),
        spec_join(engine, "Source/Runtime/CoreUObject/Public"@),
        spec_join(engine, "Source/Runtime/Engine/Public"@),
    ]
}

/// The defines that every project has before those of its modules.
pub open spec fn common_defines() -> Seq<Seq<char>> {
    seq!["UE_GAME=1"@, "UE_EDITOR=1"@, "WITH_EDITOR=1"@]
}

/// Where the manifest of a plugin named `name` lies under a project
/// directory: `<dir>/Plugins/<name>/<name>.uplugin`.
pub open spec fn plugin_manifest_path(dir: Seq<char>, name: Seq<char>) -> Seq<char> {
    spec_join(spec_join(spec_join(dir, "Plugins"@), name), name + ".uplugin"@)
}

/// The manifest paths of the enabled plugin references, in order.
pub open spec fn enabled_plugin_paths(refs: Seq<PluginReference>, dir: Seq<char>) -> Seq<Seq<char>>
    decreases refs.len(),
{
    if refs.len() == 0 {
        Seq::empty()
    } else {
        let rest = enabled_plugin_paths(refs.drop_last(), dir);
        if refs.last().enabled {
            rest.push(plugin_manifest_path(dir, refs.last().name@))
        } else {
            rest
        }
    }
}

/// The manifest path of each enabled plugin that a `.uproject` file at
/// `project_path` references, in the order of the references.
pub fn plugin_manifest_paths(project_path: &str, refs: &Vec<PluginReference>) -> (res: Vec<String>)
    ensures
        res.deep_view() == enabled_plugin_paths(refs@, descriptor_dir(project_path@)),
{
    let dir = dir_from_descriptor_path(project_path);
    let mut out: Vec<String> = Vec::new();
    let mut i: usize = 0;
    while i < refs.len()
        invariant
            i <= refs.len(),
            dir@ == descriptor_dir(project_path@),
            out.deep_view() == enabled_plugin_paths(refs@.subrange(0, i as int), dir@),
        decreases refs.len() - i,
    {
        let r = &refs[i];
        let ghost before = out.deep_view();
        if r.enabled {
            let plugins = join(dir.as_str(), "Plugins");
            let plugin_dir = join(plugins.as_str(), r.name.as_str());
            let mut file = r.name.clone();
            file.append(".uplugin");
            let p = join(plugin_dir.as_str(), file.as_str());
            out.push(p);
            proof {
                assert(out.deep_view() =~= before.push(p@));
            }
        }
        proof {
            assert(refs@.subrange(0, i + 1).drop_last() =~= refs@.subrange(0, i as int));
            assert(refs@.subrange(0, i + 1).last() == refs@[i as int]);
        }
        i = i + 1;
    }
    proof {
        assert(refs@.subrange(0, refs.len() as int) =~= refs@);
    }
    out
}

impl UEProject {
    /// The project that a `.uproject` file at `project_path` describes,
    /// with the plugins loaded from its enabled references: named after the
    /// file, rooted at its directory, with the modules its descriptors give
    /// under `<dir>/Source/<name>` and no engine path.
    pub fn from_manifest(project_path: &str, manifest: ProjectManifest, plugins: Vec<UEPlugin>) -> (res:
        Self)
        ensures
            res.name@ == descriptor_name(project_path@),
            res.path@ == descriptor_dir(project_path@),
            res.engine_path is None,
            described_modules(res.modules@, manifest.modules@, descriptor_dir(project_path@)),
            res.plugins@ == plugins@,
            res.engine_association == manifest.engine_association,
            res.category == manifest.category,
            res.description == manifest.description,
    {
        let name = name_from_descriptor_path(project_path);
        let dir = dir_from_descriptor_path(project_path);
        let modules = modules_from_descriptors(&manifest.modules, dir.as_str());
        UEProject {
            name,
            path: dir,
            engine_path: None,
            modules,
            plugins,
            engine_association: manifest.engine_association,
            category: manifest.category,
            description: manifest.description,
        }
    }

    /// The include paths of every module, then of every plugin, then those
    /// of the engine when its path is known.
    pub fn include_paths(&self) -> (res: Vec<String>)
        ensures
            res.deep_view() == modules_include_paths(self.modules@) + plugins_include_paths(
                self.plugins@,
            ) + match self.engine_path {
                Some(e) => engine_include_paths(e@),
                None => Seq::empty(),
            },
    {
        let mut paths: Vec<String> = Vec::new();
        extend_module_include_paths(&mut paths, &self.modules);
        let ghost after_modules = paths.deep_view();
        let mut i: usize = 0;
        while i < self.plugins.len()
            invariant
                i <= self.plugins.len(),
                paths.deep_view() == after_modules + plugins_include_paths(
                    self.plugins@.subrange(0, i as int),
                ),
            decreases self.plugins.len() - i,
        {
            let p = self.plugins[i].include_paths();
            extend_strings(&mut paths, &p);
            proof {
                assert(self.plugins@.subrange(0, i + 1).drop_last() =~= self.plugins@.subrange(
                    0,
                    i as int,
                ));
                assert(paths.deep_view() =~= after_modules + plugins_include_paths(
                    self.plugins@.subrange(0, i + 1),
                ));
            }
            i = i + 1;
        }
        proof {
            assert(self.plugins@.subrange(0, self.plugins.len() as int) =~= self.plugins@);
        }
        let ghost before_engine = paths.deep_view();
        match &self.engine_path {
            Some(e) => {
                paths.push(join(e.as_str(), "Source/Runtime/Core/Public"));
                paths.push(join(e.as_str(), "Source/Runtime/CoreUObject/Public"));
                paths.push(join(e.as_str(), "Source/Runtime/Engine/Public"));
                proof {
                    assert(paths.deep_view() =~= before_engine + engine_include_paths(e@));
                }
            },
            None => {
                proof {
                    assert(paths.deep_view() =~= before_engine + Seq::<Seq<char>>::empty());
                }
            },
        }
        paths
    }

    /// The common defines, then those of every module, then those of every
    /// plugin.
    pub fn defines(&self) -> (res: Vec<String>)
        ensures
            res.deep_view() == common_defines() + modules_defines(self.modules@) + plugins_defines(
                self.plugins@,
            ),
    {
        let mut defines: Vec<String> = Vec::new();
        defines.push(String::from_str("UE_GAME=1"));
        defines.push(String::from_str("UE_EDITOR=1"));
        defines.push(String::from_str("WITH_EDITOR=1"));
        proof {
            assert(defines.deep_view() =~= common_defines());
        }
        extend_module_defines(&mut defines, &self.modules);
        let ghost after_modules = defines.deep_view();
        let mut i: usize = 0;
        while i < self.plugins.len()
            invariant
                i <= self.plugins.len(),
                defines.deep_view() == after_modules + plugins_defines(
                    self.plugins@.subrange(0, i as int),
                ),
            decreases self.plugins.len() - i,
        {
            let d = self.plugins[i].defines();
            extend_strings(&mut defines, &d);
            proof {
                assert(self.plugins@.subrange(0, i + 1).drop_last() =~= self.plugins@.subrange(
                    0,
                    i as int,
                ));
                assert(defines.deep_view() =~= after_modules + plugins_defines(
                    self.plugins@.subrange(0, i + 1),
                ));
            }
            i = i + 1;
        }
        proof {
            assert(self.plugins@.subrange(0, self.plugins.len() as int) =~= self.plugins@);
        }
        defines
    }
}

} // verus!
