//! UE5 module representation.

use vstd::prelude::*;
use vstd::string::StringExecFns;
use crate::util::path::{file_name, join, parent, spec_file_name, spec_join, spec_parent};
use crate::util::text::{str_eq, to_uppercase, uppercased};

verus! {

/// Type of UE module.
#[derive(Debug, Clone, Copy, PartialEq, Eq, Structural)]
pub enum ModuleType {
    Runtime,
    RuntimeNoCommandlet,
    RuntimeAndProgram,
    CookedOnly,
    UncookedOnly,
    Developer,
    DeveloperTool,
    Editor,
    EditorNoCommandlet,
    EditorAndProgram,
    Program,
    ServerOnly,
    ClientOnly,
}

impl ModuleType {
    /// The module type that a descriptor's `Type` text denotes.
    pub open spec fn spec_from_str(s: Seq<char>) -> Option<ModuleType> {
        if s == "Runtime"@ {
            Some(ModuleType::Runtime)
        } else if s == "RuntimeNoCommandlet"@ {
            Some(ModuleType::RuntimeNoCommandlet)
        } else if s == "RuntimeAndProgram"@ {
            Some(ModuleType::RuntimeAndProgram)
        } else if s == "CookedOnly"@ {
            Some(ModuleType::CookedOnly)
        } else if s == "UncookedOnly"@ {
            Some(ModuleType::UncookedOnly)
        } else if s == "Developer"@ {
            Some(ModuleType::Developer)
        } else if s == "DeveloperTool"@ {
            Some(ModuleType::DeveloperTool)
        } else if s == "Editor"@ {
            Some(ModuleType::Editor)
        } else if s == "EditorNoCommandlet"@ {
            Some(ModuleType::EditorNoCommandlet)
        } else if s == "EditorAndProgram"@ {
            Some(ModuleType::EditorAndProgram)
        } else if s == "Program"@ {
            Some(ModuleType::Program)
        } else if s == "ServerOnly"@ {
            Some(ModuleType::ServerOnly)
        } else if s == "ClientOnly"@ {
            Some(ModuleType::ClientOnly)
        } else {
            None
        }
    }

    /// The module type that a descriptor's `Type` text denotes, if any.
    pub fn from_str(s: &str) -> (res: Option<Self>)
        ensures
            res == Self::spec_from_str(s@),
    {
        if str_eq(s, "Runtime") {
            Some(ModuleType::Runtime)
        } else if str_eq(s, "RuntimeNoCommandlet") {
            Some(ModuleType::RuntimeNoCommandlet)
        } else if str_eq(s, "RuntimeAndProgram") {
            Some(ModuleType::RuntimeAndProgram)
        } else if str_eq(s, "CookedOnly") {
            Some(ModuleType::CookedOnly)
        } else if str_eq(s, "UncookedOnly") {
            Some(ModuleType::UncookedOnly)
        } else if str_eq(s, "Developer") {
            Some(ModuleType::Developer)
        } else if str_eq(s, "DeveloperTool") {
            Some(ModuleType::DeveloperTool)
        } else if str_eq(s, "Editor") {
            Some(ModuleType::Editor)
        } else if str_eq(s, "EditorNoCommandlet") {
            Some(ModuleType::EditorNoCommandlet)
        } else if str_eq(s, "EditorAndProgram") {
            Some(ModuleType::EditorAndProgram)
        } else if str_eq(s, "Program") {
            Some(ModuleType::Program)
        } else if str_eq(s, "ServerOnly") {
            Some(ModuleType::ServerOnly)
        } else if str_eq(s, "ClientOnly") {
            Some(ModuleType::ClientOnly)
        } else {
            None
        }
    }
}

/// A UE5 module.
#[derive(Debug, Clone)]
pub struct UEModule {
    pub name: String,
    pub path: String,
    pub module_type: ModuleType,
    pub dependencies: Vec<String>,
    pub public_include_paths: Vec<String>,
    pub private_include_paths: Vec<String>,
    pub public_defines: Vec<String>,
}

/// The include paths of a module: public ones first, then private ones.
pub open spec fn module_include_paths(m: UEModule) -> Seq<Seq<char>> {
    m.public_include_paths.deep_view() + m.private_include_paths.deep_view()
}

/// Appends copies of `items` to `out`.
pub fn extend_strings(out: &mut Vec<String>, items: &Vec<String>)
    ensures
        final(out).deep_view() == old(out).deep_view() + items.deep_view(),
{
    let ghost start = out.deep_view();
    let mut i: usize = 0;
    while i < items.len()
        invariant
            i <= items.len(),
            out.deep_view() == start + items.deep_view().subrange(0, i as int),
        decreases items.len() - i,
    {
        let ghost before = out.deep_view();
        out.push(items[i].clone());
        proof {
            assert(out.deep_view() =~= before.push(items.deep_view()[i as int]));
            assert(items.deep_view().subrange(0, i + 1) =~= items.deep_view().subrange(0, i as int).push(
                items.deep_view()[i as int],
            ));
        }
        i = i + 1;
    }
    proof {
        assert(items.deep_view().subrange(0, items.len() as int) =~= items.deep_view());
    }
}

/// Whether `m` is the module that a descriptor with this name and type text
/// gives for the module directory `path`.
pub open spec fn descriptor_module(
    m: UEModule,
    name: Seq<char>,
    module_type: Seq<char>,
    path: Seq<char>,
) -> bool {
    &&& m.name@ == name
    &&& m.path@ == path
    &&& Some(m.module_type) == ModuleType::spec_from_str(module_type)
    &&& m.dependencies@.len() == 0
    &&& m.public_include_paths.deep_view() == seq![
        spec_join(path, "Public"@),
        spec_join(path, "Classes"@),
    ]
    &&& m.private_include_paths.deep_view() == seq![spec_join(path, "Private"@)]
    &&& m.public_defines.deep_view() == seq![uppercased(name) + "_API="@]
}

/// The include paths of a list of modules, module after module.
pub open spec fn modules_include_paths(ms: Seq<UEModule>) -> Seq<Seq<char>>
    decreases ms.len(),
{
    if ms.len() == 0 {
        Seq::empty()
    } else {
        modules_include_paths(ms.drop_last()) + module_include_paths(ms.last())
    }
}

/// The defines of a list of modules, module after module.
pub open spec fn modules_defines(ms: Seq<UEModule>) -> Seq<Seq<char>>
    decreases ms.len(),
{
    if ms.len() == 0 {
        Seq::empty()
    } else {
        modules_defines(ms.drop_last()) + ms.last().public_defines.deep_view()
    }
}

/// Appends the include paths of every module to `out`.
pub fn extend_module_include_paths(out: &mut Vec<String>, ms: &Vec<UEModule>)
    ensures
        final(out).deep_view() == old(out).deep_view() + modules_include_paths(ms@),
{
    let ghost start = out.deep_view();
    let mut i: usize = 0;
    while i < ms.len()
        invariant
            i <= ms.len(),
            out.deep_view() == start + modules_include_paths(ms@.subrange(0, i as int)),
        decreases ms.len() - i,
    {
        let ghost before = out.deep_view();
        let p = ms[i].include_paths();
        extend_strings(out, &p);
        proof {
            assert(ms@.subrange(0, i + 1).drop_last() =~= ms@.subrange(0, i as int));
            assert(out.deep_view() =~= start + modules_include_paths(ms@.subrange(0, i + 1)));
        }
        i = i + 1;
    }
    proof {
        assert(ms@.subrange(0, ms.len() as int) =~= ms@);
    }
}

/// Appends the defines of every module to `out`.
pub fn extend_module_defines(out: &mut Vec<String>, ms: &Vec<UEModule>)
    ensures
        final(out).deep_view() == old(out).deep_view() + modules_defines(ms@),
{
    let ghost start = out.deep_view();
    let mut i: usize = 0;
    while i < ms.len()
        invariant
            i <= ms.len(),
            out.deep_view() == start + modules_defines(ms@.subrange(0, i as int)),
        decreases ms.len() - i,
    {
        extend_strings(out, &ms[i].public_defines);
        proof {
            assert(ms@.subrange(0, i + 1).drop_last() =~= ms@.subrange(0, i as int));
            assert(out.deep_view() =~= start + modules_defines(ms@.subrange(0, i + 1)));
        }
        i = i + 1;
    }
    proof {
        assert(ms@.subrange(0, ms.len() as int) =~= ms@);
    }
}

impl UEModule {
    /// The module that a `.uproject`/`.uplugin` module descriptor names:
    /// `None` when the type text names no module type.  Its public include
    /// paths are `<path>/Public` and `<path>/Classes`, its private include
    /// path `<path>/Private`, and its one define `<NAME>_API=`.
    pub fn from_descriptor(name: &str, module_type: &str, path: &str, _project_root: &str) -> (res:
        Option<Self>)
        ensures
            res is Some <==> ModuleType::spec_from_str(module_type@) is Some,
            res matches Some(m) ==> descriptor_module(m, name@, module_type@, path@),
    {
        let module_type = match ModuleType::from_str(module_type) {
            Some(t) => t,
            None => return None,
        };
        let mut public_include_paths: Vec<String> = Vec::new();
        public_include_paths.push(join(path, "Public"));
        public_include_paths.push(join(path, "Classes"));
        let mut private_include_paths: Vec<String> = Vec::new();
        private_include_paths.push(join(path, "Private"));
        let mut define = to_uppercase(name);
        define.append("_API=");
        let mut public_defines: Vec<String> = Vec::new();
        public_defines.push(define);
        let m = UEModule {
            name: String::from_str(name),
            path: String::from_str(path),
            module_type,
            dependencies: Vec::new(),
            public_include_paths,
            private_include_paths,
            public_defines,
        };
        proof {
            assert(m.public_include_paths.deep_view() =~= seq![
                spec_join(path@, "Public"@),
                spec_join(path@, "Classes"@),
            ]);
            assert(m.private_include_paths.deep_view() =~= seq![spec_join(path@, "Private"@)]);
            assert(m.public_defines.deep_view() =~= seq![uppercased(name@) + "_API="@]);
        }
        Some(m)
    }

    /// The name a module takes from its `Build.cs` path: the name of the
    /// directory holding the file, or `Unknown`.
    pub open spec fn build_cs_name(path: Seq<char>) -> Seq<char> {
        match spec_parent(path) {
            Some(dir) => match spec_file_name(dir) {
                Some(n) => n,
                None => "Unknown"@,
            },
            None => "Unknown"@,
        }
    }

    /// A runtime module named after the directory of its `Build.cs` file,
    /// with no dependencies, include paths or defines.
    pub fn from_build_cs(path: &str) -> (res: Result<Self, crate::ue::UeError>)
        ensures
            res matches Ok(m) && m.name@ == Self::build_cs_name(path@) && m.path@ == path@
                && m.module_type == ModuleType::Runtime && m.dependencies@.len() == 0
                && m.public_include_paths@.len() == 0 && m.private_include_paths@.len() == 0
                && m.public_defines@.len() == 0,
    {
        let name = match parent(path) {
            Some(dir) => match file_name(dir.as_str()) {
                Some(n) => n,
                None => String::from_str("Unknown"),
            },
            None => String::from_str("Unknown"),
        };
        Ok(
            UEModule {
                name,
                path: String::from_str(path),
                module_type: ModuleType::Runtime,
                dependencies: Vec::new(),
                public_include_paths: Vec::new(),
                private_include_paths: Vec::new(),
                public_defines: Vec::new(),
            },
        )
    }

    /// All include paths of this module: public, then private.
    pub fn include_paths(&self) -> (res: Vec<String>)
        ensures
            res.deep_view() == module_include_paths(*self),
    {
        let mut paths: Vec<String> = Vec::new();
        extend_strings(&mut paths, &self.public_include_paths);
        extend_strings(&mut paths, &self.private_include_paths);
        proof {
            assert(paths.deep_view() =~= module_include_paths(*self));
        }
        paths
    }

    /// All defines of this module.
    pub fn defines(&self) -> (res: Vec<String>)
        ensures
            res.deep_view() == self.public_defines.deep_view(),
    {
        let mut out: Vec<String> = Vec::new();
        extend_strings(&mut out, &self.public_defines);
        assert(out.deep_view() =~= self.public_defines.deep_view());
        out
    }
}

} // verus!
