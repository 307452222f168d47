//! The build-system-neutral model every frontend reads into and the code
//! generator renders from.
//!
//! Every path-valued field of a [`Target`], [`Test`] and [`ConfigHeader`]
//! is module-relative by the time codegen sees it: see
//! [`is_module_relative`].

use vstd::prelude::*;
use crate::paths::{components, components_of, dotdot, is_absolute, absolute};
use crate::text::{chars, strs, views};

verus! {

/// What a target builds.
#[derive(Debug, Clone, Copy, PartialEq, Eq, Structural, Default)]
pub enum TargetKind {
    #[default]
    Executable,
    Library,
}

/// A converted module this one depends on.
#[derive(Debug, Clone, PartialEq, Eq, Default)]
pub struct ModuleDependency {
    pub name: String,
    pub version: Option<String>,
}

/// A library target of a converted dependency that a target of this module
/// links.
#[derive(Debug, Clone, PartialEq, Eq, Default)]
pub struct ExternalDependency {
    pub module: String,
    pub target: String,
    pub shared: bool,
}

/// The module's identity: its `project()` (or `PACKAGE`) name and version.
#[derive(Debug, Clone, PartialEq, Eq, Default)]
pub struct ModuleInfo {
    pub name: String,
    pub version: Option<String>,
}

/// One buildable unit: a `cc_binary` or `cc_library`.
#[derive(Debug, Clone, PartialEq, Eq, Default)]
pub struct Target {
    pub name: String,
    pub kind: TargetKind,
    /// Compiled sources, plus headers that only need to be present.
    pub sources: Vec<String>,
    /// Headers the project declared public (a library's `hdrs`).
    pub public_headers: Vec<String>,
    /// Names of this module's own targets it links.
    pub dependencies: Vec<String>,
    /// Library targets of converted dependencies it links.
    pub external_dependencies: Vec<ExternalDependency>,
    /// The target's own include directories, module-relative.
    pub includes: Vec<String>,
    /// Preprocessor definitions on its own compilation (`NAME[=VALUE]`).
    pub local_defines: Vec<String>,
    /// What the real build produced for it, build-relative.
    pub artifacts: Vec<String>,
    /// Sources `#include`d textually rather than compiled.
    pub textual_sources: Vec<String>,
    /// Whether the build system declared it a shared library.
    pub is_shared: bool,
    /// The shared object name, where one is known.
    pub soname: Option<String>,
    /// The prefix to strip from its public headers' paths.
    pub strip_include_prefix: Option<String>,
    /// Whether the project put the module root itself on the include path.
    pub needs_root_include: bool,
}

/// A registered test: run `target` in `working_directory`, passing when
/// `pass_regex` (if any) matches its output.
#[derive(Debug, Clone, PartialEq, Eq, Default)]
pub struct Test {
    pub name: String,
    /// The executable target the test runs.
    pub target: String,
    /// The command as the build system reported it.
    pub command: String,
    /// Module-relative; empty for the module root.
    pub working_directory: String,
    pub pass_regex: Option<String>,
}

/// How a config header's template declares what it needs.
#[derive(Debug, Clone, Copy, PartialEq, Eq, Structural, Default)]
pub enum ConfigDialect {
    /// CMake's `#cmakedefine` (with `@VAR@` substitution).
    #[default]
    Cmakedefine,
    /// autoconf's `#undef NAME` declarations.
    Undef,
    /// `@VAR@` substitution only.
    Substitution,
}

/// A generated config header, reproduced by a `config_header` rule.
#[derive(Debug, Clone, PartialEq, Eq, Default)]
pub struct ConfigHeader {
    /// The generated header, module-relative.
    pub output: String,
    /// Its template, module-relative.
    pub template: String,
    /// Where to copy the template from when it is not already in the
    /// module (a template the build generated).
    pub template_source: Option<String>,
    /// `@cc_config//catalog:` labels for the facts it probes.
    pub catalog_probes: Vec<String>,
    /// `(name, value)` substitutions that do not depend on the toolchain.
    pub values: Vec<(String, String)>,
    /// `(macro, flag)` pairs: macros a boolean build option controls.
    pub options: Vec<(String, String)>,
    /// `(marker, file)`: whole files spliced in at a marker line.
    pub splices: Vec<(String, String)>,
    pub dialect: ConfigDialect,
    /// For a header that replaces a system one, the directory it is
    /// generated into.
    pub shadow_dir: Option<String>,
}

/// Everything a frontend recovered about one project.
#[derive(Debug, Clone, PartialEq, Eq, Default)]
pub struct BuildGraph {
    pub module: ModuleInfo,
    pub targets: Vec<Target>,
    pub tests: Vec<Test>,
    /// Tests the frontend found but could not express as a rule.
    pub unexpressed_tests: Vec<Test>,
    pub config_headers: Vec<ConfigHeader>,
    /// Converted modules this module depends on.
    pub dependencies: Vec<ModuleDependency>,
}

/// The views of a list of string pairs.
pub open spec fn pairs(v: Seq<(String, String)>) -> Seq<(Seq<char>, Seq<char>)> {
    v.map_values(|p: (String, String)| (p.0@, p.1@))
}

pub open spec fn opt_view(o: Option<String>) -> Option<Seq<char>> {
    match o {
        Some(s) => Some(s@),
        None => None,
    }
}

/// A path that can appear in the generated module: relative, and never
/// reaching above the module root.
pub open spec fn module_relative(p: Seq<char>) -> bool {
    !is_absolute(p) && !components(p).contains(dotdot())
}

/// Whether `path` is relative to the module root and stays inside it.
pub fn is_module_relative(path: &str) -> (r: bool)
    ensures
        r == module_relative(path@),
{
    let p = crate::text::chars_of(path);
    if absolute(p.as_slice()) {
        return false;
    }
    let c = components_of(p.as_slice());
    let mut i: usize = 0;
    while i < c.len()
        invariant
            i <= c@.len(),
            views(c@) == components(p@),
            p@ == path@,
            forall|k: int| 0 <= k < i ==> views(c@)[k] != dotdot(),
        decreases c.len() - i,
    {
        let comp = &c[i];
        if comp.len() == 2 && comp[0] == '.' && comp[1] == '.' {
            assert(views(c@)[i as int] =~= dotdot());
            assert(views(c@).contains(dotdot()));
            return false;
        }
        proof {
            if views(c@)[i as int] == dotdot() {
                assert(comp@[0] == '.');
            }
        }
        i += 1;
    }
    proof {
        if views(c@).contains(dotdot()) {
            let k = choose|k: int| 0 <= k < views(c@).len() && views(c@)[k] == dotdot();
            assert(views(c@)[k] != dotdot());
        }
    }
    true
}

impl ConfigHeader {
    /// The header's path within the module: under its shadow directory when
    /// it replaces a system header.
    pub open spec fn output_path_spec(&self) -> Seq<char> {
        match self.shadow_dir {
            Some(d) => d@ + seq!['/'] + self.output@,
            None => self.output@,
        }
    }

    pub fn output_path(&self) -> (r: String)
        ensures
            r@ == self.output_path_spec(),
    {
        match &self.shadow_dir {
            Some(d) => {
                let mut r = d.clone();
                crate::text::push_char(&mut r, '/');
                crate::text::push_str(&mut r, self.output.as_str());
                r
            },
            None => self.output.clone(),
        }
    }
}


impl Test {
    /// An exact copy.
    pub fn copied(&self) -> (r: Self)
        ensures
            r == *self,
    {
        Test {
            name: self.name.clone(),
            target: self.target.clone(),
            command: self.command.clone(),
            working_directory: self.working_directory.clone(),
            pass_regex: crate::text::copy_opt(&self.pass_regex),
        }
    }
}

impl ExternalDependency {
    /// An exact copy.
    pub fn copied(&self) -> (r: Self)
        ensures
            r == *self,
    {
        ExternalDependency {
            module: self.module.clone(),
            target: self.target.clone(),
            shared: self.shared,
        }
    }
}

/// Two targets that agree on everything but their three path lists.
pub open spec fn same_but_paths(a: Target, b: Target) -> bool {
    &&& a.name == b.name
    &&& a.kind == b.kind
    &&& a.dependencies@ == b.dependencies@
    &&& a.external_dependencies@ == b.external_dependencies@
    &&& a.local_defines@ == b.local_defines@
    &&& a.artifacts@ == b.artifacts@
    &&& a.textual_sources@ == b.textual_sources@
    &&& a.is_shared == b.is_shared
    &&& a.soname == b.soname
    &&& a.strip_include_prefix == b.strip_include_prefix
    &&& a.needs_root_include == b.needs_root_include
}

/// Two targets that agree on everything but their paths and textual
/// sources.
pub open spec fn same_but_paths_and_textual(a: Target, b: Target) -> bool {
    &&& a.name == b.name
    &&& a.kind == b.kind
    &&& a.dependencies@ == b.dependencies@
    &&& a.external_dependencies@ == b.external_dependencies@
    &&& a.local_defines@ == b.local_defines@
    &&& a.artifacts@ == b.artifacts@
    &&& a.is_shared == b.is_shared
    &&& a.soname == b.soname
    &&& a.strip_include_prefix == b.strip_include_prefix
    &&& a.needs_root_include == b.needs_root_include
}

/// Two targets that hold the same values.
pub open spec fn same_target(a: Target, b: Target) -> bool {
    &&& a.name == b.name
    &&& a.kind == b.kind
    &&& a.sources@ == b.sources@
    &&& a.public_headers@ == b.public_headers@
    &&& a.dependencies@ == b.dependencies@
    &&& a.external_dependencies@ == b.external_dependencies@
    &&& a.includes@ == b.includes@
    &&& a.local_defines@ == b.local_defines@
    &&& a.artifacts@ == b.artifacts@
    &&& a.textual_sources@ == b.textual_sources@
    &&& a.is_shared == b.is_shared
    &&& a.soname == b.soname
    &&& a.strip_include_prefix == b.strip_include_prefix
    &&& a.needs_root_include == b.needs_root_include
}

impl Target {
    /// An exact copy.
    pub fn copied(&self) -> (r: Self)
        ensures
            same_target(r, *self),
    {
        let mut external: Vec<ExternalDependency> = Vec::new();
        let mut i: usize = 0;
        while i < self.external_dependencies.len()
            invariant
                i <= self.external_dependencies@.len(),
                external@ == self.external_dependencies@.take(i as int),
            decreases self.external_dependencies.len() - i,
        {
            external.push(self.external_dependencies[i].copied());
            i += 1;
            assert(external@ =~= self.external_dependencies@.take(i as int));
        }
        assert(self.external_dependencies@.take(self.external_dependencies@.len() as int)
            =~= self.external_dependencies@);
        Target {
            name: self.name.clone(),
            kind: self.kind,
            sources: crate::text::copy_strings(&self.sources),
            public_headers: crate::text::copy_strings(&self.public_headers),
            dependencies: crate::text::copy_strings(&self.dependencies),
            external_dependencies: external,
            includes: crate::text::copy_strings(&self.includes),
            local_defines: crate::text::copy_strings(&self.local_defines),
            artifacts: crate::text::copy_strings(&self.artifacts),
            textual_sources: crate::text::copy_strings(&self.textual_sources),
            is_shared: self.is_shared,
            soname: crate::text::copy_opt(&self.soname),
            strip_include_prefix: crate::text::copy_opt(&self.strip_include_prefix),
            needs_root_include: self.needs_root_include,
        }
    }
}

} // verus!
