//! The CMake frontend: the File API replies (`codemodel-v2`, `cache-v2`)
//! read into the model's `BuildGraph`.
//!
//! CMake's own resolved output is the source of truth, not the
//! `CMakeLists.txt`. Running CMake and reading the reply files is I/O and
//! stays with the caller, which hands the parsed replies in; everything
//! decided from them (which targets translate, what is public, where the
//! module root lies, what escalates) is here.

use vstd::prelude::*;
use crate::headers::{
    ext_is, include_destination, interface_ext, is_include_destination, looks_like_header,
};
use crate::model::{opt_view, pairs, BuildGraph, ModuleInfo, Target, TargetKind, Test};
use crate::needs_attention::{
    generated_config_header_needs_attention, generated_sources_needs_attention,
    header_visibility_needs_attention, inert_convenience_targets_needs_attention,
    sources_outside_deliverable_needs_attention, unsupported_target_needs_attention, NeedsAttention,
};
use crate::paths::{path_starts_with, starts_with_path, strip_path_prefix};
use crate::text::{
    views, chars, chars_of, contains_string, dedup_first, dedup_strings, has_suffix, str_eq, string_of,
    strs,
};

verus! {

/// A node of a reply's backtrace graph: the command it records and the
/// file it is in, each by index.
#[derive(Debug, Clone, PartialEq, Eq)]
pub struct BacktraceNode {
    pub command: Option<usize>,
    pub file: Option<usize>,
}

/// A target reply's backtrace graph.
#[derive(Debug, Clone, PartialEq, Eq, Default)]
pub struct BacktraceGraph {
    pub commands: Vec<String>,
    /// The files nodes refer to: `CMakeLists.txt` and included modules.
    pub files: Vec<String>,
    pub nodes: Vec<BacktraceNode>,
}

#[derive(Debug, Clone, PartialEq, Eq)]
pub struct CompileGroupInclude {
    pub path: String,
    pub backtrace: Option<usize>,
}

#[derive(Debug, Clone, PartialEq, Eq)]
pub struct CompileGroupDefine {
    /// The macro as passed to the compiler: `NAME` or `NAME=VALUE`.
    pub define: String,
}

#[derive(Debug, Clone, PartialEq, Eq)]
pub struct CompileGroup {
    pub includes: Vec<CompileGroupInclude>,
    pub defines: Vec<CompileGroupDefine>,
}

#[derive(Debug, Clone, PartialEq, Eq)]
pub struct TargetSource {
    pub path: String,
    pub file_set_index: Option<usize>,
    /// A source the build produces rather than the project ships.
    pub is_generated: bool,
}

#[derive(Debug, Clone, PartialEq, Eq)]
pub struct TargetFileSet {
    pub fileset_type: String,
    pub visibility: String,
}

#[derive(Debug, Clone, PartialEq, Eq)]
pub struct TargetDependency {
    pub id: String,
}

#[derive(Debug, Clone, PartialEq, Eq)]
pub struct TargetArtifact {
    pub path: String,
}

/// One target's `codemodel-v2` reply.
#[derive(Debug, Clone, PartialEq, Eq)]
pub struct TargetReply {
    pub name: String,
    pub cmake_type: String,
    pub sources: Vec<TargetSource>,
    pub file_sets: Vec<TargetFileSet>,
    pub dependencies: Vec<TargetDependency>,
    pub artifacts: Vec<TargetArtifact>,
    pub compile_groups: Vec<CompileGroup>,
    /// The node of the command that defined the target.
    pub backtrace: Option<usize>,
    pub backtrace_graph: BacktraceGraph,
}

/// One `install()` rule as the File API reports it.
#[derive(Debug, Clone, PartialEq, Eq)]
pub struct Installer {
    /// `file`, `target`, `export`, ...
    pub installer_type: String,
    /// Relative to the install prefix, where the rule has one.
    pub destination: Option<String>,
    pub paths: Vec<String>,
}

/// A `directory-*.json` reply, as far as its install rules.
#[derive(Debug, Clone, PartialEq, Eq)]
pub struct DirectoryReply {
    pub installers: Vec<Installer>,
}

/// Whether an include was pulled in by a `target_link_libraries` call, by
/// its backtrace: the node, its command, and that command's name. Any hop
/// that does not resolve counts as the target's own include, the safe
/// direction (a redundant `includes` entry rather than a missing `-I`).
pub open spec fn inherited(backtrace: Option<usize>, graph: BacktraceGraph) -> bool {
    match backtrace {
        None => false,
        Some(n) => n < graph.nodes@.len() && match graph.nodes@[n as int].command {
            None => false,
            Some(c) => c < graph.commands@.len() && graph.commands@[c as int]@
                == "target_link_libraries"@,
        },
    }
}

/// Whether an include's backtrace resolves to a `target_link_libraries`
/// call, i.e. whether a dependency pulled it in.
pub fn is_inherited_via_link_libraries(backtrace: Option<usize>, graph: &BacktraceGraph) -> (r:
    bool)
    ensures
        r == inherited(backtrace, *graph),
{
    let n = match backtrace {
        None => return false,
        Some(n) => n,
    };
    if n >= graph.nodes.len() {
        return false;
    }
    let c = match graph.nodes[n].command {
        None => return false,
        Some(c) => c,
    };
    if c >= graph.commands.len() {
        return false;
    }
    str_eq(graph.commands[c].as_str(), "target_link_libraries")
}

/// The includes of a run of compile groups that are the target's own, in
/// order.
pub open spec fn own_includes_of(groups: Seq<CompileGroup>, graph: BacktraceGraph) -> Seq<Seq<char>>
    decreases groups.len(),
{
    if groups.len() == 0 {
        seq![]
    } else {
        own_includes_of(groups.drop_last(), graph) + own_in_group(
            groups.last().includes@,
            graph,
        )
    }
}

pub open spec fn own_in_group(includes: Seq<CompileGroupInclude>, graph: BacktraceGraph) -> Seq<
    Seq<char>,
>
    decreases includes.len(),
{
    if includes.len() == 0 {
        seq![]
    } else {
        own_in_group(includes.drop_last(), graph) + if inherited(
            includes.last().backtrace,
            graph,
        ) {
            seq![]
        } else {
            seq![includes.last().path@]
        }
    }
}

/// The target's own include directories, as reported (absolute), without
/// the ones a dependency pulled in, each once in first-seen order.
pub open spec fn own_include_dirs_spec(reply: TargetReply) -> Seq<Seq<char>> {
    dedup_first(own_includes_of(reply.compile_groups@, reply.backtrace_graph))
}

fn group_own_includes(out: &mut Vec<String>, includes: &Vec<CompileGroupInclude>, graph: &BacktraceGraph)
    ensures
        strs(final(out)@) == strs(old(out)@) + own_in_group(includes@, *graph),
{
    let ghost start = strs(out@);
    let mut i: usize = 0;
    while i < includes.len()
        invariant
            i <= includes@.len(),
            strs(out@) == start + own_in_group(includes@.take(i as int), *graph),
        decreases includes.len() - i,
    {
        proof {
            assert(includes@.take(i + 1).drop_last() =~= includes@.take(i as int));
        }
        let ghost before = strs(out@);
        if !is_inherited_via_link_libraries(includes[i].backtrace, graph) {
            out.push(includes[i].path.clone());
            assert(strs(out@) =~= before.push(includes@[i as int].path@));
        } else {
            assert(strs(out@) =~= before + Seq::empty());
        }
        i += 1;
    }
    assert(includes@.take(includes@.len() as int) =~= includes@);
}

/// The target's OWN include directories from its compile groups: an
/// include a dependency pulled in (traced to `target_link_libraries`) is
/// left to Bazel's transitive `includes`. Returned as reported, absolute;
/// rebasing makes them module-relative once the module root is known.
pub fn own_include_dirs(reply: &TargetReply) -> (r: Vec<String>)
    ensures
        strs(r@) == own_include_dirs_spec(*reply),
{
    let groups = &reply.compile_groups;
    let mut all: Vec<String> = Vec::new();
    let mut g: usize = 0;
    while g < groups.len()
        invariant
            g <= groups@.len(),
            strs(all@) == own_includes_of(groups@.take(g as int), reply.backtrace_graph),
        decreases groups.len() - g,
    {
        proof {
            assert(groups@.take(g + 1).drop_last() =~= groups@.take(g as int));
        }
        group_own_includes(&mut all, &groups[g].includes, &reply.backtrace_graph);
        g += 1;
    }
    assert(groups@.take(groups@.len() as int) =~= groups@);
    dedup_strings(&all)
}

pub open spec fn defines_of(groups: Seq<CompileGroup>) -> Seq<Seq<char>>
    decreases groups.len(),
{
    if groups.len() == 0 {
        seq![]
    } else {
        defines_of(groups.drop_last()) + groups.last().defines@.map_values(
            |d: CompileGroupDefine| d.define@,
        )
    }
}

/// Every define effective on the target's compilation, each once in
/// first-seen order, inherited ones included: `local_defines` do not
/// propagate, so a define a dependency made public is restated here.
pub fn target_defines(reply: &TargetReply) -> (r: Vec<String>)
    ensures
        strs(r@) == dedup_first(defines_of(reply.compile_groups@)),
{
    let groups = &reply.compile_groups;
    let mut all: Vec<String> = Vec::new();
    let mut g: usize = 0;
    while g < groups.len()
        invariant
            g <= groups@.len(),
            strs(all@) == defines_of(groups@.take(g as int)),
        decreases groups.len() - g,
    {
        proof {
            assert(groups@.take(g + 1).drop_last() =~= groups@.take(g as int));
        }
        let defs = &groups[g].defines;
        let ghost start = strs(all@);
        let mut d: usize = 0;
        while d < defs.len()
            invariant
                d <= defs@.len(),
                strs(all@) == start + defs@.take(d as int).map_values(
                    |d: CompileGroupDefine| d.define@,
                ),
            decreases defs.len() - d,
        {
            let ghost before = strs(all@);
            all.push(defs[d].define.clone());
            assert(strs(all@) =~= before.push(defs@[d as int].define@));
            d += 1;
            assert(defs@.take(d as int).map_values(|d: CompileGroupDefine| d.define@) =~= defs@.take(
                d - 1,
            ).map_values(|d: CompileGroupDefine| d.define@).push(defs@[d - 1].define@));
        }
        assert(defs@.take(defs@.len() as int) =~= defs@);
        g += 1;
    }
    assert(groups@.take(groups@.len() as int) =~= groups@);
    dedup_strings(&all)
}

/// The file the target's defining command appears in, per its backtrace.
pub open spec fn defining_file(reply: TargetReply) -> Option<Seq<char>> {
    let g = reply.backtrace_graph;
    match reply.backtrace {
        None => None,
        Some(n) => if n >= g.nodes@.len() {
            None
        } else {
            match g.nodes@[n as int].file {
                None => None,
                Some(f) => if f < g.files@.len() {
                    Some(g.files@[f as int]@)
                } else {
                    None
                },
            }
        },
    }
}

/// The file in which the target's defining command (`add_library`,
/// `add_custom_target`, ...) appears, or `None` when the reply carries no
/// usable backtrace for it.
pub fn defining_command_file(reply: &TargetReply) -> (r: Option<String>)
    ensures
        opt_view(r) == defining_file(*reply),
{
    let g = &reply.backtrace_graph;
    let n = match reply.backtrace {
        None => return None,
        Some(n) => n,
    };
    if n >= g.nodes.len() {
        return None;
    }
    let f = match g.nodes[n].file {
        None => return None,
        Some(f) => f,
    };
    if f < g.files.len() {
        Some(g.files[f].clone())
    } else {
        None
    }
}

/// Whether a target was injected by an `include()` of a CMake-provided
/// module: its defining command lies under `CMAKE_ROOT`. Without a
/// `CMAKE_ROOT` nothing can be proven, and the answer is `false`.
pub open spec fn cmake_provided(reply: TargetReply, cmake_root: Option<Seq<char>>) -> bool {
    match cmake_root {
        None => false,
        Some(root) => match defining_file(reply) {
            Some(f) => path_starts_with(f, root),
            None => false,
        },
    }
}

/// Whether this target was injected by a CMake-provided module rather
/// than authored by the project: provenance, not a name match.
pub fn is_cmake_provided(reply: &TargetReply, cmake_root: Option<&str>) -> (r: bool)
    ensures
        r == cmake_provided(
            *reply,
            match cmake_root {
                Some(s) => Some(s@),
                None => None,
            },
        ),
{
    let root = match cmake_root {
        None => return false,
        Some(r) => r,
    };
    match defining_command_file(reply) {
        Some(f) => starts_with_path(chars(&f).as_slice(), chars_of(root).as_slice()),
        None => false,
    }
}

/// Whether some target depends on `id`.
pub open spec fn has_dependents(dependents: Seq<(String, Vec<String>)>, id: Seq<char>) -> bool {
    exists|k: int| 0 <= k < dependents.len() && (#[trigger] dependents[k]).0@ == id
}

fn find_dependents(dependents: &Vec<(String, Vec<String>)>, id: &str) -> (r: Option<usize>)
    ensures
        r matches Some(k) ==> k < dependents@.len() && dependents@[k as int].0@ == id@,
        r is None ==> !has_dependents(dependents@, id@),
{
    let mut k: usize = 0;
    while k < dependents.len()
        invariant
            k <= dependents@.len(),
            forall|j: int| 0 <= j < k ==> (#[trigger] dependents@[j]).0@ != id@,
        decreases dependents.len() - k,
    {
        if str_eq(dependents[k].0.as_str(), id) {
            return Some(k);
        }
        k += 1;
    }
    None
}

/// Whether a target has no build artifact and nothing depends on it: the
/// shape of a developer-convenience target, as opposed to something
/// load-bearing in the build graph.
pub fn is_inert_target(reply: &TargetReply, dependents_of: &Vec<(String, Vec<String>)>, id: &str) -> (r:
    bool)
    ensures
        r == (reply.artifacts@.len() == 0 && !has_dependents(dependents_of@, id@)),
{
    reply.artifacts.len() == 0 && find_dependents(dependents_of, id).is_none()
}

/// Maps a CMake target type onto the model's kind; `None` when no Bazel
/// rule exists for it yet (the caller escalates).
pub open spec fn target_kind_spec(cmake_type: Seq<char>) -> Option<TargetKind> {
    if cmake_type == "EXECUTABLE"@ {
        Some(TargetKind::Executable)
    } else if cmake_type == "STATIC_LIBRARY"@ || cmake_type == "SHARED_LIBRARY"@ {
        Some(TargetKind::Library)
    } else {
        None
    }
}

/// Maps a CMake target type onto the model's kind.
pub fn target_kind(cmake_type: &str) -> (r: Option<TargetKind>)
    ensures
        r == target_kind_spec(cmake_type@),
{
    if str_eq(cmake_type, "EXECUTABLE") {
        Some(TargetKind::Executable)
    } else if str_eq(cmake_type, "STATIC_LIBRARY") || str_eq(cmake_type, "SHARED_LIBRARY") {
        Some(TargetKind::Library)
    } else {
        None
    }
}

/// The paths of the file installs to an include destination, in order.
pub open spec fn installer_headers(installers: Seq<Installer>) -> Seq<Seq<char>>
    decreases installers.len(),
{
    if installers.len() == 0 {
        seq![]
    } else {
        let i = installers.last();
        installer_headers(installers.drop_last()) + if i.installer_type@ == "file"@ && match i.destination {
            Some(d) => include_destination(d@),
            None => false,
        } {
            strs(i.paths@)
        } else {
            seq![]
        }
    }
}

pub open spec fn directory_headers(dirs: Seq<DirectoryReply>) -> Seq<Seq<char>>
    decreases dirs.len(),
{
    if dirs.len() == 0 {
        seq![]
    } else {
        directory_headers(dirs.drop_last()) + installer_headers(dirs.last().installers@)
    }
}

/// The header paths the project installs to an include destination,
/// across every directory reply, each once: its own declaration of which
/// headers are public. Paths as the installer reported them.
pub fn installed_public_headers(directories: &[DirectoryReply]) -> (r: Vec<String>)
    ensures
        strs(r@) == dedup_first(directory_headers(directories@)),
{
    let mut all: Vec<String> = Vec::new();
    let mut d: usize = 0;
    while d < directories.len()
        invariant
            d <= directories@.len(),
            strs(all@) == directory_headers(directories@.take(d as int)),
        decreases directories.len() - d,
    {
        proof {
            assert(directories@.take(d + 1).drop_last() =~= directories@.take(d as int));
        }
        let ins = &directories[d].installers;
        let ghost start = strs(all@);
        let mut k: usize = 0;
        while k < ins.len()
            invariant
                k <= ins@.len(),
                strs(all@) == start + installer_headers(ins@.take(k as int)),
            decreases ins.len() - k,
        {
            proof {
                assert(ins@.take(k + 1).drop_last() =~= ins@.take(k as int));
            }
            let ghost before = strs(all@);
            let inst = &ins[k];
            let is_include = match &inst.destination {
                Some(dest) => is_include_destination(dest.as_str()),
                None => false,
            };
            if str_eq(inst.installer_type.as_str(), "file") && is_include {
                crate::codegen::extend_strings(&mut all, &inst.paths);
            } else {
                assert(strs(all@) =~= before + Seq::empty());
            }
            k += 1;
        }
        assert(ins@.take(ins@.len() as int) =~= ins@);
        d += 1;
    }
    assert(directories@.take(directories@.len() as int) =~= directories@);
    dedup_strings(&all)
}


/// Whether a source is a public header: in a `PUBLIC` or `INTERFACE`
/// `HEADERS` file set, or installed to an include destination.
pub open spec fn public_source(reply: TargetReply, s: TargetSource, installed: Seq<Seq<char>>) -> bool {
    (match s.file_set_index {
        Some(i) => i < reply.file_sets@.len() && reply.file_sets@[i as int].fileset_type@
            == "HEADERS"@ && (reply.file_sets@[i as int].visibility@ == "PUBLIC"@
            || reply.file_sets@[i as int].visibility@ == "INTERFACE"@),
        None => false,
    }) || installed.contains(s.path@)
}

/// The sources of the reply in class `class`: 0 compiled sources, 1
/// public headers, 2 generated files (without the `.rule` bookkeeping
/// siblings `add_custom_command` outputs come with).
pub open spec fn sources_in_class(
    reply: TargetReply,
    srcs: Seq<TargetSource>,
    installed: Seq<Seq<char>>,
    class: int,
) -> Seq<Seq<char>>
    decreases srcs.len(),
{
    if srcs.len() == 0 {
        seq![]
    } else {
        let s = srcs.last();
        let c = if s.is_generated {
            if has_suffix(s.path@, ".rule"@) {
                3int
            } else {
                2int
            }
        } else if public_source(reply, s, installed) {
            1int
        } else {
            0int
        };
        sources_in_class(reply, srcs.drop_last(), installed, class) + if c == class {
            seq![s.path@]
        } else {
            seq![]
        }
    }
}

/// Whether some compiled source looks like a header: a header the project
/// never classified.
pub open spec fn has_unclassified_header(reply: TargetReply, installed: Seq<Seq<char>>) -> bool {
    exists|k: int|
        0 <= k < sources_in_class(reply, reply.sources@, installed, 0).len() && ext_is(
            #[trigger] sources_in_class(reply, reply.sources@, installed, 0)[k],
            |e: Seq<char>| interface_ext(e),
        )
}

/// The names of the dependencies that were translated, by id.
pub open spec fn translated_deps(deps: Seq<TargetDependency>, names: Seq<(Seq<char>, Seq<char>)>) -> Seq<
    Seq<char>,
>
    decreases deps.len(),
{
    if deps.len() == 0 {
        seq![]
    } else {
        translated_deps(deps.drop_last(), names) + match crate::configure_file::lookup(
            names,
            deps.last().id@,
        ) {
            Some(n) => seq![n],
            None => seq![],
        }
    }
}

/// The escalations translating a target raises: a library with consumers
/// but no public header and some header-looking source, and generated
/// sources, which nothing can reproduce.
pub open spec fn to_target_escalations(
    reply: TargetReply,
    kind: TargetKind,
    depended_on: bool,
    installed: Seq<Seq<char>>,
) -> Seq<(Seq<char>, Seq<char>, Seq<char>, Seq<char>)> {
    let generated = sources_in_class(reply, reply.sources@, installed, 2);
    (if kind == TargetKind::Library && sources_in_class(reply, reply.sources@, installed, 1).len()
        == 0 && has_unclassified_header(reply, installed) && depended_on {
        seq![
            (
                "header_visibility"@,
                "Library `"@ + reply.name@ + "` declares no public headers"@,
                "Other targets depend on `"@ + reply.name@
                    + "`, but none of its headers is declared public.\n"@,
                reply.name@,
            ),
        ]
    } else {
        seq![]
    }) + if generated.len() == 0 {
        seq![]
    } else {
        seq![
            (
                "generated_sources"@,
                "Target `"@ + reply.name@ + "` has build-generated sources"@,
                "The build produces these sources; no rule reproduces them:\n"@
                    + crate::needs_attention::bullets(generated),
                reply.name@,
            ),
        ]
    }
}

fn class_of(reply: &TargetReply, s: &TargetSource, installed: &Vec<String>) -> (r: u8)
    ensures
        r == (if s.is_generated {
            if has_suffix(s.path@, ".rule"@) {
                3int
            } else {
                2int
            }
        } else if public_source(*reply, *s, strs(installed@)) {
            1int
        } else {
            0int
        }),
{
    if s.is_generated {
        let p = chars(&s.path);
        let rule = chars_of(".rule");
        if crate::text::ends_with(p.as_slice(), rule.as_slice()) {
            3
        } else {
            2
        }
    } else {
        let in_file_set = match s.file_set_index {
            Some(i) => {
                if i < reply.file_sets.len() {
                    let fs = &reply.file_sets[i];
                    str_eq(fs.fileset_type.as_str(), "HEADERS") && (str_eq(
                        fs.visibility.as_str(),
                        "PUBLIC",
                    ) || str_eq(fs.visibility.as_str(), "INTERFACE"))
                } else {
                    false
                }
            },
            None => false,
        };
        if in_file_set || contains_string(installed, &s.path) {
            1
        } else {
            0
        }
    }
}

/// Translates one target reply into the model's target, with the
/// escalations it raises. `translated_names` maps the id of every target
/// that gets a Bazel rule to its name: a dependency on any other is dropped
/// rather than emitted as a label that resolves to nothing.
/// `installed_headers` are the install-declared public headers.
pub fn to_target(
    reply: &TargetReply,
    kind: TargetKind,
    translated_names: &Vec<(String, String)>,
    is_depended_on: bool,
    installed_headers: &Vec<String>,
) -> (r: (Target, Vec<NeedsAttention>))
    ensures
        ({
            let t = r.0;
            let installed = strs(installed_headers@);
            &&& t.name@ == reply.name@
            &&& t.kind == kind
            &&& strs(t.sources@) == sources_in_class(*reply, reply.sources@, installed, 0)
            &&& strs(t.public_headers@) == sources_in_class(*reply, reply.sources@, installed, 1)
            &&& strs(t.dependencies@) == translated_deps(
                reply.dependencies@,
                pairs(translated_names@),
            )
            &&& strs(t.includes@) == own_include_dirs_spec(*reply)
            &&& strs(t.local_defines@) == dedup_first(defines_of(reply.compile_groups@))
            &&& strs(t.artifacts@) == reply.artifacts@.map_values(|a: TargetArtifact| a.path@)
            &&& t.external_dependencies@.len() == 0
            &&& t.textual_sources@.len() == 0
            &&& !t.is_shared
            &&& t.soname is None
            &&& t.strip_include_prefix is None
            &&& !t.needs_root_include
        }),
        r.1@.map_values(|e: NeedsAttention| crate::configure_file::item_view(e))
            == to_target_escalations(*reply, kind, is_depended_on, strs(installed_headers@)),
{
    let ghost installed = strs(installed_headers@);
    let srcs = &reply.sources;
    let mut sources: Vec<String> = Vec::new();
    let mut public_headers: Vec<String> = Vec::new();
    let mut generated: Vec<String> = Vec::new();
    let mut unclassified = false;
    let mut i: usize = 0;
    while i < srcs.len()
        invariant
            i <= srcs@.len(),
            installed == strs(installed_headers@),
            *srcs == reply.sources,
            strs(sources@) == sources_in_class(*reply, srcs@.take(i as int), installed, 0),
            strs(public_headers@) == sources_in_class(*reply, srcs@.take(i as int), installed, 1),
            strs(generated@) == sources_in_class(*reply, srcs@.take(i as int), installed, 2),
            unclassified == exists|k: int|
                0 <= k < sources@.len() && ext_is(
                    #[trigger] sources@[k]@,
                    |e: Seq<char>| interface_ext(e),
                ),
        decreases srcs.len() - i,
    {
        proof {
            assert(srcs@.take(i + 1).drop_last() =~= srcs@.take(i as int));
            assert(srcs@.take(i + 1).last() == srcs@[i as int]);
        }
        let s = &srcs[i];
        let c = class_of(reply, s, installed_headers);
        let ghost bs = strs(sources@);
        let ghost bp = strs(public_headers@);
        let ghost bg = strs(generated@);
        let ghost old_sources = sources@;
        if c == 0 {
            if looks_like_header(s.path.as_str()) {
                unclassified = true;
            }
            sources.push(s.path.clone());
            proof {
                if !unclassified {
                    assert forall|k: int| 0 <= k < sources@.len() implies !ext_is(
                        #[trigger] sources@[k]@,
                        |e: Seq<char>| interface_ext(e),
                    ) by {
                        if k < old_sources.len() {
                            assert(sources@[k] == old_sources[k]);
                        }
                    }
                } else {
                    if ext_is(s.path@, |e: Seq<char>| interface_ext(e)) {
                        assert(sources@[sources@.len() - 1]@ == s.path@);
                    } else {
                        let k = choose|k: int|
                            0 <= k < old_sources.len() && ext_is(
                                #[trigger] old_sources[k]@,
                                |e: Seq<char>| interface_ext(e),
                            );
                        assert(sources@[k] == old_sources[k]);
                    }
                }
            }
        } else if c == 1 {
            public_headers.push(s.path.clone());
        } else if c == 2 {
            generated.push(s.path.clone());
        }
        proof {
            assert(strs(sources@) =~= bs + if c == 0 {
                seq![s.path@]
            } else {
                seq![]
            });
            assert(strs(public_headers@) =~= bp + if c == 1 {
                seq![s.path@]
            } else {
                seq![]
            });
            assert(strs(generated@) =~= bg + if c == 2 {
                seq![s.path@]
            } else {
                seq![]
            });
        }
        i += 1;
    }
    assert(srcs@.take(srcs@.len() as int) =~= srcs@);
    proof {
        let cls = sources_in_class(*reply, reply.sources@, installed, 0);
        assert(strs(sources@) == cls);
        if unclassified {
            let k = choose|k: int|
                0 <= k < sources@.len() && ext_is(#[trigger] sources@[k]@, |e: Seq<char>| interface_ext(e));
            assert(cls[k] == sources@[k]@);
        }
        if has_unclassified_header(*reply, installed) {
            let k = choose|k: int| 0 <= k < cls.len() && ext_is(#[trigger] cls[k], |e: Seq<char>| interface_ext(e));
            assert(cls[k] == sources@[k]@);
        }
    }
    let deps = &reply.dependencies;
    let mut dependencies: Vec<String> = Vec::new();
    let mut d: usize = 0;
    while d < deps.len()
        invariant
            d <= deps@.len(),
            strs(dependencies@) == translated_deps(deps@.take(d as int), pairs(translated_names@)),
        decreases deps.len() - d,
    {
        proof {
            assert(deps@.take(d + 1).drop_last() =~= deps@.take(d as int));
            assert(deps@.take(d + 1).last() == deps@[d as int]);
        }
        let ghost before = strs(dependencies@);
        match crate::configure_file::lookup_value(translated_names, deps[d].id.as_str()) {
            Some(n) => {
                dependencies.push(n);
                assert(strs(dependencies@) =~= before + seq![
                    crate::configure_file::lookup(pairs(translated_names@), deps@[d as int].id@).unwrap(),
                ]);
            },
            None => {
                assert(strs(dependencies@) =~= before + Seq::empty());
            },
        }
        d += 1;
    }
    assert(deps@.take(deps@.len() as int) =~= deps@);
    let includes = own_include_dirs(reply);
    let local_defines = target_defines(reply);
    let mut artifacts: Vec<String> = Vec::new();
    let mut a: usize = 0;
    while a < reply.artifacts.len()
        invariant
            a <= reply.artifacts@.len(),
            strs(artifacts@) == reply.artifacts@.take(a as int).map_values(|a: TargetArtifact| a.path@),
        decreases reply.artifacts.len() - a,
    {
        let ghost before = strs(artifacts@);
        artifacts.push(reply.artifacts[a].path.clone());
        assert(strs(artifacts@) =~= before.push(reply.artifacts@[a as int].path@));
        a += 1;
        assert(reply.artifacts@.take(a as int).map_values(|a: TargetArtifact| a.path@) =~= reply.artifacts@.take(
            a - 1,
        ).map_values(|a: TargetArtifact| a.path@).push(reply.artifacts@[a - 1].path@));
    }
    assert(reply.artifacts@.take(reply.artifacts@.len() as int) =~= reply.artifacts@);
    let mut needs_attention: Vec<NeedsAttention> = Vec::new();
    if kind == TargetKind::Library && public_headers.len() == 0 && unclassified && is_depended_on {
        needs_attention.push(header_visibility_needs_attention(reply.name.as_str()));
    }
    let ghost e1 = needs_attention@.map_values(|e: NeedsAttention| crate::configure_file::item_view(e));
    if generated.len() != 0 {
        let e = generated_sources_needs_attention(reply.name.as_str(), generated.as_slice());
        needs_attention.push(e);
        assert(needs_attention@.map_values(|e: NeedsAttention| crate::configure_file::item_view(e))
            =~= e1.push(crate::configure_file::item_view(e)));
    }
    assert(needs_attention@.map_values(|e: NeedsAttention| crate::configure_file::item_view(e))
        =~= to_target_escalations(*reply, kind, is_depended_on, installed));
    let target = Target {
        name: reply.name.clone(),
        kind,
        sources,
        public_headers,
        dependencies,
        external_dependencies: Vec::new(),
        includes,
        local_defines,
        artifacts,
        textual_sources: Vec::new(),
        is_shared: false,
        soname: None,
        strip_include_prefix: None,
        needs_root_include: false,
    };
    (target, needs_attention)
}


/// Every path of a target that the rebase weighs: sources, public headers
/// and include directories.
pub open spec fn target_paths(t: Target) -> Seq<Seq<char>> {
    strs(t.sources@) + strs(t.public_headers@) + strs(t.includes@)
}

/// The absolute locations of `paths` that ship with the project: inside
/// the deliverable root.
pub open spec fn shipped_of(paths: Seq<Seq<char>>, source_dir: Seq<char>, deliverable_root: Seq<char>) -> Seq<
    Seq<char>,
>
    decreases paths.len(),
{
    if paths.len() == 0 {
        seq![]
    } else {
        let a = crate::paths::resolve_against(paths.last(), source_dir);
        shipped_of(paths.drop_last(), source_dir, deliverable_root) + if path_starts_with(
            a,
            deliverable_root,
        ) {
            seq![a]
        } else {
            seq![]
        }
    }
}

pub open spec fn shipped(targets: Seq<Target>, source_dir: Seq<char>, deliverable_root: Seq<char>) -> Seq<
    Seq<char>,
>
    decreases targets.len(),
{
    if targets.len() == 0 {
        seq![]
    } else {
        shipped(targets.drop_last(), source_dir, deliverable_root) + shipped_of(
            target_paths(targets.last()),
            source_dir,
            deliverable_root,
        )
    }
}

/// The module root: the deepest directory containing the project and
/// every referenced file that ships with it. It is the project directory
/// unless something reaches outside it, and the deliverable root caps how
/// far it widens.
pub open spec fn module_root_spec(targets: Seq<Target>, source_dir: Seq<char>, deliverable_root: Seq<char>) -> Seq<
    char,
> {
    crate::paths::common_ancestor(source_dir, shipped(targets, source_dir, deliverable_root))
}

/// How the rebase treats one source path: 0 kept (relative to the root),
/// 1 dropped (a build-directory config header a rule reproduces), 2 a
/// build-generated header nothing reproduces, 3 outside the deliverable.
pub open spec fn rebase_class(
    p: Seq<char>,
    source_dir: Seq<char>,
    root: Seq<char>,
    build_dir: Seq<char>,
    outputs: Seq<Seq<char>>,
) -> int {
    let a = crate::paths::resolve_against(p, source_dir);
    if strip_path_prefix(a, root) is Some {
        0
    } else if path_starts_with(a, build_dir) && match crate::paths::file_name(a) {
        Some(n) => outputs.contains(n),
        None => false,
    } {
        1
    } else if path_starts_with(a, build_dir) {
        2
    } else {
        3
    }
}

/// The kept paths of `ps`, relative to the root (class 0), or the
/// absolute locations of class `class`.
pub open spec fn rebased_in_class(
    ps: Seq<Seq<char>>,
    source_dir: Seq<char>,
    root: Seq<char>,
    build_dir: Seq<char>,
    outputs: Seq<Seq<char>>,
    class: int,
) -> Seq<Seq<char>>
    decreases ps.len(),
{
    if ps.len() == 0 {
        seq![]
    } else {
        let p = ps.last();
        let a = crate::paths::resolve_against(p, source_dir);
        rebased_in_class(ps.drop_last(), source_dir, root, build_dir, outputs, class) + if rebase_class(
            p,
            source_dir,
            root,
            build_dir,
            outputs,
        ) != class {
            seq![]
        } else if class == 0 {
            seq![strip_path_prefix(a, root).unwrap()]
        } else {
            seq![a]
        }
    }
}

/// The include directories inside the module, relative to its root; the
/// root itself and anything outside (system include paths) are dropped.
pub open spec fn rebased_includes(ps: Seq<Seq<char>>, source_dir: Seq<char>, root: Seq<char>) -> Seq<
    Seq<char>,
>
    decreases ps.len(),
{
    if ps.len() == 0 {
        seq![]
    } else {
        rebased_includes(ps.drop_last(), source_dir, root) + match strip_path_prefix(
            crate::paths::resolve_against(ps.last(), source_dir),
            root,
        ) {
            Some(rel) => if rel.len() > 0 {
                seq![rel]
            } else {
                seq![]
            },
            None => seq![],
        }
    }
}

/// The escalations of one rebased target: its sources outside the
/// deliverable, then its build-generated headers nothing reproduces.
pub open spec fn rebase_target_escalations(
    t: Target,
    source_dir: Seq<char>,
    root: Seq<char>,
    build_dir: Seq<char>,
    outputs: Seq<Seq<char>>,
) -> Seq<(Seq<char>, Seq<char>, Seq<char>, Seq<char>)> {
    let lists = strs(t.sources@) + strs(t.public_headers@);
    let outside = rebased_in_class(strs(t.sources@), source_dir, root, build_dir, outputs, 3)
        + rebased_in_class(strs(t.public_headers@), source_dir, root, build_dir, outputs, 3);
    let generated = rebased_in_class(strs(t.sources@), source_dir, root, build_dir, outputs, 2)
        + rebased_in_class(strs(t.public_headers@), source_dir, root, build_dir, outputs, 2);
    (if outside.len() == 0 {
        seq![]
    } else {
        seq![
            (
                "sources_outside_deliverable"@,
                crate::needs_attention::outside_title(t.name@),
                "These sources lie outside the deliverable root:\n"@ + crate::needs_attention::bullets(
                    outside,
                ),
                t.name@,
            ),
        ]
    }) + if generated.len() == 0 {
        seq![]
    } else {
        seq![
            (
                "generated_config_header"@,
                crate::needs_attention::generated_header_title(t.name@),
                "The build generates these, and nothing reproduces them:\n"@
                    + crate::needs_attention::bullets(generated),
                t.name@,
            ),
        ]
    }
}

pub open spec fn rebase_escalations(
    ts: Seq<Target>,
    source_dir: Seq<char>,
    root: Seq<char>,
    build_dir: Seq<char>,
    outputs: Seq<Seq<char>>,
) -> Seq<(Seq<char>, Seq<char>, Seq<char>, Seq<char>)>
    decreases ts.len(),
{
    if ts.len() == 0 {
        seq![]
    } else {
        rebase_escalations(ts.drop_last(), source_dir, root, build_dir, outputs)
            + rebase_target_escalations(ts.last(), source_dir, root, build_dir, outputs)
    }
}

/// What the rebase makes of one target: only its three path lists change.
pub open spec fn rebased_target(
    t: Target,
    o: Target,
    source_dir: Seq<char>,
    root: Seq<char>,
    build_dir: Seq<char>,
    outputs: Seq<Seq<char>>,
) -> bool {
    &&& crate::model::same_but_paths(t, o)
    &&& strs(t.sources@) == rebased_in_class(strs(o.sources@), source_dir, root, build_dir, outputs, 0)
    &&& strs(t.public_headers@) == rebased_in_class(
        strs(o.public_headers@),
        source_dir,
        root,
        build_dir,
        outputs,
        0,
    )
    &&& strs(t.includes@) == rebased_includes(strs(o.includes@), source_dir, root)
}

fn push_shipped(out: &mut Vec<Vec<char>>, ps: &Vec<String>, src: &[char], deliv: &[char])
    ensures
        views(final(out)@) == views(old(out)@) + shipped_of(strs(ps@), src@, deliv@),
{
    let ghost start = views(out@);
    let mut i: usize = 0;
    while i < ps.len()
        invariant
            i <= ps@.len(),
            views(out@) == start + shipped_of(strs(ps@).take(i as int), src@, deliv@),
        decreases ps.len() - i,
    {
        proof {
            assert(strs(ps@).take(i + 1).drop_last() =~= strs(ps@).take(i as int));
            assert(strs(ps@).take(i + 1).last() == ps@[i as int]@);
        }
        let a = crate::paths::resolve_path(chars(&ps[i]).as_slice(), src);
        let ghost before = views(out@);
        if starts_with_path(a.as_slice(), deliv) {
            out.push(a);
            assert(views(out@) =~= before + seq![a@]);
        } else {
            assert(views(out@) =~= before + Seq::empty());
        }
        i += 1;
    }
    assert(strs(ps@).take(ps@.len() as int) =~= strs(ps@));
}

proof fn lemma_shipped_of_concat(a: Seq<Seq<char>>, b: Seq<Seq<char>>, src: Seq<char>, deliv: Seq<char>)
    ensures
        shipped_of(a + b, src, deliv) == shipped_of(a, src, deliv) + shipped_of(b, src, deliv),
    decreases b.len(),
{
    if b.len() == 0 {
        assert(a + b =~= a);
    } else {
        assert((a + b).drop_last() =~= a + b.drop_last());
        lemma_shipped_of_concat(a, b.drop_last(), src, deliv);
    }
}

fn classify_path(p: &String, src: &[char], root: &[char], build: &[char], outputs: &Vec<String>) -> (r: (
    u8,
    Vec<char>,
))
    ensures
        r.0 == rebase_class(p@, src@, root@, build@, strs(outputs@)),
        r.0 == 0 ==> r.1@ == strip_path_prefix(crate::paths::resolve_against(p@, src@), root@).unwrap(),
        r.0 != 0 ==> r.1@ == crate::paths::resolve_against(p@, src@),
{
    let a = crate::paths::resolve_path(chars(p).as_slice(), src);
    match crate::paths::strip_prefix_path(a.as_slice(), root) {
        Some(rel) => (0, rel),
        None => {
            let under_build = starts_with_path(a.as_slice(), build);
            let reproduced = under_build && match crate::paths::file_name_of(a.as_slice()) {
                Some(n) => contains_string(outputs, &string_of(n.as_slice())),
                None => false,
            };
            if reproduced {
                (1, a)
            } else if under_build {
                (2, a)
            } else {
                (3, a)
            }
        },
    }
}

/// Rebases one path list: the kept paths, relative to the root, and the
/// absolute locations of the build-generated ones and the outside ones.
fn rebase_list(list: &Vec<String>, src: &[char], root: &[char], build: &[char], outputs: &Vec<String>) -> (r: (
    Vec<String>,
    Vec<String>,
    Vec<String>,
))
    ensures
        strs(r.0@) == rebased_in_class(strs(list@), src@, root@, build@, strs(outputs@), 0),
        strs(r.1@) == rebased_in_class(strs(list@), src@, root@, build@, strs(outputs@), 2),
        strs(r.2@) == rebased_in_class(strs(list@), src@, root@, build@, strs(outputs@), 3),
{
    let ghost l = strs(list@);
    let ghost o = strs(outputs@);
    let mut kept: Vec<String> = Vec::new();
    let mut generated: Vec<String> = Vec::new();
    let mut outside: Vec<String> = Vec::new();
    let mut i: usize = 0;
    while i < list.len()
        invariant
            i <= list@.len(),
            l == strs(list@),
            o == strs(outputs@),
            strs(kept@) == rebased_in_class(l.take(i as int), src@, root@, build@, o, 0),
            strs(generated@) == rebased_in_class(l.take(i as int), src@, root@, build@, o, 2),
            strs(outside@) == rebased_in_class(l.take(i as int), src@, root@, build@, o, 3),
        decreases list.len() - i,
    {
        proof {
            assert(l.take(i + 1).drop_last() =~= l.take(i as int));
            assert(l.take(i + 1).last() == list@[i as int]@);
        }
        let (c, v) = classify_path(&list[i], src, root, build, outputs);
        let ghost bk = strs(kept@);
        let ghost bg = strs(generated@);
        let ghost bo = strs(outside@);
        if c == 0 {
            kept.push(string_of(v.as_slice()));
        } else if c == 2 {
            generated.push(string_of(v.as_slice()));
        } else if c == 3 {
            outside.push(string_of(v.as_slice()));
        }
        proof {
            assert(strs(kept@) =~= bk + if c == 0 {
                seq![v@]
            } else {
                seq![]
            });
            assert(strs(generated@) =~= bg + if c == 2 {
                seq![v@]
            } else {
                seq![]
            });
            assert(strs(outside@) =~= bo + if c == 3 {
                seq![v@]
            } else {
                seq![]
            });
        }
        i += 1;
    }
    assert(l.take(l.len() as int) =~= l);
    (kept, generated, outside)
}

fn rebase_includes(list: &Vec<String>, src: &[char], root: &[char]) -> (r: Vec<String>)
    ensures
        strs(r@) == rebased_includes(strs(list@), src@, root@),
{
    let ghost l = strs(list@);
    let mut r: Vec<String> = Vec::new();
    let mut i: usize = 0;
    while i < list.len()
        invariant
            i <= list@.len(),
            l == strs(list@),
            strs(r@) == rebased_includes(l.take(i as int), src@, root@),
        decreases list.len() - i,
    {
        proof {
            assert(l.take(i + 1).drop_last() =~= l.take(i as int));
            assert(l.take(i + 1).last() == list@[i as int]@);
        }
        let a = crate::paths::resolve_path(chars(&list[i]).as_slice(), src);
        let ghost before = strs(r@);
        match crate::paths::strip_prefix_path(a.as_slice(), root) {
            Some(rel) => {
                if rel.len() > 0 {
                    r.push(string_of(rel.as_slice()));
                    assert(strs(r@) =~= before + seq![rel@]);
                } else {
                    assert(strs(r@) =~= before + Seq::empty());
                }
            },
            None => {
                assert(strs(r@) =~= before + Seq::empty());
            },
        }
        i += 1;
    }
    assert(l.take(l.len() as int) =~= l);
    r
}

fn concat(a: Vec<String>, b: Vec<String>) -> (r: Vec<String>)
    ensures
        strs(r@) == strs(a@) + strs(b@),
{
    let mut r = a;
    crate::codegen::extend_strings(&mut r, &b);
    r
}

/// Chooses the converted module's root and rewrites every path of
/// `targets` to be relative to it.
///
/// The root is the deepest directory containing the project and every
/// referenced file that ships with it, capped at the deliverable root: a
/// file outside that cannot be reproduced from what the project ships, so
/// it is escalated instead of widening the module. A source the module
/// cannot reach escalates one of two ways: a header under the build
/// directory (a generated config header) or a file elsewhere; a build
/// directory header a config-header rule reproduces is dropped without
/// escalating. Include directories outside the module are system include
/// paths and are dropped silently.
pub fn rebase_to_module_root(
    targets: &mut Vec<Target>,
    source_dir: &str,
    deliverable_root: &str,
    build_dir: &str,
    config_header_outputs: &Vec<String>,
) -> (r: (String, Vec<NeedsAttention>))
    ensures
        r.0@ == module_root_spec(old(targets)@, source_dir@, deliverable_root@),
        final(targets)@.len() == old(targets)@.len(),
        forall|i: int|
            0 <= i < final(targets)@.len() ==> rebased_target(
                #[trigger] final(targets)@[i],
                old(targets)@[i],
                source_dir@,
                r.0@,
                build_dir@,
                strs(config_header_outputs@),
            ),
        r.1@.map_values(|e: NeedsAttention| crate::configure_file::item_view(e)) == rebase_escalations(
            old(targets)@,
            source_dir@,
            r.0@,
            build_dir@,
            strs(config_header_outputs@),
        ),
{
    let src = chars_of(source_dir);
    let deliv = chars_of(deliverable_root);
    let build = chars_of(build_dir);
    let ghost outs = strs(config_header_outputs@);
    let ghost orig = targets@;
    let mut shipped_paths: Vec<Vec<char>> = Vec::new();
    let mut t: usize = 0;
    while t < targets.len()
        invariant
            t <= targets@.len(),
            targets@ == orig,
            src@ == source_dir@,
            deliv@ == deliverable_root@,
            views(shipped_paths@) == shipped(orig.take(t as int), source_dir@, deliverable_root@),
        decreases targets.len() - t,
    {
        proof {
            assert(orig.take(t + 1).drop_last() =~= orig.take(t as int));
            assert(orig.take(t + 1).last() == orig[t as int]);
            let tp = orig[t as int];
            lemma_shipped_of_concat(
                strs(tp.sources@) + strs(tp.public_headers@),
                strs(tp.includes@),
                source_dir@,
                deliverable_root@,
            );
            lemma_shipped_of_concat(strs(tp.sources@), strs(tp.public_headers@), source_dir@, deliverable_root@);
        }
        let ghost before = views(shipped_paths@);
        push_shipped(&mut shipped_paths, &targets[t].sources, src.as_slice(), deliv.as_slice());
        push_shipped(&mut shipped_paths, &targets[t].public_headers, src.as_slice(), deliv.as_slice());
        push_shipped(&mut shipped_paths, &targets[t].includes, src.as_slice(), deliv.as_slice());
        t += 1;
    }
    assert(orig.take(orig.len() as int) =~= orig);
    let root = crate::paths::common_ancestor_of(src.as_slice(), &shipped_paths);
    let ghost rv = root@;
    let mut escalations: Vec<NeedsAttention> = Vec::new();
    let mut i: usize = 0;
    while i < targets.len()
        invariant
            i <= targets@.len(),
            targets@.len() == orig.len(),
            src@ == source_dir@,
            build@ == build_dir@,
            rv == root@,
            outs == strs(config_header_outputs@),
            forall|k: int| i <= k < targets@.len() ==> targets@[k] == orig[k],
            forall|k: int|
                0 <= k < i ==> rebased_target(
                    #[trigger] targets@[k],
                    orig[k],
                    source_dir@,
                    rv,
                    build_dir@,
                    outs,
                ),
            escalations@.map_values(|e: NeedsAttention| crate::configure_file::item_view(e))
                == rebase_escalations(orig.take(i as int), source_dir@, rv, build_dir@, outs),
        decreases targets.len() - i,
    {
        proof {
            assert(orig.take(i + 1).drop_last() =~= orig.take(i as int));
            assert(orig.take(i + 1).last() == orig[i as int]);
        }
        let o = &targets[i];
        let (kept_src, gen_src, out_src) = rebase_list(
            &o.sources,
            src.as_slice(),
            root.as_slice(),
            build.as_slice(),
            config_header_outputs,
        );
        let (kept_hdr, gen_hdr, out_hdr) = rebase_list(
            &o.public_headers,
            src.as_slice(),
            root.as_slice(),
            build.as_slice(),
            config_header_outputs,
        );
        let includes = rebase_includes(&o.includes, src.as_slice(), root.as_slice());
        let outside = concat(out_src, out_hdr);
        let generated = concat(gen_src, gen_hdr);
        let ghost eb = escalations@.map_values(|e: NeedsAttention| crate::configure_file::item_view(e));
        if outside.len() != 0 {
            let e = sources_outside_deliverable_needs_attention(o.name.as_str(), outside.as_slice());
            escalations.push(e);
        }
        let ghost e1 = escalations@.map_values(|e: NeedsAttention| crate::configure_file::item_view(e));
        if generated.len() != 0 {
            let e = generated_config_header_needs_attention(o.name.as_str(), generated.as_slice());
            escalations.push(e);
        }
        proof {
            assert(escalations@.map_values(|e: NeedsAttention| crate::configure_file::item_view(e))
                =~= eb + rebase_target_escalations(orig[i as int], source_dir@, rv, build_dir@, outs));
        }
        let mut nt = o.copied();
        nt.sources = kept_src;
        nt.public_headers = kept_hdr;
        nt.includes = includes;
        targets.set(i, nt);
        i += 1;
    }
    assert(orig.take(orig.len() as int) =~= orig);
    (string_of(root.as_slice()), escalations)
}


/// A target as the plain values translation decides.
pub open spec fn target_view(t: Target) -> (
    Seq<char>,
    TargetKind,
    Seq<Seq<char>>,
    Seq<Seq<char>>,
    Seq<Seq<char>>,
    Seq<Seq<char>>,
    Seq<Seq<char>>,
    Seq<Seq<char>>,
) {
    (
        t.name@,
        t.kind,
        strs(t.sources@),
        strs(t.public_headers@),
        strs(t.dependencies@),
        strs(t.includes@),
        strs(t.local_defines@),
        strs(t.artifacts@),
    )
}

/// What `to_target` makes of a reply, as plain values.
pub open spec fn to_target_view(
    reply: TargetReply,
    kind: TargetKind,
    names: Seq<(Seq<char>, Seq<char>)>,
    installed: Seq<Seq<char>>,
) -> (
    Seq<char>,
    TargetKind,
    Seq<Seq<char>>,
    Seq<Seq<char>>,
    Seq<Seq<char>>,
    Seq<Seq<char>>,
    Seq<Seq<char>>,
    Seq<Seq<char>>,
) {
    (
        reply.name@,
        kind,
        sources_in_class(reply, reply.sources@, installed, 0),
        sources_in_class(reply, reply.sources@, installed, 1),
        translated_deps(reply.dependencies@, names),
        own_include_dirs_spec(reply),
        dedup_first(defines_of(reply.compile_groups@)),
        reply.artifacts@.map_values(|a: TargetArtifact| a.path@),
    )
}

/// `(id, name)` of every reply that translates into a Bazel rule.
pub open spec fn translated_names_spec(replies: Seq<(String, TargetReply)>) -> Seq<(Seq<char>, Seq<char>)>
    decreases replies.len(),
{
    if replies.len() == 0 {
        seq![]
    } else {
        let (id, r) = replies.last();
        translated_names_spec(replies.drop_last()) + if target_kind_spec(r.cmake_type@) is Some {
            seq![(id@, r.name@)]
        } else {
            seq![]
        }
    }
}

/// The ids of the replies naming `id` as a dependency, once per naming.
pub open spec fn dependents_list(replies: Seq<(String, TargetReply)>, id: Seq<char>) -> Seq<Seq<char>>
    decreases replies.len(),
{
    if replies.len() == 0 {
        seq![]
    } else {
        let (rid, r) = replies.last();
        dependents_list(replies.drop_last(), id) + dependency_hits(r.dependencies@, id, rid@)
    }
}

pub open spec fn dependency_hits(deps: Seq<TargetDependency>, id: Seq<char>, by: Seq<char>) -> Seq<Seq<char>>
    decreases deps.len(),
{
    if deps.len() == 0 {
        seq![]
    } else {
        dependency_hits(deps.drop_last(), id, by) + if deps.last().id@ == id {
            seq![by]
        } else {
            seq![]
        }
    }
}

/// The translated names of the dependents of `id`: the edges a skipped
/// target costs.
pub open spec fn lost_edges(ids: Seq<Seq<char>>, names: Seq<(Seq<char>, Seq<char>)>) -> Seq<Seq<char>>
    decreases ids.len(),
{
    if ids.len() == 0 {
        seq![]
    } else {
        lost_edges(ids.drop_last(), names) + match crate::configure_file::lookup(names, ids.last()) {
            Some(n) => seq![n],
            None => seq![],
        }
    }
}

/// What translating the replies in `done` yields, each against all
/// `replies`: the targets, the escalations in order, and the names of the
/// project's inert convenience targets. A target CMake injected (defined
/// under `CMAKE_ROOT`) that is inert is dropped silently.
pub open spec fn translation(
    done: Seq<(String, TargetReply)>,
    replies: Seq<(String, TargetReply)>,
    installed: Seq<Seq<char>>,
    cmake_root: Option<Seq<char>>,
) -> (
    Seq<(Seq<char>, TargetKind, Seq<Seq<char>>, Seq<Seq<char>>, Seq<Seq<char>>, Seq<Seq<char>>, Seq<Seq<char>>, Seq<Seq<char>>)>,
    Seq<(Seq<char>, Seq<char>, Seq<char>, Seq<char>)>,
    Seq<Seq<char>>,
)
    decreases done.len(),
{
    if done.len() == 0 {
        (seq![], seq![], seq![])
    } else {
        let prev = translation(done.drop_last(), replies, installed, cmake_root);
        let (id, r) = done.last();
        let names = translated_names_spec(replies);
        let dependents = dependents_list(replies, id@);
        match target_kind_spec(r.cmake_type@) {
            None => if r.artifacts@.len() == 0 && dependents.len() == 0 {
                if cmake_provided(r, cmake_root) {
                    prev
                } else {
                    (prev.0, prev.1, prev.2.push(r.name@))
                }
            } else {
                let edges = lost_edges(dependents, names);
                (
                    prev.0,
                    prev.1.push(
                        (
                            "unsupported_target"@,
                            crate::needs_attention::unsupported_target_title(r.name@, r.cmake_type@),
                            crate::needs_attention::unsupported_target_gap(
                                r.name@,
                                r.cmake_type@,
                                edges,
                            ),
                            r.name@,
                        ),
                    ),
                    prev.2,
                )
            },
            Some(kind) => (
                prev.0.push(to_target_view(r, kind, names, installed)),
                prev.1 + to_target_escalations(r, kind, dependents.len() > 0, installed),
                prev.2,
            ),
        }
    }
}

fn translated_names_of(refs: &Vec<CodemodelTargetRef>, replies: &Vec<TargetReply>) -> (r: Vec<
    (String, String),
>)
    requires
        refs@.len() == replies@.len(),
    ensures
        pairs(r@) == translated_names_spec(paired_replies(refs@, replies@)),
{
    let ghost pr = paired_replies(refs@, replies@);
    let mut r: Vec<(String, String)> = Vec::new();
    let mut i: usize = 0;
    while i < replies.len()
        invariant
            i <= replies@.len(),
            refs@.len() == replies@.len(),
            pr == paired_replies(refs@, replies@),
            pairs(r@) == translated_names_spec(pr.take(i as int)),
        decreases replies.len() - i,
    {
        proof {
            assert(pr.take(i + 1).drop_last() =~= pr.take(i as int));
            assert(pr.take(i + 1).last() == pr[i as int]);
        }
        let ghost before = pairs(r@);
        if target_kind(replies[i].cmake_type.as_str()).is_some() {
            r.push((refs[i].id.clone(), replies[i].name.clone()));
            assert(pairs(r@) =~= before + seq![(refs@[i as int].id@, replies@[i as int].name@)]);
        } else {
            assert(pairs(r@) =~= before + Seq::empty());
        }
        i += 1;
    }
    assert(pr.take(pr.len() as int) =~= pr);
    r
}

fn dependents_of_id(refs: &Vec<CodemodelTargetRef>, replies: &Vec<TargetReply>, id: &String) -> (r:
    Vec<String>)
    requires
        refs@.len() == replies@.len(),
    ensures
        strs(r@) == dependents_list(paired_replies(refs@, replies@), id@),
{
    let ghost pr = paired_replies(refs@, replies@);
    let mut r: Vec<String> = Vec::new();
    let mut i: usize = 0;
    while i < replies.len()
        invariant
            i <= replies@.len(),
            refs@.len() == replies@.len(),
            pr == paired_replies(refs@, replies@),
            strs(r@) == dependents_list(pr.take(i as int), id@),
        decreases replies.len() - i,
    {
        proof {
            assert(pr.take(i + 1).drop_last() =~= pr.take(i as int));
            assert(pr.take(i + 1).last() == pr[i as int]);
        }
        let deps = &replies[i].dependencies;
        let ghost start = strs(r@);
        let mut d: usize = 0;
        while d < deps.len()
            invariant
                d <= deps@.len(),
                i < replies@.len(),
                refs@.len() == replies@.len(),
                *deps == replies@[i as int].dependencies,
                strs(r@) == start + dependency_hits(deps@.take(d as int), id@, refs@[i as int].id@),
            decreases deps.len() - d,
        {
            proof {
                assert(deps@.take(d + 1).drop_last() =~= deps@.take(d as int));
                assert(deps@.take(d + 1).last() == deps@[d as int]);
            }
            let ghost before = strs(r@);
            if deps[d].id == *id {
                r.push(refs[i].id.clone());
                assert(strs(r@) =~= before + seq![refs@[i as int].id@]);
            } else {
                assert(strs(r@) =~= before + Seq::empty());
            }
            d += 1;
        }
        assert(deps@.take(deps@.len() as int) =~= deps@);
        i += 1;
    }
    assert(pr.take(pr.len() as int) =~= pr);
    r
}

fn lost_edges_of(ids: &Vec<String>, names: &Vec<(String, String)>) -> (r: Vec<String>)
    ensures
        strs(r@) == lost_edges(strs(ids@), pairs(names@)),
{
    let mut r: Vec<String> = Vec::new();
    let mut i: usize = 0;
    while i < ids.len()
        invariant
            i <= ids@.len(),
            strs(r@) == lost_edges(strs(ids@).take(i as int), pairs(names@)),
        decreases ids.len() - i,
    {
        proof {
            assert(strs(ids@).take(i + 1).drop_last() =~= strs(ids@).take(i as int));
            assert(strs(ids@).take(i + 1).last() == ids@[i as int]@);
        }
        let ghost before = strs(r@);
        match crate::configure_file::lookup_value(names, ids[i].as_str()) {
            Some(n) => {
                r.push(n);
                assert(strs(r@) =~= before + seq![
                    crate::configure_file::lookup(pairs(names@), ids@[i as int]@).unwrap(),
                ]);
            },
            None => {
                assert(strs(r@) =~= before + Seq::empty());
            },
        }
        i += 1;
    }
    assert(strs(ids@).take(ids@.len() as int) =~= strs(ids@));
    r
}

/// Targets the CMake frontend builds: none shared, none with a SONAME,
/// an include prefix to strip, the module root on its include path,
/// external dependencies or textual sources.
pub open spec fn plain_targets(ts: Seq<Target>) -> bool {
    forall|i: int| 0 <= i < ts.len() ==> {
        let x = #[trigger] ts[i];
        &&& x.external_dependencies@.len() == 0
        &&& x.textual_sources@.len() == 0
        &&& !x.is_shared
        &&& x.soname is None
        &&& x.strip_include_prefix is None
        &&& !x.needs_root_include
    }
}

pub open spec fn targets_view(ts: Seq<Target>) -> Seq<(Seq<char>, TargetKind, Seq<Seq<char>>, Seq<Seq<char>>, Seq<Seq<char>>, Seq<Seq<char>>, Seq<Seq<char>>, Seq<Seq<char>>)> {
    ts.map_values(|t: Target| target_view(t))
}

pub open spec fn items_view(es: Seq<NeedsAttention>) -> Seq<(Seq<char>, Seq<char>, Seq<char>, Seq<char>)> {
    es.map_values(|e: NeedsAttention| crate::configure_file::item_view(e))
}

/// Translates every reply, in the codemodel's order: a target with a Bazel
/// rule becomes a `Target`; one without is escalated (naming the edges it
/// cost), unless it is inert (no artifact, nothing depends on it), in which
/// case a CMake-injected one is dropped and the project's own are gathered
/// into one aggregated escalation at the end.
pub fn translate_targets(
    refs: &Vec<CodemodelTargetRef>,
    replies: &Vec<TargetReply>,
    installed_headers: &Vec<String>,
    cmake_root: Option<&str>,
) -> (r: (Vec<Target>, Vec<NeedsAttention>))
    requires
        refs@.len() == replies@.len(),
    ensures
        ({
            let t = translation(
                paired_replies(refs@, replies@),
                paired_replies(refs@, replies@),
                strs(installed_headers@),
                match cmake_root {
                    Some(s) => Some(s@),
                    None => None,
                },
            );
            &&& targets_view(r.0@) == t.0
            &&& plain_targets(r.0@)
            &&& items_view(r.1@) == t.1 + if t.2.len() == 0 {
                seq![]
            } else {
                seq![
                    (
                        "inert_convenience_targets"@,
                        "Project-authored convenience targets were not translated"@,
                        "These targets produce no artifact and nothing depends on them:\n"@
                            + crate::needs_attention::bullets(t.2),
                        seq![],
                    ),
                ]
            }
        }),
{
    let ghost root = match cmake_root {
        Some(s) => Some(s@),
        None => None,
    };
    let ghost installed = strs(installed_headers@);
    let ghost pr = paired_replies(refs@, replies@);
    let names = translated_names_of(refs, replies);
    let mut targets: Vec<Target> = Vec::new();
    let mut needs_attention: Vec<NeedsAttention> = Vec::new();
    let mut inert: Vec<String> = Vec::new();
    let mut i: usize = 0;
    while i < replies.len()
        invariant
            i <= replies@.len(),
            refs@.len() == replies@.len(),
            pr == paired_replies(refs@, replies@),
            pairs(names@) == translated_names_spec(pr),
            installed == strs(installed_headers@),
            root == match cmake_root {
                Some(s) => Some(s@),
                None => None,
            },
            ({
                let t = translation(pr.take(i as int), pr, installed, root);
                &&& targets_view(targets@) == t.0
                &&& items_view(needs_attention@) == t.1
                &&& strs(inert@) == t.2
            }),
            forall|k: int| 0 <= k < targets@.len() ==> {
                let x = #[trigger] targets@[k];
                &&& x.external_dependencies@.len() == 0
                &&& x.textual_sources@.len() == 0
                &&& !x.is_shared
                &&& x.soname is None
                &&& x.strip_include_prefix is None
                &&& !x.needs_root_include
            },
        decreases replies.len() - i,
    {
        proof {
            assert(pr.take(i + 1).drop_last() =~= pr.take(i as int));
            assert(pr.take(i + 1).last() == pr[i as int]);
        }
        let (id, reply) = (&refs[i].id, &replies[i]);
        let dependents = dependents_of_id(refs, replies, id);
        let ghost bt = targets_view(targets@);
        let ghost bn = items_view(needs_attention@);
        let ghost bi = strs(inert@);
        match target_kind(reply.cmake_type.as_str()) {
            None => {
                if reply.artifacts.len() == 0 && dependents.len() == 0 {
                    if !is_cmake_provided(reply, cmake_root) {
                        inert.push(reply.name.clone());
                        assert(strs(inert@) =~= bi.push(reply.name@));
                    }
                } else {
                    let edges = lost_edges_of(&dependents, &names);
                    let e = unsupported_target_needs_attention(
                        reply.name.as_str(),
                        reply.cmake_type.as_str(),
                        edges.as_slice(),
                    );
                    needs_attention.push(e);
                    assert(items_view(needs_attention@) =~= bn.push(crate::configure_file::item_view(e)));
                }
            },
            Some(kind) => {
                let (target, attention) = to_target(
                    reply,
                    kind,
                    &names,
                    dependents.len() > 0,
                    installed_headers,
                );
                let ghost tv = target_view(target);
                targets.push(target);
                assert(targets_view(targets@) =~= bt.push(tv));
                let ghost av = items_view(attention@);
                let mut k: usize = 0;
                while k < attention.len()
                    invariant
                        k <= attention@.len(),
                        av == items_view(attention@),
                        items_view(needs_attention@) == bn + av.take(k as int),
                    decreases attention.len() - k,
                {
                    let ghost b2 = items_view(needs_attention@);
                    needs_attention.push(attention[k].clone_item());
                    assert(items_view(needs_attention@) =~= b2.push(av[k as int]));
                    k += 1;
                    assert(av.take(k as int) =~= av.take(k - 1).push(av[k - 1]));
                }
                assert(av.take(av.len() as int) =~= av);
            },
        }
        i += 1;
    }
    assert(pr.take(pr.len() as int) =~= pr);
    if inert.len() != 0 {
        let ghost bn = items_view(needs_attention@);
        let e = inert_convenience_targets_needs_attention(inert.as_slice());
        needs_attention.push(e);
        assert(items_view(needs_attention@) =~= bn.push(crate::configure_file::item_view(e)));
    } else {
        assert(items_view(needs_attention@) =~= items_view(needs_attention@) + Seq::empty());
    }
    (targets, needs_attention)
}


/// A target reference of the codemodel index: the target's id and the
/// reply file that describes it.
#[derive(Debug, Clone, PartialEq, Eq)]
pub struct CodemodelTargetRef {
    pub id: String,
    pub json_file: String,
}

/// A directory reference of the codemodel index.
#[derive(Debug, Clone, PartialEq, Eq)]
pub struct CodemodelDirectoryRef {
    pub json_file: String,
    /// Whether the directory has any `install()` rule.
    pub has_install_rule: bool,
}

#[derive(Debug, Clone, PartialEq, Eq)]
pub struct CodemodelConfiguration {
    /// The names of the configuration's `project()`s, top-level first.
    pub projects: Vec<String>,
    pub targets: Vec<CodemodelTargetRef>,
    pub directories: Vec<CodemodelDirectoryRef>,
}

/// The `codemodel-v2` index reply.
#[derive(Debug, Clone, PartialEq, Eq)]
pub struct CodemodelIndex {
    pub configurations: Vec<CodemodelConfiguration>,
    /// The top-level source directory CMake configured.
    pub source: String,
}

/// Why the CMake replies cannot be translated.
#[derive(Debug, Clone, PartialEq, Eq)]
pub enum CmakeError {
    /// The codemodel reply has no configuration or no `project()`.
    NoProject,
    /// The project directory is not inside the declared deliverable root.
    SourceDirOutsideDeliverableRoot { source_dir: String, deliverable_root: String },
}

impl CmakeError {
    /// The error as a sentence.
    pub fn message(&self) -> (r: String)
        ensures
            self is NoProject ==> r@ == "codemodel reply contains no project()"@,
    {
        match self {
            CmakeError::NoProject => "codemodel reply contains no project()".to_owned(),
            CmakeError::SourceDirOutsideDeliverableRoot { source_dir, deliverable_root } => {
                let mut r = "the CMake project directory (".to_owned();
                crate::text::push_str(&mut r, source_dir.as_str());
                crate::text::push_str(&mut r, ") is not inside the declared deliverable root (");
                crate::text::push_str(&mut r, deliverable_root.as_str());
                crate::text::push_str(
                    &mut r,
                    "); the deliverable root must contain the project being converted",
                );
                r
            },
        }
    }
}

/// What one codemodel reply yields.
pub struct Codemodel {
    pub project_name: String,
    pub targets: Vec<Target>,
    pub needs_attention: Vec<NeedsAttention>,
    /// The converted module's root, absolute.
    pub module_root: String,
}

/// The install-declared headers injected into every target.
pub open spec fn installed_injected(
    before: Seq<Target>,
    after: Seq<Target>,
    installed: Seq<Seq<char>>,
    source_dir: Seq<char>,
    files: Seq<Seq<char>>,
) -> bool {
    &&& after.len() == before.len()
    &&& forall|i: int|
        0 <= i < after.len() ==> {
            let t = #[trigger] after[i];
            let o = before[i];
            &&& crate::model::same_but_paths(t, o)
            &&& t.sources@ == o.sources@
            &&& t.includes@ == o.includes@
            &&& strs(t.public_headers@) == strs(o.public_headers@) + crate::headers::injected_for(
                o,
                crate::text::sort_dedup(installed),
                crate::headers::enumerated(before),
                source_dir,
                files,
            )
        }
}

/// The headers on each target's include path injected into its sources.
pub open spec fn include_headers_injected(
    before: Seq<Target>,
    after: Seq<Target>,
    source_dir: Seq<char>,
    files: Seq<Seq<char>>,
) -> bool {
    &&& after.len() == before.len()
    &&& forall|i: int|
        0 <= i < after.len() ==> {
            let t = #[trigger] after[i];
            let o = before[i];
            &&& crate::model::same_but_paths(t, o)
            &&& t.public_headers@ == o.public_headers@
            &&& t.includes@ == o.includes@
            &&& strs(t.sources@) == strs(o.sources@) + crate::headers::discovered_headers(
                o,
                source_dir,
                files,
            )
        }
}

/// Every target rebased onto `root`.
pub open spec fn all_rebased(
    before: Seq<Target>,
    after: Seq<Target>,
    source_dir: Seq<char>,
    root: Seq<char>,
    build_dir: Seq<char>,
    outputs: Seq<Seq<char>>,
) -> bool {
    &&& after.len() == before.len()
    &&& forall|i: int|
        0 <= i < after.len() ==> rebased_target(#[trigger] after[i], before[i], source_dir, root, build_dir, outputs)
}

/// The targets' ids and replies, paired in index order.
pub open spec fn paired_replies(refs: Seq<CodemodelTargetRef>, replies: Seq<TargetReply>) -> Seq<(String, TargetReply)> {
    Seq::new(replies.len(), |i: int| (refs[i].id, replies[i]))
}

/// The codemodel names no `project()`.
pub open spec fn no_project(index: CodemodelIndex) -> bool {
    index.configurations@.len() == 0 || index.configurations@[0].projects@.len() == 0
}

/// The project directory lies outside the deliverable root.
pub open spec fn outside_deliverable(index: CodemodelIndex, deliverable_root: Seq<char>) -> bool {
    !path_starts_with(crate::paths::normalize(index.source@), deliverable_root)
}

/// The outcome of translating a codemodel: the replies translated, the
/// install-declared headers injected, then the headers on include paths,
/// and the result rebased onto the module root; escalations in that order.
pub open spec fn codemodel_outcome(
    replies: Seq<(String, TargetReply)>,
    installed: Seq<Seq<char>>,
    cmake_root: Option<Seq<char>>,
    source_dir: Seq<char>,
    deliverable_root: Seq<char>,
    build_dir: Seq<char>,
    outputs: Seq<Seq<char>>,
    files: Seq<Seq<char>>,
    targets: Seq<Target>,
    root: Seq<char>,
    items: Seq<(Seq<char>, Seq<char>, Seq<char>, Seq<char>)>,
) -> bool {
    exists|translated: Seq<Target>, injected: Seq<Target>, with_includes: Seq<Target>|
        #![trigger installed_injected(translated, injected, installed, source_dir, files), include_headers_injected(injected, with_includes, source_dir, files)]
        {
            let t = translation(replies, replies, installed, cmake_root);
            &&& targets_view(translated) == t.0
            &&& plain_targets(translated)
            &&& installed_injected(translated, injected, installed, source_dir, files)
            &&& include_headers_injected(injected, with_includes, source_dir, files)
            &&& root == module_root_spec(with_includes, source_dir, deliverable_root)
            &&& all_rebased(with_includes, targets, source_dir, root, build_dir, outputs)
            &&& plain_targets(targets)
            &&& items == t.1 + (if t.2.len() == 0 {
                seq![]
            } else {
                seq![
                    (
                        "inert_convenience_targets"@,
                        "Project-authored convenience targets were not translated"@,
                        "These targets produce no artifact and nothing depends on them:\n"@
                            + crate::needs_attention::bullets(t.2),
                        seq![],
                    ),
                ]
            }) + rebase_escalations(with_includes, source_dir, root, build_dir, outputs)
        }
}

/// Reads a codemodel into targets. `target_replies[i]` is the reply of the
/// first configuration's `i`-th target; `directory_replies` those of its
/// directories that have install rules; `source_files` every file below
/// the project directory, absolute.
///
/// Every target is translated before any is rebased, since a target can
/// name a later one as a dependency. Then the install-declared headers no
/// target enumerated are injected, then the headers on each target's
/// include path, and everything is rebased onto the module root.
pub fn read_codemodel_reply(
    index: &CodemodelIndex,
    target_replies: &Vec<TargetReply>,
    directory_replies: &Vec<DirectoryReply>,
    cmake_root: Option<&str>,
    deliverable_root: &str,
    build_dir: &str,
    config_header_outputs: &Vec<String>,
    source_files: &Vec<String>,
) -> (r: Result<Codemodel, CmakeError>)
    requires
        index.configurations@.len() > 0 ==> target_replies@.len()
            == index.configurations@[0].targets@.len(),
    ensures
        (r matches Err(CmakeError::NoProject)) <==> no_project(*index),
        (r matches Err(CmakeError::SourceDirOutsideDeliverableRoot { .. })) <==> (!no_project(*index)
            && outside_deliverable(*index, deliverable_root@)),
        r matches Err(CmakeError::SourceDirOutsideDeliverableRoot { source_dir, deliverable_root: d }) ==> source_dir@
            == crate::paths::normalize(index.source@) && d@ == deliverable_root@,
        r matches Ok(c) ==> {
            let source_dir = crate::paths::normalize(index.source@);
            &&& c.project_name == index.configurations@[0].projects@[0]
            &&& codemodel_outcome(
                paired_replies(index.configurations@[0].targets@, target_replies@),
                dedup_first(directory_headers(directory_replies@)),
                match cmake_root {
                    Some(s) => Some(s@),
                    None => None,
                },
                source_dir,
                deliverable_root@,
                build_dir@,
                strs(config_header_outputs@),
                strs(source_files@),
                c.targets@,
                c.module_root@,
                items_view(c.needs_attention@),
            )
        },
{
    if index.configurations.len() == 0 {
        return Err(CmakeError::NoProject);
    }
    let configuration = &index.configurations[0];
    if configuration.projects.len() == 0 {
        return Err(CmakeError::NoProject);
    }
    let project_name = configuration.projects[0].clone();
    let installed = installed_public_headers(directory_replies.as_slice());
    let (translated, mut needs_attention) = translate_targets(
        &configuration.targets,
        target_replies,
        &installed,
        cmake_root,
    );
    let source_dir = crate::paths::normalize_path(chars(&index.source).as_slice());
    let deliv = chars_of(deliverable_root);
    if !starts_with_path(source_dir.as_slice(), deliv.as_slice()) {
        return Err(
            CmakeError::SourceDirOutsideDeliverableRoot {
                source_dir: string_of(source_dir.as_slice()),
                deliverable_root: deliverable_root.to_owned(),
            },
        );
    }
    let src = string_of(source_dir.as_slice());
    let ghost t0 = translated@;
    let mut targets = translated;
    crate::headers::inject_unenumerated_installed_headers(&mut targets, &installed, src.as_str(), source_files);
    let ghost t1 = targets@;
    crate::headers::inject_headers_on_include_dirs(&mut targets, src.as_str(), source_files);
    let ghost t2 = targets@;
    let (module_root, escalations) = rebase_to_module_root(
        &mut targets,
        src.as_str(),
        deliverable_root,
        build_dir,
        config_header_outputs,
    );
    let ghost before = items_view(needs_attention@);
    let mut k: usize = 0;
    while k < escalations.len()
        invariant
            k <= escalations@.len(),
            items_view(needs_attention@) == before + items_view(escalations@).take(k as int),
        decreases escalations.len() - k,
    {
        let ghost b2 = items_view(needs_attention@);
        needs_attention.push(escalations[k].clone_item());
        assert(items_view(needs_attention@) =~= b2.push(items_view(escalations@)[k as int]));
        k += 1;
        assert(items_view(escalations@).take(k as int) =~= items_view(escalations@).take(k - 1).push(
            items_view(escalations@)[k - 1],
        ));
    }
    assert(items_view(escalations@).take(escalations@.len() as int) =~= items_view(escalations@));
    proof {
        let sd = crate::paths::normalize(index.source@);
        assert(installed_injected(t0, t1, strs(installed@), sd, strs(source_files@)));
        assert(include_headers_injected(t1, t2, sd, strs(source_files@)));
        assert(all_rebased(t2, targets@, sd, module_root@, build_dir@, strs(config_header_outputs@)));
    }
    Ok(Codemodel { project_name, targets, needs_attention, module_root })
}


/// One `cache-v2` entry.
#[derive(Debug, Clone, PartialEq, Eq)]
pub struct CacheEntry {
    pub name: String,
    pub value: String,
}

/// A completed discovery pass: the build graph, the gaps that kept parts of
/// the project out of it, and the directory on this machine that the
/// graph's module-relative paths are relative to.
pub struct Discovery {
    pub graph: BuildGraph,
    /// Gaps to escalate for this conversion.
    pub needs_attention: Vec<NeedsAttention>,
    /// The converted module's root, absolute: the project directory unless
    /// the build referenced files above it that still ship with it.
    pub module_root: String,
}

pub open spec fn cache_pairs(entries: Seq<CacheEntry>) -> Seq<(Seq<char>, Seq<char>)> {
    entries.map_values(|e: CacheEntry| (e.name@, e.value@))
}

/// The value of the first cache entry named `name`, unless it is empty.
pub open spec fn first_cache_value(entries: Seq<CacheEntry>, name: Seq<char>) -> Option<Seq<char>>
    decreases entries.len(),
{
    if entries.len() == 0 {
        None
    } else if entries[0].name@ == name {
        if entries[0].value@.len() == 0 {
            None
        } else {
            Some(entries[0].value@)
        }
    } else {
        first_cache_value(entries.drop_first(), name)
    }
}

fn first_cache_value_of(entries: &Vec<CacheEntry>, name: &str) -> (r: Option<String>)
    ensures
        opt_view(r) == first_cache_value(entries@, name@),
{
    assert(entries@.skip(0) =~= entries@);
    let mut i: usize = 0;
    while i < entries.len()
        invariant
            i <= entries@.len(),
            first_cache_value(entries@, name@) == first_cache_value(entries@.skip(i as int), name@),
        decreases entries.len() - i,
    {
        assert(entries@.skip(i as int)[0] == entries@[i as int]);
        assert(entries@.skip(i as int).drop_first() =~= entries@.skip(i + 1));
        if str_eq(entries[i].name.as_str(), name) {
            if entries[i].value.as_str().is_empty() {
                return None;
            }
            return Some(entries[i].value.clone());
        }
        i += 1;
    }
    None
}

/// The file names of the configure outputs that are headers: the generated
/// headers a config-header rule reproduces.
pub open spec fn header_output_names(calls: Seq<(Seq<char>, Seq<char>)>) -> Seq<Seq<char>>
    decreases calls.len(),
{
    if calls.len() == 0 {
        seq![]
    } else {
        let o = calls.last().1;
        header_output_names(calls.drop_last()) + if ext_is(o, |e: Seq<char>| interface_ext(e)) {
            match crate::paths::file_name(o) {
                Some(n) => seq![n],
                None => seq![],
            }
        } else {
            seq![]
        }
    }
}

/// The text read for each call's template, looked up by path.
pub open spec fn template_texts(
    calls: Seq<(Seq<char>, Seq<char>)>,
    templates: Seq<(Seq<char>, Seq<char>)>,
) -> Seq<Option<Seq<char>>> {
    calls.map_values(|c: (Seq<char>, Seq<char>)| crate::configure_file::lookup(templates, c.0))
}

pub open spec fn opt_texts(texts: Seq<Option<String>>) -> Seq<Option<Seq<char>>> {
    texts.map_values(|t: Option<String>| opt_view(t))
}

/// What a discovery pass yields, given the escalations the codemodel
/// raised, the template texts, the rebased tests, and the configure calls.
pub open spec fn discovery_outcome(
    trace: Seq<char>,
    source_dir: Seq<char>,
    build_dir: Seq<char>,
    deliverable_root: Seq<char>,
    index: CodemodelIndex,
    target_replies: Seq<TargetReply>,
    directory_replies: Seq<DirectoryReply>,
    cache: Seq<CacheEntry>,
    ctest: crate::ctest::CtestReply,
    templates: Seq<(String, String)>,
    source_files: Seq<String>,
    d: Discovery,
    cm_items: Seq<(Seq<char>, Seq<char>, Seq<char>, Seq<char>)>,
    texts: Seq<Option<String>>,
    rebased: Seq<Test>,
    cf: Seq<crate::configure_file::ConfigureFile>,
) -> bool {
    let calls = crate::configure_file::trace_calls(crate::text::lines(trace), source_dir, build_dir);
    let cmake_root = first_cache_value(cache, "CMAKE_ROOT"@);
    let g = d.graph;
    let tests = crate::ctest::reply_tests(ctest.tests@);
                {
                    &&& codemodel_outcome(
                        paired_replies(index.configurations@[0].targets@, target_replies),
                        dedup_first(directory_headers(directory_replies)),
                        cmake_root,
                        crate::paths::normalize(index.source@),
                        deliverable_root,
                        build_dir,
                        header_output_names(calls),
                        strs(source_files),
                        g.targets@,
                        d.module_root@,
                        cm_items,
                    )
                    &&& crate::configure_file::calls_view(cf) == calls
                    &&& opt_texts(texts) == template_texts(calls, pairs(templates))
                    &&& g.config_headers@.map_values(|h: crate::model::ConfigHeader| crate::configure_file::plan_view(h))
                        == crate::configure_file::config_plans(
                        cf,
                        texts,
                        d.module_root@,
                        build_dir,
                        cache_pairs(cache),
                    )
                    &&& crate::configure_file::unshadowed(g.config_headers@)
                    &&& rebased.len() == tests.len()
                    &&& forall|i: int|
                        0 <= i < rebased.len() ==> {
                            let t = #[trigger] rebased[i];
                            let o = tests[i];
                            &&& t.name@ == o.0
                            &&& t.target@ == o.1
                            &&& t.working_directory@ == crate::ctest::rebased_working_directory(
                                o.3,
                                d.module_root@,
                            )
                            &&& t.command@ == crate::ctest::rebased_command(o.2, d.module_root@)
                            &&& opt_view(t.pass_regex) == o.4
                        }
                    &&& g.tests@ == crate::ctest::tests_where(rebased, g.targets@, true)
                    &&& items_view(d.needs_attention@) == cm_items
                        + crate::configure_file::config_escalations(
                        cf,
                        texts,
                        d.module_root@,
                        build_dir,
                        cache_pairs(cache),
                    ) + if crate::ctest::tests_where(rebased, g.targets@, false).len() == 0 {
                        seq![]
                    } else {
                        seq![
                            (
                                "test_command_not_a_target"@,
                                "Tests run commands that are not targets of this module"@,
                                "Tests:\n"@ + crate::needs_attention::bullets(
                                    crate::ctest::tests_where(rebased, g.targets@, false).map_values(
                                        |t: Test| t.name@,
                                    ),
                                ) + "Their commands:\n"@ + crate::needs_attention::bullets(
                                    crate::ctest::tests_where(rebased, g.targets@, false).map_values(
                                        |t: Test| t.command@,
                                    ),
                                ),
                                seq![],
                            ),
                        ]
                    }
                }
}

/// Takes what a CMake configure, build and `ctest` run reported and reads
/// it into a `BuildGraph`: `trace` is the `--trace-expand` output (the one
/// place `configure_file` calls are reported), `templates` the texts of
/// the templates those calls name, by path; `source_files` every file below
/// the project directory. All directories absolute.
///
/// The codemodel is read first: the module root it settles on is what the
/// tests' paths and the config-header templates are rebased against. Tests
/// whose command is not a built executable escalate.
#[verifier::rlimit(50)]
pub fn discover(
    trace: &str,
    source_dir: &str,
    build_dir: &str,
    deliverable_root: &str,
    index: &CodemodelIndex,
    target_replies: &Vec<TargetReply>,
    directory_replies: &Vec<DirectoryReply>,
    cache: &Vec<CacheEntry>,
    ctest: crate::ctest::CtestReply,
    templates: &Vec<(String, String)>,
    source_files: &Vec<String>,
) -> (r: Result<Discovery, CmakeError>)
    requires
        index.configurations@.len() > 0 ==> target_replies@.len()
            == index.configurations@[0].targets@.len(),
    ensures
        (r matches Err(CmakeError::NoProject)) <==> no_project(*index),
        (r matches Err(CmakeError::SourceDirOutsideDeliverableRoot { .. })) <==> (!no_project(*index)
            && outside_deliverable(*index, deliverable_root@)),
        r matches Err(CmakeError::SourceDirOutsideDeliverableRoot { source_dir, deliverable_root: d }) ==> source_dir@
            == crate::paths::normalize(index.source@) && d@ == deliverable_root@,
        r matches Ok(d) ==> {
            let calls = crate::configure_file::trace_calls(
                crate::text::lines(trace@),
                source_dir@,
                build_dir@,
            );
            let cmake_root = first_cache_value(cache@, "CMAKE_ROOT"@);
            let g = d.graph;
            let tests = crate::ctest::reply_tests(ctest.tests@);
            &&& g.module.name == index.configurations@[0].projects@[0]
            &&& opt_view(g.module.version) == first_cache_value(cache@, "CMAKE_PROJECT_VERSION"@)
            &&& g.unexpressed_tests@.len() == 0
            &&& g.dependencies@.len() == 0
            &&& exists|cm_items: Seq<(Seq<char>, Seq<char>, Seq<char>, Seq<char>)>, texts: Seq<Option<String>>, rebased: Seq<Test>, cf: Seq<crate::configure_file::ConfigureFile>|
                #[trigger] discovery_outcome(
                    trace@,
                    source_dir@,
                    build_dir@,
                    deliverable_root@,
                    *index,
                    target_replies@,
                    directory_replies@,
                    cache@,
                    ctest,
                    templates@,
                    source_files@,
                    d,
                    cm_items,
                    texts,
                    rebased,
                    cf,
                )
        },
{
    let calls = crate::configure_file::parse_configure_files(trace, source_dir, build_dir);
    let ghost cv = crate::configure_file::calls_view(calls@);
    let mut outputs: Vec<String> = Vec::new();
    let mut i: usize = 0;
    while i < calls.len()
        invariant
            i <= calls@.len(),
            cv == crate::configure_file::calls_view(calls@),
            strs(outputs@) == header_output_names(cv.take(i as int)),
        decreases calls.len() - i,
    {
        proof {
            assert(cv.take(i + 1).drop_last() =~= cv.take(i as int));
            assert(cv.take(i + 1).last() == (calls@[i as int].template@, calls@[i as int].output@));
        }
        let ghost before = strs(outputs@);
        let o = &calls[i].output;
        if crate::headers::is_config_header_output(o.as_str()) {
            match crate::paths::file_name_of(chars(o).as_slice()) {
                Some(n) => {
                    outputs.push(string_of(n.as_slice()));
                    assert(strs(outputs@) =~= before + seq![n@]);
                },
                None => {
                    assert(strs(outputs@) =~= before + Seq::empty());
                },
            }
        } else {
            assert(strs(outputs@) =~= before + Seq::empty());
        }
        i += 1;
    }
    assert(cv.take(cv.len() as int) =~= cv);
    let cmake_root = first_cache_value_of(cache, "CMAKE_ROOT");
    let version = first_cache_value_of(cache, "CMAKE_PROJECT_VERSION");
    let root_ref: Option<&str> = match &cmake_root {
        Some(s) => Some(s.as_str()),
        None => None,
    };
    let codemodel = match read_codemodel_reply(
        index,
        target_replies,
        directory_replies,
        root_ref,
        deliverable_root,
        build_dir,
        &outputs,
        source_files,
    ) {
        Ok(c) => c,
        Err(e) => return Err(e),
    };
    let mut tests = crate::ctest::ctest_reply_to_tests(ctest);
    crate::ctest::rebase_tests_to_module_root(&mut tests, codemodel.module_root.as_str());
    let ghost rebased = tests@;
    let (tests, test_escalation) = crate::ctest::partition_tests_by_buildable_command(
        tests,
        codemodel.targets.as_slice(),
    );
    let mut cache_values: Vec<(String, String)> = Vec::new();
    let mut c: usize = 0;
    while c < cache.len()
        invariant
            c <= cache@.len(),
            pairs(cache_values@) == cache_pairs(cache@.take(c as int)),
        decreases cache.len() - c,
    {
        let ghost before = pairs(cache_values@);
        cache_values.push((cache[c].name.clone(), cache[c].value.clone()));
        assert(pairs(cache_values@) =~= before.push((cache@[c as int].name@, cache@[c as int].value@)));
        c += 1;
        assert(cache_pairs(cache@.take(c as int)) =~= cache_pairs(cache@.take(c - 1)).push(
            (cache@[c - 1].name@, cache@[c - 1].value@),
        ));
    }
    assert(cache@.take(cache@.len() as int) =~= cache@);
    let mut texts: Vec<Option<String>> = Vec::new();
    let mut t: usize = 0;
    while t < calls.len()
        invariant
            t <= calls@.len(),
            cv == crate::configure_file::calls_view(calls@),
            opt_texts(texts@) == template_texts(cv.take(t as int), pairs(templates@)),
        decreases calls.len() - t,
    {
        let ghost before = opt_texts(texts@);
        let text = crate::configure_file::lookup_value(templates, calls[t].template.as_str());
        texts.push(text);
        assert(opt_texts(texts@) =~= before.push(
            crate::configure_file::lookup(pairs(templates@), calls@[t as int].template@),
        ));
        t += 1;
        assert(template_texts(cv.take(t as int), pairs(templates@)) =~= template_texts(
            cv.take(t - 1),
            pairs(templates@),
        ).push(crate::configure_file::lookup(pairs(templates@), calls@[t - 1].template@)));
    }
    assert(cv.take(cv.len() as int) =~= cv);
    let ghost tv = texts@;
    let (config_headers, config_escalations) = crate::configure_file::build_config_headers(
        &calls,
        codemodel.module_root.as_str(),
        build_dir,
        &cache_values,
        &texts,
    );
    let ghost cm_items = items_view(codemodel.needs_attention@);
    let mut needs_attention = codemodel.needs_attention;
    let ghost b1 = items_view(needs_attention@);
    let mut k: usize = 0;
    while k < config_escalations.len()
        invariant
            k <= config_escalations@.len(),
            items_view(needs_attention@) == b1 + items_view(config_escalations@).take(k as int),
        decreases config_escalations.len() - k,
    {
        let ghost b2 = items_view(needs_attention@);
        needs_attention.push(config_escalations[k].clone_item());
        assert(items_view(needs_attention@) =~= b2.push(items_view(config_escalations@)[k as int]));
        k += 1;
        assert(items_view(config_escalations@).take(k as int) =~= items_view(config_escalations@).take(
            k - 1,
        ).push(items_view(config_escalations@)[k - 1]));
    }
    assert(items_view(config_escalations@).take(config_escalations@.len() as int) =~= items_view(
        config_escalations@,
    ));
    let ghost b3 = items_view(needs_attention@);
    match test_escalation {
        Some(e) => {
            needs_attention.push(e);
            assert(items_view(needs_attention@) =~= b3.push(crate::configure_file::item_view(e)));
        },
        None => {
            assert(items_view(needs_attention@) =~= b3 + Seq::empty());
        },
    }
    let graph = BuildGraph {
        module: ModuleInfo { name: codemodel.project_name, version },
        targets: codemodel.targets,
        tests,
        unexpressed_tests: Vec::new(),
        config_headers,
        dependencies: Vec::new(),
    };
    let d = Discovery { graph, needs_attention, module_root: codemodel.module_root };
    proof {
        let calls_s = crate::configure_file::trace_calls(crate::text::lines(trace@), source_dir@, build_dir@);
        assert(opt_texts(tv) == template_texts(calls_s, pairs(templates@)));
        let ce = crate::configure_file::config_escalations(calls@, tv, d.module_root@, build_dir@, cache_pairs(cache@));
        let bad = crate::ctest::tests_where(rebased, d.graph.targets@, false);
        assert(b3 == cm_items + ce);
        assert(items_view(d.needs_attention@) == cm_items + ce + if bad.len() == 0 {
            seq![]
        } else {
            seq![
                (
                    "test_command_not_a_target"@,
                    "Tests run commands that are not targets of this module"@,
                    "Tests:\n"@ + crate::needs_attention::bullets(bad.map_values(|t: Test| t.name@))
                        + "Their commands:\n"@ + crate::needs_attention::bullets(
                        bad.map_values(|t: Test| t.command@),
                    ),
                    seq![],
                ),
            ]
        });
        assert(discovery_outcome(
            trace@,
            source_dir@,
            build_dir@,
            deliverable_root@,
            *index,
            target_replies@,
            directory_replies@,
            cache@,
            ctest,
            templates@,
            source_files@,
            d,
            cm_items,
            tv,
            rebased,
            calls@,
        ));
    }
    Ok(d)
}

/// Every path `rebase_to_module_root` keeps in a target (its sources,
/// public headers and include directories) is relative to the module
/// root and never reaches above it, whenever the project directory is
/// absolute.
pub proof fn law_rebased_cmake_paths_are_module_relative(
    ps: Seq<Seq<char>>,
    source_dir: Seq<char>,
    root: Seq<char>,
    build_dir: Seq<char>,
    outputs: Seq<Seq<char>>,
)
    requires
        crate::paths::is_absolute(source_dir),
    ensures
        crate::autotools_graph::all_module_relative(rebased_in_class(ps, source_dir, root, build_dir, outputs, 0)),
        crate::autotools_graph::all_module_relative(rebased_includes(ps, source_dir, root)),
    decreases ps.len(),
{
    if ps.len() > 0 {
        law_rebased_cmake_paths_are_module_relative(ps.drop_last(), source_dir, root, build_dir, outputs);
        crate::paths::lemma_join_absolute(source_dir, ps.last());
        crate::paths::lemma_strip_normalized(crate::paths::join_path(source_dir, ps.last()), root);
        let a = rebased_in_class(ps.drop_last(), source_dir, root, build_dir, outputs, 0);
        let ra = rebased_in_class(ps, source_dir, root, build_dir, outputs, 0);
        assert forall|k: int| 0 <= k < ra.len() implies crate::model::module_relative(#[trigger] ra[k]) by {
            if k < a.len() {
                assert(ra[k] == a[k]);
            }
        }
        let b = rebased_includes(ps.drop_last(), source_dir, root);
        let rb = rebased_includes(ps, source_dir, root);
        assert forall|k: int| 0 <= k < rb.len() implies crate::model::module_relative(#[trigger] rb[k]) by {
            if k < b.len() {
                assert(rb[k] == b[k]);
            }
        }
    }
}

} // verus!
