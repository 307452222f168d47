use std::collections::HashSet;

use translator::cmake_api::{
    defining_command_file, installed_public_headers, is_cmake_provided,
    is_inert_target, is_inherited_via_link_libraries, own_include_dirs, read_codemodel_reply,
    rebase_to_module_root, target_defines, target_kind, to_target, BacktraceGraph, BacktraceNode,
    CmakeError, CodemodelConfiguration, CodemodelDirectoryRef, CodemodelIndex, CodemodelTargetRef,
    CompileGroup, CompileGroupDefine, CompileGroupInclude, DirectoryReply, Installer, TargetArtifact,
    TargetDependency, TargetFileSet, TargetReply, TargetSource,
};
use translator::headers::{
    inject_headers_on_include_dirs, inject_unenumerated_installed_headers, is_include_destination,
};
use translator::model::{Target, TargetKind};

fn empty_backtrace_graph() -> BacktraceGraph {
    BacktraceGraph {
        commands: Vec::new(),
        files: Vec::new(),
        nodes: Vec::new(),
    }
}

// Mirrors the shape actually observed from CMake's File API: a
// target's own target_include_directories()/FILE_SET BASE_DIRS
// include traces to some command other than target_link_libraries; an
// include inherited from a dependency traces to the
// target_link_libraries call that pulled it in.
fn backtrace_graph_with_commands(
    commands: Vec<&str>,
    node_commands: Vec<Option<usize>>,
) -> BacktraceGraph {
    BacktraceGraph {
        commands: commands.into_iter().map(str::to_string).collect(),
        files: Vec::new(),
        nodes: node_commands
            .into_iter()
            .map(|command| BacktraceNode {
                command,
                file: None,
            })
            .collect(),
    }
}

#[test]
fn is_inherited_via_link_libraries_true_when_backtrace_traces_to_it() {
    let graph = backtrace_graph_with_commands(
        vec!["add_executable", "target_link_libraries"],
        vec![None, Some(0), Some(1)],
    );
    assert!(is_inherited_via_link_libraries(Some(2), &graph));
}

#[test]
fn is_inherited_via_link_libraries_false_for_own_include_directories() {
    let graph = backtrace_graph_with_commands(
        vec!["add_library", "target_include_directories"],
        vec![None, Some(0), Some(1)],
    );
    assert!(!is_inherited_via_link_libraries(Some(2), &graph));
}

#[test]
fn is_inherited_via_link_libraries_false_when_no_backtrace() {
    assert!(!is_inherited_via_link_libraries(
        None,
        &empty_backtrace_graph()
    ));
}

#[test]
fn own_include_dirs_excludes_inherited_and_dedupes() {
    let reply = TargetReply {
        name: "hello".to_string(),
        cmake_type: "EXECUTABLE".to_string(),
        sources: vec![],
        file_sets: vec![],
        dependencies: vec![],
        artifacts: vec![],
        compile_groups: vec![CompileGroup {
            includes: vec![
                // Own: target_include_directories (command index 1).
                CompileGroupInclude {
                    path: "/proj/include".to_string(),
                    backtrace: Some(1),
                },
                // Duplicate of the above — should be deduped.
                CompileGroupInclude {
                    path: "/proj/include".to_string(),
                    backtrace: Some(1),
                },
                // Inherited via target_link_libraries (command index 2).
                CompileGroupInclude {
                    path: "/proj/other_lib_include".to_string(),
                    backtrace: Some(2),
                },
            ],
            defines: vec![],
        }],
        backtrace: None,
        backtrace_graph: backtrace_graph_with_commands(
            vec!["target_include_directories", "target_link_libraries"],
            vec![None, Some(0), Some(1), Some(1)],
        ),
    };

    // Absolute at this stage; rebase_to_module_root makes it
    // module-relative once the module root is known.
    assert_eq!(own_include_dirs(&reply), vec!["/proj/include".to_string()]);
}

// Layer A collects every effective define, deduped across groups, in
// first-seen order — and, unlike own_include_dirs, does NOT drop
// inherited (PUBLIC-propagated) ones: they belong in this target's
// local_defines because local_defines don't propagate. A NAME=VALUE
// define must survive verbatim. See target_defines and
// docs/lore/cmake-file-api-compile-definitions-shape.md.
#[test]
fn target_defines_collects_deduped_in_order_including_inherited() {
    let reply = TargetReply {
        name: "app".to_string(),
        cmake_type: "EXECUTABLE".to_string(),
        sources: vec![],
        file_sets: vec![],
        dependencies: vec![],
        artifacts: vec![],
        compile_groups: vec![
            CompileGroup {
                includes: vec![],
                defines: vec![
                    CompileGroupDefine {
                        define: "OWN_DEF".to_string(),
                    },
                    // Inherited from a dependency's PUBLIC define — must
                    // be KEPT (contrast own_include_dirs), because
                    // local_defines are non-propagating.
                    CompileGroupDefine {
                        define: "PUB_FROM_DEP=1".to_string(),
                    },
                ],
            },
            CompileGroup {
                includes: vec![],
                // Duplicate across groups — deduped.
                defines: vec![CompileGroupDefine {
                    define: "OWN_DEF".to_string(),
                }],
            },
        ],
        backtrace: None,
        backtrace_graph: empty_backtrace_graph(),
    };

    assert_eq!(
        target_defines(&reply),
        vec!["OWN_DEF".to_string(), "PUB_FROM_DEP=1".to_string()],
        "target_defines must collect every effective define (including \
         inherited PUBLIC ones), deduped, preserving NAME=VALUE verbatim"
    );
}

// A UTILITY target (add_custom_target) whose defining command sits in
// `defining_file`, with the given artifacts. `defining_file` becomes the
// one file in the backtrace graph, and the target's backtrace points at
// a node in it whose command is add_custom_target — the exact shape the
// File API produces (verified against a real reply; see
// docs/lore/cmake-include-ctest-injects-utility-targets.md).
fn utility_reply(name: &str, defining_file: &str, artifacts: Vec<&str>) -> TargetReply {
    TargetReply {
        name: name.to_string(),
        cmake_type: "UTILITY".to_string(),
        sources: vec![],
        file_sets: vec![],
        dependencies: vec![],
        artifacts: artifacts
            .into_iter()
            .map(|p| TargetArtifact {
                path: p.to_string(),
            })
            .collect(),
        compile_groups: vec![],
        backtrace: Some(1),
        backtrace_graph: BacktraceGraph {
            commands: vec!["add_custom_target".to_string()],
            files: vec![defining_file.to_string()],
            nodes: vec![
                BacktraceNode {
                    command: None,
                    file: Some(0),
                },
                BacktraceNode {
                    command: Some(0),
                    file: Some(0),
                },
            ],
        },
    }
}

#[test]
fn defining_command_file_reads_the_targets_own_backtrace_file() {
    let reply = utility_reply("doc", "CMakeLists.txt", vec![]);
    assert_eq!(defining_command_file(&reply).as_deref(), Some("CMakeLists.txt"));
    let injected = utility_reply(
        "Continuous",
        "/usr/share/cmake-3.28/Modules/CTestTargets.cmake",
        vec![],
    );
    assert_eq!(
        defining_command_file(&injected).as_deref(),
        Some("/usr/share/cmake-3.28/Modules/CTestTargets.cmake")
    );
}

// Provenance, not a name match: a target defined under CMAKE_ROOT is
// CMake-injected (CTest, Doxygen, ...) regardless of its name, and one
// defined in the project's own files never is, regardless of its name.
#[test]
fn is_cmake_provided_keys_on_the_defining_files_location() {
    let root = Some("/usr/share/cmake-3.28");
    let injected = utility_reply(
        "Continuous",
        "/usr/share/cmake-3.28/Modules/CTestTargets.cmake",
        vec![],
    );
    assert!(
        is_cmake_provided(&injected, root),
        "a target defined under CMAKE_ROOT must be recognized as CMake-provided"
    );

    // Same name, but authored in the project — must NOT be caught.
    let authored = utility_reply("Continuous", "CMakeLists.txt", vec![]);
    assert!(
        !is_cmake_provided(&authored, root),
        "a project-authored target must never be treated as CMake-provided, \
         even if it shares a name with a CTest dashboard target"
    );

    // Missing CMAKE_ROOT (malformed cache) errs toward NOT dropping.
    assert!(
        !is_cmake_provided(&injected, None),
        "without CMAKE_ROOT the provenance of a target can't be proven, so it \
         must not be treated as CMake-provided"
    );
}

// Inertness is BOTH conditions: no artifact AND no dependent. A UTILITY
// target that produces a consumed file, or that something depends on, is
// load-bearing and must fall through to a real escalation rather than be
// swept up as convenience/injected.
#[test]
fn is_inert_target_requires_no_artifacts_and_no_dependents() {
    let inert = utility_reply("doc", "CMakeLists.txt", vec![]);
    let mut no_dependents: Vec<(String, Vec<String>)> = Vec::new();
    assert!(is_inert_target(&inert, &no_dependents, "doc::@x"));

    // Has an artifact → not inert.
    let with_artifact = utility_reply("gen", "CMakeLists.txt", vec!["gen.h"]);
    assert!(
        !is_inert_target(&with_artifact, &no_dependents, "gen::@x"),
        "a UTILITY target with a declared artifact is load-bearing"
    );

    // Has a dependent → not inert.
    no_dependents.push(("doc::@x".to_string(), vec!["app::@y".to_string()]));
    assert!(
        !is_inert_target(&inert, &no_dependents, "doc::@x"),
        "a UTILITY target something depends on is load-bearing"
    );
}

fn public_file_set() -> Vec<TargetFileSet> {
    vec![TargetFileSet {
        fileset_type: "HEADERS".to_string(),
        visibility: "PUBLIC".to_string(),
    }]
}

fn library_reply(sources: Vec<TargetSource>, file_sets: Vec<TargetFileSet>) -> TargetReply {
    TargetReply {
        name: "greet".to_string(),
        cmake_type: "STATIC_LIBRARY".to_string(),
        sources,
        file_sets,
        dependencies: vec![],
        artifacts: vec![TargetArtifact {
            path: "libgreet.a".to_string(),
        }],
        compile_groups: vec![],
        backtrace: None,
        backtrace_graph: empty_backtrace_graph(),
    }
}

#[test]
fn to_target_classifies_file_set_header_as_public() {
    let reply = library_reply(
        vec![
            TargetSource {
                path: "src/greet.cpp".to_string(),
                file_set_index: None,
                is_generated: false,
            },
            TargetSource {
                path: "include/greet.hpp".to_string(),
                file_set_index: Some(0),
                is_generated: false,
            },
        ],
        public_file_set(),
    );

    let (target, needs_attention) = to_target(
        &reply,
        TargetKind::Library,
        &Vec::new(),
        true,
        &Vec::new(),
    );

    assert_eq!(target.sources, vec!["src/greet.cpp".to_string()]);
    assert_eq!(target.public_headers, vec!["include/greet.hpp".to_string()]);
    assert!(
        needs_attention.is_empty(),
        "a properly file-set-declared public header should not need attention"
    );
}

#[test]
fn to_target_flags_needs_attention_for_plain_header_with_consumer() {
    let reply = library_reply(
        vec![
            TargetSource {
                path: "src/greet.cpp".to_string(),
                file_set_index: None,
                is_generated: false,
            },
            TargetSource {
                path: "src/greet.hpp".to_string(),
                file_set_index: None,
                is_generated: false,
            },
        ],
        vec![],
    );

    let (target, needs_attention) = to_target(
        &reply,
        TargetKind::Library,
        &Vec::new(),
        true,
        &Vec::new(),
    );

    // The plain header stays in srcs, NOT silently promoted to hdrs.
    assert_eq!(
        target.sources,
        vec!["src/greet.cpp".to_string(), "src/greet.hpp".to_string()]
    );
    assert!(target.public_headers.is_empty());

    assert_eq!(needs_attention.len(), 1);
    assert!(needs_attention[0].title.contains("greet"));
}

// The mirror of the test above: the SAME plain header (no FILE_SET, on a
// depended-on library) is classified public and does NOT escalate once
// the project declares it via install(FILES ... TYPE INCLUDE). This is
// the whole point of reading install rules — the two tests differ only
// in whether the install-header set names the header.
#[test]
fn to_target_classifies_install_declared_header_as_public() {
    let reply = library_reply(
        vec![
            TargetSource {
                path: "src/greet.cpp".to_string(),
                file_set_index: None,
                is_generated: false,
            },
            TargetSource {
                path: "greet.h".to_string(),
                file_set_index: None,
                is_generated: false,
            },
        ],
        vec![],
    );
    let installed: Vec<String> = vec!["greet.h".to_string()];

    let (target, needs_attention) = to_target(
        &reply,
        TargetKind::Library,
        &Vec::new(),
        true,
        &installed,
    );

    assert_eq!(
        target.public_headers,
        vec!["greet.h".to_string()],
        "a header the project installs to an include destination is public (hdrs)"
    );
    assert_eq!(target.sources, vec!["src/greet.cpp".to_string()]);
    assert!(
        needs_attention.is_empty(),
        "an install-declared public header resolves the ambiguity, so no escalation: {:?}",
        needs_attention.first().map(|n| &n.title)
    );
}

#[test]
fn cmake_api_is_include_destination_matches_include_dirs_only() {
    assert!(is_include_destination("include"));
    assert!(is_include_destination("include/tinyxml2"));
    // The absolute form CMAKE_INSTALL_FULL_INCLUDEDIR expands to — what
    // json-c installs its public headers to (bzl-fxa.14).
    assert!(is_include_destination("/usr/local/include/json-c"));
    assert!(is_include_destination("/usr/include"));
    assert!(is_include_destination("/opt/thing/include/sub"));
    // Not a header destination — these are where a target install, a
    // pkgconfig file, and cmake package files land.
    assert!(!is_include_destination("lib"));
    assert!(!is_include_destination("lib/pkgconfig"));
    assert!(!is_include_destination("lib/cmake/tinyxml2"));
    assert!(!is_include_destination("share/doc"));
    assert!(!is_include_destination("/usr/local/lib/cmake/json-c"));
    // A build-private include tree nested under lib/lib64/share is not the
    // public install location — only a real include prefix counts.
    assert!(!is_include_destination("lib/include"));
    assert!(!is_include_destination("/usr/local/lib/include"));
    assert!(!is_include_destination("share/include"));
}

#[test]
fn installed_public_headers_collects_only_file_installs_to_include() {
    let dir = DirectoryReply {
        installers: vec![
            // A target install (the .a) — not a header.
            Installer {
                installer_type: "target".to_string(),
                destination: Some("lib".to_string()),
                paths: vec!["libgreet.a".to_string()],
            },
            // A file install to include — the public header. KEEP.
            Installer {
                installer_type: "file".to_string(),
                destination: Some("include".to_string()),
                paths: vec!["greet.h".to_string()],
            },
            // A file install elsewhere (pkgconfig) — not a header.
            Installer {
                installer_type: "file".to_string(),
                destination: Some("lib/pkgconfig".to_string()),
                paths: vec!["greet.pc".to_string()],
            },
        ],
    };
    let headers: HashSet<String> =
        installed_public_headers(std::slice::from_ref(&dir)).into_iter().collect();
    assert_eq!(
        headers,
        ["greet.h".to_string()].into_iter().collect(),
        "only files installed to an include destination are public headers"
    );
}

#[test]
fn to_target_no_needs_attention_when_nothing_depends_on_it() {
    let reply = library_reply(
        vec![
            TargetSource {
                path: "src/greet.cpp".to_string(),
                file_set_index: None,
                is_generated: false,
            },
            TargetSource {
                path: "src/greet.hpp".to_string(),
                file_set_index: None,
                is_generated: false,
            },
        ],
        vec![],
    );

    // is_depended_on = false: nothing in the project links against
    // this library, so there's no consumer that could need a header
    // it isn't exposing — not worth flagging.
    let (_target, needs_attention) = to_target(
        &reply,
        TargetKind::Library,
        &Vec::new(),
        false,
        &Vec::new(),
    );

    assert!(needs_attention.is_empty());
}

#[test]
fn to_target_no_needs_attention_when_no_header_like_sources() {
    // A library with only .cpp sources (no headers at all) and a
    // consumer: nothing to classify, so no gap to flag.
    let reply = library_reply(
        vec![TargetSource {
            path: "src/greet.cpp".to_string(),
            file_set_index: None,
            is_generated: false,
        }],
        vec![],
    );

    let (_target, needs_attention) = to_target(
        &reply,
        TargetKind::Library,
        &Vec::new(),
        true,
        &Vec::new(),
    );

    assert!(needs_attention.is_empty());
}

#[test]
fn to_target_resolves_dependencies_by_id() {
    let translated_names = vec![("greet::@abc123".to_string(), "greet".to_string())];

    let reply = TargetReply {
        name: "hello".to_string(),
        cmake_type: "EXECUTABLE".to_string(),
        sources: vec![TargetSource {
            path: "src/main.cpp".to_string(),
            file_set_index: None,
            is_generated: false,
        }],
        file_sets: vec![],
        dependencies: vec![TargetDependency {
            id: "greet::@abc123".to_string(),
        }],
        artifacts: vec![TargetArtifact {
            path: "hello".to_string(),
        }],
        compile_groups: vec![],
        backtrace: None,
        backtrace_graph: empty_backtrace_graph(),
    };

    let (target, _) = to_target(
        &reply,
        TargetKind::Executable,
        &translated_names,
        false,
        &Vec::new(),
    );
    assert_eq!(target.dependencies, vec!["greet".to_string()]);
}

// An edge to a target that never got a Bazel rule is dropped rather
// than emitted as a dangling label — see `translated_names` in
// `read_codemodel_reply` for why, and
// `unsupported_target_needs_attention` for where the lost edge is
// recorded instead.
#[test]
fn to_target_drops_dependencies_on_untranslated_targets() {
    let reply = TargetReply {
        name: "app".to_string(),
        cmake_type: "EXECUTABLE".to_string(),
        sources: vec![],
        file_sets: vec![],
        dependencies: vec![
            TargetDependency {
                id: "greet::@abc123".to_string(),
            },
            TargetDependency {
                id: "gen_docs::@def456".to_string(),
            },
        ],
        artifacts: vec![],
        compile_groups: vec![],
        backtrace: None,
        backtrace_graph: empty_backtrace_graph(),
    };

    // "gen_docs" is deliberately absent: it is the UTILITY target that
    // was escalated rather than translated.
    let translated_names = vec![("greet::@abc123".to_string(), "greet".to_string())];

    let (target, _) = to_target(
        &reply,
        TargetKind::Executable,
        &translated_names,
        false,
        &Vec::new(),
    );
    assert_eq!(target.dependencies, vec!["greet".to_string()]);
}

// CMake splices an OBJECT_LIBRARY's output into its consumers as a
// generated source, reported as an absolute path into the build
// directory. Emitting that verbatim would put the build machine's
// filesystem layout into the generated BUILD.bazel.
#[test]
fn to_target_excludes_generated_sources_and_escalates() {
    let reply = TargetReply {
        name: "app".to_string(),
        cmake_type: "EXECUTABLE".to_string(),
        sources: vec![
            TargetSource {
                path: "src/main.cpp".to_string(),
                file_set_index: None,
                is_generated: false,
            },
            TargetSource {
                path: "/abs/build/CMakeFiles/obj.dir/src/lib.cpp.o".to_string(),
                file_set_index: None,
                is_generated: true,
            },
        ],
        file_sets: vec![],
        dependencies: vec![],
        artifacts: vec![TargetArtifact {
            path: "app".to_string(),
        }],
        compile_groups: vec![],
        backtrace: None,
        backtrace_graph: empty_backtrace_graph(),
    };

    let (target, needs_attention) = to_target(
        &reply,
        TargetKind::Executable,
        &Vec::new(),
        false,
        &Vec::new(),
    );

    assert_eq!(
        target.sources,
        vec!["src/main.cpp".to_string()],
        "a generated source must never reach srcs"
    );
    assert_eq!(needs_attention.len(), 1);
    assert!(needs_attention[0].title.contains("app"));
    assert!(
        needs_attention[0]
            .gap
            .contains("/abs/build/CMakeFiles/obj.dir/src/lib.cpp.o"),
        "the escalation must name the file that was dropped:\n{}",
        needs_attention[0].gap
    );
}

// Every add_custom_command() output arrives with a phantom "<output>.rule"
// sibling in the File API reply (Ninja/Make build-graph bookkeeping,
// names no file on disk) — see
// docs/lore/cmake-file-api-generated-source-shape.md. It must not read
// to an agent as a second missing generated source.
#[test]
fn to_target_filters_phantom_rule_sibling_out_of_generated_sources() {
    let reply = TargetReply {
        name: "app".to_string(),
        cmake_type: "EXECUTABLE".to_string(),
        sources: vec![
            TargetSource {
                path: "src/main.cpp".to_string(),
                file_set_index: None,
                is_generated: false,
            },
            TargetSource {
                path: "/abs/build/gen.cpp".to_string(),
                file_set_index: None,
                is_generated: true,
            },
            TargetSource {
                path: "/abs/build/gen.cpp.rule".to_string(),
                file_set_index: None,
                is_generated: true,
            },
        ],
        file_sets: vec![],
        dependencies: vec![],
        artifacts: vec![TargetArtifact {
            path: "app".to_string(),
        }],
        compile_groups: vec![],
        backtrace: None,
        backtrace_graph: empty_backtrace_graph(),
    };

    let (_target, needs_attention) = to_target(
        &reply,
        TargetKind::Executable,
        &Vec::new(),
        false,
        &Vec::new(),
    );

    assert_eq!(needs_attention.len(), 1);
    assert!(
        needs_attention[0].gap.contains("/abs/build/gen.cpp")
            && !needs_attention[0].gap.contains("gen.cpp.rule"),
        "escalation must name the real generated file but not its \
         phantom .rule sibling:\n{}",
        needs_attention[0].gap
    );
}

#[test]
fn to_target_no_generated_source_escalation_for_ordinary_sources() {
    let reply = library_reply(
        vec![TargetSource {
            path: "src/greet.cpp".to_string(),
            file_set_index: None,
            is_generated: false,
        }],
        vec![],
    );

    let (_target, needs_attention) = to_target(
        &reply,
        TargetKind::Library,
        &Vec::new(),
        false,
        &Vec::new(),
    );

    assert!(needs_attention.is_empty());
}

fn target_with(sources: Vec<&str>, includes: Vec<&str>) -> Target {
    Target {
        name: "app".to_string(),
        kind: TargetKind::Executable,
        sources: sources.into_iter().map(str::to_string).collect(),
        public_headers: vec![],
        dependencies: vec![],
        includes: includes.into_iter().map(str::to_string).collect(),
        local_defines: vec![],
        artifacts: vec![],
        ..Default::default()
    }
}

// The common case: nothing reaches outside the project, so the module
// root is the project directory and paths are unchanged.
#[test]
fn rebase_keeps_module_at_project_when_nothing_reaches_outside() {
    let mut targets = vec![target_with(vec!["src/main.cpp"], vec!["/deliv/proj/inc"])];

    let (module_root, escalations) = rebase_to_module_root(
        &mut targets,
        "/deliv/proj",
        "/deliv/proj",
        "/deliv/proj/_build",
        &Vec::new(),
    );

    assert_eq!(module_root, "/deliv/proj");
    assert_eq!(targets[0].sources, vec!["src/main.cpp".to_string()]);
    assert_eq!(targets[0].includes, vec!["inc".to_string()]);
    assert!(escalations.is_empty());
}

// A sibling directory that ships with the project: the module widens to
// cover it, every path stays relative, and nothing is escalated —
// the file is reproducible, so there is no gap to report.
#[test]
fn rebase_widens_module_root_to_cover_shipped_sibling_sources() {
    let mut targets = vec![target_with(
        vec!["src/main.cpp", "/deliv/shared/helper.cpp"],
        vec![],
    )];

    let (module_root, escalations) = rebase_to_module_root(
        &mut targets,
        "/deliv/proj",
        "/deliv",
        "/deliv/proj/_build",
        &Vec::new(),
    );

    assert_eq!(module_root, "/deliv");
    assert_eq!(
        targets[0].sources,
        vec![
            "proj/src/main.cpp".to_string(),
            "shared/helper.cpp".to_string()
        ]
    );
    assert!(
        escalations.is_empty(),
        "a file that ships with the project is not a gap: {:?}",
        escalations.iter().map(|e| &e.title).collect::<Vec<_>>()
    );
}

// The cap doing its job: a file outside the deliverable must not drag
// the module root out with it, however far up the tree it sits.
#[test]
fn rebase_refuses_to_widen_past_the_deliverable_root() {
    let mut targets = vec![target_with(
        vec!["src/main.cpp", "/elsewhere/vendor/blob.cpp"],
        vec![],
    )];

    let (module_root, escalations) = rebase_to_module_root(
        &mut targets,
        "/deliv/proj",
        "/deliv/proj",
        "/deliv/proj/_build",
        &Vec::new(),
    );

    assert_eq!(module_root, "/deliv/proj");
    assert_eq!(targets[0].sources, vec!["src/main.cpp".to_string()]);
    assert_eq!(escalations.len(), 1);
    assert!(
        escalations[0].gap.contains("/elsewhere/vendor/blob.cpp"),
        "{}",
        escalations[0].gap
    );
}

// Both directions of the unreachable-source split: a header under the
// build directory (a configure_file output — json-c's json_config.h) gets
// the build-generated-header escalation, while a source under an
// unrelated directory gets the sources-outside-deliverable one. Same
// target, one of each, so the routing itself is under test — not just
// that some escalation fired.
#[test]
fn rebase_routes_build_dir_headers_and_outside_sources_to_different_escalations() {
    // The build dir is OUTSIDE the module root (as it is in practice — the
    // translator configures into a scratch dir separate from the sources),
    // so a header there is genuinely unreachable AND recognizable as a
    // build output.
    let mut targets = vec![target_with(
        vec![
            "src/main.cpp",
            "/build-out/json_config.h",
            "/elsewhere/vendor/blob.cpp",
        ],
        vec![],
    )];

    let (_root, escalations) = rebase_to_module_root(
        &mut targets,
        "/deliv/proj",
        "/deliv/proj",
        "/build-out",
        &Vec::new(),
    );

    let generated = escalations
        .iter()
        .find(|e| e.title.contains("build-generated headers"))
        .expect("a build-dir header must get the build-generated-header escalation");
    assert!(
        generated.gap.contains("json_config.h") && !generated.gap.contains("blob.cpp"),
        "the build-generated escalation names only the build-dir header:\n{}",
        generated.gap
    );

    let outside = escalations
        .iter()
        .find(|e| e.title.contains("sources the module cannot reach"))
        .expect("a non-build-dir outside source must get the sources-outside escalation");
    assert!(
        outside.gap.contains("blob.cpp") && !outside.gap.contains("json_config.h"),
        "the sources-outside escalation names only the outside-deliverable source:\n{}",
        outside.gap
    );
}

// The reconciliation: a build-dir source that a config_header rule
// reproduces (its name is in config_header_outputs) is dropped from
// sources and NOT escalated — it's supplied by the config header's label.
// Otherwise the same header is both escalated here and regenerated,
// which is exactly what json-c exposed.
#[test]
fn rebase_drops_a_reproduced_config_header_source_without_escalating() {
    let mut targets = vec![target_with(
        vec!["src/main.cpp", "/build-out/config.h"],
        vec![],
    )];
    let reproduced: Vec<String> = vec!["config.h".to_string()];

    let (_root, escalations) = rebase_to_module_root(
        &mut targets,
        "/deliv/proj",
        "/deliv/proj",
        "/build-out",
        &reproduced,
    );

    assert_eq!(
        targets[0].sources,
        vec!["src/main.cpp".to_string()],
        "the reproduced config header is dropped from srcs (the config_header label supplies it)"
    );
    assert!(
        escalations.is_empty(),
        "a reproduced config header must not be escalated: {:?}",
        escalations.iter().map(|e| &e.title).collect::<Vec<_>>()
    );
}

// System include dirs land outside the module and have no `includes`
// translation — dropping them is correct, and is not a gap.
#[test]
fn rebase_drops_include_dirs_outside_the_module_without_escalating() {
    let mut targets = vec![target_with(vec!["src/main.cpp"], vec!["/usr/include"])];

    let (_root, escalations) = rebase_to_module_root(
        &mut targets,
        "/deliv/proj",
        "/deliv/proj",
        "/deliv/proj/_build",
        &Vec::new(),
    );

    assert!(targets[0].includes.is_empty());
    assert!(escalations.is_empty());
}

#[test]
fn target_kind_maps_supported_cmake_types() {
    assert_eq!(target_kind("EXECUTABLE"), Some(TargetKind::Executable));
    assert_eq!(target_kind("STATIC_LIBRARY"), Some(TargetKind::Library));
    assert_eq!(target_kind("SHARED_LIBRARY"), Some(TargetKind::Library));
}

// An unmapped type must escalate, never abort the conversion — see
// docs/architecture/cmake-frontend.md. `INTERFACE_LIBRARY` is covered
// defensively only: verified against CMake 3.28 + Ninja, it never
// appears in a codemodel reply at all, so the translator cannot in
// practice escalate one — see that doc's "known hard cases".
#[test]
fn target_kind_rejects_types_with_no_bazel_rule_yet() {
    for cmake_type in [
        "UTILITY",
        "OBJECT_LIBRARY",
        "MODULE_LIBRARY",
        "INTERFACE_LIBRARY",
    ] {
        assert_eq!(
            target_kind(cmake_type),
            None,
            "{cmake_type} should escalate, not translate"
        );
    }
}

fn node(command: Option<usize>, file: Option<usize>) -> BacktraceNode {
    BacktraceNode { command, file }
}

fn greet_capture() -> TargetReply {
    TargetReply {
        name: "greet".to_string(),
        cmake_type: "STATIC_LIBRARY".to_string(),
        sources: vec![
            TargetSource { path: "src/greet.cpp".to_string(), file_set_index: None, is_generated: false },
            TargetSource {
                path: "include/greet.hpp".to_string(),
                file_set_index: Some(0),
                is_generated: false,
            },
        ],
        file_sets: public_file_set(),
        dependencies: vec![],
        artifacts: vec![TargetArtifact { path: "libgreet.a".to_string() }],
        compile_groups: vec![CompileGroup {
            includes: vec![CompileGroupInclude {
                path: "/abs/002-with-library/include".to_string(),
                backtrace: Some(2),
            }],
            defines: vec![],
        }],
        backtrace: Some(1),
        backtrace_graph: BacktraceGraph {
            commands: vec!["add_library".to_string(), "target_sources".to_string()],
            files: vec!["CMakeLists.txt".to_string()],
            nodes: vec![node(None, Some(0)), node(Some(0), Some(0)), node(Some(1), Some(0))],
        },
    }
}

fn hello_capture() -> TargetReply {
    TargetReply {
        name: "hello".to_string(),
        cmake_type: "EXECUTABLE".to_string(),
        sources: vec![TargetSource {
            path: "src/main.cpp".to_string(),
            file_set_index: None,
            is_generated: false,
        }],
        file_sets: vec![],
        dependencies: vec![TargetDependency { id: "greet::@6890427a1f51a3e7e1df".to_string() }],
        artifacts: vec![TargetArtifact { path: "hello".to_string() }],
        compile_groups: vec![CompileGroup {
            includes: vec![CompileGroupInclude {
                path: "/abs/002-with-library/include".to_string(),
                backtrace: Some(2),
            }],
            defines: vec![],
        }],
        backtrace: Some(1),
        backtrace_graph: BacktraceGraph {
            commands: vec!["add_executable".to_string(), "target_link_libraries".to_string()],
            files: vec!["CMakeLists.txt".to_string()],
            nodes: vec![node(None, Some(0)), node(Some(0), Some(0)), node(Some(1), Some(0))],
        },
    }
}

fn docs_capture() -> TargetReply {
    TargetReply {
        name: "docs".to_string(),
        cmake_type: "UTILITY".to_string(),
        sources: vec![],
        file_sets: vec![],
        dependencies: vec![],
        artifacts: vec![],
        compile_groups: vec![],
        backtrace: Some(1),
        backtrace_graph: BacktraceGraph {
            commands: vec!["add_custom_target".to_string()],
            files: vec!["CMakeLists.txt".to_string()],
            nodes: vec![node(None, Some(0)), node(Some(0), Some(0))],
        },
    }
}

fn capture_index(second: (&str, &str)) -> CodemodelIndex {
    CodemodelIndex {
        configurations: vec![CodemodelConfiguration {
            projects: vec!["with_library".to_string()],
            targets: vec![
                CodemodelTargetRef {
                    id: "greet::@6890427a1f51a3e7e1df".to_string(),
                    json_file: "target-greet.json".to_string(),
                },
                CodemodelTargetRef { id: second.0.to_string(), json_file: second.1.to_string() },
            ],
            directories: vec![CodemodelDirectoryRef {
                json_file: "directory-.json".to_string(),
                has_install_rule: false,
            }],
        }],
        source: "/abs/002-with-library".to_string(),
    }
}

fn capture_files() -> Vec<String> {
    vec![
        "/abs/002-with-library/CMakeLists.txt".to_string(),
        "/abs/002-with-library/include/greet.hpp".to_string(),
        "/abs/002-with-library/src/greet.cpp".to_string(),
        "/abs/002-with-library/src/main.cpp".to_string(),
    ]
}

#[test]
fn read_codemodel_reply_wires_real_capture_into_a_build_graph() {
    let index = capture_index(("hello::@6890427a1f51a3e7e1df", "target-hello.json"));
    let replies = vec![greet_capture(), hello_capture()];
    let codemodel = read_codemodel_reply(
        &index,
        &replies,
        &vec![DirectoryReply { installers: vec![] }],
        Some("/usr/share/cmake-3.28"),
        "/abs/002-with-library",
        "/abs/002-with-library/_build",
        &Vec::new(),
        &capture_files(),
    )
    .expect("real File API capture should parse and translate cleanly");

    assert_eq!(codemodel.project_name, "with_library");
    assert!(codemodel.needs_attention.is_empty());
    let names: Vec<&str> = codemodel.targets.iter().map(|t| t.name.as_str()).collect();
    assert_eq!(names, vec!["greet", "hello"]);

    let greet = &codemodel.targets[0];
    assert_eq!(greet.kind, TargetKind::Library);
    assert_eq!(greet.sources, vec!["src/greet.cpp".to_string()]);
    assert_eq!(greet.public_headers, vec!["include/greet.hpp".to_string()]);

    let hello = &codemodel.targets[1];
    assert_eq!(hello.kind, TargetKind::Executable);
    assert_eq!(hello.sources, vec!["src/main.cpp".to_string()]);
    assert_eq!(hello.dependencies, vec!["greet".to_string()]);
}

#[test]
fn read_codemodel_reply_rejects_source_dir_outside_deliverable_root() {
    let index = capture_index(("hello::@6890427a1f51a3e7e1df", "target-hello.json"));
    let replies = vec![greet_capture(), hello_capture()];
    match read_codemodel_reply(
        &index,
        &replies,
        &vec![DirectoryReply { installers: vec![] }],
        Some("/usr/share/cmake-3.28"),
        "/somewhere/else",
        "/somewhere/else/_build",
        &Vec::new(),
        &capture_files(),
    ) {
        Err(CmakeError::SourceDirOutsideDeliverableRoot { .. }) => {}
        Err(e) => panic!("expected SourceDirOutsideDeliverableRoot, got: {}", e.message()),
        Ok(_) => panic!("expected SourceDirOutsideDeliverableRoot, got Ok"),
    }
}

#[test]
fn read_codemodel_reply_aggregates_a_project_authored_inert_utility() {
    let index = capture_index(("docs::@6890427a1f51a3e7e1df", "target-docs.json"));
    let replies = vec![greet_capture(), docs_capture()];
    let codemodel = read_codemodel_reply(
        &index,
        &replies,
        &vec![DirectoryReply { installers: vec![] }],
        Some("/usr/share/cmake-3.28"),
        "/abs/002-with-library",
        "/abs/002-with-library/_build",
        &Vec::new(),
        &capture_files(),
    )
    .expect("codemodel with a project utility target should parse and translate");
    let names: Vec<&str> = codemodel.targets.iter().map(|t| t.name.as_str()).collect();
    assert_eq!(names, vec!["greet"]);
    assert_eq!(codemodel.needs_attention.len(), 1);
    let item = &codemodel.needs_attention[0];
    assert!(item.title.contains("convenience target"), "{}", item.title);
    assert!(item.gap.contains("docs"), "{}", item.gap);
}

#[test]
fn a_codemodel_without_a_project_is_refused() {
    let index = CodemodelIndex { configurations: vec![], source: "/p".to_string() };
    match read_codemodel_reply(
        &index,
        &Vec::new(),
        &Vec::new(),
        None,
        "/p",
        "/p/_build",
        &Vec::new(),
        &Vec::new(),
    ) {
        Err(e) => {
            assert_eq!(e, CmakeError::NoProject);
            assert_eq!(e.message(), "codemodel reply contains no project()");
        }
        Ok(_) => panic!("a reply with no configuration has no project"),
    }
}

fn library_target(name: &str, includes: Vec<String>) -> Target {
    Target { name: name.to_string(), kind: TargetKind::Library, includes, ..Default::default() }
}

#[test]
fn cmake_api_headers_on_a_targets_include_dirs_are_added_to_its_sources() {
    let files: Vec<String> = ["/d/tests/test1.c", "/d/tests/parse_flags.h", "/d/tests/parse_flags.c"]
        .iter()
        .map(|s| s.to_string())
        .collect();
    let mut targets = vec![{
        let mut t = library_target("test1", vec!["/d/tests".to_string()]);
        t.kind = TargetKind::Executable;
        t.sources.push("tests/test1.c".to_string());
        t
    }];
    inject_headers_on_include_dirs(&mut targets, "/d", &files);
    assert_eq!(
        targets[0].sources,
        vec!["tests/test1.c".to_string(), "tests/parse_flags.h".to_string()]
    );
}

#[test]
fn cmake_api_a_header_enumerated_on_a_sibling_target_is_still_injected_here() {
    let files: Vec<String> = ["/d/tests/test1.c", "/d/tests/parse_flags.h"]
        .iter()
        .map(|s| s.to_string())
        .collect();
    let inc_dir = "/d/tests".to_string();
    let mut targets = vec![
        {
            let mut t = library_target("test1", vec![inc_dir.clone()]);
            t.kind = TargetKind::Executable;
            t.sources.push("tests/test1.c".to_string());
            t
        },
        {
            let mut t = library_target("test1Formatted", vec![inc_dir]);
            t.kind = TargetKind::Executable;
            t.sources.push("tests/test1.c".to_string());
            t.sources.push("tests/parse_flags.h".to_string());
            t
        },
    ];
    inject_headers_on_include_dirs(&mut targets, "/d", &files);
    let by_name = |n: &str| targets.iter().find(|t| t.name == n).unwrap().clone();
    assert!(by_name("test1").sources.contains(&"tests/parse_flags.h".to_string()));
    assert_eq!(
        by_name("test1Formatted")
            .sources
            .iter()
            .filter(|s| *s == "tests/parse_flags.h")
            .count(),
        1
    );
}

#[test]
fn cmake_api_an_include_dir_outside_the_source_tree_contributes_nothing() {
    let files: Vec<String> = ["/d/proj/app.c"].iter().map(|s| s.to_string()).collect();
    let mut targets = vec![{
        let mut t = library_target("app", vec!["/d/build".to_string()]);
        t.kind = TargetKind::Executable;
        t.sources.push("app.c".to_string());
        t
    }];
    inject_headers_on_include_dirs(&mut targets, "/d/proj", &files);
    assert_eq!(targets[0].sources, vec!["app.c".to_string()]);
}

#[test]
fn cmake_api_inject_unenumerated_installed_headers_adds_them_to_libraries_on_the_include_path() {
    let src = "/d".to_string();
    let existing: Vec<String> = ["/d/json_pointer.h", "/d/json_object.h"]
        .iter()
        .map(|s| s.to_string())
        .collect();
    let mut targets = vec![
        {
            let mut t = library_target("json-c", vec![src.clone()]);
            t.public_headers.push("json_object.h".to_string());
            t.sources.push("json_object.c".to_string());
            t
        },
        library_target("json-c-static", vec![src.clone()]),
        library_target("elsewhere", vec!["/other/include".to_string()]),
        {
            let mut t = library_target("app", vec![src.clone()]);
            t.kind = TargetKind::Executable;
            t
        },
    ];
    let installed = vec!["json_pointer.h".to_string(), "json_object.h".to_string()];
    inject_unenumerated_installed_headers(&mut targets, &installed, &src, &existing);
    let by_name = |n: &str| targets.iter().find(|t| t.name == n).unwrap().clone();
    assert_eq!(
        by_name("json-c").public_headers,
        vec!["json_object.h".to_string(), "json_pointer.h".to_string()]
    );
    assert_eq!(by_name("json-c-static").public_headers, vec!["json_pointer.h".to_string()]);
    assert!(by_name("elsewhere").public_headers.is_empty());
    assert!(by_name("app").public_headers.is_empty());
}

#[test]
fn cmake_api_inject_unenumerated_installed_headers_skips_out_of_tree_and_missing() {
    let src = "/d".to_string();
    let mut targets = vec![library_target("lib", vec![src.clone()])];
    let installed = vec!["/some/build/json.h".to_string(), "phantom.h".to_string()];
    inject_unenumerated_installed_headers(&mut targets, &installed, &src, &Vec::new());
    assert!(targets[0].public_headers.is_empty());
}
