use translator::codegen::{
    escape_starlark, is_renderable, module_name, render, render_config_header, render_ground_truth_build_bazel,
    render_needs_attention_build_bazel, RUN_CMAKE_TEST_SH,
};
use translator::model::{BuildGraph, ConfigHeader, ModuleInfo, Target, TargetKind, Test};


// Real values, not invented ones: autoconf compiles xz with
// -DPACKAGE_NAME="xz", and Windows-style paths reach the same attributes.
// Emitted raw, either one closes the Starlark string early and the whole
// module stops parsing — a failure that depends on the project's own
// values, so no fixture without such a value can catch it.
#[test]
fn escape_starlark_escapes_quotes_and_backslashes() {
    assert_eq!(
        escape_starlark(r#"PACKAGE_NAME="xz""#),
        r#"PACKAGE_NAME=\"xz\""#,
        "an unescaped quote closes the string the value sits in"
    );
    assert_eq!(
        escape_starlark(r"C:\path"),
        r"C:\\path",
        "a backslash must be escaped before the quote pass, or the escape \
         it produces is itself re-escaped"
    );
    assert_eq!(
        escape_starlark("plain"),
        "plain",
        "a value needing no escaping must pass through unchanged"
    );
}

// The values dict was the one string-emitting path that skipped escaping.
// The Autotools frontend fills it verbatim from make's variable database,
// where a quote is ordinary content.
#[test]
fn a_config_header_value_containing_a_quote_is_escaped() {
    let mut out = String::new();
    render_config_header(
        &mut out,
        &ConfigHeader {
            output: "config.h".to_string(),
            template: "config.h.in".to_string(),
            template_source: None,
            catalog_probes: vec![],
            values: vec![("PACKAGE_NAME".to_string(), "\"xz\"".to_string())],
            ..Default::default()
        },
    );
    assert!(
        out.contains(r#""PACKAGE_NAME": "\"xz\"""#),
        "the values dict must escape like every other emitted string; got:\n{out}"
    );
}

fn graph(version: Option<&str>) -> BuildGraph {
    BuildGraph {
        module: ModuleInfo {
            name: "hello_world".to_string(),
            version: version.map(str::to_string),
        },
        tests: vec![],
        config_headers: vec![],
        targets: vec![Target {
            name: "hello".to_string(),
            kind: TargetKind::Executable,
            sources: vec!["src/main.cpp".to_string()],
            public_headers: vec![],
            dependencies: vec![],
            includes: vec![],
            local_defines: vec![],
            artifacts: vec!["hello".to_string()],
            ..Default::default()
        }],
        ..Default::default()
    }
}

#[test]
fn renders_build_bazel_with_single_cc_binary() {
    let rendered = render(&graph(None)).build_bazel;
    assert_eq!(
        rendered,
        "load(\"@rules_cc//cc:cc_binary.bzl\", \"cc_binary\")\n\n\
         cc_binary(\n    name = \"hello\",\n    srcs = [\n        \"src/main.cpp\",\n    ],\n    visibility = [\"//visibility:public\"],\n)\n"
    );
}

#[test]
fn renders_cc_library_with_hdrs_and_deps() {
    let graph = BuildGraph {
        module: ModuleInfo {
            name: "lib_example".to_string(),
            version: None,
        },
        tests: vec![],
        config_headers: vec![],
        targets: vec![
            Target {
                name: "greet".to_string(),
                kind: TargetKind::Library,
                sources: vec!["src/greet.cpp".to_string()],
                public_headers: vec!["include/greet.hpp".to_string()],
                dependencies: vec![],
                includes: vec!["include".to_string()],
                local_defines: vec![],
                artifacts: vec!["libgreet.a".to_string()],
                ..Default::default()
            },
            Target {
                name: "hello".to_string(),
                kind: TargetKind::Executable,
                sources: vec!["src/main.cpp".to_string()],
                public_headers: vec![],
                dependencies: vec!["greet".to_string()],
                includes: vec![],
                local_defines: vec![],
                artifacts: vec!["hello".to_string()],
                ..Default::default()
            },
        ],
        ..Default::default()
    };

    let rendered = render(&graph).build_bazel;
    assert!(
        rendered.contains("load(\"@rules_cc//cc:cc_binary.bzl\", \"cc_binary\")"),
        "{rendered}"
    );
    assert!(
        rendered.contains("load(\"@rules_cc//cc:cc_library.bzl\", \"cc_library\")"),
        "{rendered}"
    );
    assert!(
        rendered.contains(
            "cc_library(\n    name = \"greet\",\n    srcs = [\n        \"src/greet.cpp\",\n    ],\n    hdrs = [\n        \"include/greet.hpp\",\n    ],\n    includes = [\n        \"include\",\n    ],\n    visibility = [\"//visibility:public\"],\n)\n"
        ),
        "the whole cc_library block must render exactly, attribute order \
         included — a diff anywhere in it fails here:\n{rendered}"
    );
    assert!(
        rendered.contains(
            "cc_binary(\n    name = \"hello\",\n    srcs = [\n        \"src/main.cpp\",\n    ],\n    deps = [\n        \":greet\",\n    ],\n    visibility = [\"//visibility:public\"],\n)\n"
        ),
        "the whole cc_binary block must render exactly:\n{rendered}"
    );
}

// An executable with its own `target_include_directories()` (and no
// dependencies to inherit include dirs from) — the frontend already
// resolves this correctly (see cmake_api.rs's
// own_include_dirs_excludes_inherited_and_dedupes, which asserts it for
// an EXECUTABLE reply); this is the codegen half of the same path.
// Exercised end to end by tests/fixtures/004-binary-private-include.
#[test]
fn renders_cc_binary_with_own_includes() {
    let graph = BuildGraph {
        module: ModuleInfo {
            name: "binary_private_include".to_string(),
            version: None,
        },
        tests: vec![],
        config_headers: vec![],
        targets: vec![Target {
            name: "app".to_string(),
            kind: TargetKind::Executable,
            sources: vec!["src/main.cpp".to_string(), "inc/cfg.hpp".to_string()],
            public_headers: vec![],
            dependencies: vec![],
            includes: vec!["inc".to_string()],
            local_defines: vec![],
            artifacts: vec!["app".to_string()],
            ..Default::default()
        }],
        ..Default::default()
    };

    let rendered = render(&graph).build_bazel;
    assert!(
        rendered.contains(
            "cc_binary(\n    name = \"app\",\n    srcs = [\n        \"src/main.cpp\",\n        \"inc/cfg.hpp\",\n    ],\n    includes = [\n        \"inc\",\n    ],\n    visibility = [\"//visibility:public\"],\n)\n"
        ),
        "cc_binary dropped its own include dirs:\n{rendered}"
    );
}

// Structural guard: a target's own include dirs must survive codegen for
// EVERY target kind, not just the ones a test happens to cover. The
// original bug was precisely that `Target.includes` was populated for
// executables and then only ever read by the cc_library renderer, so a
// new TargetKind could silently reintroduce it.
#[test]
fn renders_own_includes_for_every_target_kind() {
    for kind in [TargetKind::Executable, TargetKind::Library] {
        let graph = BuildGraph {
            module: ModuleInfo {
                name: "m".to_string(),
                version: None,
            },
            tests: vec![],
            config_headers: vec![],
            targets: vec![Target {
                name: "t".to_string(),
                kind: kind.clone(),
                sources: vec!["src/t.cpp".to_string()],
                public_headers: vec![],
                dependencies: vec![],
                includes: vec!["inc".to_string()],
                local_defines: vec![],
                artifacts: vec![],
                ..Default::default()
            }],
            ..Default::default()
        };

        let rendered = render(&graph).build_bazel;
        assert!(
            rendered.contains("    includes = [\n        \"inc\",\n    ],\n"),
            "{kind:?} dropped its own include dirs:\n{rendered}"
        );
    }
}

// Compile definitions render as `local_defines` (Layer A), for every
// target kind, and — crucially — a `NAME=VALUE` define is emitted
// verbatim via render_string_list, NOT render_path_list: a define is not
// a path, so the module-relative assert has no business seeing it. The
// assert wouldn't even catch a bad one reliably — `MAX_LEN=64` passes it
// (not absolute, no `..`), while a define whose value is an absolute path
// would trip it and panic. See Target::local_defines and
// docs/lore/cmake-file-api-compile-definitions-shape.md. Exercised end
// to end by tests/fixtures/009-compile-definitions.
#[test]
fn renders_local_defines_for_every_target_kind() {
    for kind in [TargetKind::Executable, TargetKind::Library] {
        let rendered = render(&graph_with(kind.clone(), |t| {
            t.local_defines = vec!["FEATURE_ON".to_string(), "MAX_LEN=64".to_string()]
        }))
        .build_bazel;
        assert!(
            rendered.contains(
                "    local_defines = [\n        \"FEATURE_ON\",\n        \"MAX_LEN=64\",\n    ],\n"
            ),
            "{kind:?} did not render its compile definitions as local_defines:\n{rendered}"
        );
    }
}

// The negative half: a target with no defines emits no `local_defines`
// attribute at all — same empty-list-is-omitted contract every other
// optional attribute follows via render_string_list, so a define-less
// target's output is byte-identical to before this capability existed.
#[test]
fn renders_no_local_defines_attribute_when_empty() {
    let rendered = render(&graph(None)).build_bazel;
    assert!(
        !rendered.contains("local_defines"),
        "a target with no compile definitions must not emit a local_defines attribute:\n{rendered}"
    );
}

// `cc_binary` and `cc_library` share one renderer, so the one attribute
// that is NOT shared needs pinning: `cc_binary` has no `hdrs` attribute
// and Bazel fails analysis on an unknown one. CMake will happily accept
// `target_sources(<exe> PUBLIC FILE_SET ... TYPE HEADERS ...)`, so a
// populated `public_headers` on an executable is reachable input, not a
// hypothetical.
#[test]
fn cc_binary_never_renders_hdrs() {
    let rendered = render(&graph_with(TargetKind::Executable, |t| {
        t.public_headers = vec!["include/api.hpp".to_string()]
    }))
    .build_bazel;

    assert!(rendered.contains("cc_binary("), "{rendered}");
    assert!(
        !rendered.contains("hdrs"),
        "cc_binary has no hdrs attribute; Bazel rejects it:\n{rendered}"
    );
}

fn graph_with_test(test: Test) -> BuildGraph {
    BuildGraph {
        module: ModuleInfo {
            name: "m".to_string(),
            version: None,
        },
        targets: vec![Target {
            name: "xmltest".to_string(),
            kind: TargetKind::Executable,
            sources: vec!["src/xmltest.cpp".to_string()],
            public_headers: vec![],
            dependencies: vec![],
            includes: vec![],
            local_defines: vec![],
            artifacts: vec!["xmltest".to_string()],
            ..Default::default()
        }],
        tests: vec![test],
        config_headers: vec![],
        ..Default::default()
    }
}

// bzl-fxa.20: Test::command says "only the escalation path reads
// it", which is a claim about codegen, so codegen is where it is checked.
// The command is an absolute path on the conversion machine before
// rebasing and a source-tree path after — neither is a Bazel label, so
// rendering it would emit something unresolvable.
#[test]
fn the_test_command_never_reaches_the_generated_build_file() {
    let graph = graph_with_test(Test {
        name: "xmltest".to_string(),
        target: "xmltest".to_string(),
        command: "tests/run-xmltest.sh".to_string(),
        working_directory: String::new(),
        pass_regex: None,
    });
    let generated = render(&graph);

    assert!(
        !generated.build_bazel.contains("run-xmltest.sh"),
        "the CTest command is escalation evidence, not codegen input; \
         emitting it would put a non-label path in a rule:\n{}",
        generated.build_bazel
    );
}

// A CTest test's name need not match the binary it runs. Every other test
// here uses tinyxml2's shape, where they are both "xmltest" — which
// collapses the two identifiers and hid a real bug in
// validation_workspace.bzl, whose dedup recovered the binary by stripping
// `_test` off the test name and so silently got the TEST name back.
#[test]
fn a_test_named_differently_from_its_binary_still_names_the_binary_in_args() {
    let graph = graph_with_test(Test {
        name: "app_test".to_string(),
        target: "xmltest".to_string(),
        command: "/abs/build/xmltest".to_string(),
        working_directory: String::new(),
        pass_regex: None,
    });
    let generated = render(&graph);

    assert!(
        generated.build_bazel.contains("name = \"app_test_test\""),
        "the rule is named after the CTest test:\n{}",
        generated.build_bazel
    );
    // Scoped to the args block: the graph also emits cc_binary(name =
    // "xmltest"), so a bare `contains("xmltest")` over the whole file is
    // satisfied by that rule and asserts nothing about the args.
    let args_block = generated
        .build_bazel
        .split("args = [")
        .nth(1)
        .and_then(|rest| rest.split(']').next())
        .expect("the sh_test must render an args list");
    assert!(
        args_block.contains("\"xmltest\","),
        "the first arg is the BINARY, which is the only place the binary \
         name survives — stripping `_test` off the rule name would yield \
         `app_test`, not `xmltest`. args block was:\n{args_block}"
    );
    assert!(
        !args_block.contains("\"app_test\","),
        "and the TEST name must not appear there:\n{args_block}"
    );
}

// A test with no PASS_REGULAR_EXPRESSION renders an empty third arg, and
// Bazel DROPS a trailing empty string when it tokenizes `args` — so the
// wrapper receives argc=2 and must not index $3 bare under `set -u`.
// tinyxml2 declares a pass regex, so this shape went unexercised until
// fixture 022 and every generated sh_test without one aborted before
// running its binary.
#[test]
fn the_test_wrapper_tolerates_a_dropped_trailing_pass_regex() {
    assert!(
        RUN_CMAKE_TEST_SH.contains("pass_regex=\"${3:-}\""),
        "the wrapper must default the pass-regex arg rather than read $3 \
         bare, because Bazel drops the trailing empty arg:\n{RUN_CMAKE_TEST_SH}"
    );
}

#[test]
fn renders_sh_test_and_rules_shell_dep_for_a_registered_test() {
    let graph = graph_with_test(Test {
        name: "xmltest".to_string(),
        target: "xmltest".to_string(),
        command: "/abs/build/xmltest".to_string(),
        working_directory: String::new(),
        pass_regex: Some(", Fail 0".to_string()),
    });
    let generated = render(&graph);

    assert!(
        generated.module_bazel.contains("rules_shell"),
        "a module with a test must depend on rules_shell:\n{}",
        generated.module_bazel
    );
    assert!(
        generated
            .build_bazel
            .contains("load(\"@rules_shell//shell:sh_test.bzl\", \"sh_test\")"),
        "the sh_test rule must be loaded:\n{}",
        generated.build_bazel
    );
    // The test target is suffixed to avoid colliding with the cc_binary
    // of the same name, and the working dir renders as "." (not an empty
    // arg, which Bazel would drop and shift the pass regex into).
    assert!(
        generated.build_bazel.contains("name = \"xmltest_test\""),
        "the test target must be name-suffixed:\n{}",
        generated.build_bazel
    );
    assert!(
        generated
            .build_bazel
            .contains("\"xmltest\",\n         \".\",\n         \", Fail 0\","),
        "args must be [binary, \".\" for module root, pass regex]:\n{}",
        generated.build_bazel
    );
}

// Both directions: a module with NO tests gets neither the rules_shell
// dep nor the sh_test load — a plain library/binary module is unchanged.
#[test]
fn renders_no_test_scaffolding_when_there_are_no_tests() {
    let generated = render(&graph(None));
    assert!(
        !generated.module_bazel.contains("rules_shell"),
        "a test-free module must not depend on rules_shell:\n{}",
        generated.module_bazel
    );
    assert!(
        !generated.build_bazel.contains("sh_test"),
        "a test-free module must not load or emit sh_test:\n{}",
        generated.build_bazel
    );
}

fn graph_with(kind: TargetKind, mutate: impl FnOnce(&mut Target)) -> BuildGraph {
    let mut target = Target {
        name: "t".to_string(),
        kind,
        sources: vec!["src/t.cpp".to_string()],
        public_headers: vec![],
        dependencies: vec![],
        includes: vec![],
        local_defines: vec![],
        artifacts: vec![],
        ..Default::default()
    };
    mutate(&mut target);
    BuildGraph {
        module: ModuleInfo {
            name: "m".to_string(),
            version: None,
        },
        tests: vec![],
        config_headers: vec![],
        targets: vec![target],
        ..Default::default()
    }
}

// One case per path-valued attribute. `includes` is the one Bazel
// would accept silently, which is why codegen has to be what refuses
// it — see model::is_module_relative.






// A relative path can still escape the module root, and unlike an
// absolute path it looks harmless.


// The positive half: nothing in a fully-populated, well-formed graph
// renders as an absolute path. Guards against a future attribute being
// added that bypasses render_path_list.
#[test]
fn well_formed_graph_renders_no_absolute_paths() {
    let graph = BuildGraph {
        module: ModuleInfo {
            name: "m".to_string(),
            version: Some("1.0.0".to_string()),
        },
        tests: vec![],
        config_headers: vec![],
        targets: vec![
            Target {
                name: "lib".to_string(),
                kind: TargetKind::Library,
                sources: vec!["src/lib.cpp".to_string()],
                public_headers: vec!["include/lib.hpp".to_string()],
                dependencies: vec![],
                includes: vec!["include".to_string()],
                local_defines: vec![],
                artifacts: vec!["liblib.a".to_string()],
                ..Default::default()
            },
            Target {
                name: "app".to_string(),
                kind: TargetKind::Executable,
                sources: vec!["src/main.cpp".to_string()],
                public_headers: vec![],
                dependencies: vec!["lib".to_string()],
                includes: vec!["inc".to_string()],
                local_defines: vec![],
                artifacts: vec!["app".to_string()],
                ..Default::default()
            },
        ],
        ..Default::default()
    };

    let rendered = render(&graph);
    for (what, text) in [
        ("BUILD.bazel", &rendered.build_bazel),
        ("MODULE.bazel", &rendered.module_bazel),
    ] {
        for quoted in text.split('"').skip(1).step_by(2) {
            assert!(
                !quoted.starts_with('/') || quoted.starts_with("//"),
                "{what} contains an absolute path: {quoted:?}"
            );
        }
    }
}

// The empty case is the one that matters: the validation tooling
// depends on `@<module>//needs_attention:all` unconditionally, so a
// conversion with nothing to triage still has to produce a package
// whose glob is legal.
#[test]
fn needs_attention_build_bazel_globs_allow_empty() {
    let rendered = render_needs_attention_build_bazel();
    assert!(rendered.contains("name = \"all\""), "{rendered}");
    assert!(rendered.contains("allow_empty = True"), "{rendered}");
    assert!(rendered.contains("\"MANIFEST\""), "{rendered}");
}

#[test]
fn ground_truth_build_bazel_exports_every_artifact() {
    // A root-level executable (name == artifact path): no extra filegroup,
    // because exports_files already provides a `:hello` target and a second
    // one of that name would collide.
    let rendered = render_ground_truth_build_bazel(
        &["hello".to_string(), "libgreet.a".to_string()],
        &[("hello".to_string(), "hello".to_string())],
        &[],
    );
    assert!(
        rendered.contains("exports_files([\"hello\", \"libgreet.a\"])"),
        "{rendered}"
    );
    assert!(
        !rendered.contains("name = \"hello\""),
        "a root-level target needs no filegroup (would collide with exports_files):\n{rendered}"
    );
    // A static-only module still gets the (empty) shared_libs filegroup so
    // the comparison test can depend on it unconditionally.
    assert!(rendered.contains("name = \"shared_libs\""), "{rendered}");
    assert!(rendered.contains("srcs = []"), "{rendered}");
}

#[test]
fn ground_truth_build_bazel_aliases_subdir_executables_by_target_name() {
    // bzl-fxa.13: a target CMake builds under a subdir has artifact path
    // `apps/json_parse` but Bazel target name `json_parse`. The comparison
    // test references `//ground_truth:json_parse`, so a filegroup named
    // after the TARGET must point at the subdir artifact — otherwise the
    // label doesn't resolve.
    let rendered = render_ground_truth_build_bazel(
        &["apps/json_parse".to_string()],
        &[("json_parse".to_string(), "apps/json_parse".to_string())],
        &[],
    );
    assert!(
        rendered.contains(
            "filegroup(\n    name = \"json_parse\",\n    srcs = [\"apps/json_parse\"],"
        ),
        "a subdir executable must be exposed by its target name:\n{rendered}"
    );
}

#[test]
fn ground_truth_build_bazel_groups_shared_libraries() {
    // The staged .so chain is both exported and collected into shared_libs,
    // which the comparison test adds to its runfiles for LD_LIBRARY_PATH.
    let rendered = render_ground_truth_build_bazel(
        &[
            "app".to_string(),
            "libgreet.so".to_string(),
            "libgreet.so.5".to_string(),
            "libgreet.so.5.2.0".to_string(),
        ],
        &[("app".to_string(), "app".to_string())],
        &[
            "libgreet.so".to_string(),
            "libgreet.so.5".to_string(),
            "libgreet.so.5.2.0".to_string(),
        ],
    );
    assert!(
        rendered.contains("srcs = [\"libgreet.so\", \"libgreet.so.5\", \"libgreet.so.5.2.0\"]"),
        "the shared_libs filegroup must list every staged .so name:\n{rendered}"
    );
}

// A fixture whose targets produce no artifacts still gets the package.
#[test]
fn ground_truth_build_bazel_handles_no_artifacts() {
    let rendered = render_ground_truth_build_bazel(&[], &[], &[]);
    assert!(rendered.contains("exports_files([])"), "{rendered}");
    assert!(rendered.contains("name = \"shared_libs\""), "{rendered}");
}

#[test]
fn renders_module_bazel_without_version_when_absent() {
    let rendered = render(&graph(None)).module_bazel;
    let module_block = rendered.split(")\n\n").next().unwrap();
    assert!(module_block.contains("name = \"hello_world\""), "{module_block}");
    assert!(
        !module_block.contains("version ="),
        "a project with no CMAKE_PROJECT_VERSION must omit version entirely:\n{module_block}"
    );
    assert!(rendered.contains("bazel_dep(name = \"rules_cc\""), "{rendered}");
    assert!(rendered.contains("bazel_dep(name = \"llvm\""), "{rendered}");
    assert!(
        rendered.contains("register_toolchains(\"@llvm//toolchain:all\")"),
        "{rendered}"
    );
}

// bzl-2wi.1: Bazel's module-name grammar is stricter than CMake's project
// name. fmt declares project(FMT), and an unnormalized name fails at
// module RESOLUTION in the validation root — taking down every fixture,
// not just the offending one.
#[test]
fn module_name_normalizes_a_cmake_project_name_for_bazel() {
    // The live case.
    assert_eq!(module_name("FMT"), "fmt");
    // Mixed case and characters Bazel allows are preserved lowercased.
    assert_eq!(module_name("TinyXML-2"), "tinyxml-2");
    assert_eq!(module_name("json-c"), "json-c");
    assert_eq!(module_name("My.Lib_1"), "my.lib_1");
    // Anything else becomes an underscore rather than vanishing, so two
    // distinct project names stay distinct.
    assert_eq!(module_name("My Lib++"), "my_lib");
    // Must begin with a lowercase letter: prefixed, not stripped, so
    // `3d` does not collide with `d`.
    assert_eq!(module_name("3D"), "m_3d");
    assert_eq!(module_name("_private"), "m__private");
    // Must end with a letter or digit.
    assert_eq!(module_name("trailing-"), "trailing");
}

#[test]
fn renders_module_bazel_uses_the_normalized_name() {
    let mut g = graph(None);
    g.module.name = "FMT".to_string();
    let rendered = render(&g).module_bazel;
    assert!(
        rendered.contains("name = \"fmt\""),
        "an unnormalized name makes the generated MODULE.bazel unloadable, \
         and the error names this file rather than the CMake project:\n{rendered}"
    );
}

// bzl-2wi.5: a textually-included source cannot go in `srcs` — Bazel
// treats a .cc there as a translation unit, compiling it a second time
// and never staging it for the compile that includes it. It goes in
// `textual_hdrs`, which only cc_library has, hence the companion rule.
#[test]
fn a_textually_included_source_becomes_a_companion_textual_hdrs_library() {
    let mut g = graph(None);
    g.targets = vec![Target {
        name: "impl-test".to_string(),
        kind: TargetKind::Executable,
        sources: vec!["test/impl-test.c".to_string()],
        textual_sources: vec!["src/impl.c".to_string()],
        ..Default::default()
    }];
    let rendered = render(&g).build_bazel;

    assert!(
        rendered.contains(
            "cc_library(\n    name = \"impl-test_textual\",\n    textual_hdrs = [\n        \"src/impl.c\",\n    ],"
        ),
        "the companion library must carry the file in textual_hdrs:\n{rendered}"
    );
    assert!(
        rendered.contains("\":impl-test_textual\""),
        "the target must depend on its companion, or the file is never \
         staged for the compile that includes it:\n{rendered}"
    );
    assert!(
        !rendered.contains("        \"src/impl.c\",\n    ],\n    deps"),
        "the file must NOT also appear in srcs — Bazel would compile it a \
         second time, producing duplicate symbols:\n{rendered}"
    );
    assert!(
        rendered.contains("load(\"@rules_cc//cc:cc_library.bzl\", \"cc_library\")"),
        "a binary-only module still needs the cc_library load once a \
         companion is emitted:\n{rendered}"
    );
}

// bzl-5yv: `outs` kept a header's subdirectory while the copy flattened
// it, so Bazel failed with "declared output ... was not created". zlib hid
// it because its public headers sit at the module root, where the two
// spellings coincide. Also pins the negative bzl-41q found missing: a
// project that never asked for its root on the include path gets nothing.
#[test]
fn staged_headers_keep_their_subdirectory_and_only_fire_when_needed() {
    let staged_target = |root: bool| {
        let mut g = graph(None);
        g.targets = vec![Target {
            name: "lib".to_string(),
            kind: TargetKind::Library,
            needs_root_include: root,
            sources: vec!["lib.c".to_string()],
            public_headers: vec!["proj/api.h".to_string()],
            ..Default::default()
        }];
        render(&g).build_bazel
    };

    let rendered = staged_target(true);
    assert!(
        rendered.contains("\"_include/proj/api.h\","),
        "the staged output must keep the header's directory, or an angled \
         #include <proj/api.h> cannot resolve:\n{rendered}"
    );
    assert!(
        rendered.contains("cp $(location proj/api.h) $(RULEDIR)/_include/proj/api.h"),
        "and the copy must write exactly the path `outs` declares — when \
         they disagree Bazel reports only a missing output, far from the \
         cause:\n{rendered}"
    );

    let without = staged_target(false);
    assert!(
        !without.contains("_staged_hdrs"),
        "a project that never asked for its module root on the include \
         path must not get a staging genrule — the workaround exists only \
         for the case Bazel cannot express:\n{without}"
    );
}

// bzl-0pd: an empty value made `grep -qF -- ""` match any non-empty file,
// so the assertion passed whether or not the substitution ran. Short
// values ("1", "OFF") are unanchored substrings a real header hits by
// accident. Both read as coverage while checking nothing.
#[test]
fn config_header_assertion_omits_values_that_cannot_fail() {
    let mut g = graph(None);
    g.config_headers = vec![ConfigHeader {
        output: "config.h".to_string(),
        template: "config.h.in".to_string(),
        template_source: None,
        catalog_probes: vec![],
        values: vec![
            ("VERSION".to_string(), "3.7.0".to_string()),
            ("EMPTY".to_string(), String::new()),
            ("FLAG".to_string(), "1".to_string()),
            ("OPTION".to_string(), "OFF".to_string()),
        ],
        ..Default::default()
    }];
    let rendered = render(&g).build_bazel;

    assert!(
        rendered.contains("must_contain = [\n        \"3.7.0\",\n    ],"),
        "a distinguishing value is still asserted, and is the only entry:\n{rendered}"
    );
    // Scoped to must_contain: the same literals legitimately appear
    // elsewhere (must_not_contain carries every @NAME@).
    let must_contain = rendered
        .split("must_contain = [")
        .nth(1)
        .and_then(|rest| rest.split("],").next())
        .expect("the assertion must render a must_contain list");
    for vacuous in ["\"\"", "\"1\"", "\"OFF\""] {
        assert!(
            !must_contain.contains(vacuous),
            "{vacuous} cannot fail a grep -qF against a real header, so \
             emitting it reads as coverage while checking nothing:\n\
             must_contain = [{must_contain}]"
        );
    }
    // The placeholder check is what actually proves substitution ran, and
    // it must still cover every value including the omitted ones.
    for name in ["@VERSION@", "@EMPTY@", "@FLAG@", "@OPTION@"] {
        assert!(
            rendered.contains(name),
            "{name} must stay in must_not_contain — a surviving placeholder \
             proves the substitution did not run, whatever the value:\n{rendered}"
        );
    }
}

// bzl-i4i.1: linkage is not a different Bazel rule — both forms are a
// cc_library — so a shared library silently converting to static builds
// fine and produces identical output. Both directions are pinned here
// because the runtime comparison provably cannot see the difference.
#[test]
fn a_shared_library_gets_a_cc_shared_library_and_its_consumer_gets_dynamic_deps() {
    let mut g = graph(None);
    g.targets = vec![
        Target {
            name: "greet_shared".to_string(),
            kind: TargetKind::Library,
            is_shared: true,
            sources: vec!["lib/greet.c".to_string()],
            ..Default::default()
        },
        Target {
            name: "greet_static".to_string(),
            kind: TargetKind::Library,
            sources: vec!["lib/greet.c".to_string()],
            ..Default::default()
        },
        Target {
            name: "app_shared".to_string(),
            kind: TargetKind::Executable,
            sources: vec!["app/main.c".to_string()],
            dependencies: vec!["greet_shared".to_string()],
            ..Default::default()
        },
        Target {
            name: "app_static".to_string(),
            kind: TargetKind::Executable,
            sources: vec!["app/main.c".to_string()],
            dependencies: vec!["greet_static".to_string()],
            ..Default::default()
        },
    ];
    let rendered = render(&g).build_bazel;

    assert!(
        rendered.contains("cc_shared_library(\n    name = \"greet_shared_shared\","),
        "a SHARED library needs a cc_shared_library wrapping it:\n{rendered}"
    );
    assert!(
        rendered.contains("load(\"@rules_cc//cc:cc_shared_library.bzl\", \"cc_shared_library\")"),
        "and its load:\n{rendered}"
    );
    assert!(
        !rendered.contains("name = \"greet_static_shared\""),
        "a STATIC library must NOT get one:\n{rendered}"
    );
    assert!(
        rendered.contains("dynamic_deps = [\n        \":greet_shared_shared\",\n    ],"),
        "the consumer of the shared library needs the dynamic_deps edge, \
         or Bazel absorbs the library statically:\n{rendered}"
    );
    // deps AND dynamic_deps, not one or the other: cc_shared_library
    // provides CcSharedLibraryInfo and not CcInfo, so dropping deps loses
    // the headers and is an analysis error.
    assert!(
        rendered.contains("\":greet_shared\","),
        "the consumer must ALSO keep its deps edge for CcInfo:\n{rendered}"
    );
    let static_consumer = rendered
        .split("name = \"app_static\"")
        .nth(1)
        .expect("app_static must render");
    assert!(
        !static_consumer.contains("dynamic_deps"),
        "a consumer of a STATIC library must not get dynamic_deps:\n{rendered}"
    );

    // bzl-41q: a LIBRARY depending on a shared library must not get
    // dynamic_deps either — cc_library has no such attribute and Bazel
    // rejects it as a hard analysis error. The check above cannot catch
    // that: app_static is an executable, so the Executable guard is not
    // what suppresses it there.
    let mut with_lib = g.clone();
    with_lib.targets.push(Target {
        name: "midlib".to_string(),
        kind: TargetKind::Library,
        sources: vec!["mid.c".to_string()],
        dependencies: vec!["greet_shared".to_string()],
        ..Default::default()
    });
    let rendered = render(&with_lib).build_bazel;
    let midlib = rendered
        .split("name = \"midlib\"")
        .nth(1)
        .expect("midlib must render");
    assert!(
        !midlib.contains("dynamic_deps"),
        "cc_library has no dynamic_deps attribute — emitting it fails \
         analysis outright:\n{rendered}"
    );
}

// bzl-fxa.22: nothing checked a generated config header's CONTENT. The
// runtime comparison sees only stdout, and zlib's `#if HAVE_UNISTD_H-0`
// treats a missing macro as 0 — so a wrong header runs and is wrong.
#[test]
fn a_config_header_gets_an_assertion_that_cannot_bake_in_host_answers() {
    let mut g = graph(None);
    g.config_headers = vec![ConfigHeader {
        output: "config.h".to_string(),
        template: "config.h.in".to_string(),
        template_source: None,
        catalog_probes: vec!["@cc_config//catalog:have_unistd_h".to_string()],
        values: vec![("PROJECT_VERSION".to_string(), "3.7.0".to_string())],
        ..Default::default()
    }];
    let rendered = render(&g).build_bazel;

    assert!(
        rendered.contains("assert_config_header_test(\n    name = \"config_h_test\","),
        "every config_header needs a companion assertion:\n{rendered}"
    );
    assert!(
        rendered.contains("\"assert_config_header_test\", \"config_header\""),
        "and the load must bring both rules in:\n{rendered}"
    );
    // A surviving directive means the expansion never ran.
    assert!(
        rendered.contains("\"#cmakedefine\""),
        "must assert no #cmakedefine survives:\n{rendered}"
    );
    assert!(
        rendered.contains("\"@PROJECT_VERSION@\""),
        "must assert the substitution actually happened:\n{rendered}"
    );
    assert!(
        rendered.contains("must_contain = [\n        \"3.7.0\",\n    ],"),
        "cache-derived values are toolchain-independent, so their presence \
         is safe to assert:\n{rendered}"
    );
    // The whole point of probing is that this differs per consumer.
    // Asserting it would recreate the bug cc_config exists to prevent.
    assert!(
        !rendered.contains("HAVE_UNISTD_H 1") && !rendered.contains("have_unistd_h 1"),
        "must NOT assert a probe's resolved value — that is a fact about \
         the consumer's toolchain, not about this project:\n{rendered}"
    );
}

#[test]
fn renders_module_bazel_with_version_when_present() {
    let rendered = render(&graph(Some("1.2.3"))).module_bazel;
    assert!(rendered.contains("version = \"1.2.3\""), "{rendered}");
}

#[test]
fn a_graph_with_an_absolute_or_escaping_path_is_not_renderable() {
    assert!(is_renderable(&graph_with(TargetKind::Executable, |_| {})));
    assert!(!is_renderable(&graph_with(TargetKind::Executable, |t| {
        t.sources = vec!["/abs/build/generated.cpp".to_string()]
    })));
    assert!(!is_renderable(&graph_with(TargetKind::Library, |t| {
        t.public_headers = vec!["/abs/include/greet.hpp".to_string()]
    })));
    assert!(!is_renderable(&graph_with(TargetKind::Library, |t| t.includes = vec!["/abs/include".to_string()])));
    assert!(!is_renderable(&graph_with(TargetKind::Executable, |t| {
        t.sources = vec!["../outside/x.cpp".to_string()]
    })));
}

#[test]
fn an_escaped_value_reads_back_as_itself() {
    let value = "PACKAGE_STRING=\"greeter 1.0\" C:\\path";
    let escaped = escape_starlark(value);
    assert_eq!(escaped, "PACKAGE_STRING=\\\"greeter 1.0\\\" C:\\\\path");
    let mut read = String::new();
    let mut chars = escaped.chars();
    while let Some(c) = chars.next() {
        if c == '\\' {
            read.push(chars.next().unwrap());
        } else {
            read.push(c);
        }
    }
    assert_eq!(read, value);
}

#[test]
fn every_project_name_becomes_a_valid_module_name() {
    for (project, expected) in [("JSON-C", "json-c"), ("1lib", "m_1lib"), ("Foo Bar!", "foo_bar"), ("", "m"), ("__", "m")] {
        let name = module_name(project);
        assert_eq!(name, expected, "{project:?}");
        assert!(name.chars().next().unwrap().is_ascii_lowercase());
        assert!(name.chars().last().unwrap().is_ascii_alphanumeric());
    }
}
