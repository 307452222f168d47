use translator::configure_file::{
    build_config_headers, cache_value, parse_configure_files, parse_template_macros,
    resolve_config_header, ConfigureFile, TemplateMacros,
};


// Real `cmake --trace-expand` lines, captured verbatim from configuring
// json-c (paths shortened). Mixes the project's own configure_file calls
// (templates under /src/...) with CMake's internal ones (templates under
// the CMake installation), exactly as the trace does — see
// docs/lore/cmake-configure-file-is-in-the-trace-not-the-file-api.md.
const CONFIGURE_TRACE: &str = "\
/usr/share/cmake-3.28/Modules/CMakeDetermineSystem.cmake(246):  configure_file(/usr/share/cmake-3.28/Modules/CMakeSystem.cmake.in /build/CMakeFiles/3.28.3/CMakeSystem.cmake @ONLY )
/src/CMakeLists.txt(339):  configure_file(/src/cmake/config.h.in /build/config.h )
/src/CMakeLists.txt(341):  configure_file(/src/cmake/json_config.h.in /build/json_config.h )
/src/CMakeLists.txt(520):  configure_file(/src/json.h.cmakein /build/json.h @ONLY )
/src/CMakeLists.txt(29):  configure_file(config.h.in config.h )
/src/CMakeLists.txt(126):  configure_file(/build/zconf.h.cmakein /build/zconf.h )
/usr/share/cmake-3.28/Modules/CTestTargets.cmake(28):  configure_file(/usr/share/cmake-3.28/Modules/DartConfiguration.tcl.in /build/DartConfiguration.tcl )
";

#[test]
fn parse_configure_files_keeps_only_project_templates() {
    let calls = parse_configure_files(CONFIGURE_TRACE, "/src", "/build");
    assert_eq!(
        calls,
        vec![
            ConfigureFile {
                template: "/src/cmake/config.h.in".to_string(),
                output: "/build/config.h".to_string(),
            },
            ConfigureFile {
                template: "/src/cmake/json_config.h.in".to_string(),
                output: "/build/json_config.h".to_string(),
            },
            ConfigureFile {
                template: "/src/json.h.cmakein".to_string(),
                output: "/build/json.h".to_string(),
            },
            // A RELATIVE template — the common `configure_file(config.h.in
            // config.h)` form — resolved against the calling file's own
            // directory (/src), and output likewise.
            ConfigureFile {
                template: "/src/config.h.in".to_string(),
                output: "/src/config.h".to_string(),
            },
            // A template the project GENERATED into the build directory
            // and then expanded (zlib assembles zconf.h.cmakein). Kept:
            // it is as much the project's own call as a checked-in one,
            // and dropping it here loses the whole config header before
            // any reachability logic downstream gets a say (bzl-41q).
            ConfigureFile {
                template: "/build/zconf.h.cmakein".to_string(),
                output: "/build/zconf.h".to_string(),
            },
        ],
        "project calls are kept (absolute OR relative-to-the-calling-file templates), \
         CMake's internal ones dropped, trailing @ONLY ignored"
    );
}

// The real shapes json-c's templates use: a plain #cmakedefine (a header
// check), a #cmakedefine with a @VAR@ value (project-prefixed), a
// #cmakedefine with a quoted value, the CMake `@@` escape, and a bare
// @VAR@ (pure substitution). The comment holds a literal @COMMENT_VAR@ on
// purpose: configure_file substitutes inside comments too (see
// docs/lore/configure-file-substitutes-inside-comments.md), so the parser
// MUST see it — skipping comments would miss a defined @VAR@ that CMake
// really substitutes, and would silently un-do the bzl-fxa.9 escalation
// for a stray comment @VAR@ (the trap that turned fixture 012 red).
const TEMPLATE: &str = "\
/* comment @COMMENT_VAR@ */
#cmakedefine HAVE_ENDIAN_H
#cmakedefine JSON_C_HAVE_INTTYPES_H @JSON_C_HAVE_INTTYPES_H@
#cmakedefine ENABLE_RDRAND \"@ENABLE_RDRAND@\"
#cmakedefine ENABLE_THREADING \"@@\"
#cmakedefine HAVE_ENDIAN_H
#define VERSION \"@PROJECT_VERSION@\"
";

// bzl-41q: dropping build-dir template support entirely left the suite
// green, so this pins the whole path — the call survives parsing, the
// plan names the STAGED location, and template_source says where to copy
// it from. Without the last one the module ships a config_header whose
// template is not in it.
#[test]
fn a_build_dir_template_is_planned_against_its_staged_copy() {
    let build = "/work/build".to_string();
    let template = format!("{build}/zconf.h.cmakein");

    let calls = vec![ConfigureFile {
        template: template.clone(),
        output: format!("{build}/zconf.h"),
    }];
    let texts = vec![Some("#cmakedefine HAVE_UNISTD_H 1\n".to_string())];
    let (headers, escalations) =
        build_config_headers(&calls, "/work/src", &build, &Vec::new(), &texts);

    assert!(
        escalations.is_empty(),
        "a build-dir template is reachable — the translator stages it — so \
         it must not escalate: {escalations:?}"
    );
    let header = headers.first().expect("the config header must be planned");
    assert_eq!(
        header.template, "zconf.h.cmakein",
        "`template` must name where the file lands INSIDE the module, not \
         where CMake generated it"
    );
    assert_eq!(
        header.template_source.as_deref(),
        Some(template.as_str()),
        "and template_source must say where to copy it from, or the module \
         ships a config_header whose template is absent"
    );
}

#[test]
fn parse_template_macros_collects_defines_and_vars_deduped() {
    let macros = parse_template_macros(TEMPLATE);
    assert_eq!(
        macros.cmakedefines,
        vec![
            "HAVE_ENDIAN_H".to_string(),
            "JSON_C_HAVE_INTTYPES_H".to_string(),
            "ENABLE_RDRAND".to_string(),
            "ENABLE_THREADING".to_string(),
        ],
        "#cmakedefine names, deduped in first-seen order (HAVE_ENDIAN_H appears twice)"
    );
    assert_eq!(
        macros.vars,
        vec![
            // From the comment — parsed on purpose (see the TEMPLATE note).
            "COMMENT_VAR".to_string(),
            "JSON_C_HAVE_INTTYPES_H".to_string(),
            "ENABLE_RDRAND".to_string(),
            "PROJECT_VERSION".to_string(),
        ],
        "@VAR@ names, deduped; comment @VAR@s are included (configure_file \
         substitutes them); the `@@` escape yields no variable"
    );
}

#[test]
fn resolve_config_header_maps_catalog_defines_and_escalates_the_rest() {
    let macros = TemplateMacros {
        cmakedefines: vec![
            "HAVE_ENDIAN_H".to_string(),          // catalog -> label
            "HAVE_STDLIB_H".to_string(),          // catalog -> label (also in cache below)
            "JSON_C_HAVE_INTTYPES_H".to_string(), // prefixed, no exact match -> unmapped
            "ENABLE_RDRAND".to_string(),          // non-catalog, cache-covered option
        ],
        // A catalog fact referenced as a value (`#define SIZEOF_LONG
        // @SIZEOF_LONG@`) — must resolve via the probe, not the host cache.
        vars: vec!["PROJECT_VERSION".to_string(), "SIZEOF_LONG".to_string()],
    };
    let cache: Vec<(String, String)> = [
        ("PROJECT_VERSION".to_string(), "1.2.3".to_string()),
        ("ENABLE_RDRAND".to_string(), "1".to_string()),
        // The host's answers for catalog facts — these must NOT leak into
        // `values` (they'd bake this host's config into the module).
        ("HAVE_STDLIB_H".to_string(), "1".to_string()),
        ("SIZEOF_LONG".to_string(), "8".to_string()),
    ]
    .into_iter()
    .collect();

    let (header, unmapped) =
        resolve_config_header("cmake/config.h.in", "config.h", &macros, &cache);

    assert_eq!(header.output, "config.h");
    assert_eq!(header.template, "cmake/config.h.in");
    assert_eq!(
        header.catalog_probes,
        vec![
            "@cc_config//catalog:have_endian_h".to_string(),
            "@cc_config//catalog:have_stdlib_h".to_string(),
            "@cc_config//catalog:sizeof_long".to_string(),
        ],
        "catalog facts map to labels — including SIZEOF_LONG referenced only as @VAR@"
    );
    assert_eq!(
        unmapped,
        vec!["JSON_C_HAVE_INTTYPES_H".to_string()],
        "a #cmakedefine that is neither a catalog probe nor a cache value is escalated"
    );
    assert_eq!(
        header.values,
        vec![
            ("PROJECT_VERSION".to_string(), "1.2.3".to_string()),
            ("ENABLE_RDRAND".to_string(), "1".to_string()),
        ],
        "only non-catalog names get cache values; HAVE_STDLIB_H and SIZEOF_LONG are catalog \
         facts, so their HOST cache answers must NOT appear here — the probe supplies them"
    );
}

#[test]
fn resolve_config_header_escalates_an_unresolved_plain_var() {
    // bzl-fxa.9: json.h.cmakein gates umbrella includes on a plain @VAR@
    // (@JSON_H_JSON_PATCH@) the project computes itself. If left unresolved
    // it lands LITERAL in the output and breaks every includer, so it must
    // escalate. Both directions in one test: RESOLVED_VAR is in the cache
    // and must NOT escalate (it becomes a value); JSON_H_JSON_PATCH is in
    // neither the catalog nor the cache and MUST escalate.
    let macros = TemplateMacros {
        cmakedefines: vec![],
        vars: vec!["JSON_H_JSON_PATCH".to_string(), "RESOLVED_VAR".to_string()],
    };
    let cache: Vec<(String, String)> = [("RESOLVED_VAR".to_string(), "yes".to_string())]
        .into_iter()
        .collect();

    let (header, unmapped) = resolve_config_header("json.h.cmakein", "json.h", &macros, &cache);

    assert_eq!(
        unmapped,
        vec!["JSON_H_JSON_PATCH".to_string()],
        "an unresolved plain @VAR@ escalates; a cache-resolved one does not"
    );
    assert_eq!(
        header.values,
        vec![("RESOLVED_VAR".to_string(), "yes".to_string())],
        "the resolved @VAR@ becomes a value and is not among the escalated names"
    );
}

#[test]
fn resolve_config_header_escalates_a_define_and_var_of_the_same_name_once() {
    // A `#cmakedefine FOO @FOO@` names FOO in both cmakedefines and vars.
    // When FOO is unresolved it must escalate exactly once, not twice.
    let macros = TemplateMacros {
        cmakedefines: vec!["FOO".to_string()],
        vars: vec!["FOO".to_string()],
    };
    let cache: Vec<(String, String)> = Vec::new();

    let (_header, unmapped) = resolve_config_header("t.h.in", "t.h", &macros, &cache);

    assert_eq!(
        unmapped,
        vec!["FOO".to_string()],
        "a name that is both a #cmakedefine and a @VAR@ is escalated once, not duplicated"
    );
}

#[test]
fn resolve_config_header_passes_false_token_option_values_through_verbatim() {
    // bzl-fxa.8: an option left OFF is a false token in CMake, so its
    // #cmakedefine must undef. The translator deliberately does NOT blank
    // it here — it passes "OFF" through as the value and lets the expander
    // apply CMake truthiness (is_set). Blanking it would be wrong for a
    // bare @VAR@, which CMake substitutes with the literal token ("OFF").
    // So the assertion is: a false-token cache value is neither escalated
    // nor rewritten; it reaches `values` verbatim.
    let macros = TemplateMacros {
        cmakedefines: vec!["ENABLE_RDRAND".to_string()],
        vars: vec![],
    };
    let cache: Vec<(String, String)> = [("ENABLE_RDRAND".to_string(), "OFF".to_string())]
        .into_iter()
        .collect();

    let (header, unmapped) = resolve_config_header("config.h.in", "config.h", &macros, &cache);

    assert!(
        unmapped.is_empty(),
        "a cache-covered option (even OFF) is resolvable, not escalated; got {unmapped:?}"
    );
    assert_eq!(
        header.values,
        vec![("ENABLE_RDRAND".to_string(), "OFF".to_string())],
        "the false token is passed through verbatim; the expander decides truthiness"
    );
}

#[test]
fn cache_value_falls_back_to_cmake_project_version() {
    // project() sets PROJECT_VERSION as a plain variable; the cache records
    // it under CMAKE_PROJECT_VERSION. A template's @PROJECT_VERSION@ must
    // still resolve.
    let cache: Vec<(String, String)> = [
        ("CMAKE_PROJECT_VERSION".to_string(), "3.7.0".to_string()),
        ("CMAKE_PROJECT_VERSION_MAJOR".to_string(), "3".to_string()),
    ]
    .into_iter()
    .collect();

    assert_eq!(
        cache_value("PROJECT_VERSION", &cache).as_deref(),
        Some("3.7.0")
    );
    assert_eq!(
        cache_value("PROJECT_VERSION_MAJOR", &cache).as_deref(),
        Some("3")
    );
    assert_eq!(cache_value("NOT_A_VAR", &cache), None);
}
