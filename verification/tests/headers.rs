use translator::headers::{
    inject_headers_on_include_dirs, inject_opened_files, inject_unenumerated_installed_headers, is_config_header_output,
    is_header_file, is_include_destination, looks_like_header, textually_included_sources,
};
use translator::model::{Target, TargetKind};

fn library_target(name: &str, includes: Vec<String>) -> Target {
    Target {
        name: name.to_string(),
        kind: TargetKind::Library,
        includes,
        ..Default::default()
    }
}

#[test]
fn the_staging_predicate_is_broader_than_the_escalation_predicate() {
    for shared in ["a.h", "a.hpp", "a.hh", "a.hxx"] {
        assert!(
            looks_like_header(shared) && is_header_file(shared),
            "{shared} is a header to both predicates"
        );
    }
    for inclusion in ["a.inc", "a.ipp"] {
        assert!(is_header_file(inclusion), "{inclusion} must stage");
        assert!(!looks_like_header(inclusion), "{inclusion} must not escalate");
    }
    for neither in ["a.c", "a.cpp", "a.txt"] {
        assert!(
            !looks_like_header(neither) && !is_header_file(neither),
            "{neither} is a header to neither predicate"
        );
    }
}

#[test]
fn headers_is_include_destination_matches_include_dirs_only() {
    assert!(is_include_destination("include"));
    assert!(is_include_destination("include/tinyxml2"));
    assert!(is_include_destination("/usr/local/include/json-c"));
    assert!(is_include_destination("/usr/include"));
    assert!(is_include_destination("/opt/thing/include/sub"));
    assert!(!is_include_destination("lib"));
    assert!(!is_include_destination("lib/pkgconfig"));
    assert!(!is_include_destination("lib/cmake/tinyxml2"));
    assert!(!is_include_destination("share/doc"));
    assert!(!is_include_destination("/usr/local/lib/cmake/json-c"));
    assert!(!is_include_destination("lib/include"));
    assert!(!is_include_destination("/usr/local/lib/include"));
    assert!(!is_include_destination("share/include"));
}

#[test]
fn config_header_outputs_are_the_interface_header_extensions() {
    assert!(is_config_header_output("config.h"));
    assert!(is_config_header_output("build/version.hpp"));
    assert!(is_config_header_output("x.hh"));
    assert!(is_config_header_output("x.hxx"));
    assert!(!is_config_header_output("x.inc"));
    assert!(!is_config_header_output("config.h.in"));
    assert!(!is_config_header_output("libfoo.pc"));
}

#[test]
fn a_header_in_a_subdirectory_of_an_include_dir_is_found() {
    let src = "/proj".to_string();
    let files: Vec<String> = [
        "/proj/app.c",
        "/proj/include/top.h",
        "/proj/include/proj/mid.h",
        "/proj/include/proj/detail/deep.h",
        "/proj/include/proj/detail/notes.txt",
    ]
    .iter()
    .map(|s| s.to_string())
    .collect();
    let mut targets = vec![{
        let mut t = library_target("app", vec!["/proj/include".to_string()]);
        t.kind = TargetKind::Executable;
        t.sources.push("app.c".to_string());
        t
    }];
    inject_headers_on_include_dirs(&mut targets, &src, &files);
    assert_eq!(
        targets[0].sources,
        vec![
            "app.c".to_string(),
            "include/proj/detail/deep.h".to_string(),
            "include/proj/mid.h".to_string(),
            "include/top.h".to_string(),
        ]
    );
}

#[test]
fn headers_headers_on_a_targets_include_dirs_are_added_to_its_sources() {
    let files: Vec<String> = ["/d/tests/test1.c", "/d/tests/parse_flags.h", "/d/tests/parse_flags.c"]
        .iter()
        .map(|s| s.to_string())
        .collect();
    let mut targets = vec![{
        let mut t = library_target("test1", vec!["/d/tests".to_string()]);
        t.kind = TargetKind::Executable;
        t.sources.push("tests/test1.c".to_string());
        t
    }];
    inject_headers_on_include_dirs(&mut targets, "/d", &files);
    assert_eq!(
        targets[0].sources,
        vec!["tests/test1.c".to_string(), "tests/parse_flags.h".to_string()]
    );
}

#[test]
fn headers_a_header_enumerated_on_a_sibling_target_is_still_injected_here() {
    let files: Vec<String> = ["/d/tests/test1.c", "/d/tests/parse_flags.h"]
        .iter()
        .map(|s| s.to_string())
        .collect();
    let inc_dir = "/d/tests".to_string();
    let mut targets = vec![
        {
            let mut t = library_target("test1", vec![inc_dir.clone()]);
            t.kind = TargetKind::Executable;
            t.sources.push("tests/test1.c".to_string());
            t
        },
        {
            let mut t = library_target("test1Formatted", vec![inc_dir]);
            t.kind = TargetKind::Executable;
            t.sources.push("tests/test1.c".to_string());
            t.sources.push("tests/parse_flags.h".to_string());
            t
        },
    ];
    inject_headers_on_include_dirs(&mut targets, "/d", &files);
    let by_name = |n: &str| targets.iter().find(|t| t.name == n).unwrap().clone();
    assert!(by_name("test1").sources.contains(&"tests/parse_flags.h".to_string()));
    assert_eq!(
        by_name("test1Formatted")
            .sources
            .iter()
            .filter(|s| *s == "tests/parse_flags.h")
            .count(),
        1
    );
}

#[test]
fn headers_an_include_dir_outside_the_source_tree_contributes_nothing() {
    let files: Vec<String> = ["/d/proj/app.c"].iter().map(|s| s.to_string()).collect();
    let mut targets = vec![{
        let mut t = library_target("app", vec!["/d/build".to_string()]);
        t.kind = TargetKind::Executable;
        t.sources.push("app.c".to_string());
        t
    }];
    inject_headers_on_include_dirs(&mut targets, "/d/proj", &files);
    assert_eq!(targets[0].sources, vec!["app.c".to_string()]);
}

#[test]
fn headers_inject_unenumerated_installed_headers_adds_them_to_libraries_on_the_include_path() {
    let src = "/d".to_string();
    let existing: Vec<String> = ["/d/json_pointer.h", "/d/json_object.h"]
        .iter()
        .map(|s| s.to_string())
        .collect();
    let mut targets = vec![
        {
            let mut t = library_target("json-c", vec![src.clone()]);
            t.public_headers.push("json_object.h".to_string());
            t.sources.push("json_object.c".to_string());
            t
        },
        library_target("json-c-static", vec![src.clone()]),
        library_target("elsewhere", vec!["/other/include".to_string()]),
        {
            let mut t = library_target("app", vec![src.clone()]);
            t.kind = TargetKind::Executable;
            t
        },
    ];
    let installed = vec!["json_pointer.h".to_string(), "json_object.h".to_string()];
    inject_unenumerated_installed_headers(&mut targets, &installed, &src, &existing);
    let by_name = |n: &str| targets.iter().find(|t| t.name == n).unwrap().clone();
    assert_eq!(
        by_name("json-c").public_headers,
        vec!["json_object.h".to_string(), "json_pointer.h".to_string()]
    );
    assert_eq!(by_name("json-c-static").public_headers, vec!["json_pointer.h".to_string()]);
    assert!(by_name("elsewhere").public_headers.is_empty());
    assert!(by_name("app").public_headers.is_empty());
}

#[test]
fn headers_inject_unenumerated_installed_headers_skips_out_of_tree_and_missing() {
    let src = "/d".to_string();
    let mut targets = vec![library_target("lib", vec![src.clone()])];
    let installed = vec!["/some/build/json.h".to_string(), "phantom.h".to_string()];
    inject_unenumerated_installed_headers(&mut targets, &installed, &src, &Vec::new());
    assert!(targets[0].public_headers.is_empty());
}

#[test]
fn files_the_compiler_opened_are_added_headers_to_sources_and_the_rest_as_textual() {
    let mut targets = vec![
        Target {
            name: "posix-mock-test".to_string(),
            sources: vec!["test/posix-mock-test.cc".to_string(), "test/a.h".to_string()],
            public_headers: vec!["include/fmt/os.h".to_string()],
            ..Default::default()
        },
        Target { name: "untouched".to_string(), sources: vec!["x.c".to_string()], ..Default::default() },
    ];
    let opened = vec![(
        "posix-mock-test".to_string(),
        vec![
            "test/z.h".to_string(),
            "src/os.cc".to_string(),
            "test/a.h".to_string(),
            "include/fmt/os.h".to_string(),
            "test/b.h".to_string(),
        ],
    )];
    inject_opened_files(&mut targets, &opened);
    assert_eq!(targets[0].sources, vec!["test/posix-mock-test.cc", "test/a.h", "test/b.h", "test/z.h"]);
    assert_eq!(targets[0].textual_sources, vec!["src/os.cc"]);
    assert_eq!(targets[0].public_headers, vec!["include/fmt/os.h"]);
    assert_eq!(targets[1].sources, vec!["x.c"]);
    assert!(targets[1].textual_sources.is_empty());
}

#[test]
fn only_quoted_includes_of_sources_are_textual() {
    let text = "#include \"helper.c\"\n#  include   \"impl.cc\" // note\n#include <stdio.h>\n#include \"x.h\"\nint main(void);\n";
    assert_eq!(textually_included_sources(text), vec!["helper.c", "impl.cc"]);
}
