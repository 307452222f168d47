use translator::autotools::{
    disabled_spelling, discover, probed_names, record_flag_macros, AutotoolsError, VariableDatabase,
};
use translator::dependencies::Dependencies;

const STREAM: &str = "\
make[1]: Entering directory '/p/lib'\n\
gcc -I. -c -o greet.o greet.c\n\
ar cru libgreet.a greet.o\n\
make[1]: Leaving directory '/p/lib'\n\
gcc -I. -c -o main.o main.c\n\
gcc -o hello main.o lib/libgreet.a\n\
";

const DATABASE: &str = "\
PACKAGE = hello\n\
VERSION = 2.1\n\
bin_PROGRAMS = hello\n\
hello_SOURCES = main.c\n\
# make[1]: Entering directory '/p/lib'\n\
noinst_LIBRARIES = libgreet.a\n\
libgreet_a_SOURCES = greet.c greet.h\n\
# make[1]: Leaving directory '/p/lib'\n\
";

fn run(stream: &str, db: &VariableDatabase, status: &str, texts: &Vec<(String, String)>, deliverable: &str)
    -> Result<translator::cmake_api::Discovery, AutotoolsError> {
    discover(
        stream,
        db,
        "/p",
        deliverable,
        &Dependencies::new(),
        status,
        texts,
        &Vec::new(),
        &Vec::new(),
        &Vec::new(),
        &Vec::new(),
        &Vec::new(),
    )
}

#[test]
fn a_discovery_names_the_project_and_its_targets() {
    let db = VariableDatabase::parse(DATABASE, "/p");
    let d = run(STREAM, &db, "", &Vec::new(), "/p").expect("converts");
    assert_eq!(d.graph.module.name, "hello");
    assert_eq!(d.graph.module.version.as_deref(), Some("2.1"));
    assert_eq!(d.module_root, "/p");
    let names: Vec<&str> = d.graph.targets.iter().map(|t| t.name.as_str()).collect();
    assert_eq!(names, vec!["hello", "libgreet.a"]);
    assert_eq!(d.graph.targets[0].dependencies, vec!["libgreet.a"]);
    assert_eq!(d.graph.targets[1].sources, vec!["lib/greet.c"]);
    assert!(d.needs_attention.is_empty(), "{:#?}", d.needs_attention);
}

#[test]
fn an_empty_stream_is_a_failed_conversion() {
    let db = VariableDatabase::parse(DATABASE, "/p");
    match run("make: Nothing to be done for 'all'.\n", &db, "", &Vec::new(), "/p") {
        Err(AutotoolsError::NoBuildCommands { build_dir }) => assert_eq!(build_dir, "/p"),
        other => panic!("expected NoBuildCommands, got {:?}", other.err()),
    }
}

#[test]
fn a_project_outside_the_deliverable_root_is_refused() {
    let db = VariableDatabase::parse(DATABASE, "/p");
    assert_eq!(
        run(STREAM, &db, "", &Vec::new(), "/elsewhere").err(),
        Some(AutotoolsError::SourceDirOutsideDeliverableRoot {
            source_dir: "/p".to_string(),
            deliverable_root: "/elsewhere".to_string(),
        })
    );
}

#[test]
fn a_stream_that_yields_no_target_is_a_failed_conversion() {
    let db = VariableDatabase::parse("PACKAGE = hello\n", "/p");
    assert_eq!(
        run("gcc -c -o main.o main.c\n", &db, "", &Vec::new(), "/p").err(),
        Some(AutotoolsError::NoTargets { config_headers: 0, tests: 0 })
    );
}

#[test]
fn a_config_header_is_planned_against_the_scope_of_its_directory() {
    let db = VariableDatabase::parse(DATABASE, "/p");
    let status = "config_headers=\" config.h\"\n";
    let texts = vec![("config.h.in".to_string(), "#undef PACKAGE\n#undef MYSTERY\n".to_string())];
    let d = run(STREAM, &db, status, &texts, "/p").expect("converts");
    let outputs: Vec<&str> = d.graph.config_headers.iter().map(|h| h.output.as_str()).collect();
    assert_eq!(outputs, vec!["config.h"]);
    assert_eq!(d.graph.config_headers[0].template, "config.h.in");
    let unmapped: Vec<_> = d.needs_attention.iter().filter(|n| n.kind == "unmapped_config_macros").collect();
    assert_eq!(unmapped.len(), 1, "{:#?}", d.needs_attention);
    assert!(unmapped[0].gap.contains("MYSTERY") && !unmapped[0].gap.contains("PACKAGE"), "{}", unmapped[0].gap);
}

#[test]
fn the_project_name_falls_back_to_package_name_then_project() {
    let db = VariableDatabase::parse(
        "PACKAGE_NAME = Hello World\nbin_PROGRAMS = hello\nhello_SOURCES = main.c\n",
        "/p",
    );
    let stream = "gcc -c -o main.o main.c\ngcc -o hello main.o\n";
    assert_eq!(run(stream, &db, "", &Vec::new(), "/p").unwrap().graph.module.name, "Hello World");
    let db = VariableDatabase::parse("bin_PROGRAMS = hello\nhello_SOURCES = main.c\n", "/p");
    assert_eq!(run(stream, &db, "", &Vec::new(), "/p").unwrap().graph.module.name, "project");
}

#[test]
fn a_file_reads_the_scope_of_its_nearest_directory_with_a_database() {
    let db = VariableDatabase::parse(
        "X = root\n# make[1]: Entering directory '/p/src'\nX = src\n# make[1]: Leaving directory '/p/src'\n",
        "/p",
    );
    let x = |vars: &Vec<(String, String)>| vars.iter().rev().find(|(n, _)| n == "X").map(|(_, v)| v.clone());
    assert_eq!(x(db.scope_for("src/config.h")).as_deref(), Some("src"));
    assert_eq!(x(db.scope_for("src/deep/er/config.h")).as_deref(), Some("src"));
    assert_eq!(x(db.scope_for("include/config.h")).as_deref(), Some("root"));
    assert_eq!(x(db.scope_for("config.h")).as_deref(), Some("root"));
}

#[test]
fn probed_names_come_from_the_cache_lines_of_config_log() {
    let log = "ac_cv_header_poll_h=yes\n  ac_cv_func_poll=yes\nac_cv_type_size_t=yes\n\
               ac_cv_have_decl_strdup=yes\nac_cv_prog_cc=gcc\nHAVE_OTHER=1\n";
    assert_eq!(probed_names(log), vec!["HAVE_POLL_H", "HAVE_POLL", "HAVE_SIZE_T", "HAVE_STRDUP"]);
}

#[test]
fn a_flag_is_turned_off_by_its_negative_spelling() {
    assert_eq!(disabled_spelling("--enable-poll"), "--disable-poll");
    assert_eq!(disabled_spelling("--with-zlib"), "--without-zlib");
    assert_eq!(disabled_spelling("--foo"), "--foo");
}

#[test]
fn a_flag_owns_what_disappears_without_it_unless_a_probe_answered() {
    let baseline = vec![
        ("HAVE_POLL".to_string(), "1".to_string()),
        ("HAVE_POLL_H".to_string(), "1".to_string()),
        ("VERSION".to_string(), "\"1\"".to_string()),
    ];
    let without = vec![("VERSION".to_string(), "\"1\"".to_string())];
    let probed = vec!["HAVE_POLL_H".to_string()];
    let mut owned = Vec::new();
    record_flag_macros(&mut owned, &baseline, &without, &probed, "--enable-poll");
    assert_eq!(owned, vec![("HAVE_POLL".to_string(), "--enable-poll".to_string())]);
    record_flag_macros(&mut owned, &baseline, &without, &Vec::new(), "--enable-other");
    assert_eq!(
        owned,
        vec![
            ("HAVE_POLL".to_string(), "--enable-other".to_string()),
            ("HAVE_POLL_H".to_string(), "--enable-other".to_string()),
        ]
    );
}

#[test]
fn a_source_included_by_another_is_staged_as_textual() {
    let db = VariableDatabase::parse("bin_PROGRAMS = prog\nprog_SOURCES = main.c\n", "/p");
    let stream = "gcc -c -o main.o main.c\ngcc -o prog main.o\n";
    let texts = vec![("/p/main.c".to_string(), "#include \"impl.c\"\n#include \"x.h\"\n".to_string())];
    let d = discover(
        stream,
        &db,
        "/p",
        "/p",
        &Dependencies::new(),
        "",
        &Vec::new(),
        &Vec::new(),
        &Vec::new(),
        &Vec::new(),
        &Vec::new(),
        &texts,
    )
    .expect("converts");
    assert_eq!(d.graph.targets[0].sources, vec!["main.c"]);
    assert_eq!(d.graph.targets[0].textual_sources, vec!["impl.c"]);
}
