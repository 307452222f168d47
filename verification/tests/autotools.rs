use std::collections::HashMap;

use translator::autotools::{
    canonical_name, classify_tests, classify_tests_per_directory, declared_targets_in,
    intersect_traced_with_selected, parse_commands, parse_configure_flags, parse_replacement_headers,
    parse_traced_defines, rebase_splices, DeclaredTarget, TestEntry, VariableDatabase,
};

/// A database with no directory announcements: one scope, the root's.
fn single_scope(database: &str) -> Vec<(String, String)> {
    let db = VariableDatabase::parse(database, "/b");
    assert_eq!(db.scope_count(), 1, "single_scope is for a database without directory announcements");
    db.root().clone()
}

fn parsed(database: &str) -> VariableDatabase {
    VariableDatabase::parse(database, "/b")
}

fn get<'a>(vars: &'a [(String, String)], name: &str) -> Option<&'a str> {
    vars.iter().rev().find(|(n, _)| n == name).map(|(_, v)| v.as_str())
}

const DATABASE: &str = "\
EXEEXT = \n\
VERSION = 1.0\n\
bin_PROGRAMS = greeter$(EXEEXT)\n\
noinst_LIBRARIES = libgreet.a\n\
lib_LTLIBRARIES = libshout.la\n\
include_HEADERS = src/greet.h\n\
greeter_SOURCES = src/main.c\n\
greeter_LDADD = libgreet.a libshout.la\n\
libgreet_a_SOURCES = src/greet.c src/greet.h\n\
libshout_la_SOURCES = src/shout.c\n\
";

#[test]
fn commands_between_entering_and_leaving_run_in_that_directory() {
    const STREAM: &str = "\
make[1]: Entering directory '/src/app'\n\
gcc -I. -I../common -c -o main.o main.c\n\
gcc -c -o util.o ../common/util.c\n\
gcc -o tool main.o util.o\n\
make[1]: Leaving directory '/src/app'\n\
gcc -c -o top.o top.c\n\
";
    let commands = parse_commands(STREAM, "/src");
    assert_eq!(commands.len(), 4);
    assert!(commands[..3].iter().all(|c| c.dir == "/src/app"), "{commands:#?}");
    assert_eq!(commands[3].dir, "/src");
    assert_eq!(commands[0].program, "gcc");
    assert_eq!(commands[0].args, vec!["-I.", "-I../common", "-c", "-o", "main.o", "main.c"]);
}

#[test]
fn libtool_wrappers_and_shell_bookkeeping_are_seen_through() {
    const STREAM: &str = "\
depbase=`echo src/shout.lo | sed 's|[^/]*$|.deps/&|;s|\\.lo$||'`;\\\n\
/bin/bash ./libtool  --tag=CC   --mode=compile gcc -DX=\\\"a\\ b\\\" -I. -c -o src/shout.lo src/shout.c &&\\\n\
mv -f $depbase.Tpo $depbase.Plo\n\
ranlib libgreet.a\n\
ar cru libgreet.a src/greet.o \n\
";
    let commands = parse_commands(STREAM, "/src");
    assert_eq!(commands.len(), 2, "{commands:#?}");
    assert_eq!(commands[0].program, "gcc");
    assert_eq!(commands[0].args[0], "-DX=\"a b\"");
    assert_eq!(commands[1].program, "ar");
    assert_eq!(commands[1].args, vec!["cru", "libgreet.a", "src/greet.o"]);
}

#[test]
fn canonical_name_matches_automakes_variable_naming() {
    assert_eq!(canonical_name("greeter"), "greeter");
    assert_eq!(canonical_name("libshout.la"), "libshout_la");
    assert_eq!(canonical_name("libgreet.a"), "libgreet_a");
    assert_eq!(canonical_name("my-tool"), "my_tool");
}

#[test]
fn tests_naming_check_programs_are_classified_as_binaries() {
    let db = "check_PROGRAMS = test_str_compare$(EXEEXT) test_str_token$(EXEEXT)\n\
         TESTS = $(check_PROGRAMS)\n";
    let vars = single_scope(db);
    assert_eq!(
        classify_tests(&vars),
        vec![
            TestEntry::Binary("test_str_compare".to_string()),
            TestEntry::Binary("test_str_token".to_string()),
        ]
    );
}

#[test]
fn tests_naming_a_script_are_classified_as_scripts() {
    let db = "check_PROGRAMS = test_array$(EXEEXT)\nTESTS = run-suites scripts/format-check\n";
    let vars = single_scope(db);
    assert_eq!(
        classify_tests(&vars),
        vec![
            TestEntry::Script("run-suites".to_string()),
            TestEntry::Script("scripts/format-check".to_string()),
        ]
    );
}

#[test]
fn a_test_name_expands_exeext_the_same_way_a_target_name_does() {
    let db = "EXEEXT = .exe\n\
         check_PROGRAMS = check_one$(EXEEXT)\n\
         TESTS = $(check_PROGRAMS)\n";
    let vars = single_scope(db);
    assert_eq!(classify_tests(&vars), vec![TestEntry::Binary("check_one.exe".to_string())]);
    assert_eq!(
        declared_targets_in("/b", &vars).iter().map(|d| d.name.clone()).collect::<Vec<_>>(),
        vec!["check_one.exe".to_string()]
    );
}

const COLLIDING_EXEEXT: &str = "\
# make[3]: Entering directory '/b/libmicrohttpd-1.0.1/src/microhttpd'\n\
am__EXEEXT_1 = test_md5$(EXEEXT)\n\
# make[4]: Entering directory '/b/libmicrohttpd-1.0.1/src/testcurl'\n\
am__EXEEXT_1 = \n\
check_PROGRAMS = $(am__EXEEXT_1)\n\
TESTS = $(check_PROGRAMS)\n\
# make[2]: Entering directory '/b/libmicrohttpd-1.0.1/doc/examples'\n\
am__EXEEXT_1 = basicauthentication$(EXEEXT)\n\
";

#[test]
fn a_directory_scoped_am_variable_does_not_leak_into_another_directory() {
    let entries =
        classify_tests_per_directory(&VariableDatabase::parse(COLLIDING_EXEEXT, "/b/libmicrohttpd-1.0.1"));
    assert!(entries.is_empty(), "{entries:#?}");
}

#[test]
fn a_directory_that_declares_tests_still_reports_them() {
    const DB: &str = "\
# make[3]: Entering directory '/b/proj/src/microhttpd'\n\
am__EXEEXT_1 = test_md5$(EXEEXT)\n\
check_PROGRAMS = $(am__EXEEXT_1)\n\
TESTS = $(check_PROGRAMS)\n\
# make[2]: Entering directory '/b/proj/doc/examples'\n\
am__EXEEXT_1 = basicauthentication$(EXEEXT)\n\
";
    assert_eq!(
        classify_tests_per_directory(&VariableDatabase::parse(DB, "/b/proj")),
        vec![TestEntry::Binary("test_md5".to_string())]
    );
}

#[test]
fn the_brace_form_of_exeext_expands_too() {
    let db = "EXEEXT = .exe\ncheck_PROGRAMS = tool${EXEEXT}\nTESTS = $(check_PROGRAMS)\n";
    let vars = single_scope(db);
    assert_eq!(classify_tests(&vars), vec![TestEntry::Binary("tool.exe".to_string())]);
}

#[test]
fn a_replacement_header_is_recovered_from_the_generation_recipe() {
    const STREAM: &str = "\
make[1]: Entering directory '/build/gl'\n\
/bin/sed -e 's|@''GUARD_PREFIX''@|GL|g' \\\n\
      -e 's|@''NEXT_STRING_H''@|<string.h>|g' \\\n\
      -e 's/@''GNULIB_STRDUP''@/0/g' \\\n\
      < /src/gl/string.in.h > string.h-t1\n\
mv string.h-t1 string.h\n\
make[1]: Leaving directory '/build/gl'\n\
";
    let found = parse_replacement_headers(STREAM, "/build");
    assert_eq!(found.len(), 1, "one header generated: {found:#?}");
    assert_eq!(found[0].output, "string.h");
    assert_eq!(found[0].template, "/src/gl/string.in.h");
    assert_eq!(found[0].dir, "/build/gl");
    assert_eq!(
        found[0].values,
        vec![
            ("GNULIB_STRDUP".to_string(), "0".to_string()),
            ("GUARD_PREFIX".to_string(), "GL".to_string()),
            ("NEXT_STRING_H".to_string(), "<string.h>".to_string()),
        ]
    );
}

#[test]
fn the_header_is_named_by_the_rename_not_the_redirect() {
    const STREAM: &str = "\
make[1]: Entering directory '/build/gl'\n\
/bin/sed -e 's|@''X''@|1|g' < /src/gl/limits.in.h > limits.h-t1\n\
mv limits.h-t1 limits.h\n\
make[1]: Leaving directory '/build/gl'\n\
";
    let found = parse_replacement_headers(STREAM, "/build");
    assert_eq!(found.len(), 1, "{found:#?}");
    assert_eq!(found[0].output, "limits.h", "not limits.h-t1");
    assert_eq!(found[0].template, "/src/gl/limits.in.h");
}

#[test]
fn a_template_passed_positionally_is_found_too() {
    const STREAM: &str = "\
make[1]: Entering directory '/build/gl'\n\
  -e 's|@''HAVE_ALLOCA_H''@|1|g' \\\n\
  /src/gl/alloca.in.h > alloca.h-t\n\
mv alloca.h-t alloca.h\n\
make[1]: Leaving directory '/build/gl'\n\
";
    let found = parse_replacement_headers(STREAM, "/build");
    assert_eq!(found.len(), 1, "no `<` redirect, but still a recipe: {found:#?}");
    assert_eq!(found[0].output, "alloca.h");
    assert_eq!(found[0].template, "/src/gl/alloca.in.h");
}

#[test]
fn a_spliced_helper_file_is_recovered_from_the_recipe() {
    const STREAM: &str = "\
make[1]: Entering directory '/build/gl'\n\
/bin/sed -e 's|@''GUARD_PREFIX''@|GL|g' \\\n\
      -e '/definitions of _GL_FUNCDECL_RPL/r ./c++defs.h' \\\n\
      -e '/definition of _GL_ARG_NONNULL/r ./arg-nonnull.h' \\\n\
      < /src/gl/string.in.h > string.h-t1\n\
mv string.h-t1 string.h\n\
make[1]: Leaving directory '/build/gl'\n\
";
    let found = parse_replacement_headers(STREAM, "/build");
    assert_eq!(found.len(), 1, "{found:#?}");
    assert_eq!(
        found[0].splices,
        vec![
            ("definitions of _GL_FUNCDECL_RPL".to_string(), "./c++defs.h".to_string()),
            ("definition of _GL_ARG_NONNULL".to_string(), "./arg-nonnull.h".to_string()),
        ]
    );
}

#[test]
fn splices_keep_recipe_order_and_are_not_deduplicated() {
    const STREAM: &str = "\
make[1]: Entering directory '/build/gl'\n\
/bin/sed -e '/second marker/r ./shared.h' \\\n\
      -e '/first marker/r ./shared.h' \\\n\
      < /src/gl/x.in.h > x.h-t\n\
mv x.h-t x.h\n\
make[1]: Leaving directory '/build/gl'\n\
";
    let found = parse_replacement_headers(STREAM, "/build");
    assert_eq!(
        found[0].splices,
        vec![
            ("second marker".to_string(), "./shared.h".to_string()),
            ("first marker".to_string(), "./shared.h".to_string()),
        ]
    );
}

const TRACE: &str = "SPEC___THREAD|__thread\nTUKLIB_CPUCORES_SCHED_GETAFFINITY|1\nTUKLIB_CPUCORES_CPUSET|1\nTUKLIB_CPUCORES_SYSCTL|1\n_MHD_EXTERN|__declspec(dllexport)\n_MHD_EXTERN|extern\nHAVE_CPUID_H|\n";

#[test]
fn a_branch_this_build_did_not_take_is_not_resolved() {
    let traced = parse_traced_defines(TRACE);
    let selected = vec![
        ("TUKLIB_CPUCORES_SCHED_GETAFFINITY".to_string(), "1".to_string()),
        ("SPEC___THREAD".to_string(), "__thread".to_string()),
    ];
    let resolved: HashMap<String, String> =
        intersect_traced_with_selected(traced, &selected).into_iter().collect();
    assert!(resolved.contains_key("TUKLIB_CPUCORES_SCHED_GETAFFINITY"), "{resolved:#?}");
    assert!(
        !resolved.contains_key("TUKLIB_CPUCORES_CPUSET") && !resolved.contains_key("TUKLIB_CPUCORES_SYSCTL"),
        "{resolved:#?}"
    );
    assert_eq!(resolved.get("SPEC___THREAD").map(String::as_str), Some("__thread"), "{resolved:#?}");
}

#[test]
fn conditional_and_probe_supplied_defines_stay_out_of_the_trace_map() {
    let traced: HashMap<String, String> = parse_traced_defines(TRACE).into_iter().collect();
    assert!(!traced.contains_key("_MHD_EXTERN"), "{traced:#?}");
    assert!(!traced.contains_key("HAVE_CPUID_H"), "{traced:#?}");
}

#[test]
fn the_trace_map_keeps_first_seen_order() {
    let traced = parse_traced_defines(TRACE);
    assert_eq!(
        traced,
        vec![
            ("SPEC___THREAD".to_string(), "__thread".to_string()),
            ("TUKLIB_CPUCORES_SCHED_GETAFFINITY".to_string(), "1".to_string()),
            ("TUKLIB_CPUCORES_CPUSET".to_string(), "1".to_string()),
            ("TUKLIB_CPUCORES_SYSCTL".to_string(), "1".to_string()),
        ]
    );
}

const XZ_HELP: &str = "Optional Features:\n  --disable-option-checking  ignore unrecognized --enable/--with options\n  --disable-FEATURE       do not include FEATURE (same as --enable-FEATURE=no)\n  --enable-FEATURE[=ARG]  include FEATURE [ARG=yes]\n  --enable-encoders=LIST  Comma-separated list of encoders to build.\n  --disable-lzip-decoder  Disable decompression support for .lz files.\n  --enable-threads=METHOD Supported METHODS are `yes', `no', `posix'.\n  --disable-doc           do not install documentation files\nOptional Packages:\n  --with-pic              try to use only PIC objects\n";

#[test]
fn a_valued_flag_is_distinguished_from_a_boolean_one() {
    let flags = parse_configure_flags(XZ_HELP);
    let by_name = |n: &str| flags.iter().find(|f| f.name == n).cloned();
    assert_eq!(by_name("--enable-encoders").map(|f| f.valued), Some(true), "{flags:#?}");
    assert_eq!(by_name("--enable-threads").map(|f| f.valued), Some(true), "{flags:#?}");
    assert_eq!(by_name("--enable-lzip-decoder").map(|f| f.valued), Some(false), "{flags:#?}");
    assert_eq!(by_name("--enable-doc").map(|f| f.valued), Some(false), "{flags:#?}");
}

#[test]
fn the_disable_spelling_is_normalised_to_the_enable_one() {
    let flags = parse_configure_flags(XZ_HELP);
    assert!(flags.iter().any(|f| f.name == "--enable-lzip-decoder"), "{flags:#?}");
    assert!(!flags.iter().any(|f| f.name.starts_with("--disable-")), "{flags:#?}");
}

#[test]
fn autoconfs_own_placeholders_are_not_project_options() {
    let flags = parse_configure_flags(XZ_HELP);
    assert!(!flags.iter().any(|f| f.name.contains("FEATURE") || f.name.contains("PACKAGE")), "{flags:#?}");
    assert!(
        !flags.iter().any(|f| f.name == "--with-pic" || f.name == "--enable-option-checking"),
        "{flags:#?}"
    );
    assert!(flags.iter().any(|f| f.name == "--enable-lzip-decoder"), "{flags:#?}");
}

#[test]
fn a_path_qualified_rename_yields_just_the_filename() {
    const STREAM: &str = "\
make[1]: Entering directory '/build'\n\
/bin/sed -e 's|@''X''@|1|g' < /src/gl/mystring.in.h > gl/mystring.h-t\n\
mv gl/mystring.h-t gl/mystring.h\n\
make[1]: Leaving directory '/build'\n\
";
    let found = parse_replacement_headers(STREAM, "/build");
    assert_eq!(found.len(), 1, "{found:#?}");
    assert_eq!(found[0].output, "mystring.h");
}

#[test]
fn a_recipe_that_writes_with_sed_w_is_found() {
    const STREAM: &str = "\
make[1]: Entering directory '/build/unistring'\n\
sed -e 1h -e '1s,.*,/* GENERATED */,' -e 1G -n -e 'w uniconv.h-t' /src/unistring/uniconv.in.h\n\
mv uniconv.h-t uniconv.h\n\
make[1]: Leaving directory '/build/unistring'\n\
";
    let found = parse_replacement_headers(STREAM, "/build");
    assert_eq!(found.len(), 1, "no `>` in this recipe: {found:#?}");
    assert_eq!(found[0].output, "uniconv.h");
    assert_eq!(found[0].template, "/src/unistring/uniconv.in.h");
}

#[test]
fn a_line_that_only_mentions_a_template_is_not_a_recipe() {
    const STREAM: &str = "\
make[1]: Entering directory '/build/gl'\n\
make: Nothing to be done for '/src/gl/string.in.h'\n\
mv string.h-t string.h\n\
make[1]: Leaving directory '/build/gl'\n\
";
    assert!(parse_replacement_headers(STREAM, "/build").is_empty());
}

#[test]
fn an_absolutely_named_splice_is_rebased_onto_the_module() {
    let rebased = rebase_splices(&[("marker".to_string(), "/src/gl/c++defs.h".to_string())], "gl", "/src");
    assert_eq!(rebased, vec![("marker".to_string(), "gl/c++defs.h".to_string())]);
}

#[test]
fn a_relatively_named_splice_is_joined_onto_the_shadow_dir() {
    let rebased = rebase_splices(&[("marker".to_string(), "./c++defs.h".to_string())], "gl", "/src");
    assert_eq!(rebased, vec![("marker".to_string(), "gl/c++defs.h".to_string())]);
}

#[test]
fn a_splice_outside_the_module_is_dropped() {
    let rebased = rebase_splices(&[("marker".to_string(), "/elsewhere/x.h".to_string())], "gl", "/src");
    assert!(rebased.is_empty());
}

#[test]
fn a_recipe_without_a_splice_has_none() {
    const STREAM: &str = "\
make[1]: Entering directory '/build/gl'\n\
/bin/sed -e 's|@''X''@|1|g' < /src/gl/limits.in.h > limits.h-t\n\
mv limits.h-t limits.h\n\
make[1]: Leaving directory '/build/gl'\n\
";
    let found = parse_replacement_headers(STREAM, "/build");
    assert!(found[0].splices.is_empty(), "{:#?}", found[0]);
}

#[test]
fn a_redirect_without_a_rename_yields_nothing() {
    const STREAM: &str = "\
make[1]: Entering directory '/build/gl'\n\
/bin/sed -e 's|@''X''@|1|g' < /src/gl/limits.in.h > scratch.txt\n\
make[1]: Leaving directory '/build/gl'\n\
";
    assert!(parse_replacement_headers(STREAM, "/build").is_empty());
}

#[test]
fn a_conditional_test_variable_resolves_through_its_indirection() {
    let db = "am__EXEEXT_1 = test_md5$(EXEEXT)\n\
         am__EXEEXT_2 = test_sha1$(EXEEXT) test_sha256$(EXEEXT)\n\
         check_PROGRAMS = test_base$(EXEEXT) $(am__EXEEXT_1) $(am__EXEEXT_2)\n\
         TESTS = $(check_PROGRAMS)\n";
    let vars = single_scope(db);
    assert_eq!(
        classify_tests(&vars),
        vec![
            TestEntry::Binary("test_base".to_string()),
            TestEntry::Binary("test_md5".to_string()),
            TestEntry::Binary("test_sha1".to_string()),
            TestEntry::Binary("test_sha256".to_string()),
        ]
    );
}

#[test]
fn each_directory_resolves_its_conditional_tests_against_its_own_definition() {
    const DB: &str = "\
# make[1]: Entering directory '/b/src/microhttpd'\n\
am__EXEEXT_1 = test_md5$(EXEEXT)\n\
check_PROGRAMS = $(am__EXEEXT_1)\n\
TESTS = $(check_PROGRAMS)\n\
# make[1]: Leaving directory '/b/src/microhttpd'\n\
# make[1]: Entering directory '/b/src/testcurl'\n\
am__EXEEXT_1 = \n\
check_PROGRAMS = $(am__EXEEXT_1)\n\
TESTS = $(check_PROGRAMS)\n\
# make[1]: Leaving directory '/b/src/testcurl'\n\
# make[1]: Entering directory '/b/src/perf'\n\
am__EXEEXT_1 = perf_replies$(EXEEXT)\n\
check_PROGRAMS = $(am__EXEEXT_1)\n\
TESTS = $(check_PROGRAMS)\n\
# make[1]: Leaving directory '/b/src/perf'\n\
";
    assert_eq!(
        classify_tests_per_directory(&parsed(DB)),
        vec![
            TestEntry::Binary("test_md5".to_string()),
            TestEntry::Binary("perf_replies".to_string()),
        ]
    );
}

#[test]
fn a_reference_repeated_by_accumulation_still_expands() {
    let db = "am__EXEEXT_2 = test_a$(EXEEXT)\n\
         check_PROGRAMS = $(am__EXEEXT_2)\n\
         TESTS = $(am__EXEEXT_2) $(am__EXEEXT_2)\n";
    let vars = single_scope(db);
    assert_eq!(classify_tests(&vars), vec![TestEntry::Binary("test_a".to_string())]);
}

#[test]
fn a_self_referential_variable_terminates_as_unresolved() {
    let vars = single_scope("LOOP = $(LOOP)\nTESTS = $(LOOP)\n");
    assert_eq!(classify_tests(&vars), vec![TestEntry::Unresolved("$(LOOP)".to_string())]);
}

#[test]
fn a_tests_entry_that_resolves_to_nothing_is_unresolved_not_guessed() {
    let vars = single_scope("check_PROGRAMS = test_a$(EXEEXT)\nTESTS = $(libgd_tests)\n");
    assert_eq!(classify_tests(&vars), vec![TestEntry::Unresolved("$(libgd_tests)".to_string())]);
}

#[test]
fn tests_declared_in_several_directories_all_survive() {
    const DB: &str = "\
# make[1]: Entering directory '/b/test'\n\
TESTS = run-suites\n\
# make[1]: Leaving directory '/b/test'\n\
TESTS = scripts/format-check\n\
";
    assert_eq!(
        classify_tests_per_directory(&parsed(DB)),
        vec![
            TestEntry::Script("scripts/format-check".to_string()),
            TestEntry::Script("test/run-suites".to_string()),
        ]
    );
}

#[test]
fn a_test_declared_once_is_not_reported_several_times() {
    const DB: &str = "\
# make[1]: Entering directory '/b/test'\n\
TESTS = run-suites\n\
# make[1]: Leaving directory '/b/test'\n\
TESTS = scripts/format-check\n\
# make[1]: Entering directory '/b/test'\n\
TESTS = run-suites\n\
# make[1]: Leaving directory '/b/test'\n\
TESTS = scripts/format-check\n\
";
    assert_eq!(
        classify_tests_per_directory(&parsed(DB)),
        vec![
            TestEntry::Script("scripts/format-check".to_string()),
            TestEntry::Script("test/run-suites".to_string()),
        ]
    );
}

#[test]
fn a_project_with_no_tests_variable_classifies_nothing() {
    let vars = single_scope("check_PROGRAMS = helper$(EXEEXT)\n");
    assert!(classify_tests(&vars).is_empty());
}

#[test]
fn primaries_declared_through_variables_expand() {
    const DATABASE: &str = "\
EXEEXT = \n\
am__append_1 = libevent_pthreads.la\n\
LIBEVENT_LIBS_LA = libevent.la libevent_core.la $(am__append_1) $(am__append_3)\n\
lib_LTLIBRARIES = $(LIBEVENT_LIBS_LA)\n\
am__EXEEXT_3 = sample/hello-world$(EXEEXT) $(am__EXEEXT_2)\n\
am__EXEEXT_4 = $(am__EXEEXT_3)\n\
noinst_PROGRAMS = $(am__EXEEXT_4)\n\
";
    let names: Vec<String> = declared_targets_in("/b", &single_scope(DATABASE))
        .into_iter()
        .map(|d| format!("{}:{}", d.destination, d.name))
        .collect();
    assert_eq!(
        names,
        vec!["lib:libevent.la", "lib:libevent_core.la", "lib:libevent_pthreads.la", "noinst:sample/hello-world"]
    );
}

#[test]
fn each_directory_expands_its_own_primaries() {
    const DATABASE: &str = "\
# make[1]: Entering directory '/b/utils'\n\
am__EXEEXT_2 = hwloc-ps\n\
bin_PROGRAMS = hwloc-calc $(am__EXEEXT_2)\n\
# make[1]: Leaving directory '/b/utils'\n\
# make[1]: Entering directory '/b/tests'\n\
am__EXEEXT_2 = shmem\n\
check_PROGRAMS = hwloc_bitmap $(am__EXEEXT_1) $(am__EXEEXT_2)\n\
TESTS = $(check_PROGRAMS)\n\
# make[1]: Leaving directory '/b/tests'\n\
";
    let names: Vec<String> = parsed(DATABASE)
        .declared_targets()
        .into_iter()
        .map(|d| format!("{}:{}", d.destination, d.name))
        .collect();
    assert_eq!(names, vec!["bin:hwloc-calc", "bin:hwloc-ps", "check:hwloc_bitmap", "check:shmem"]);
    let entries = classify_tests_per_directory(&parsed(DATABASE));
    assert_eq!(
        entries,
        vec![TestEntry::Binary("hwloc_bitmap".to_string()), TestEntry::Binary("shmem".to_string())],
        "{entries:#?}"
    );
    let entries = classify_tests(&single_scope("TESTS = $(MY_SUITE)\n"));
    assert_eq!(entries, vec![TestEntry::Unresolved("$(MY_SUITE)".to_string())]);
}

#[test]
fn a_name_under_two_primaries_is_declared_once_with_the_more_specific_destination() {
    let vars = single_scope(
        "noinst_PROGRAMS = authorization_example\nEXTRA_PROGRAMS = authorization_example demo\ncheck_PROGRAMS = demo\n",
    );
    let names: Vec<String> = declared_targets_in("/b", &vars)
        .iter()
        .map(|d| format!("{}:{}", d.destination, d.name))
        .collect();
    assert_eq!(names, vec!["noinst:authorization_example", "check:demo"]);
}

#[test]
fn declared_targets_recovers_names_destinations_and_primaries() {
    let declared = declared_targets_in("/b", &single_scope(DATABASE));
    assert_eq!(
        declared,
        vec![
            DeclaredTarget {
                name: "greeter".to_string(),
                destination: "bin".to_string(),
                primary: "PROGRAMS".to_string(),
                directory: "/b".to_string(),
            },
            DeclaredTarget {
                name: "libgreet.a".to_string(),
                destination: "noinst".to_string(),
                primary: "LIBRARIES".to_string(),
                directory: "/b".to_string(),
            },
            DeclaredTarget {
                name: "libshout.la".to_string(),
                destination: "lib".to_string(),
                primary: "LTLIBRARIES".to_string(),
                directory: "/b".to_string(),
            },
        ]
    );
}

const RECURSIVE_PRIMARIES: &str = "\
# make[2]: Entering directory '/b/src/liblzma'
lib_LTLIBRARIES = liblzma.la
EXEEXT =
# make[2]: Leaving directory '/b/src/liblzma'
# make[2]: Entering directory '/b/src/xz'
bin_PROGRAMS = xz$(EXEEXT)
EXEEXT =
xz_SOURCES = src/xz/main.c
# make[2]: Leaving directory '/b/src/xz'
# make[2]: Entering directory '/b/src/lzmainfo'
bin_PROGRAMS = lzmainfo$(EXEEXT)
EXEEXT =
lzmainfo_SOURCES = src/lzmainfo/lzmainfo.c
# make[2]: Leaving directory '/b/src/lzmainfo'
bin_PROGRAMS = $(am__EXEEXT_1) $(am__EXEEXT_2)
EXEEXT =
";

#[test]
fn a_primary_defined_in_several_subdirectories_keeps_every_target() {
    let names: Vec<String> = parsed(RECURSIVE_PRIMARIES).declared_targets().into_iter().map(|t| t.name).collect();
    assert_eq!(names, vec!["liblzma.la".to_string(), "lzmainfo".to_string(), "xz".to_string()]);
}

#[test]
fn within_one_scope_the_last_definition_wins_for_every_name() {
    let vars = single_scope("xz_SOURCES = first.c\nxz_SOURCES = second.c\n");
    assert_eq!(get(&vars, "xz_SOURCES"), Some("second.c"));
    let names: Vec<String> =
        parsed("bin_PROGRAMS = a\nbin_PROGRAMS = b\n").declared_targets().into_iter().map(|t| t.name).collect();
    assert_eq!(names, vec!["b".to_string()]);
}

#[test]
fn a_database_printed_after_a_child_returns_belongs_to_the_parent() {
    const DATABASE: &str = "\
# make[1]: Entering directory '/b/utils'\n\
# make[2]: Entering directory '/b/utils/sub'\n\
# Variables\n\
TESTS = child.sh\n\
# make[2]: Leaving directory '/b/utils/sub'\n\
# Variables\n\
TESTS = parent-a.sh parent-b.sh\n\
# make[1]: Leaving directory '/b/utils'\n\
# Variables\n\
TESTS = top.sh\n\
";
    let db = parsed(DATABASE);
    let tests_of = |dir: &str| -> Vec<String> {
        db.scope(dir)
            .and_then(|vars| get(vars, "TESTS"))
            .unwrap_or_default()
            .split_whitespace()
            .map(str::to_string)
            .collect()
    };
    assert_eq!(tests_of("/b/utils/sub"), vec!["child.sh"]);
    assert_eq!(tests_of("/b/utils"), vec!["parent-a.sh", "parent-b.sh"]);
    assert_eq!(tests_of("/b"), vec!["top.sh"], "after every Leaving, the top-level make's own, keyed by the build root");
    assert_eq!(get(db.root(), "TESTS"), Some("top.sh"));

    let entries = classify_tests_per_directory(&parsed(DATABASE));
    let names: Vec<String> = entries
        .iter()
        .map(|e| match e {
            TestEntry::Script(s) | TestEntry::Binary(s) | TestEntry::Unresolved(s) => s.clone(),
        })
        .collect();
    assert_eq!(names, vec!["top.sh", "utils/sub/child.sh", "utils/parent-a.sh", "utils/parent-b.sh"]);
}

#[test]
fn only_compilers_and_archivers_are_commands_and_each_runs_where_make_was() {
    const STREAM: &str = "\
make[1]: Entering directory '/b/lib'\n\
gcc -c -o a.o a.c\n\
ranlib libx.a\n\
echo done\n\
make[1]: Leaving directory '/b/lib'\n\
ar cru liby.a y.o\n\
";
    let commands = parse_commands(STREAM, "/b");
    let shape: Vec<(&str, &str)> = commands.iter().map(|c| (c.program.as_str(), c.dir.as_str())).collect();
    assert_eq!(shape, vec![("gcc", "/b/lib"), ("ar", "/b")]);
}
