use translator::autotools::{parse_commands, target_label, BuildCommand, VariableDatabase};
use translator::autotools_graph::{
    compiled_source, generated_headers_in_build_tree, inject_textual_includes, promote_installed_headers, strip_for, to_graph, to_graph_with_dependencies,
};
use translator::codegen::render;
use translator::dependencies::{Dependencies, Dependency, Library};
use translator::model::{
    is_module_relative, BuildGraph, ConfigDialect, ConfigHeader, ExternalDependency, ModuleDependency, Target, TargetKind,
};
use translator::needs_attention::{generated_headers_needs_attention, NeedsAttention};

const ROOT: &str = "/src";

fn graph(
    commands: &Vec<BuildCommand>,
    db: &VariableDatabase,
    name: &str,
    source_dir: &str,
    deliverable_root: &str,
) -> (BuildGraph, Vec<NeedsAttention>, String) {
    to_graph(commands, db, name, source_dir, deliverable_root, &Vec::new())
}

fn graph_only(result: (BuildGraph, Vec<NeedsAttention>, String)) -> BuildGraph {
    result.0
}

#[test]
fn a_commands_paths_resolve_against_the_directory_it_ran_in() {
    const STREAM: &str = "\
make[1]: Entering directory '/src/app'\n\
gcc -I. -I../common -c -o main.o main.c\n\
gcc -c -o util.o ../common/util.c\n\
gcc -o tool main.o util.o\n\
make[1]: Leaving directory '/src/app'\n\
";
    let commands = parse_commands(STREAM, "/src");
    assert!(commands.iter().all(|c| c.dir == "/src/app"), "{commands:#?}");

    let graph = graph_only(graph(
        &commands,
        &VariableDatabase::parse("bin_PROGRAMS = tool\ntool_SOURCES = main.c ../common/util.c\n", "/src"),
        "sibling",
        "/src",
        "/src",
    ));
    let tool = &graph.targets[0];
    assert_eq!(tool.sources, vec!["app/main.c", "common/util.c"], "{tool:#?}");
    assert_eq!(tool.includes, vec!["app", "common"], "{tool:#?}");
    assert!(!tool.needs_root_include, "{tool:#?}");
    assert_eq!(tool.artifacts, vec!["app/tool"]);
}

#[test]
fn a_source_that_escapes_the_module_is_escalated_not_dropped() {
    const STREAM: &str = "\
make[1]: Entering directory '/src/app'\n\
gcc -c -o main.o main.c\n\
gcc -c -o evil.o ../../outside/evil.c\n\
gcc -o tool main.o evil.o\n\
make[1]: Leaving directory '/src/app'\n\
";
    let (graph, escalations, _) = graph(
        &parse_commands(STREAM, "/src"),
        &VariableDatabase::parse("bin_PROGRAMS = tool\ntool_SOURCES = main.c ../../outside/evil.c\n", "/src"),
        "escaper",
        "/src",
        "/src",
    );
    let tool = &graph.targets[0];
    assert_eq!(tool.sources, vec!["app/main.c"], "{tool:#?}");
    assert_eq!(escalations.len(), 1, "{escalations:#?}");
    assert!(
        escalations[0].gap.contains("outside/evil.c") && escalations[0].title.contains("tool"),
        "{:#?}",
        escalations[0]
    );
    assert!(
        escalations[0].gap.contains("<outside the deliverable>/") || escalations[0].gap.contains(".../"),
        "{}",
        escalations[0].gap
    );
    assert!(!escalations[0].gap.contains("/src/outside/evil.c"), "{}", escalations[0].gap);
}

const ESCAPING_STREAM: &str = "\
make[1]: Entering directory '/deliv/proj/app'\n\
gcc -c -o main.o main.c\n\
gcc -c -o helper.o ../../shared/helper.c\n\
gcc -o tool main.o helper.o\n\
make[1]: Leaving directory '/deliv/proj/app'\n\
";

fn escaping_graph(deliverable_root: &str) -> (BuildGraph, Vec<NeedsAttention>, String) {
    graph(
        &parse_commands(ESCAPING_STREAM, "/deliv/proj"),
        &VariableDatabase::parse("bin_PROGRAMS = tool\ntool_SOURCES = main.c ../../shared/helper.c\n", "/deliv/proj"),
        "widening",
        "/deliv/proj",
        deliverable_root,
    )
}

#[test]
fn the_module_root_widens_to_cover_a_shipped_sibling_source() {
    let (graph, escalations, module_root) = escaping_graph("/deliv");
    assert_eq!(module_root, "/deliv");
    assert_eq!(graph.targets[0].sources, vec!["proj/app/main.c".to_string(), "shared/helper.c".to_string()]);
    assert!(escalations.is_empty(), "{:#?}", escalations.iter().map(|e| &e.title).collect::<Vec<_>>());
}

#[test]
fn an_installed_header_outside_the_project_widens_the_root() {
    const STREAM: &str = "\
make[1]: Entering directory '/deliv/proj'\n\
gcc -c -o main.o main.c\n\
gcc -o tool main.o\n\
make[1]: Leaving directory '/deliv/proj'\n\
";
    let db = "bin_PROGRAMS = tool\n\
             tool_SOURCES = main.c\n\
             include_HEADERS = ../shared/api.h\n";
    let (_, _, module_root) = graph(
        &parse_commands(STREAM, "/deliv/proj"),
        &VariableDatabase::parse(db, "/deliv/proj"),
        "hdr",
        "/deliv/proj",
        "/deliv",
    );
    assert_eq!(module_root, "/deliv");
}

#[test]
fn the_module_root_does_not_widen_past_the_deliverable_root() {
    let (graph, escalations, module_root) = escaping_graph("/deliv/proj");
    assert_eq!(module_root, "/deliv/proj");
    assert_eq!(graph.targets[0].sources, vec!["app/main.c".to_string()]);
    assert_eq!(escalations.len(), 1, "{escalations:#?}");
}

#[test]
fn the_module_root_stays_at_the_project_when_nothing_reaches_outside() {
    const STREAM: &str = "\
make[1]: Entering directory '/deliv/proj'\n\
gcc -c -o main.o src/main.c\n\
gcc -o tool main.o\n\
make[1]: Leaving directory '/deliv/proj'\n\
";
    let (graph, _, module_root) = graph(
        &parse_commands(STREAM, "/deliv/proj"),
        &VariableDatabase::parse("bin_PROGRAMS = tool\ntool_SOURCES = src/main.c\n", "/deliv/proj"),
        "narrow",
        "/deliv/proj",
        "/deliv",
    );
    assert_eq!(module_root, "/deliv/proj");
    assert_eq!(graph.targets[0].sources, vec!["src/main.c".to_string()]);
}

#[test]
fn a_sibling_source_inside_the_module_is_not_escalated() {
    const STREAM: &str = "\
make[1]: Entering directory '/src/app'\n\
gcc -c -o main.o main.c\n\
gcc -c -o util.o ../common/util.c\n\
gcc -o tool main.o util.o\n\
make[1]: Leaving directory '/src/app'\n\
";
    let (_, escalations, _) = graph(
        &parse_commands(STREAM, "/src"),
        &VariableDatabase::parse("bin_PROGRAMS = tool\ntool_SOURCES = main.c ../common/util.c\n", "/src"),
        "sibling",
        "/src",
        "/src",
    );
    assert!(escalations.is_empty(), "{escalations:#?}");
}

#[test]
fn compiled_source_sees_through_automakes_vpath_guard() {
    let args: Vec<String> = [
        "-c",
        "-o",
        "lzmainfo-lzmainfo.o",
        "`test",
        "-f",
        "lzmainfo.c",
        "||",
        "echo",
        "/src/src/lzmainfo/`lzmainfo.c",
    ]
    .iter()
    .map(|s| s.to_string())
    .collect();
    assert_eq!(compiled_source(&args).as_deref(), Some("/src/src/lzmainfo/lzmainfo.c"));
    let plain: Vec<String> = "-c -o main.o main.c".split_whitespace().map(str::to_string).collect();
    assert_eq!(compiled_source(&plain).as_deref(), Some("main.c"));
}

#[test]
fn conditional_sources_are_recovered_from_the_command_stream() {
    const STREAM: &str = "\
make[1]: Entering directory '/src/lib'\n\
gcc -c -o base.o base.c\n\
gcc -c -o extra.o extra.c\n\
gcc -c -o sibling.o ../common/shared.c\n\
ar cru libfoo.a base.o extra.o sibling.o\n\
make[1]: Leaving directory '/src/lib'\n\
";
    let db = "noinst_LIBRARIES = libfoo.a\nlibfoo_a_SOURCES = base.c $(am__append_1)\n";
    let (graph, _, _) = graph(&parse_commands(STREAM, "/src"), &VariableDatabase::parse(db, "/src"), "conditional", "/src", "/src");
    assert_eq!(
        graph.targets[0].sources,
        vec!["common/shared.c".to_string(), "lib/base.c".to_string(), "lib/extra.c".to_string()]
    );
}

#[test]
fn a_fully_expanded_declaration_is_not_second_guessed() {
    const STREAM: &str = "\
make[1]: Entering directory '/src/lib'\n\
gcc -c -o base.o base.c\n\
ar cru libfoo.a base.o\n\
make[1]: Leaving directory '/src/lib'\n\
";
    let (graph, _, _) = graph(
        &parse_commands(STREAM, "/src"),
        &VariableDatabase::parse("noinst_LIBRARIES = libfoo.a\nlibfoo_a_SOURCES = base.c base.h\n", "/src"),
        "expanded",
        "/src",
        "/src",
    );
    assert_eq!(graph.targets[0].sources, vec!["lib/base.c".to_string()]);
}

#[test]
fn a_public_header_declared_in_a_subdirectory_is_rebased_like_its_sources() {
    const STREAM: &str = "\
make[1]: Entering directory '/src/lib'\n\
gcc -c -o greet.o greet.c\n\
ar cru libgreet.a greet.o\n\
make[1]: Leaving directory '/src/lib'\n\
";
    let db = "noinst_LIBRARIES = libgreet.a\n\
             libgreet_a_SOURCES = greet.c greet.h\n\
             include_HEADERS = greet.h\n";
    let (graph, _, _) = graph(&parse_commands(STREAM, "/src"), &VariableDatabase::parse(db, "/src"), "sub", "/src", "/src");
    let t = &graph.targets[0];
    assert_eq!(t.sources, vec!["lib/greet.c".to_string()]);
    assert_eq!(t.public_headers, vec!["lib/greet.h".to_string()], "{t:#?}");
    for path in t.sources.iter().chain(&t.public_headers) {
        assert!(is_module_relative(path), "{path:?}");
    }
}

#[test]
fn an_uppercase_or_cxx_source_is_compiled_not_silently_dropped() {
    const STREAM: &str = "\
make[1]: Entering directory '/src'\n\
gcc -c -o a.o a.C\n\
gcc -c -o b.o b.c++\n\
gcc -c -o c.o c.CPP\n\
ar cru libmix.a a.o b.o c.o\n\
make[1]: Leaving directory '/src'\n\
";
    let db = "noinst_LIBRARIES = libmix.a\nlibmix_a_SOURCES = a.C b.c++ c.CPP README\n";
    let (graph, _, _) = graph(&parse_commands(STREAM, "/src"), &VariableDatabase::parse(db, "/src"), "mixed", "/src", "/src");
    assert_eq!(
        graph.targets[0].sources,
        vec!["a.C".to_string(), "b.c++".to_string(), "c.CPP".to_string()],
        "{:#?}",
        graph.targets[0]
    );
    assert!(
        !graph.targets[0].sources.contains(&"README".to_string())
            && !graph.targets[0].public_headers.contains(&"README".to_string())
    );
}

#[test]
fn dependencies_come_from_the_link_line_not_the_unexpanded_declaration() {
    const DB: &str = "\
bin_PROGRAMS = hello\n\
noinst_LIBRARIES = lib/libhello.a\n\
hello_SOURCES = src/hello.c\n\
hello_LDADD = $(LIBINTL) $(top_builddir)/lib/lib$(PACKAGE).a\n\
";
    const STREAM_WITH_RESOLVED_LINK: &str = "\
gcc -I. -c -o src/hello.o src/hello.c\n\
ar cru lib/libhello.a lib/basename.o\n\
gcc -g -O2 -o hello src/hello.o ./lib/libhello.a\n\
";
    let graph = graph_only(graph(
        &parse_commands(STREAM_WITH_RESOLVED_LINK, ROOT),
        &VariableDatabase::parse(DB, ROOT),
        "hello",
        ROOT,
        ROOT,
    ));
    let hello = graph.targets.iter().find(|t| t.name == "hello").expect("the program must render");
    assert_eq!(hello.dependencies, vec!["lib_libhello.a"], "{hello:#?}");
}

#[test]
fn target_label_does_not_collapse_a_program_and_its_library() {
    assert_ne!(target_label("hello"), target_label("lib/libhello.a"));
    assert_eq!(target_label("lib/libhello.a"), "lib_libhello.a");
    assert_eq!(target_label("hello"), "hello");
    assert_ne!(target_label("lib/libhello.a"), target_label("src/libhello.a"));
}

#[test]
fn a_shared_library_absorbing_a_static_one_escalates() {
    const STREAM: &str = "\
make[1]: Entering directory '/src/gl'\n\
gcc -c -o helper.o helper.c\n\
libtool --tag=CC --mode=link gcc helper.o -o libgnu.la\n\
make[1]: Leaving directory '/src/gl'\n\
make[1]: Entering directory '/src/lib'\n\
gcc -c -o main.o main.c\n\
libtool --tag=CC --mode=link gcc main.o ../gl/libgnu.la -o libthing.la\n\
make[1]: Leaving directory '/src/lib'\n\
";
    let db = "noinst_LTLIBRARIES = gl/libgnu.la\nlibgnu_la_SOURCES = helper.c\n\
             lib_LTLIBRARIES = lib/libthing.la\nlibthing_la_SOURCES = main.c\n";
    let (_, escalations, _) = graph(&parse_commands(STREAM, "/src"), &VariableDatabase::parse(db, "/src"), "conv", "/src", "/src");
    let item = escalations
        .iter()
        .find(|e| e.kind == "shared_library_absorbs_static")
        .unwrap_or_else(|| panic!("a shared library linking a static one must escalate: {escalations:#?}"));
    assert!(item.gap.contains("libgnu"), "{}", item.gap);
}

#[test]
fn a_shared_library_with_no_static_dependency_does_not_escalate() {
    const STREAM: &str = "\
make[1]: Entering directory '/src/lib'\n\
gcc -c -o main.o main.c\n\
libtool --tag=CC --mode=link gcc main.o -o libthing.la\n\
make[1]: Leaving directory '/src/lib'\n\
";
    let (_, escalations, _) = graph(
        &parse_commands(STREAM, "/src"),
        &VariableDatabase::parse("lib_LTLIBRARIES = lib/libthing.la\nlibthing_la_SOURCES = main.c\n", "/src"),
        "conv",
        "/src",
        "/src",
    );
    assert!(!escalations.iter().any(|e| e.kind == "shared_library_absorbs_static"), "{escalations:#?}");
}

#[test]
fn a_noinst_libtool_library_is_not_shared() {
    const STREAM: &str = "\
make[1]: Entering directory '/src/gl'\n\
gcc -c -o helper.o helper.c\n\
libtool --tag=CC --mode=link gcc helper.o -o libgnu.la\n\
make[1]: Leaving directory '/src/gl'\n\
";
    let (graph, _, _) = graph(
        &parse_commands(STREAM, "/src"),
        &VariableDatabase::parse("noinst_LTLIBRARIES = libgnu.la\nlibgnu_la_SOURCES = helper.c\n", "/src"),
        "conv",
        "/src",
        "/src",
    );
    assert!(!graph.targets.is_empty());
    assert!(!graph.targets[0].is_shared, "{:#?}", graph.targets[0]);
}

#[test]
fn a_lib_libtool_library_is_still_shared() {
    const STREAM: &str = "\
make[1]: Entering directory '/src/lib'\n\
gcc -c -o a.o a.c\n\
libtool --tag=CC --mode=link gcc a.o -o libthing.la\n\
make[1]: Leaving directory '/src/lib'\n\
";
    let (graph, _, _) = graph(
        &parse_commands(STREAM, "/src"),
        &VariableDatabase::parse("lib_LTLIBRARIES = libthing.la\nlibthing_la_SOURCES = a.c\n", "/src"),
        "conv",
        "/src",
        "/src",
    );
    assert!(graph.targets.first().is_some_and(|t| t.is_shared), "{:#?}", graph.targets);
}

const STREAM: &str = r#"
depbase=`echo src/greet.o | sed 's|[^/]*$|.deps/&|;s|\.o$||'`;\
gcc -DPACKAGE_NAME=\"greeter\" -DPACKAGE_TARNAME=\"greeter\" -DPACKAGE_VERSION=\"1.0\" -DPACKAGE_STRING=\"greeter\ 1.0\" -DPACKAGE_BUGREPORT=\"\" -DPACKAGE_URL=\"\" -DPACKAGE=\"greeter\" -DVERSION=\"1.0\" -DHAVE_STDIO_H=1 -DHAVE_STDLIB_H=1 -DHAVE_STRING_H=1 -DHAVE_INTTYPES_H=1 -DHAVE_STDINT_H=1 -DHAVE_STRINGS_H=1 -DHAVE_SYS_STAT_H=1 -DHAVE_SYS_TYPES_H=1 -DHAVE_UNISTD_H=1 -DSTDC_HEADERS=1 -DHAVE_DLFCN_H=1 -DLT_OBJDIR=\".libs/\" -I.     -g -O2 -MT src/greet.o -MD -MP -MF $depbase.Tpo -c -o src/greet.o src/greet.c &&\
mv -f $depbase.Tpo $depbase.Po
depbase=`echo src/main.o | sed 's|[^/]*$|.deps/&|;s|\.o$||'`;\
gcc -DPACKAGE_NAME=\"greeter\" -DPACKAGE_TARNAME=\"greeter\" -DPACKAGE_VERSION=\"1.0\" -DPACKAGE_STRING=\"greeter\ 1.0\" -DPACKAGE_BUGREPORT=\"\" -DPACKAGE_URL=\"\" -DPACKAGE=\"greeter\" -DVERSION=\"1.0\" -DHAVE_STDIO_H=1 -DHAVE_STDLIB_H=1 -DHAVE_STRING_H=1 -DHAVE_INTTYPES_H=1 -DHAVE_STDINT_H=1 -DHAVE_STRINGS_H=1 -DHAVE_SYS_STAT_H=1 -DHAVE_SYS_TYPES_H=1 -DHAVE_UNISTD_H=1 -DSTDC_HEADERS=1 -DHAVE_DLFCN_H=1 -DLT_OBJDIR=\".libs/\" -I.     -g -O2 -MT src/main.o -MD -MP -MF $depbase.Tpo -c -o src/main.o src/main.c &&\
mv -f $depbase.Tpo $depbase.Po
rm -f libgreet.a
ar cru libgreet.a src/greet.o 
ranlib libgreet.a
depbase=`echo src/shout.lo | sed 's|[^/]*$|.deps/&|;s|\.lo$||'`;\
/bin/bash ./libtool  --tag=CC   --mode=compile gcc -DPACKAGE_NAME=\"greeter\" -DPACKAGE_TARNAME=\"greeter\" -DPACKAGE_VERSION=\"1.0\" -DPACKAGE_STRING=\"greeter\ 1.0\" -DPACKAGE_BUGREPORT=\"\" -DPACKAGE_URL=\"\" -DPACKAGE=\"greeter\" -DVERSION=\"1.0\" -DHAVE_STDIO_H=1 -DHAVE_STDLIB_H=1 -DHAVE_STRING_H=1 -DHAVE_INTTYPES_H=1 -DHAVE_STDINT_H=1 -DHAVE_STRINGS_H=1 -DHAVE_SYS_STAT_H=1 -DHAVE_SYS_TYPES_H=1 -DHAVE_UNISTD_H=1 -DSTDC_HEADERS=1 -DHAVE_DLFCN_H=1 -DLT_OBJDIR=\".libs/\" -I.     -g -O2 -MT src/shout.lo -MD -MP -MF $depbase.Tpo -c -o src/shout.lo src/shout.c &&\
mv -f $depbase.Tpo $depbase.Plo
libtool: compile:  gcc -DPACKAGE_NAME=\"greeter\" -DPACKAGE_TARNAME=\"greeter\" -DPACKAGE_VERSION=\"1.0\" "-DPACKAGE_STRING=\"greeter 1.0\"" -DPACKAGE_BUGREPORT=\"\" -DPACKAGE_URL=\"\" -DPACKAGE=\"greeter\" -DVERSION=\"1.0\" -DHAVE_STDIO_H=1 -DHAVE_STDLIB_H=1 -DHAVE_STRING_H=1 -DHAVE_INTTYPES_H=1 -DHAVE_STDINT_H=1 -DHAVE_STRINGS_H=1 -DHAVE_SYS_STAT_H=1 -DHAVE_SYS_TYPES_H=1 -DHAVE_UNISTD_H=1 -DSTDC_HEADERS=1 -DHAVE_DLFCN_H=1 -DLT_OBJDIR=\".libs/\" -I. -g -O2 -MT src/shout.lo -MD -MP -MF src/.deps/shout.Tpo -c src/shout.c  -fPIC -DPIC -o src/.libs/shout.o
libtool: compile:  gcc -DPACKAGE_NAME=\"greeter\" -DPACKAGE_TARNAME=\"greeter\" -DPACKAGE_VERSION=\"1.0\" "-DPACKAGE_STRING=\"greeter 1.0\"" -DPACKAGE_BUGREPORT=\"\" -DPACKAGE_URL=\"\" -DPACKAGE=\"greeter\" -DVERSION=\"1.0\" -DHAVE_STDIO_H=1 -DHAVE_STDLIB_H=1 -DHAVE_STRING_H=1 -DHAVE_INTTYPES_H=1 -DHAVE_STDINT_H=1 -DHAVE_STRINGS_H=1 -DHAVE_SYS_STAT_H=1 -DHAVE_SYS_TYPES_H=1 -DHAVE_UNISTD_H=1 -DSTDC_HEADERS=1 -DHAVE_DLFCN_H=1 -DLT_OBJDIR=\".libs/\" -I. -g -O2 -MT src/shout.lo -MD -MP -MF src/.deps/shout.Tpo -c src/shout.c -o src/shout.o >/dev/null 2>&1
/bin/bash ./libtool  --tag=CC   --mode=link gcc  -g -O2   -o libshout.la -rpath /usr/local/lib src/shout.lo  
libtool: link: gcc -shared  -fPIC -DPIC  src/.libs/shout.o    -g -O2   -Wl,-soname -Wl,libshout.so.0 -o .libs/libshout.so.0.0.0
libtool: link: (cd ".libs" && rm -f "libshout.so.0" && ln -s "libshout.so.0.0.0" "libshout.so.0")
libtool: link: (cd ".libs" && rm -f "libshout.so" && ln -s "libshout.so.0.0.0" "libshout.so")
libtool: link: ar cr .libs/libshout.a  src/shout.o
libtool: link: ranlib .libs/libshout.a
libtool: link: ( cd ".libs" && rm -f "libshout.la" && ln -s "../libshout.la" "libshout.la" )
/bin/bash ./libtool  --tag=CC   --mode=link gcc  -g -O2   -o greeter src/main.o libgreet.a libshout.la 
libtool: link: gcc -g -O2 -o .libs/greeter src/main.o  libgreet.a ./.libs/libshout.so
"#;

const DATABASE: &str = "\
EXEEXT = \n\
VERSION = 1.0\n\
bin_PROGRAMS = greeter$(EXEEXT)\n\
noinst_LIBRARIES = libgreet.a\n\
lib_LTLIBRARIES = libshout.la\n\
include_HEADERS = src/greet.h\n\
greeter_SOURCES = src/main.c\n\
greeter_LDADD = libgreet.a libshout.la\n\
libgreet_a_SOURCES = src/greet.c src/greet.h\n\
libshout_la_SOURCES = src/shout.c\n\
";

fn graph_from_captures() -> BuildGraph {
    graph_only(graph(&parse_commands(STREAM, ROOT), &VariableDatabase::parse(DATABASE, ROOT), "greeter", ROOT, ROOT))
}

#[test]
fn parses_the_real_command_stream_into_a_graph() {
    let graph = graph_from_captures();
    let names: Vec<&str> = graph.targets.iter().map(|t| t.name.as_str()).collect();
    assert_eq!(names, vec!["greeter", "libgreet.a", "libshout.la"], "{graph:#?}");

    let by_name = |n: &str| graph.targets.iter().find(|t| t.name == n).unwrap_or_else(|| panic!("missing {n}"));

    let greet = by_name("libgreet.a");
    assert_eq!(greet.kind, TargetKind::Library);
    assert!(!greet.is_shared, "an ar archive is not shared");
    assert_eq!(greet.sources, vec!["src/greet.c"]);

    let shout = by_name("libshout.la");
    assert_eq!(shout.kind, TargetKind::Library);
    assert!(shout.is_shared);
    assert_eq!(shout.sources, vec!["src/shout.c"]);

    let greeter = by_name("greeter");
    assert_eq!(greeter.kind, TargetKind::Executable);
    assert_eq!(greeter.sources, vec!["src/main.c"]);
    assert_eq!(greeter.dependencies, vec!["libgreet.a", "libshout.la"], "both libraries are link inputs");

    assert!(greet.includes.is_empty(), "-I. is the module root, not an includes entry: {greet:#?}");
    assert!(greet.needs_root_include, "-I. must set it: {greet:#?}");
    assert!(greeter.includes.is_empty(), "{greeter:#?}");
    assert!(greeter.needs_root_include, "{greeter:#?}");

    assert_eq!(greet.public_headers, vec!["src/greet.h"], "{greet:#?}");
    assert!(greeter.public_headers.is_empty(), "{greeter:#?}");

    assert!(greet.local_defines.contains(&"PACKAGE_NAME=\"greeter\"".to_string()), "{:#?}", greet.local_defines);
}

#[test]
fn an_autotools_graph_renders_through_unmodified_codegen() {
    let graph = graph_from_captures();
    let rendered = render(&graph).build_bazel;
    assert!(rendered.contains("cc_library(\n    name = \"libgreet.a\","), "{rendered}");
    assert!(rendered.contains("cc_shared_library(\n    name = \"libshout.la_shared\","), "{rendered}");
    assert!(rendered.contains("cc_binary(\n    name = \"greeter\","), "{rendered}");
    assert!(rendered.contains("\":libgreet.a\",") && rendered.contains("\":libshout.la\","), "{rendered}");
}

/// A converted dependency as its conversion leaves it: its module, its
/// library, and the files it installed into the merged sysroot.
fn converted_greet(sysroot: &str) -> Dependencies {
    let mut deps = Dependencies::with_sysroot(sysroot);
    let i = deps.add(Dependency {
        module: ModuleDependency { name: "greet".to_string(), version: Some("1.2".to_string()) },
        libraries: vec![Library { stem: "libgreet".to_string(), target: "libgreet_la".to_string(), shared: true }],
    });
    deps.record_origin("usr/local/lib/libgreet.so", i).unwrap();
    deps.record_origin("usr/local/lib/libgreet.la", i).unwrap();
    deps
}

fn app_graph(stream: &str, deps: &Dependencies) -> (BuildGraph, Vec<NeedsAttention>) {
    let database = "bin_PROGRAMS = app\napp_SOURCES = src/main.c\n";
    let (graph, escalations, _) = to_graph_with_dependencies(
        &parse_commands(stream, "/proj"),
        &VariableDatabase::parse(database, "/proj"),
        "greet-user",
        "/proj",
        "/proj",
        deps,
        &Vec::new(),
    );
    (graph, escalations)
}

#[test]
fn a_library_from_a_converted_dependency_is_an_edge_and_otherwise_an_escalation() {
    let deps = converted_greet("/scratch/sysroot");
    let stream = "make[1]: Entering directory '/proj'\n\
             gcc -c -o src/app-main.o src/main.c\n\
             gcc -o app src/app-main.o -L/scratch/sysroot/usr/local/lib -lgreet -lm\n\
             make[1]: Leaving directory '/proj'\n";

    let (graph, escalations) = app_graph(stream, &deps);
    assert_eq!(
        graph.targets[0].external_dependencies,
        vec![ExternalDependency { module: "greet".to_string(), target: "libgreet_la".to_string(), shared: true }],
        "{:#?}",
        graph.targets[0]
    );
    assert!(escalations.iter().all(|e| e.kind != "unconverted_dependency"), "{escalations:#?}");

    let (graph, escalations) = app_graph(stream, &Dependencies::new());
    assert!(graph.targets[0].external_dependencies.is_empty());
    let item = escalations
        .iter()
        .find(|e| e.kind == "unconverted_dependency")
        .unwrap_or_else(|| panic!("the same line must escalate without the dependency: {escalations:#?}"));
    assert_eq!(item.subject, "-lgreet", "one item per library, named as the link line spelled it");
    assert!(item.gap.contains("- `app`"), "{}", item.gap);
    assert!(!escalations.iter().any(|e| e.subject == "-lm"), "{escalations:#?}");
}

#[test]
fn an_absolute_path_into_the_sysroot_resolves_the_same_way() {
    let deps = converted_greet("/scratch/sysroot");
    let stream = "make[1]: Entering directory '/proj'\n\
             gcc -c -o src/app-main.o src/main.c\n\
             /bin/bash ./libtool --tag=CC --mode=link gcc -o app src/app-main.o /scratch/sysroot/usr/local/lib/libgreet.la\n\
             make[1]: Leaving directory '/proj'\n";
    let (graph, escalations) = app_graph(stream, &deps);
    assert_eq!(graph.targets[0].external_dependencies.len(), 1, "{:#?}", graph.targets[0]);
    assert!(escalations.iter().all(|e| e.kind != "unconverted_dependency"));
}

#[test]
fn installed_headers_are_promoted_to_hdrs_with_their_install_prefix() {
    let vars = VariableDatabase::parse(
        "include_HEADERS = src/greet.h src/util.h\n\
             EVENT2_EXPORT = include/event2/buffer.h include/event2/event.h\n\
             prefix = /usr/local\n\
             includedir = ${prefix}/include\n\
             include_event2dir = $(includedir)/event2\n\
             include_event2_HEADERS = $(EVENT2_EXPORT)\n\
             noinst_HEADERS = src/private.h\n",
        "/b",
    );
    let mut targets = vec![
        Target {
            name: "libgreet_la".to_string(),
            kind: TargetKind::Library,
            sources: vec![
                "src/greet.c".to_string(),
                "src/greet.h".to_string(),
                "src/util.h".to_string(),
                "src/private.h".to_string(),
            ],
            ..Default::default()
        },
        Target {
            name: "demo".to_string(),
            kind: TargetKind::Executable,
            sources: vec!["src/demo.c".to_string(), "src/greet.h".to_string()],
            ..Default::default()
        },
        Target {
            name: "libevent_core_la".to_string(),
            kind: TargetKind::Library,
            sources: vec![
                "event.c".to_string(),
                "include/event2/buffer.h".to_string(),
                "include/event2/event.h".to_string(),
                "event-internal.h".to_string(),
            ],
            ..Default::default()
        },
    ];
    promote_installed_headers(&mut targets, &vars);
    assert_eq!(targets[0].public_headers, vec!["src/greet.h".to_string(), "src/util.h".to_string()]);
    assert_eq!(
        targets[0].sources,
        vec!["src/greet.c".to_string(), "src/private.h".to_string()],
        "an uninstalled header stays private"
    );
    assert_eq!(targets[0].strip_include_prefix.as_deref(), Some("src"));
    assert!(targets[1].public_headers.is_empty() && targets[1].sources.len() == 2, "{:#?}", targets[1]);
    assert_eq!(
        targets[2].public_headers,
        vec!["include/event2/buffer.h".to_string(), "include/event2/event.h".to_string()],
        "declared through a variable, in a custom include subdirectory"
    );
    assert_eq!(targets[2].strip_include_prefix.as_deref(), Some("include"));
    assert_eq!(targets[2].sources, vec!["event.c".to_string(), "event-internal.h".to_string()]);

    assert_eq!(strip_for("greet.h", ""), None);
    assert_eq!(strip_for("a/x.h", "").as_deref(), Some("a"));
    assert_eq!(strip_for("include/event2/x.h", "event2").as_deref(), Some("include"));
    assert_eq!(strip_for("src/x.h", "event2"), None, "not one strip away from event2/x.h");
    let mut split = vec![Target {
        name: "lib".to_string(),
        kind: TargetKind::Library,
        sources: vec!["a/x.h".to_string(), "b/y.h".to_string()],
        ..Default::default()
    }];
    promote_installed_headers(&mut split, &VariableDatabase::parse("include_HEADERS = a/x.h b/y.h\n", "/b"));
    assert_eq!(split[0].strip_include_prefix, None, "two directories cannot both be the prefix; better none than half right");
}

#[test]
fn a_per_target_variable_is_read_from_the_directory_that_built_the_target() {
    const DATABASE: &str = "\
# make[1]: Entering directory '/b/utils'\n\
# Variables\n\
bin_PROGRAMS = hwloc-bind\n\
hwloc_bind_SOURCES = hwloc-bind.c\n\
# make[1]: Leaving directory '/b/utils'\n\
# make[1]: Entering directory '/b/tests'\n\
# Variables\n\
check_PROGRAMS = hwloc_bind\n\
hwloc_bind_SOURCES = hwloc_bind.c\n\
# make[1]: Leaving directory '/b/tests'\n\
";
    const STREAM: &str = "\
make[1]: Entering directory '/b/utils'\n\
gcc -c -o hwloc-bind.o /s/utils/hwloc-bind.c\n\
gcc -o hwloc-bind hwloc-bind.o\n\
make[1]: Leaving directory '/b/utils'\n\
make[1]: Entering directory '/b/tests'\n\
gcc -c -o hwloc_bind.o /s/tests/hwloc_bind.c\n\
gcc -o hwloc_bind hwloc_bind.o\n\
make[1]: Leaving directory '/b/tests'\n\
";
    let db = VariableDatabase::parse(DATABASE, "/b");
    let get = |dir: &str, name: &str| -> Option<String> {
        db.scope(dir).and_then(|vars| vars.iter().rev().find(|(n, _)| n == name).map(|(_, v)| v.clone()))
    };
    assert_eq!(get("/b/utils", "hwloc_bind_SOURCES").as_deref(), Some("hwloc-bind.c"));
    assert_eq!(get("/b/tests", "hwloc_bind_SOURCES").as_deref(), Some("hwloc_bind.c"));

    let (graph, _, _) = graph(&parse_commands(STREAM, "/b"), &VariableDatabase::parse(DATABASE, "/b"), "hwloc", "/s", "/s");
    let sources: Vec<(String, Vec<String>)> = graph.targets.iter().map(|t| (t.name.clone(), t.sources.clone())).collect();
    assert_eq!(
        sources,
        vec![
            ("hwloc-bind".to_string(), vec!["utils/hwloc-bind.c".to_string()]),
            ("hwloc_bind".to_string(), vec!["tests/hwloc_bind.c".to_string()]),
        ],
        "each target reads its own directory's declaration"
    );
}

#[test]
fn a_header_the_build_generated_and_nothing_reproduces_is_escalated_with_its_recipe() {
    let build = "/r/build";
    let src = "/r/src";
    let build_files: Vec<String> = vec![
        "/r/build/include/event2/event-config.h".to_string(),
        "/r/build/config.h".to_string(),
        "/r/build/event.o".to_string(),
    ];
    let stream = format!(
        "/usr/bin/sed -f {src}/make-event-config.sed < config.h > include/event2/event-config.hT\n\
             mv include/event2/event-config.hT include/event2/event-config.h\n\
             gcc -I. -I./include -I{src} -c -o event.o {src}/event.c\n"
    );
    let config_h = ConfigHeader {
        output: "config.h".to_string(),
        template: "config.h.in".to_string(),
        template_source: None,
        catalog_probes: vec![],
        values: vec![],
        options: Vec::new(),
        splices: Vec::new(),
        dialect: ConfigDialect::Undef,
        shadow_dir: None,
    };
    let generated = generated_headers_in_build_tree(
        &parse_commands(&stream, build),
        build,
        src,
        &vec![config_h],
        &stream,
        &build_files,
    );
    assert_eq!(generated.len(), 1, "{generated:#?}");
    assert_eq!(generated[0].0, "include/event2/event-config.h");
    assert!(generated[0].1.iter().any(|l| l.contains("sed -f")), "the recipe is the evidence an agent needs: {:#?}", generated[0].1);
    let item = generated_headers_needs_attention(&generated);
    assert_eq!(item.kind, "generated_headers");
    assert!(item.gap.contains("include/event2/event-config.h") && item.gap.contains("sed -f"), "{}", item.gap);
}

#[test]
fn every_path_of_every_target_is_module_relative() {
    let graph = graph_from_captures();
    for t in &graph.targets {
        for path in t.sources.iter().chain(&t.public_headers).chain(&t.includes) {
            assert!(is_module_relative(path), "{path:?} in {t:#?}");
        }
    }
    let names: Vec<&String> = graph.targets.iter().map(|t| &t.name).collect();
    let mut sorted = names.clone();
    sorted.sort();
    assert_eq!(names, sorted, "targets come sorted by name");
}

#[test]
fn a_source_that_is_both_included_and_compiled_stays_compiled() {
    let mut targets = vec![Target {
        name: "prog".to_string(),
        kind: TargetKind::Executable,
        sources: vec!["main.c".to_string(), "helper.c".to_string()],
        ..Default::default()
    }];
    let scans = vec![("main.c".to_string(), vec!["helper.c".to_string()]), ("helper.c".to_string(), vec![])];
    inject_textual_includes(&mut targets, &scans);
    assert!(targets[0].sources.contains(&"helper.c".to_string()), "{:?}", targets[0].sources);
    assert!(!targets[0].textual_sources.contains(&"helper.c".to_string()), "{:?}", targets[0].textual_sources);
}

#[test]
fn an_include_is_resolved_against_the_including_files_directory() {
    let mut targets = vec![Target {
        name: "lib".to_string(),
        kind: TargetKind::Library,
        sources: vec!["lib/xmltok.c".to_string()],
        ..Default::default()
    }];
    let scans = vec![(
        "lib/xmltok.c".to_string(),
        vec!["xmltok_impl.c".to_string(), "../../outside.c".to_string(), "xmltok_impl.c".to_string()],
    )];
    inject_textual_includes(&mut targets, &scans);
    assert_eq!(targets[0].textual_sources, vec!["lib/xmltok_impl.c"]);
}
