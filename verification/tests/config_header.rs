use std::collections::HashMap;

use translator::config_header::{
    parse_config_file_headers, parse_config_headers, parse_resolved_macro_values,
    plan_config_header, plan_substitution_header, undef_names,
};


// An AC_CONFIG_FILES header substitutes @VAR@ and declares no #undef, so
// planning it with the config.h dialect finds nothing at all. jansson's
// six substitutions all resolve from make's variable database.
#[test]
fn a_substitution_header_resolves_at_vars_from_the_database() {
    const TEMPLATE: &str = "#define JSON_INLINE @json_inline@\n\
                            #define JSON_HAVE_LOCALECONV @json_have_localeconv@\n";
    let vars: Vec<(String, String)> = [
        ("json_inline".to_string(), "inline".to_string()),
        ("json_have_localeconv".to_string(), "1".to_string()),
    ]
    .into_iter()
    .collect();

    let (header, unmapped) =
        plan_substitution_header("jansson_config.h", "jansson_config.h.in", TEMPLATE, &vars);

    assert!(
        unmapped.is_empty(),
        "every @VAR@ is in the database, so nothing should escalate: {unmapped:?}"
    );
    assert_eq!(
        header.values,
        vec![
            ("json_have_localeconv".to_string(), "1".to_string()),
            ("json_inline".to_string(), "inline".to_string()),
        ],
        "substituted TEXTUALLY, so neither value is C-quoted — unlike \
         AC_DEFINE, @VAR@ replaces the token in place and `\"inline\"` \
         would emit a string literal where a keyword belongs"
    );
}

#[test]
fn a_substitution_header_escalates_a_var_the_database_cannot_answer() {
    const TEMPLATE: &str = "#define THING @unknowable_thing@\n";
    let (_, unmapped) = plan_substitution_header("x.h", "x.h.in", TEMPLATE, &Vec::new());
    assert_eq!(
        unmapped,
        vec!["unknowable_thing".to_string()],
        "left LITERAL in the output otherwise — an `@NAME@` token the \
         compiler chokes on, which is worse than an undefined macro"
    );
}

// autoconf generates a config header TWO ways and the frontend long read
// only one. jansson declares its private header with AC_CONFIG_HEADERS
// and its PUBLIC one (jansson_config.h, included by the installed
// jansson.h) inside AC_CONFIG_FILES — so the private one was reproduced
// and the public one silently dropped, surfacing as a missing include
// several steps from the cause.
//
// The list is mixed, which is the whole difficulty: jansson's ten entries
// are eight Makefiles, a .pc file, and exactly one header.
#[test]
fn config_files_yields_only_the_entries_that_are_headers() {
    const STATUS: &str = "config_files=\" jansson.pc Makefile doc/Makefile \
                          src/jansson_config.h test/Makefile\"\n";
    assert_eq!(
        parse_config_file_headers(STATUS),
        vec!["src/jansson_config.h".to_string()],
        "a Makefile and a .pc are generated files this conversion has no \
         use for; only a header is an input to a compile"
    );
}

#[test]
fn a_project_whose_config_files_has_no_header_yields_nothing() {
    const STATUS: &str = "config_files=\" Makefile src/Makefile foo.pc\"\n";
    assert!(
        parse_config_file_headers(STATUS).is_empty(),
        "the common case — most projects generate only Makefiles this way, \
         and inventing a config_header rule for one would emit a rule for \
         a file nothing includes: {:?}",
        parse_config_file_headers(STATUS)
    );
}

// AC_CONFIG_HEADERS names BOTH sides, and the template is not always
// `<output>.in` — GNU hello declares config.h:config.in to keep the name
// 8.3-safe, so assuming would find nothing.
// config.status writes the resolved value of every macro it will define
// into a `D[]` table. The frontend already opens this file for the
// header/template names; these values are quoted into the escalation as
// EVIDENCE so the agent can see what configure decided.
#[test]
fn resolved_macro_values_are_read_from_the_d_table() {
    let status = "\
D[\"PACKAGE_NAME\"]=\" \\\"Libidn2\\\"\"\n\
D[\"GNULIB_UNISTR_U32_MBTOUC_UNSAFE\"]=\" 1\"\n\
D[\"BYTEORDER\"]=\" 1234\"\n\
ac_cs_usage=\"whatever\"\n";
    let values: HashMap<String, String> = parse_resolved_macro_values(status).into_iter().collect();

    assert_eq!(
        values
            .get("GNULIB_UNISTR_U32_MBTOUC_UNSAFE")
            .map(String::as_str),
        Some("1"),
        "autoconf writes a leading space separating the macro from its \
         value; it is not part of the value: {values:?}"
    );
    assert_eq!(
        values.get("BYTEORDER").map(String::as_str),
        Some("1234"),
        "{values:?}"
    );
    assert!(
        values
            .get("PACKAGE_NAME")
            .is_some_and(|v| v.contains("Libidn2")),
        "a C string literal keeps its own quotes: {values:?}"
    );
    assert!(
        !values.contains_key("ac_cs_usage"),
        "only the D[] table, not every shell assignment in the file: \
         {values:?}"
    );
}

// The negative. A config.status with no D[] table is not an error — the
// escalation simply carries no evidence — and an empty map must not be
// confused with "every macro resolved to nothing".
#[test]
fn a_config_status_without_a_d_table_yields_nothing() {
    assert!(parse_resolved_macro_values("config_headers=\" config.h\"\n").is_empty());
}

#[test]
fn parse_config_headers_reads_both_sides_of_the_declaration() {
    assert_eq!(
        parse_config_headers("config_headers=\" config.h:config.in\"\n"),
        vec![("config.h".to_string(), "config.in".to_string())]
    );
    // Only the output named: autoconf defaults the template to <output>.in.
    assert_eq!(
        parse_config_headers("config_headers=\"config.h\"\n"),
        vec![("config.h".to_string(), "config.h.in".to_string())]
    );
    // A project declaring none — fixture 001 — must yield none rather
    // than a default that does not exist.
    assert!(parse_config_headers("other=1\n").is_empty());
}

// Both directions, because the two failures are opposite and each is
// silent at the point it is made. An unquoted string splices into
// neighbouring tokens (`printf("xz (" XZ Utils ")")` — clang reports
// undeclared identifiers in a file that never mentions the macro), while a
// quoted number is a type error wherever `#if` or arithmetic uses it.
#[test]
fn a_substituted_value_is_quoted_unless_it_is_a_number() {
    let vars: Vec<(String, String)> = [
        ("PACKAGE_NAME".to_string(), "XZ Utils".to_string()),
        ("ASSUME_RAM".to_string(), "128".to_string()),
    ]
    .into_iter()
    .collect();
    let (header, _) = plan_config_header(
        "config.h",
        "config.in",
        "#undef PACKAGE_NAME\n#undef ASSUME_RAM\n",
        &vars,
        &Vec::new(),
    );

    assert_eq!(
        header.values,
        vec![
            ("ASSUME_RAM".to_string(), "128".to_string()),
            ("PACKAGE_NAME".to_string(), "\"XZ Utils\"".to_string()),
        ],
        "autoconf quotes a string value and leaves a numeric one bare; \
         make's database carries both as plain text, so the distinction \
         has to be restored here"
    );
}

// Both spellings autoconf actually uses. The rule used to require an
// UNSPACED `#undef` at column 0, on the belief that a spaced one is
// gnulib undefining its own include guard — true of gnulib, and false as
// a rule about THIS function's input.
//
// undef_names only ever sees the template named by AC_CONFIG_HEADERS
// (autotools.rs, the `parse_config_headers(&status)` loop). libidn2's
// config.status says `config_headers=" config.h"` — one file. gnulib's
// `gl/*.in.h` are replacement headers, reach codegen by a different path
// as ConfigDialect::Substitution, and never arrive here.
//
// Measured on all five fetched projects: 46 spaced `# undef` lines and
// every one a real declaration. libidn2 and xz carry the 22-macro
// AC_USE_SYSTEM_EXTENSIONS block; expat and libmicrohttpd each indent
// WORDS_BIGENDIAN two spaces inside a nested `#if`/`# ifndef`. Neither of
// those is a gnulib project, so the strict rule was losing a real macro
// in two projects that could not have had the problem it guarded against.
//
// The cc_config expander's `_AC_UNDEF` stays strict on purpose — it runs
// over gnulib's templates too. See `expand_config_header.py`.
#[test]
fn a_spaced_or_indented_undef_is_still_a_declaration() {
    assert_eq!(
        undef_names("#undef PACKAGE_NAME\n# undef _GNU_SOURCE\n#  undef WORDS_BIGENDIAN\n"),
        vec![
            "PACKAGE_NAME".to_string(),
            "_GNU_SOURCE".to_string(),
            "WORDS_BIGENDIAN".to_string(),
        ],
        "autoconf writes AC_USE_SYSTEM_EXTENSIONS macros as `# undef` and \
         a nested WORDS_BIGENDIAN as `#  undef`; requiring column 0 left \
         both undefined"
    );
}

#[test]
fn an_indented_undef_is_a_declaration_too() {
    assert_eq!(
        undef_names("  #undef WORDS_BIGENDIAN\n\t#undef OTHER\n"),
        vec!["WORDS_BIGENDIAN".to_string(), "OTHER".to_string()],
        "expat and libmicrohttpd both indent WORDS_BIGENDIAN inside a \
         conditional, and config.status rewrites it like any other"
    );
}

// The half of the old rule that survives: the relaxation is about
// WHITESPACE before the directive, never about code before it.
#[test]
fn a_mid_line_undef_is_not_a_declaration() {
    assert!(
        undef_names("int x; #undef NOT_A_DECL\n").is_empty(),
        "only whitespace may precede the directive: {:?}",
        undef_names("int x; #undef NOT_A_DECL\n")
    );
}

// `configure` records a feature it did NOT find as the shell word `no`,
// and the database keeps it. Taken as a substituted value that becomes
// `#define HAVE_LIBUNISTRING "no"`, where autoconf writes
// `/* #undef HAVE_LIBUNISTRING */` — and the two disagree in the worst
// direction, since a non-empty string makes `#if HAVE_LIBUNISTRING` TRUE
// exactly where autoconf makes it false.
//
// libidn2 also fails to COMPILE on it (clang rejects a string literal at
// the start of a preprocessor expression), which is luck: a macro used
// only in `#ifdef` would have taken the wrong branch in silence.
#[test]
fn a_shell_no_is_not_a_value() {
    let vars = Vec::from([("HAVE_LIBUNISTRING".to_string(), "no".to_string())]);
    let (header, unmapped) = plan_config_header(
        "config.h",
        "config.h.in",
        "#undef HAVE_LIBUNISTRING\n",
        &vars,
        &Vec::new(),
    );
    assert!(
        header.values.is_empty(),
        "`no` is configure's answer NO, not a value to define: {:?}",
        header.values
    );
    assert!(
        unmapped.is_empty(),
        "and it needs no agent decision — autoconf leaves the name \
         undefined, which is what an unresolved `#undef` already \
         produces: {unmapped:?}"
    );
}

// `yes` is the same fact in the other direction, and autoconf emits
// neither word: measured on libidn2's generated config.h, zero macros are
// defined to `yes` or `no`, quoted or bare. It is a configure-internal
// boolean, so it resolves as the fact rather than as text.
#[test]
fn a_shell_yes_is_the_fact_not_the_word() {
    let vars = Vec::from([("HAVE_THING".to_string(), "yes".to_string())]);
    let (header, unmapped) = plan_config_header(
        "config.h",
        "config.h.in",
        "#undef HAVE_THING\n",
        &vars,
        &Vec::new(),
    );
    assert_eq!(
        header.values,
        vec![("HAVE_THING".to_string(), "1".to_string())],
        "autoconf writes `#define HAVE_THING 1`, never `yes`"
    );
    assert!(unmapped.is_empty(), "{unmapped:?}");
}

// The narrowness that keeps this from eating real data: only the bare
// word counts. A version string or a path that merely contains it is an
// ordinary value.
#[test]
fn a_value_that_merely_contains_no_is_untouched() {
    let vars = Vec::from([
        ("PACKAGE_NAME".to_string(), "nostromo".to_string()),
        ("NOTE".to_string(), "no thanks".to_string()),
    ]);
    let (header, _) = plan_config_header(
        "config.h",
        "config.h.in",
        "#undef PACKAGE_NAME\n#undef NOTE\n",
        &vars,
        &Vec::new(),
    );
    assert_eq!(
        header.values,
        vec![
            ("NOTE".to_string(), "\"no thanks\"".to_string()),
            ("PACKAGE_NAME".to_string(), "\"nostromo\"".to_string()),
        ],
        "only the exact word is configure's boolean: {:?}",
        header.values
    );
}

// `configure` seeds make's database with EVERY macro it knows, most of
// them EMPTY. Treating an empty variable as a substituted value emitted
//     "BITSIZEOF_PTRDIFF_T": """"
// — an unclosed string literal, so the generated module would not parse.
// The macro belongs in the escalation instead.
#[test]
fn an_empty_make_variable_is_not_a_substituted_value() {
    let vars: Vec<(String, String)> = [
        ("PACKAGE".to_string(), "hello".to_string()),
        ("BITSIZEOF_PTRDIFF_T".to_string(), String::new()),
    ]
    .into_iter()
    .collect();
    let (header, unmapped) = plan_config_header(
        "config.h",
        "config.in",
        "#undef PACKAGE\n#undef BITSIZEOF_PTRDIFF_T\n#undef HAVE_UNISTD_H\n",
        &vars,
        &Vec::new(),
    );

    assert_eq!(
        header.values,
        vec![("PACKAGE".to_string(), "\"hello\"".to_string())],
        "only a real substitution is a value, and a non-numeric one carries \
         the C quotes autoconf itself would emit: `AC_DEFINE([PACKAGE], \
         [\"hello\"])` puts a string LITERAL in config.h"
    );
    assert_eq!(
        header.catalog_probes,
        vec!["@cc_config//catalog:have_unistd_h"],
        "a catalog fact is probed, not substituted"
    );
    assert_eq!(
        unmapped,
        vec!["BITSIZEOF_PTRDIFF_T"],
        "an empty variable is the ABSENCE of a value, so the macro is \
         escalated rather than emitted as an empty string"
    );
}
// A macro a boolean build option controls is RESOLVED, not escalated:
// the input states it (configure shows the macro appearing and vanishing
// with the flag), and codegen turns the pair into a bool_flag so the
// option stays settable. Before this, HAVE_GREETING escalated as
// unmapped and the agent had to decide.
#[test]
fn a_flag_controlled_macro_resolves_as_an_option() {
    let flags = Vec::from([("HAVE_GREETING".to_string(), "--enable-greeting".to_string())]);
    let (header, unmapped) = plan_config_header(
        "config.h",
        "config.h.in",
        "#undef HAVE_GREETING\n",
        &Vec::new(),
        &flags,
    );

    assert!(unmapped.is_empty(), "the flag resolves it: {unmapped:?}");
    assert_eq!(
        header.options,
        vec![("HAVE_GREETING".to_string(), "--enable-greeting".to_string())],
        "and its provenance is the FLAG, which codegen needs to name the \
         bool_flag target"
    );
    assert_eq!(
        header.values,
        vec![("HAVE_GREETING".to_string(), "1".to_string())],
        "with the value config.status writes for an AC_DEFINE"
    );
}

// The negative: a name no flag controls still escalates. Resolving one
// wrongly would bake a toolchain fact in as a project choice, which is
// the direction that fails silently.
#[test]
fn a_macro_no_flag_controls_still_escalates() {
    let (header, unmapped) = plan_config_header(
        "config.h",
        "config.h.in",
        "#undef HAVE_SOMETHING\n",
        &Vec::new(),
        &Vec::new(),
    );

    assert_eq!(unmapped, vec!["HAVE_SOMETHING".to_string()]);
    assert!(header.options.is_empty(), "{:?}", header.options);
}
