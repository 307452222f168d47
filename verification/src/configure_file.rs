//! `configure_file` handling: recovers the config headers a project
//! generates and plans their reproduction as `config_header` rules.
//!
//! The calls appear in no File API reply; they are recovered from the
//! `cmake --trace-expand` output, and their templates read. Everything here
//! is a function of its arguments: the caller reads the trace and the
//! template texts, and sequences the steps (the plans are built after the
//! module root is known, because template paths are rebased against it).

use vstd::prelude::*;
use crate::headers::{ext_is, interface_ext, is_config_header_output};
use crate::model::{opt_view, pairs, ConfigDialect, ConfigHeader};
use crate::needs_attention::{
    generated_config_header_needs_attention, unmapped_config_macros_needs_attention, NeedsAttention,
};
use crate::paths::{
    file_name, file_name_of, is_absolute, join_path, join_paths, normalize, normalize_path, parent,
    parent_of, path_starts_with, starts_with_path, strip_path_prefix, strip_prefix_path,
};
use crate::text::{
    chars, chars_of, dedup_first, dedup_strings, find, find_at, find_from, find_str, has_prefix,
    is_ascii_alnum, lemma_find_from, lemma_rfind_before, lines, lines_of, lower_char, occurs_at,
    one_of, rfind, rfind_str, split_whitespace, split_ws, starts_with, str_eq, string_of, strs,
    subvec, trim, trim_end, trim_end_by, trim_end_set, trim_end_ws, trim_start, trim_start_ws,
    trim_ws, views,
};

verus! {

/// The facts the shared `cc_config` catalog has a probe for: a
/// hand-maintained copy of the catalog's define set, kept in sync with it
/// by a check on the catalog's side.
pub open spec fn catalog_defines() -> Seq<Seq<char>> {
    seq![
        "HAVE_ARC4RANDOM"@,
        "HAVE_BSD_STDLIB_H"@,
        "HAVE_BYTESWAP_H"@,
        "HAVE_CLOCK_GETTIME"@,
        "HAVE_CPUID_H"@,
        "HAVE_DLFCN_H"@,
        "HAVE_DUPLOCALE"@,
        "HAVE_ENDIAN_H"@,
        "HAVE_FCNTL_H"@,
        "HAVE_FUTIMENS"@,
        "HAVE_GETOPT_H"@,
        "HAVE_GETOPT_LONG"@,
        "HAVE_GETRANDOM"@,
        "HAVE_GETRUSAGE"@,
        "HAVE_IMMINTRIN_H"@,
        "HAVE_INTTYPES_H"@,
        "HAVE_LIMITS_H"@,
        "HAVE_LOCALE_H"@,
        "HAVE_MBRTOWC"@,
        "HAVE_MEMORY_H"@,
        "HAVE_OPEN"@,
        "HAVE_POSIX_FADVISE"@,
        "HAVE_REALLOC"@,
        "HAVE_SETLOCALE"@,
        "HAVE_SETRLIMIT"@,
        "HAVE_SNPRINTF"@,
        "HAVE_STDARG_H"@,
        "HAVE_STDBOOL_H"@,
        "HAVE_STDINT_H"@,
        "HAVE_STDIO_H"@,
        "HAVE_STDLIB_H"@,
        "HAVE_STRCASECMP"@,
        "HAVE_STRDUP"@,
        "HAVE_STRERROR"@,
        "HAVE_STRING_H"@,
        "HAVE_STRINGS_H"@,
        "HAVE_STRNCASECMP"@,
        "HAVE_STRTOLL"@,
        "HAVE_STRTOULL"@,
        "HAVE_ARPA_INET_H"@,
        "HAVE_ERRNO_H"@,
        "HAVE_NET_IF_H"@,
        "HAVE_NETDB_H"@,
        "HAVE_NETINET_IN_H"@,
        "HAVE_NETINET_IP_H"@,
        "HAVE_NETINET_TCP_H"@,
        "HAVE_POLL_H"@,
        "HAVE_PTHREAD_H"@,
        "HAVE_SCHED_H"@,
        "HAVE_SIGNAL_H"@,
        "HAVE_STDALIGN_H"@,
        "HAVE_STDDEF_H"@,
        "HAVE_TIME_H"@,
        "HAVE_SYS_IOCTL_H"@,
        "HAVE_SYS_MMAN_H"@,
        "HAVE_SYS_MSG_H"@,
        "HAVE_SYS_SELECT_H"@,
        "HAVE_SYS_SOCKET_H"@,
        "HAVE_SYS_UIO_H"@,
        "HAVE_SYS_CDEFS_H"@,
        "HAVE_SYS_PARAM_H"@,
        "HAVE_SYS_RANDOM_H"@,
        "HAVE_SYS_RESOURCE_H"@,
        "HAVE_SYS_STAT_H"@,
        "HAVE_SYS_TIME_H"@,
        "HAVE_SYS_TYPES_H"@,
        "HAVE_SYSLOG_H"@,
        "HAVE_UNISTD_H"@,
        "HAVE_USELOCALE"@,
        "HAVE_USELOCALE"@,
        "HAVE_VASPRINTF"@,
        "HAVE_VPRINTF"@,
        "HAVE_VSNPRINTF"@,
        "HAVE_VSYSLOG"@,
        "HAVE_WCHAR_H"@,
        "HAVE_XLOCALE_H"@,
        "STDC_HEADERS"@,
        "SIZEOF_INT"@,
        "SIZEOF_INT64_T"@,
        "SIZEOF_LONG"@,
        "SIZEOF_LONG_LONG"@,
        "SIZEOF_SIZE_T"@,
        "SIZEOF_SSIZE_T"@
    ]
}

fn catalog_list() -> (r: Vec<&'static str>)
    ensures
        r@.map_values(|s: &'static str| s@) == catalog_defines(),
{
    let r = vec![
        "HAVE_ARC4RANDOM",
        "HAVE_BSD_STDLIB_H",
        "HAVE_BYTESWAP_H",
        "HAVE_CLOCK_GETTIME",
        "HAVE_CPUID_H",
        "HAVE_DLFCN_H",
        "HAVE_DUPLOCALE",
        "HAVE_ENDIAN_H",
        "HAVE_FCNTL_H",
        "HAVE_FUTIMENS",
        "HAVE_GETOPT_H",
        "HAVE_GETOPT_LONG",
        "HAVE_GETRANDOM",
        "HAVE_GETRUSAGE",
        "HAVE_IMMINTRIN_H",
        "HAVE_INTTYPES_H",
        "HAVE_LIMITS_H",
        "HAVE_LOCALE_H",
        "HAVE_MBRTOWC",
        "HAVE_MEMORY_H",
        "HAVE_OPEN",
        "HAVE_POSIX_FADVISE",
        "HAVE_REALLOC",
        "HAVE_SETLOCALE",
        "HAVE_SETRLIMIT",
        "HAVE_SNPRINTF",
        "HAVE_STDARG_H",
        "HAVE_STDBOOL_H",
        "HAVE_STDINT_H",
        "HAVE_STDIO_H",
        "HAVE_STDLIB_H",
        "HAVE_STRCASECMP",
        "HAVE_STRDUP",
        "HAVE_STRERROR",
        "HAVE_STRING_H",
        "HAVE_STRINGS_H",
        "HAVE_STRNCASECMP",
        "HAVE_STRTOLL",
        "HAVE_STRTOULL",
        "HAVE_ARPA_INET_H",
        "HAVE_ERRNO_H",
        "HAVE_NET_IF_H",
        "HAVE_NETDB_H",
        "HAVE_NETINET_IN_H",
        "HAVE_NETINET_IP_H",
        "HAVE_NETINET_TCP_H",
        "HAVE_POLL_H",
        "HAVE_PTHREAD_H",
        "HAVE_SCHED_H",
        "HAVE_SIGNAL_H",
        "HAVE_STDALIGN_H",
        "HAVE_STDDEF_H",
        "HAVE_TIME_H",
        "HAVE_SYS_IOCTL_H",
        "HAVE_SYS_MMAN_H",
        "HAVE_SYS_MSG_H",
        "HAVE_SYS_SELECT_H",
        "HAVE_SYS_SOCKET_H",
        "HAVE_SYS_UIO_H",
        "HAVE_SYS_CDEFS_H",
        "HAVE_SYS_PARAM_H",
        "HAVE_SYS_RANDOM_H",
        "HAVE_SYS_RESOURCE_H",
        "HAVE_SYS_STAT_H",
        "HAVE_SYS_TIME_H",
        "HAVE_SYS_TYPES_H",
        "HAVE_SYSLOG_H",
        "HAVE_UNISTD_H",
        "HAVE_USELOCALE",
        "HAVE_USELOCALE",
        "HAVE_VASPRINTF",
        "HAVE_VPRINTF",
        "HAVE_VSNPRINTF",
        "HAVE_VSYSLOG",
        "HAVE_WCHAR_H",
        "HAVE_XLOCALE_H",
        "STDC_HEADERS",
        "SIZEOF_INT",
        "SIZEOF_INT64_T",
        "SIZEOF_LONG",
        "SIZEOF_LONG_LONG",
        "SIZEOF_SIZE_T",
        "SIZEOF_SSIZE_T"
    ];
    assert(r@.map_values(|s: &'static str| s@) =~= catalog_defines());
    r
}

/// Whether `define` is a catalog fact. Exact match only: a prefixed alias
/// (`JSON_C_HAVE_INTTYPES_H`) is not guessed to mean a catalog entry.
pub fn is_catalog_define(define: &str) -> (r: bool)
    ensures
        r == catalog_defines().contains(define@),
{
    let list = catalog_list();
    let ghost cat = catalog_defines();
    let mut i: usize = 0;
    while i < list.len()
        invariant
            i <= list@.len(),
            list@.map_values(|s: &'static str| s@) == cat,
            cat == catalog_defines(),
            forall|k: int| 0 <= k < i ==> cat[k] != define@,
        decreases list.len() - i,
    {
        assert(cat[i as int] == list@[i as int]@);
        if str_eq(list[i], define) {
            return true;
        }
        i += 1;
    }
    proof {
        if cat.contains(define@) {
            let k = choose|k: int| 0 <= k < cat.len() && cat[k] == define@;
            assert(cat[k] != define@);
        }
    }
    false
}

/// `s` with ASCII letters lowercased.
pub open spec fn ascii_lowercase(s: Seq<char>) -> Seq<char> {
    s.map_values(|c: char| lower_char(c))
}

/// The probe label of a catalog fact: its name lowercased under
/// `@cc_config//catalog:`.
pub open spec fn catalog_label_spec(define: Seq<char>) -> Option<Seq<char>> {
    if catalog_defines().contains(define) {
        Some("@cc_config//catalog:"@ + ascii_lowercase(define))
    } else {
        None
    }
}

/// The `@cc_config//catalog:<target>` label for a catalog define, or
/// `None` if the define is not in the catalog. The target name is the
/// define lowercased (catalog names are ASCII).
pub fn catalog_label(define: &str) -> (r: Option<String>)
    ensures
        opt_view(r) == catalog_label_spec(define@),
{
    if !is_catalog_define(define) {
        return None;
    }
    let d = chars_of(define);
    let mut r = chars_of("@cc_config//catalog:");
    let ghost head = r@;
    let mut i: usize = 0;
    while i < d.len()
        invariant
            i <= d@.len(),
            r@ == head + d@.take(i as int).map_values(|c: char| lower_char(c)),
        decreases d.len() - i,
    {
        r.push(crate::text::to_ascii_lower(d[i]));
        i += 1;
        assert(r@ =~= head + d@.take(i as int).map_values(|c: char| lower_char(c)));
    }
    assert(d@.take(d@.len() as int) =~= d@);
    Some(string_of(r.as_slice()))
}

/// The macros a `configure_file` template references: `#cmakedefine`
/// names and `@VAR@` names, each deduplicated in first-seen order. A name
/// can be both (`#cmakedefine FOO @FOO@`).
#[derive(Debug, Clone, PartialEq, Eq, Default)]
pub struct TemplateMacros {
    pub cmakedefines: Vec<String>,
    pub vars: Vec<String>,
}

/// The first whitespace-separated word of `s`.
pub open spec fn first_word(s: Seq<char>) -> Option<Seq<char>> {
    if split_ws(s).len() > 0 {
        Some(split_ws(s)[0])
    } else {
        None
    }
}

/// The name a `#cmakedefine NAME` or `#cmakedefine01 NAME` line declares.
pub open spec fn cmakedefine_in(line: Seq<char>) -> Option<Seq<char>> {
    let t = trim_start(line);
    if has_prefix(t, "#cmakedefine01"@) {
        first_word(t.skip("#cmakedefine01"@.len() as int))
    } else if has_prefix(t, "#cmakedefine"@) {
        first_word(t.skip("#cmakedefine"@.len() as int))
    } else {
        None
    }
}

pub open spec fn cmakedefines_in(ls: Seq<Seq<char>>) -> Seq<Seq<char>>
    decreases ls.len(),
{
    if ls.len() == 0 {
        seq![]
    } else {
        cmakedefines_in(ls.drop_last()) + match cmakedefine_in(ls.last()) {
            Some(n) => seq![n],
            None => seq![],
        }
    }
}

pub open spec fn is_ident_char(c: char) -> bool {
    is_ascii_alnum(c) || c == '_'
}

/// A variable name: non-empty, identifier characters only. `@@` (CMake's
/// escape for a literal `@`) yields an empty name, which is none.
pub open spec fn is_var_name(n: Seq<char>) -> bool {
    n.len() > 0 && forall|k: int| 0 <= k < n.len() ==> is_ident_char(#[trigger] n[k])
}

/// The `@VAR@` names of `l` from position `i`: each `@`, then the next
/// `@`, and what lies between when it is a name; scanning resumes after
/// the closing `@`.
pub open spec fn vars_from(l: Seq<char>, i: int) -> Seq<Seq<char>>
    decreases l.len() - i,
{
    if i < 0 || i > l.len() {
        seq![]
    } else {
        match find_from(l, seq!['@'], i) {
            None => seq![],
            Some(a) => match find_from(l, seq!['@'], a + 1) {
                None => seq![],
                Some(b) => if b < i || b >= l.len() {
                    seq![]
                } else {
                    let name = l.subrange(a + 1, b);
                    (if is_var_name(name) {
                        seq![name]
                    } else {
                        seq![]
                    }) + vars_from(l, b + 1)
                },
            },
        }
    }
}

pub open spec fn vars_in(ls: Seq<Seq<char>>) -> Seq<Seq<char>>
    decreases ls.len(),
{
    if ls.len() == 0 {
        seq![]
    } else {
        vars_in(ls.drop_last()) + vars_from(ls.last(), 0)
    }
}

/// What a template references.
pub open spec fn template_macros(text: Seq<char>) -> (Seq<Seq<char>>, Seq<Seq<char>>) {
    (dedup_first(cmakedefines_in(lines(text))), dedup_first(vars_in(lines(text))))
}

fn first_word_of(s: &[char]) -> (r: Option<String>)
    ensures
        opt_view(r) == first_word(s@),
{
    let w = split_whitespace(s);
    if w.len() > 0 {
        assert(views(w@)[0] == w@[0]@);
        Some(string_of(w[0].as_slice()))
    } else {
        None
    }
}

fn cmakedefine_of(line: &[char]) -> (r: Option<String>)
    ensures
        opt_view(r) == cmakedefine_in(line@),
{
    let t = trim_start_ws(line);
    let d01 = chars_of("#cmakedefine01");
    let d = chars_of("#cmakedefine");
    if starts_with(t.as_slice(), d01.as_slice()) {
        let rest = subvec(t.as_slice(), d01.len(), t.len());
        assert(rest@ =~= t@.skip(d01@.len() as int));
        first_word_of(rest.as_slice())
    } else if starts_with(t.as_slice(), d.as_slice()) {
        let rest = subvec(t.as_slice(), d.len(), t.len());
        assert(rest@ =~= t@.skip(d@.len() as int));
        first_word_of(rest.as_slice())
    } else {
        None
    }
}

fn var_name(n: &[char]) -> (r: bool)
    ensures
        r == is_var_name(n@),
{
    if n.len() == 0 {
        return false;
    }
    let mut k: usize = 0;
    while k < n.len()
        invariant
            k <= n@.len(),
            forall|j: int| 0 <= j < k ==> is_ident_char(#[trigger] n@[j]),
        decreases n.len() - k,
    {
        if !(crate::text::ascii_alnum(n[k]) || n[k] == '_') {
            return false;
        }
        k += 1;
    }
    true
}

fn vars_of_line(l: &[char]) -> (r: Vec<String>)
    ensures
        strs(r@) == vars_from(l@, 0),
{
    let at: [char; 1] = ['@'];
    assert(at@ =~= seq!['@']);
    let mut r: Vec<String> = Vec::new();
    let mut i: usize = 0;
    loop
        invariant
            i <= l@.len(),
            at@ == seq!['@'],
            strs(r@) + vars_from(l@, i as int) == vars_from(l@, 0),
        decreases l@.len() - i,
    {
        match find_at(l, &at, i) {
            None => {
                assert(strs(r@) =~= vars_from(l@, 0));
                return r;
            },
            Some(a) => {
                proof {
                    lemma_find_from(l@, at@, i as int);
                }
                assert(a < l@.len());
                assert(l@.len() == l.len());
                match find_at(l, &at, a + 1) {
                    None => {
                        assert(strs(r@) =~= vars_from(l@, 0));
                        return r;
                    },
                    Some(b) => {
                        proof {
                            lemma_find_from(l@, at@, a + 1);
                        }
                        assert(b < l@.len());
                        assert(l@.len() == l.len());
                        let name = subvec(l, a + 1, b);
                        let ghost before = strs(r@);
                        if var_name(name.as_slice()) {
                            r.push(string_of(name.as_slice()));
                            assert(strs(r@) =~= before + seq![name@]);
                        } else {
                            assert(strs(r@) =~= before + Seq::empty());
                        }
                        assert(strs(r@) + vars_from(l@, b + 1) =~= before + vars_from(
                            l@,
                            i as int,
                        ));
                        i = b + 1;
                    },
                }
            },
        }
    }
}

/// Parses a template's text for the macros it references, each
/// deduplicated in first-seen order. `@VAR@`s inside comments count:
/// `configure_file` substitutes there too.
pub fn parse_template_macros(template: &str) -> (r: TemplateMacros)
    ensures
        (strs(r.cmakedefines@), strs(r.vars@)) == template_macros(template@),
{
    let t = chars_of(template);
    let ls = lines_of(t.as_slice());
    let ghost lv = views(ls@);
    assert(lv =~= lines(template@));
    let mut defs: Vec<String> = Vec::new();
    let mut vars: Vec<String> = Vec::new();
    let mut i: usize = 0;
    while i < ls.len()
        invariant
            i <= ls@.len(),
            lv == views(ls@),
            strs(defs@) == cmakedefines_in(lv.take(i as int)),
            strs(vars@) == vars_in(lv.take(i as int)),
        decreases ls.len() - i,
    {
        proof {
            assert(lv.take(i + 1).drop_last() =~= lv.take(i as int));
            assert(lv.take(i + 1).last() == ls@[i as int]@);
        }
        let ghost bd = strs(defs@);
        match cmakedefine_of(ls[i].as_slice()) {
            Some(n) => {
                defs.push(n);
                assert(strs(defs@) =~= bd + seq![cmakedefine_in(ls@[i as int]@).unwrap()]);
            },
            None => {
                assert(strs(defs@) =~= bd + Seq::empty());
            },
        }
        let line_vars = vars_of_line(ls[i].as_slice());
        crate::codegen::extend_strings(&mut vars, &line_vars);
        i += 1;
    }
    assert(lv.take(lv.len() as int) =~= lv);
    TemplateMacros { cmakedefines: dedup_strings(&defs), vars: dedup_strings(&vars) }
}

/// Every `@VAR@` name a template substitutes, deduplicated in first-seen
/// order.
pub fn substituted_names(template: &str) -> (r: Vec<String>)
    ensures
        strs(r@) == template_macros(template@).1,
{
    parse_template_macros(template).vars
}

/// The value of the last entry named `name`: a later entry overrides an
/// earlier one, as when the entries are collected into a map.
pub open spec fn lookup(entries: Seq<(Seq<char>, Seq<char>)>, name: Seq<char>) -> Option<Seq<char>>
    decreases entries.len(),
{
    if entries.len() == 0 {
        None
    } else if entries.last().0 == name {
        Some(entries.last().1)
    } else {
        lookup(entries.drop_last(), name)
    }
}

/// Looks a name up among `(name, value)` entries, the last one winning.
pub fn lookup_value(entries: &Vec<(String, String)>, name: &str) -> (r: Option<String>)
    ensures
        opt_view(r) == lookup(pairs(entries@), name@),
{
    let mut i = entries.len();
    assert(pairs(entries@).take(i as int) =~= pairs(entries@));
    while i > 0
        invariant
            i <= entries@.len(),
            lookup(pairs(entries@), name@) == lookup(pairs(entries@).take(i as int), name@),
        decreases i,
    {
        assert(pairs(entries@).take(i as int).drop_last() =~= pairs(entries@).take(i - 1));
        if str_eq(entries[i - 1].0.as_str(), name) {
            return Some(entries[i - 1].1.clone());
        }
        i -= 1;
    }
    None
}

/// A template variable's value in the CMake cache, falling back from
/// `PROJECT_VERSION*` (a plain variable `project()` sets) to the
/// `CMAKE_PROJECT_VERSION*` entry the cache records it under.
pub open spec fn cache_value_spec(name: Seq<char>, cache: Seq<(Seq<char>, Seq<char>)>) -> Option<
    Seq<char>,
> {
    match lookup(cache, name) {
        Some(v) => Some(v),
        None => if has_prefix(name, "PROJECT_VERSION"@) {
            lookup(cache, "CMAKE_PROJECT_VERSION"@ + name.skip("PROJECT_VERSION"@.len() as int))
        } else {
            None
        },
    }
}

/// Looks a template variable up in the CMake cache, with the
/// `PROJECT_VERSION` family's fallback.
pub fn cache_value(name: &str, cache: &Vec<(String, String)>) -> (r: Option<String>)
    ensures
        opt_view(r) == cache_value_spec(name@, pairs(cache@)),
{
    match lookup_value(cache, name) {
        Some(v) => Some(v),
        None => {
            let n = chars_of(name);
            let p = chars_of("PROJECT_VERSION");
            if starts_with(n.as_slice(), p.as_slice()) {
                let mut key = chars_of("CMAKE_PROJECT_VERSION");
                let rest = subvec(n.as_slice(), p.len(), n.len());
                assert(rest@ =~= name@.skip(p@.len() as int));
                crate::text::push_all(&mut key, rest.as_slice());
                let k = string_of(key.as_slice());
                lookup_value(cache, k.as_str())
            } else {
                None
            }
        },
    }
}

/// The elements of `s` that `p` accepts, in order.
pub open spec fn select(s: Seq<Seq<char>>, p: spec_fn(Seq<char>) -> bool) -> Seq<Seq<char>>
    decreases s.len(),
{
    if s.len() == 0 {
        seq![]
    } else if p(s.last()) {
        select(s.drop_last(), p).push(s.last())
    } else {
        select(s.drop_last(), p)
    }
}

pub open spec fn is_catalog(n: Seq<char>) -> bool {
    catalog_defines().contains(n)
}

/// A config header plan as its plain values: output, template, where to
/// copy the template from, probes, values, dialect.
pub open spec fn plan_view(h: ConfigHeader) -> (
    Seq<char>,
    Seq<char>,
    Option<Seq<char>>,
    Seq<Seq<char>>,
    Seq<(Seq<char>, Seq<char>)>,
    ConfigDialect,
) {
    (h.output@, h.template@, opt_view(h.template_source), strs(h.catalog_probes@), pairs(h.values@), h.dialect)
}

pub open spec fn catalog_pred() -> spec_fn(Seq<char>) -> bool {
    |n: Seq<char>| is_catalog(n)
}

pub open spec fn unmapped_pred(cache: Seq<(Seq<char>, Seq<char>)>) -> spec_fn(Seq<char>) -> bool {
    |n: Seq<char>| !is_catalog(n) && cache_value_spec(n, cache) is None
}

pub open spec fn valued_pred(cache: Seq<(Seq<char>, Seq<char>)>) -> spec_fn(Seq<char>) -> bool {
    |n: Seq<char>| !is_catalog(n) && cache_value_spec(n, cache) is Some
}

pub open spec fn probe_label(n: Seq<char>) -> Seq<char> {
    "@cc_config//catalog:"@ + ascii_lowercase(n)
}

/// The plan for a template's macros, and the names it cannot resolve.
/// Each referenced name is, in order: a catalog probe when it is a catalog
/// fact (by either form, so a fact is never taken from this host's cache);
/// a cache value when it is in the cache; else unmapped.
pub open spec fn resolved_plan(
    template: Seq<char>,
    output: Seq<char>,
    defines: Seq<Seq<char>>,
    vars: Seq<Seq<char>>,
    cache: Seq<(Seq<char>, Seq<char>)>,
) -> (
    (Seq<char>, Seq<char>, Option<Seq<char>>, Seq<Seq<char>>, Seq<(Seq<char>, Seq<char>)>, ConfigDialect),
    Seq<Seq<char>>,
) {
    let all = defines + vars;
    let probes = dedup_first(select(all, catalog_pred())).map_values(|n: Seq<char>| probe_label(n));
    let unmapped = dedup_first(select(all, unmapped_pred(cache)));
    let valued = dedup_first(select(vars + defines, valued_pred(cache)));
    let values = valued.map_values(|n: Seq<char>| (n, cache_value_spec(n, cache).unwrap()));
    let dialect = if defines.len() == 0 {
        ConfigDialect::Substitution
    } else {
        ConfigDialect::Cmakedefine
    };
    ((output, template, None, probes, values, dialect), unmapped)
}

proof fn lemma_select_accepts(s: Seq<Seq<char>>, p: spec_fn(Seq<char>) -> bool)
    ensures
        forall|k: int| 0 <= k < select(s, p).len() ==> p(#[trigger] select(s, p)[k]),
    decreases s.len(),
{
    if s.len() > 0 {
        lemma_select_accepts(s.drop_last(), p);
        let r = select(s.drop_last(), p);
        if p(s.last()) {
            assert forall|k: int| 0 <= k < select(s, p).len() implies p(
                #[trigger] select(s, p)[k],
            ) by {
                if k < r.len() {
                    assert(select(s, p)[k] == r[k]);
                }
            }
        }
    }
}

proof fn lemma_dedup_from(s: Seq<Seq<char>>)
    ensures
        forall|k: int| 0 <= k < dedup_first(s).len() ==> s.contains(#[trigger] dedup_first(s)[k]),
    decreases s.len(),
{
    if s.len() > 0 {
        lemma_dedup_from(s.drop_last());
        assert forall|k: int| 0 <= k < dedup_first(s).len() implies s.contains(
            #[trigger] dedup_first(s)[k],
        ) by {
            let r = dedup_first(s.drop_last());
            if k < r.len() {
                assert(r[k] == dedup_first(s)[k]);
                let j = choose|j: int| 0 <= j < s.drop_last().len() && s.drop_last()[j] == r[k];
                assert(s[j] == r[k]);
            } else {
                assert(dedup_first(s)[k] == s.last());
                assert(s[s.len() - 1] == s.last());
            }
        }
    }
}

/// Every name kept by selecting with `p` and deduplicating satisfies `p`.
proof fn lemma_selected(s: Seq<Seq<char>>, p: spec_fn(Seq<char>) -> bool)
    ensures
        forall|k: int|
            0 <= k < dedup_first(select(s, p)).len() ==> p(#[trigger] dedup_first(select(s, p))[k]),
{
    lemma_select_accepts(s, p);
    lemma_dedup_from(select(s, p));
    assert forall|k: int| 0 <= k < dedup_first(select(s, p)).len() implies p(
        #[trigger] dedup_first(select(s, p))[k],
    ) by {
        let x = dedup_first(select(s, p))[k];
        assert(select(s, p).contains(x));
        let j = choose|j: int| 0 <= j < select(s, p).len() && select(s, p)[j] == x;
        assert(p(select(s, p)[j]));
    }
}

fn concat_strings(a: &Vec<String>, b: &Vec<String>) -> (r: Vec<String>)
    ensures
        strs(r@) == strs(a@) + strs(b@),
{
    let mut r = crate::text::clone_strings(a);
    crate::codegen::extend_strings(&mut r, b);
    r
}

/// The names of `all` that `which` picks: catalog facts (0), unmapped
/// names (1) or cache-valued names (2).
fn select_names(all: &Vec<String>, cache: &Vec<(String, String)>, which: u8) -> (r: Vec<String>)
    requires
        which <= 2,
    ensures
        strs(r@) == select(
            strs(all@),
            if which == 0 {
                catalog_pred()
            } else if which == 1 {
                unmapped_pred(pairs(cache@))
            } else {
                valued_pred(pairs(cache@))
            },
        ),
{
    let ghost p = if which == 0 {
        catalog_pred()
    } else if which == 1 {
        unmapped_pred(pairs(cache@))
    } else {
        valued_pred(pairs(cache@))
    };
    let mut r: Vec<String> = Vec::new();
    let mut i: usize = 0;
    while i < all.len()
        invariant
            i <= all@.len(),
            which <= 2,
            p == (if which == 0 {
                catalog_pred()
            } else if which == 1 {
                unmapped_pred(pairs(cache@))
            } else {
                valued_pred(pairs(cache@))
            }),
            strs(r@) == select(strs(all@).take(i as int), p),
        decreases all.len() - i,
    {
        proof {
            assert(strs(all@).take(i + 1).drop_last() =~= strs(all@).take(i as int));
            assert(strs(all@).take(i + 1).last() == all@[i as int]@);
        }
        let n = all[i].as_str();
        let catalog = is_catalog_define(n);
        let keep = if which == 0 {
            catalog
        } else if which == 1 {
            !catalog && cache_value(n, cache).is_none()
        } else {
            !catalog && cache_value(n, cache).is_some()
        };
        if keep {
            let ghost before = strs(r@);
            r.push(all[i].clone());
            assert(strs(r@) =~= before.push(all@[i as int]@));
        }
        i += 1;
    }
    assert(strs(all@).take(all@.len() as int) =~= strs(all@));
    r
}

/// Turns a `configure_file` call's macros into a plan for a
/// `config_header` rule, and returns the names the catalog and the cache
/// both miss, which the caller escalates rather than emitting a header
/// missing defines. `template_relative` and `output_relative` are already
/// module-relative.
pub fn resolve_config_header(
    template_relative: &str,
    output_relative: &str,
    macros: &TemplateMacros,
    cache: &Vec<(String, String)>,
) -> (r: (ConfigHeader, Vec<String>))
    ensures
        (plan_view(r.0), strs(r.1@)) == resolved_plan(
            template_relative@,
            output_relative@,
            strs(macros.cmakedefines@),
            strs(macros.vars@),
            pairs(cache@),
        ),
        r.0.options@.len() == 0,
        r.0.splices@.len() == 0,
        r.0.shadow_dir is None,
{
    let ghost c = pairs(cache@);
    let all = concat_strings(&macros.cmakedefines, &macros.vars);
    let all_rev = concat_strings(&macros.vars, &macros.cmakedefines);
    let probe_names = dedup_strings(&select_names(&all, cache, 0));
    let unmapped = dedup_strings(&select_names(&all, cache, 1));
    let valued = dedup_strings(&select_names(&all_rev, cache, 2));
    let ghost pn = strs(probe_names@);
    proof {
        lemma_selected(strs(all@), catalog_pred());
        assert forall|k: int| 0 <= k < pn.len() implies is_catalog(#[trigger] pn[k]) by {
            assert(catalog_pred()(pn[k]));
        }
        lemma_selected(strs(all_rev@), valued_pred(c));
    }
    let mut probes: Vec<String> = Vec::new();
    let mut i: usize = 0;
    while i < probe_names.len()
        invariant
            i <= probe_names@.len(),
            pn == strs(probe_names@),
            forall|k: int| 0 <= k < pn.len() ==> is_catalog(#[trigger] pn[k]),
            strs(probes@) == pn.take(i as int).map_values(|n: Seq<char>| probe_label(n)),
        decreases probe_names.len() - i,
    {
        assert(is_catalog(pn[i as int]));
        let label = catalog_label(probe_names[i].as_str());
        let l = match label {
            Some(l) => l,
            None => String::new(),
        };
        let ghost before = strs(probes@);
        probes.push(l);
        assert(strs(probes@) =~= before.push(probe_label(pn[i as int])));
        i += 1;
        assert(pn.take(i as int).map_values(|n: Seq<char>| probe_label(n)) =~= pn.take(i - 1).map_values(
            |n: Seq<char>| probe_label(n),
        ).push(probe_label(pn[i - 1])));
    }
    assert(pn.take(pn.len() as int) =~= pn);
    let ghost vn = strs(valued@);
    let mut values: Vec<(String, String)> = Vec::new();
    let mut j: usize = 0;
    while j < valued.len()
        invariant
            j <= valued@.len(),
            vn == strs(valued@),
            c == pairs(cache@),
            forall|k: int| 0 <= k < vn.len() ==> valued_pred(c)(#[trigger] vn[k]),
            pairs(values@) == vn.take(j as int).map_values(
                |n: Seq<char>| (n, cache_value_spec(n, c).unwrap()),
            ),
        decreases valued.len() - j,
    {
        let v = match cache_value(valued[j].as_str(), cache) {
            Some(v) => v,
            None => String::new(),
        };
        let ghost before = pairs(values@);
        let ghost n = vn[j as int];
        assert(n == valued@[j as int]@);
        assert(valued_pred(c)(n));
        let ghost e = (n, cache_value_spec(n, c).unwrap());
        values.push((valued[j].clone(), v));
        assert(pairs(values@) =~= before.push(e));
        j += 1;
        assert(vn.take(j as int).map_values(|n: Seq<char>| (n, cache_value_spec(n, c).unwrap()))
            =~= vn.take(j - 1).map_values(|n: Seq<char>| (n, cache_value_spec(n, c).unwrap())).push(
            e,
        ));
    }
    assert(vn.take(vn.len() as int) =~= vn);
    let dialect = if macros.cmakedefines.len() == 0 {
        ConfigDialect::Substitution
    } else {
        ConfigDialect::Cmakedefine
    };
    let header = ConfigHeader {
        output: output_relative.to_owned(),
        template: template_relative.to_owned(),
        template_source: None,
        catalog_probes: probes,
        values,
        options: Vec::new(),
        splices: Vec::new(),
        dialect,
        shadow_dir: None,
    };
    (header, unmapped)
}


/// One `configure_file(<template> <output> ...)` call the project made,
/// recovered from the configure trace with both paths resolved absolute.
#[derive(Debug, Clone, PartialEq, Eq)]
pub struct ConfigureFile {
    pub template: String,
    pub output: String,
}

/// A path argument from the trace: absolute as it is, relative against the
/// calling file's directory; normalized.
pub open spec fn trace_path(path: Seq<char>, site_dir: Option<Seq<char>>) -> Seq<char> {
    normalize(
        if is_absolute(path) {
            path
        } else {
            match site_dir {
                Some(d) => join_path(d, path),
                None => path,
            }
        },
    )
}

/// The directory of the file a trace line names before `(<line>):`.
pub open spec fn site_dir_of(line: Seq<char>, idx: int) -> Option<Seq<char>> {
    match rfind(line.take(idx), "):"@) {
        None => None,
        Some(paren) => match rfind(line.take(paren), seq!['(']) {
            None => None,
            Some(open) => parent(line.take(open)),
        },
    }
}

/// The arguments of a `configure_file(` at `idx`: up to the end of the
/// line, without trailing whitespace and closing parentheses.
pub open spec fn call_args(line: Seq<char>, idx: int) -> Seq<char> {
    trim(trim_end_by(trim_end(line.skip(idx + "configure_file("@.len())), one_of(seq![')'])))
}

/// The call a trace line records, if it is one of the project's own: its
/// template lies under the source or the build directory (CMake's internal
/// calls have theirs under the CMake installation).
pub open spec fn trace_call(line: Seq<char>, source_dir: Seq<char>, build_dir: Seq<char>) -> Option<
    (Seq<char>, Seq<char>),
> {
    match find(line, "configure_file("@) {
        None => None,
        Some(idx) => {
            let site = site_dir_of(line, idx);
            let toks = split_ws(call_args(line, idx));
            if toks.len() < 2 {
                None
            } else {
                let template = trace_path(toks[0], site);
                if !path_starts_with(template, source_dir) && !path_starts_with(template, build_dir) {
                    None
                } else {
                    Some((template, trace_path(toks[1], site)))
                }
            }
        },
    }
}

pub open spec fn trace_calls(ls: Seq<Seq<char>>, source_dir: Seq<char>, build_dir: Seq<char>) -> Seq<
    (Seq<char>, Seq<char>),
>
    decreases ls.len(),
{
    if ls.len() == 0 {
        seq![]
    } else {
        trace_calls(ls.drop_last(), source_dir, build_dir) + match trace_call(
            ls.last(),
            source_dir,
            build_dir,
        ) {
            Some(c) => seq![c],
            None => seq![],
        }
    }
}

pub open spec fn calls_view(calls: Seq<ConfigureFile>) -> Seq<(Seq<char>, Seq<char>)> {
    calls.map_values(|c: ConfigureFile| (c.template@, c.output@))
}

fn trace_path_of(path: &[char], site_dir: &Option<Vec<char>>) -> (r: Vec<char>)
    ensures
        r@ == trace_path(
            path@,
            match site_dir {
                Some(d) => Some(d@),
                None => None,
            },
        ),
{
    if crate::paths::absolute(path) {
        normalize_path(path)
    } else {
        match site_dir {
            Some(d) => normalize_path(join_paths(d.as_slice(), path).as_slice()),
            None => normalize_path(path),
        }
    }
}

fn trace_call_of(line: &[char], source_dir: &[char], build_dir: &[char]) -> (r: Option<
    ConfigureFile,
>)
    ensures
        r matches Some(c) ==> trace_call(line@, source_dir@, build_dir@) == Some(
            (c.template@, c.output@),
        ),
        r is None ==> trace_call(line@, source_dir@, build_dir@) is None,
{
    let marker = chars_of("configure_file(");
    let idx = match find_str(line, marker.as_slice()) {
        Some(i) => i,
        None => return None,
    };
    proof {
        lemma_find_from(line@, marker@, 0);
    }
    let head = subvec(line, 0, idx);
    assert(head@ =~= line@.take(idx as int));
    let close = chars_of("):");
    let open_paren: [char; 1] = ['('];
    assert(open_paren@ =~= seq!['(']);
    let site: Option<Vec<char>> = match rfind_str(head.as_slice(), close.as_slice()) {
        None => None,
        Some(paren) => {
            proof {
                lemma_rfind_before(head@, close@, head@.len() + 1int);
            }
            let before = subvec(line, 0, paren);
            assert(before@ =~= line@.take(paren as int));
            match rfind_str(before.as_slice(), &open_paren) {
                None => None,
                Some(open) => {
                    proof {
                        lemma_rfind_before(before@, open_paren@, before@.len() + 1int);
                    }
                    let file = subvec(line, 0, open);
                    assert(file@ =~= line@.take(open as int));
                    parent_of(file.as_slice())
                },
            }
        },
    };
    let ghost sv = match &site {
        Some(d) => Some(d@),
        None => None,
    };
    assert(sv == site_dir_of(line@, idx as int));
    assert(line@.len() == line.len());
    assert(idx + marker@.len() <= line@.len());
    let rest = subvec(line, idx + marker.len(), line.len());
    assert(rest@ =~= line@.skip(idx + "configure_file("@.len()));
    let parens: [char; 1] = [')'];
    assert(parens@ =~= seq![')']);
    let args = trim_ws(trim_end_set(trim_end_ws(rest.as_slice()).as_slice(), &parens).as_slice());
    let toks = split_whitespace(args.as_slice());
    if toks.len() < 2 {
        return None;
    }
    assert(views(toks@)[0] == toks@[0]@);
    assert(views(toks@)[1] == toks@[1]@);
    let template = trace_path_of(toks[0].as_slice(), &site);
    if !starts_with_path(template.as_slice(), source_dir) && !starts_with_path(
        template.as_slice(),
        build_dir,
    ) {
        return None;
    }
    let output = trace_path_of(toks[1].as_slice(), &site);
    Some(ConfigureFile { template: string_of(template.as_slice()), output: string_of(output.as_slice()) })
}

/// Extracts the project's own `configure_file` calls from a
/// `--trace-expand` trace. Trace lines read `<file>(<line>):
/// configure_file(<in> <out> <flags>)`; a relative path argument is
/// resolved against the calling file's directory, as CMake does, and
/// trailing flags (`@ONLY`, ...) are ignored. A call is the project's own
/// when its template lies under the source directory or the build
/// directory (a template the project generated at configure time).
pub fn parse_configure_files(trace: &str, source_dir: &str, build_dir: &str) -> (r: Vec<
    ConfigureFile,
>)
    ensures
        calls_view(r@) == trace_calls(lines(trace@), source_dir@, build_dir@),
{
    let t = chars_of(trace);
    let src = chars_of(source_dir);
    let build = chars_of(build_dir);
    let ls = lines_of(t.as_slice());
    let ghost lv = views(ls@);
    assert(lv =~= lines(trace@));
    let mut calls: Vec<ConfigureFile> = Vec::new();
    let mut i: usize = 0;
    while i < ls.len()
        invariant
            i <= ls@.len(),
            lv == views(ls@),
            src@ == source_dir@,
            build@ == build_dir@,
            calls_view(calls@) == trace_calls(lv.take(i as int), source_dir@, build_dir@),
        decreases ls.len() - i,
    {
        proof {
            assert(lv.take(i + 1).drop_last() =~= lv.take(i as int));
            assert(lv.take(i + 1).last() == ls@[i as int]@);
        }
        let ghost before = calls_view(calls@);
        match trace_call_of(ls[i].as_slice(), src.as_slice(), build.as_slice()) {
            Some(c) => {
                calls.push(c);
                assert(calls_view(calls@) =~= before + seq![
                    trace_call(ls@[i as int]@, source_dir@, build_dir@).unwrap(),
                ]);
            },
            None => {
                assert(calls_view(calls@) =~= before + Seq::empty());
            },
        }
        i += 1;
    }
    assert(lv.take(lv.len() as int) =~= lv);
    calls
}


/// An escalation as its four plain values.
pub open spec fn item_view(e: NeedsAttention) -> (Seq<char>, Seq<char>, Seq<char>, Seq<char>) {
    (e.kind@, e.title@, e.gap@, e.subject@)
}

/// Where a template lives inside the module, and where to copy it from
/// when it is not already there: in the module as it is; generated into the
/// build directory, staged by its file name; anywhere else, unreachable.
pub open spec fn staged_template(template: Seq<char>, module_root: Seq<char>, build_dir: Seq<char>) -> Option<
    (Seq<char>, Option<Seq<char>>),
> {
    match strip_path_prefix(template, module_root) {
        Some(rel) => Some((rel, None)),
        None => if path_starts_with(template, build_dir) {
            match file_name(template) {
                Some(n) => Some((n, Some(template))),
                None => None,
            }
        } else {
            None
        },
    }
}

/// A header's name: its file name, or the whole path when it has none.
pub open spec fn output_name(output: Seq<char>) -> Seq<char> {
    match file_name(output) {
        Some(n) => n,
        None => output,
    }
}

/// The plan for one call whose template is staged at `rel` and reads
/// `text`: the resolved plan with its template source, and the unmapped
/// names.
pub open spec fn call_plan(
    output: Seq<char>,
    rel: Seq<char>,
    source: Option<Seq<char>>,
    text: Seq<char>,
    cache: Seq<(Seq<char>, Seq<char>)>,
) -> (
    (Seq<char>, Seq<char>, Option<Seq<char>>, Seq<Seq<char>>, Seq<(Seq<char>, Seq<char>)>, ConfigDialect),
    Seq<Seq<char>>,
) {
    let m = template_macros(text);
    let (p, unmapped) = resolved_plan(rel, output_name(output), m.0, m.1, cache);
    ((p.0, p.1, source, p.3, p.4, p.5), unmapped)
}

/// The plans of every header-producing call whose template is reachable
/// and was read.
pub open spec fn config_plans(
    calls: Seq<ConfigureFile>,
    texts: Seq<Option<String>>,
    module_root: Seq<char>,
    build_dir: Seq<char>,
    cache: Seq<(Seq<char>, Seq<char>)>,
) -> Seq<(Seq<char>, Seq<char>, Option<Seq<char>>, Seq<Seq<char>>, Seq<(Seq<char>, Seq<char>)>, ConfigDialect)>
    decreases calls.len(),
{
    if calls.len() == 0 || texts.len() != calls.len() {
        seq![]
    } else {
        let c = calls.last();
        config_plans(calls.drop_last(), texts.drop_last(), module_root, build_dir, cache) + if !ext_is(
            c.output@,
            |e: Seq<char>| interface_ext(e),
        ) {
            seq![]
        } else {
            match staged_template(c.template@, module_root, build_dir) {
                None => seq![],
                Some((rel, source)) => match texts.last() {
                    None => seq![],
                    Some(text) => seq![call_plan(c.output@, rel, source, text@, cache).0],
                },
            }
        }
    }
}

/// The escalations of the calls: an unreachable template, or macros no
/// probe or cache value answers.
pub open spec fn config_escalations(
    calls: Seq<ConfigureFile>,
    texts: Seq<Option<String>>,
    module_root: Seq<char>,
    build_dir: Seq<char>,
    cache: Seq<(Seq<char>, Seq<char>)>,
) -> Seq<(Seq<char>, Seq<char>, Seq<char>, Seq<char>)>
    decreases calls.len(),
{
    if calls.len() == 0 || texts.len() != calls.len() {
        seq![]
    } else {
        let c = calls.last();
        config_escalations(calls.drop_last(), texts.drop_last(), module_root, build_dir, cache)
            + if !ext_is(c.output@, |e: Seq<char>| interface_ext(e)) {
            seq![]
        } else {
            match staged_template(c.template@, module_root, build_dir) {
                None => seq![
                    (
                        "generated_config_header"@,
                        crate::needs_attention::generated_header_title(c.output@),
                        "The build generates these, and nothing reproduces them:\n"@
                            + crate::needs_attention::bullets(seq![c.template@]),
                        c.output@,
                    ),
                ],
                Some((rel, source)) => match texts.last() {
                    None => seq![],
                    Some(text) => {
                        let unmapped = call_plan(c.output@, rel, source, text@, cache).1;
                        if unmapped.len() == 0 {
                            seq![]
                        } else {
                            seq![
                                (
                                    "unmapped_config_macros"@,
                                    "Config header `"@ + output_name(c.output@)
                                        + "` has macros no probe answers"@,
                                    "Its template `"@ + rel + "` declares these:\n"@
                                        + crate::needs_attention::bullets(unmapped),
                                    output_name(c.output@),
                                ),
                            ]
                        }
                    },
                },
            }
        }
    }
}

fn staged_template_of(template: &String, module_root: &[char], build_dir: &[char]) -> (r: Option<
    (String, Option<String>),
>)
    ensures
        match r {
            Some((rel, source)) => staged_template(template@, module_root@, build_dir@) == Some(
                (rel@, opt_view(source)),
            ),
            None => staged_template(template@, module_root@, build_dir@) is None,
        },
{
    let t = chars(template);
    match strip_prefix_path(t.as_slice(), module_root) {
        Some(rel) => Some((string_of(rel.as_slice()), None)),
        None => {
            if starts_with_path(t.as_slice(), build_dir) {
                match file_name_of(t.as_slice()) {
                    Some(n) => Some((string_of(n.as_slice()), Some(template.clone()))),
                    None => None,
                }
            } else {
                None
            }
        },
    }
}

fn output_name_of(output: &String) -> (r: String)
    ensures
        r@ == output_name(output@),
{
    let o = chars(output);
    match file_name_of(o.as_slice()) {
        Some(n) => string_of(n.as_slice()),
        None => output.clone(),
    }
}

/// Headers generated in place from a template alone: no option governs
/// them, nothing is spliced in, and none replaces a system header.
pub open spec fn unshadowed(hs: Seq<ConfigHeader>) -> bool {
    forall|i: int|
        0 <= i < hs.len() ==> (#[trigger] hs[i]).options@.len() == 0 && hs[i].splices@.len() == 0
            && hs[i].shadow_dir is None
}

/// Builds the `config_header` plans for a project's `configure_file`
/// calls, with `template_texts[i]` the text of call `i`'s template (`None`
/// when it could not be read). Returns the plans and the escalations for
/// any header that could not be fully resolved.
///
/// Only header outputs are planned: `configure_file` also writes `.pc`,
/// `.cmake` and `.tcl` files, which a converted module omits. A template
/// already in the module is used where it sits; one the project generated
/// into the build directory is staged by its file name (and copied from
/// where it is); one anywhere else is unreachable and escalates.
pub fn build_config_headers(
    configure_files: &Vec<ConfigureFile>,
    module_root: &str,
    build_dir: &str,
    cache: &Vec<(String, String)>,
    template_texts: &Vec<Option<String>>,
) -> (r: (Vec<ConfigHeader>, Vec<NeedsAttention>))
    requires
        template_texts@.len() == configure_files@.len(),
    ensures
        r.0@.map_values(|h: ConfigHeader| plan_view(h)) == config_plans(
            configure_files@,
            template_texts@,
            module_root@,
            build_dir@,
            pairs(cache@),
        ),
        unshadowed(r.0@),
        r.1@.map_values(|e: NeedsAttention| item_view(e)) == config_escalations(
            configure_files@,
            template_texts@,
            module_root@,
            build_dir@,
            pairs(cache@),
        ),
{
    let root = chars_of(module_root);
    let build = chars_of(build_dir);
    let ghost calls = configure_files@;
    let ghost texts = template_texts@;
    let ghost c = pairs(cache@);
    let mut headers: Vec<ConfigHeader> = Vec::new();
    let mut escalations: Vec<NeedsAttention> = Vec::new();
    let mut i: usize = 0;
    while i < configure_files.len()
        invariant
            i <= calls.len(),
            calls == configure_files@,
            texts == template_texts@,
            texts.len() == calls.len(),
            c == pairs(cache@),
            root@ == module_root@,
            build@ == build_dir@,
            unshadowed(headers@),
            headers@.map_values(|h: ConfigHeader| plan_view(h)) == config_plans(
                calls.take(i as int),
                texts.take(i as int),
                module_root@,
                build_dir@,
                c,
            ),
            escalations@.map_values(|e: NeedsAttention| item_view(e)) == config_escalations(
                calls.take(i as int),
                texts.take(i as int),
                module_root@,
                build_dir@,
                c,
            ),
        decreases configure_files.len() - i,
    {
        proof {
            assert(calls.take(i + 1).drop_last() =~= calls.take(i as int));
            assert(texts.take(i + 1).drop_last() =~= texts.take(i as int));
            assert(calls.take(i + 1).last() == calls[i as int]);
            assert(texts.take(i + 1).last() == texts[i as int]);
        }
        let ghost hb = headers@.map_values(|h: ConfigHeader| plan_view(h));
        let ghost eb = escalations@.map_values(|e: NeedsAttention| item_view(e));
        let call = &configure_files[i];
        if is_config_header_output(call.output.as_str()) {
            match staged_template_of(&call.template, root.as_slice(), build.as_slice()) {
                None => {
                    let mut tpl: Vec<String> = Vec::new();
                    tpl.push(call.template.clone());
                    assert(strs(tpl@) =~= seq![call.template@]);
                    let e = generated_config_header_needs_attention(
                        call.output.as_str(),
                        tpl.as_slice(),
                    );
                    escalations.push(e);
                    assert(escalations@.map_values(|e: NeedsAttention| item_view(e)) =~= eb.push(
                        item_view(e),
                    ));
                    assert(headers@.map_values(|h: ConfigHeader| plan_view(h)) =~= hb + Seq::empty());
                },
                Some((rel, source)) => {
                    match &template_texts[i] {
                        None => {
                            assert(headers@.map_values(|h: ConfigHeader| plan_view(h)) =~= hb
                                + Seq::empty());
                            assert(escalations@.map_values(|e: NeedsAttention| item_view(e)) =~= eb
                                + Seq::empty());
                        },
                        Some(text) => {
                            let macros = parse_template_macros(text.as_str());
                            let name = output_name_of(&call.output);
                            let (mut header, unmapped) = resolve_config_header(
                                rel.as_str(),
                                name.as_str(),
                                &macros,
                                cache,
                            );
                            header.template_source = source;
                            if unmapped.len() != 0 {
                                let e = unmapped_config_macros_needs_attention(
                                    name.as_str(),
                                    rel.as_str(),
                                    unmapped.as_slice(),
                                );
                                escalations.push(e);
                                assert(escalations@.map_values(|e: NeedsAttention| item_view(e))
                                    =~= eb.push(item_view(e)));
                            } else {
                                assert(escalations@.map_values(|e: NeedsAttention| item_view(e))
                                    =~= eb + Seq::empty());
                            }
                            headers.push(header);
                            assert(headers@.map_values(|h: ConfigHeader| plan_view(h)) =~= hb.push(
                                plan_view(header),
                            ));
                        },
                    }
                },
            }
        } else {
            assert(headers@.map_values(|h: ConfigHeader| plan_view(h)) =~= hb + Seq::empty());
            assert(escalations@.map_values(|e: NeedsAttention| item_view(e)) =~= eb
                + Seq::empty());
        }
        i += 1;
    }
    assert(calls.take(calls.len() as int) =~= calls);
    assert(texts.take(texts.len() as int) =~= texts);
    (headers, escalations)
}

proof fn lemma_token_runs_to_end(s: Seq<char>, i: int)
    requires
        0 <= i <= s.len(),
        forall|k: int| i <= k < s.len() ==> !crate::text::is_ws(#[trigger] s[k]),
    ensures
        crate::text::token_end(s, i) == s.len(),
{
    crate::text::lemma_token_end(s, i);
    if crate::text::token_end(s, i) < s.len() {
        assert(!crate::text::is_ws(s[crate::text::token_end(s, i)]));
    }
}

proof fn lemma_first_word_after_space(n: Seq<char>)
    requires
        is_var_name(n),
    ensures
        first_word(seq![' '] + n) == Some(n),
{
    let s = seq![' '] + n;
    assert forall|k: int| 1 <= k < s.len() implies !crate::text::is_ws(#[trigger] s[k]) by {
        assert(s[k] == n[k - 1]);
        assert(is_ident_char(n[k - 1]));
    }
    assert(!crate::text::is_ws(s[1])) by {
        assert(s[1] == n[0]);
        assert(is_ident_char(n[0]));
    }
    lemma_token_runs_to_end(s, 2);
    assert(crate::text::split_ws_from(s, s.len() as int) =~= Seq::<Seq<char>>::empty());
    assert(s.subrange(1, s.len() as int) =~= n);
    assert(crate::text::split_ws_from(s, 1) == seq![n] + crate::text::split_ws_from(s, s.len() as int));
    assert(split_ws(s) == crate::text::split_ws_from(s, 1));
    assert(split_ws(s) =~= seq![n]);
}

/// A `#cmakedefine01 N` line declares exactly `N`, and so does a
/// `#cmakedefine N` line, for every name `N`: the `01` of the first form
/// is part of the directive, never the name.
pub proof fn law_cmakedefine_lines_declare_their_name(n: Seq<char>)
    requires
        is_var_name(n),
    ensures
        cmakedefine_in("#cmakedefine01 "@ + n) == Some(n),
        cmakedefine_in("#cmakedefine "@ + n) == Some(n),
{
    reveal_strlit("#cmakedefine01 ");
    reveal_strlit("#cmakedefine ");
    reveal_strlit("#cmakedefine01");
    reveal_strlit("#cmakedefine");
    lemma_first_word_after_space(n);
    let a = "#cmakedefine01 "@ + n;
    assert(!crate::text::is_ws(a[0]));
    assert(trim_start(a) == a);
    assert(a.subrange(0, 14) =~= "#cmakedefine01"@);
    assert(a.skip(14) =~= seq![' '] + n);
    let b = "#cmakedefine "@ + n;
    assert(!crate::text::is_ws(b[0]));
    assert(trim_start(b) == b);
    assert(b[12] == ' ');
    assert(!has_prefix(b, "#cmakedefine01"@)) by {
        if b.len() >= 14 {
            assert(b.subrange(0, 14)[12] == ' ');
            assert("#cmakedefine01"@[12] == '0');
        }
    }
    assert(b.subrange(0, 12) =~= "#cmakedefine"@);
    assert(b.skip(12) =~= seq![' '] + n);
}

} // verus!
