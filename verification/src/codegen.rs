//! Bazel codegen: renders a standalone Bazel module (its own `MODULE.bazel`
//! and `BUILD.bazel`) for a project's `BuildGraph`. The output must build on
//! its own, with no reference back to the translator.
//!
//! Every renderer states its output as a spec function over the graph, so
//! what reaches a generated file is pinned down piece by piece.

use vstd::prelude::*;
use crate::model::{
    module_relative, opt_view, pairs, is_module_relative, BuildGraph, ConfigHeader, Target,
    TargetKind, Test,
};
use crate::text::{
    chars, chars_of, contains_string, is_ascii_alnum, is_ascii_digit, is_ascii_lower, lower_char,
    push_char, push_str, replace, replace_all, sort_dedup, sort_dedup_strings, string_of, strs,
    trim_end_by, ascii_alnum, ascii_digit, ascii_lower, to_ascii_lower,
};

verus! {

/// The two files of a generated module.
pub struct GeneratedModule {
    pub module_bazel: String,
    pub build_bazel: String,
}

/// `value` escaped for a double-quoted Starlark string: backslashes first,
/// then quotes, so the escapes the second pass adds are not escaped again.
pub open spec fn esc(value: Seq<char>) -> Seq<char> {
    replace(replace(value, seq!['\\'], seq!['\\', '\\']), seq!['"'], seq!['\\', '"'])
}

/// Escapes a value for a double-quoted Starlark string.
///
/// A value can legitimately contain quotes: autoconf compiles with
/// `-DPACKAGE_NAME="xz"`, and emitted raw that closes the Starlark string
/// early and the generated BUILD file does not parse.
pub fn escape_starlark(value: &str) -> (r: String)
    ensures
        r@ == esc(value@),
{
    let v = chars_of(value);
    let bs: [char; 1] = ['\\'];
    let bs2: [char; 2] = ['\\', '\\'];
    let q: [char; 1] = ['"'];
    let bq: [char; 2] = ['\\', '"'];
    assert(bs@ =~= seq!['\\']);
    assert(bs2@ =~= seq!['\\', '\\']);
    assert(q@ =~= seq!['"']);
    assert(bq@ =~= seq!['\\', '"']);
    let once = replace_all(v.as_slice(), &bs, &bs2);
    let twice = replace_all(once.as_slice(), &q, &bq);
    string_of(twice.as_slice())
}

/// Each `c` of `s` written as `t`, every other character as itself.
pub open spec fn char_map(s: Seq<char>, c: char, t: Seq<char>) -> Seq<char>
    decreases s.len(),
{
    if s.len() == 0 {
        seq![]
    } else {
        (if s[0] == c {
            t
        } else {
            seq![s[0]]
        }) + char_map(s.drop_first(), c, t)
    }
}

/// How a double-quoted Starlark string reads its text: a backslash makes
/// the character after it literal.
pub open spec fn unescape(s: Seq<char>) -> Seq<char>
    decreases s.len(),
{
    if s.len() == 0 {
        seq![]
    } else if s[0] == '\\' && s.len() >= 2 {
        seq![s[1]] + unescape(s.skip(2))
    } else {
        seq![s[0]] + unescape(s.skip(1))
    }
}

/// One character as `esc` writes it.
pub open spec fn esc_char(x: char) -> Seq<char> {
    if x == '\\' {
        seq!['\\', '\\']
    } else if x == '"' {
        seq!['\\', '"']
    } else {
        seq![x]
    }
}

pub open spec fn esc_map(v: Seq<char>) -> Seq<char>
    decreases v.len(),
{
    if v.len() == 0 {
        seq![]
    } else {
        esc_char(v[0]) + esc_map(v.drop_first())
    }
}

proof fn lemma_char_map_append(a: Seq<char>, b: Seq<char>, c: char, t: Seq<char>)
    ensures
        char_map(a + b, c, t) == char_map(a, c, t) + char_map(b, c, t),
    decreases a.len(),
{
    if a.len() == 0 {
        assert(a + b =~= b);
    } else {
        lemma_char_map_append(a.drop_first(), b, c, t);
        assert((a + b).drop_first() =~= a.drop_first() + b);
        assert((a + b)[0] == a[0]);
    }
}

proof fn lemma_char_map_one(x: char, c: char, t: Seq<char>)
    ensures
        char_map(seq![x], c, t) == if x == c {
            t
        } else {
            seq![x]
        },
{
    let e = seq![x].drop_first();
    assert(e =~= Seq::<char>::empty());
    assert(char_map(e, c, t) == Seq::<char>::empty());
    if x == c {
        assert(char_map(seq![x], c, t) =~= t);
    } else {
        assert(char_map(seq![x], c, t) =~= seq![x]);
    }
}

proof fn lemma_char_map_two(x: char, y: char, c: char, t: Seq<char>)
    ensures
        char_map(seq![x, y], c, t) == char_map(seq![x], c, t) + char_map(seq![y], c, t),
{
    assert(seq![x] + seq![y] =~= seq![x, y]);
    lemma_char_map_append(seq![x], seq![y], c, t);
}

proof fn lemma_char_map_absent(a: Seq<char>, c: char, t: Seq<char>)
    requires
        forall|k: int| 0 <= k < a.len() ==> a[k] != c,
    ensures
        char_map(a, c, t) == a,
    decreases a.len(),
{
    if a.len() > 0 {
        lemma_char_map_absent(a.drop_first(), c, t);
        assert(a =~= seq![a[0]] + a.drop_first());
    }
}

proof fn lemma_replace_single(s: Seq<char>, c: char, t: Seq<char>, start: int)
    requires
        0 <= start <= s.len(),
    ensures
        crate::text::replace_from(s, seq![c], t, start) == char_map(s.skip(start), c, t),
    decreases s.len() - start,
{
    crate::text::lemma_find_from(s, seq![c], start);
    match crate::text::find_from(s, seq![c], start) {
        None => {
            assert forall|k: int| 0 <= k < s.skip(start).len() implies s.skip(start)[k] != c by {
                if s.skip(start)[k] == c {
                    assert(s.subrange(start + k, start + k + 1) =~= seq![c]);
                    assert(crate::text::occurs_at(s, seq![c], start + k));
                }
            }
            lemma_char_map_absent(s.skip(start), c, t);
            assert(s.subrange(start, s.len() as int) =~= s.skip(start));
        },
        Some(i) => {
            assert(s.subrange(i, i + 1) =~= seq![c]);
            assert(s[i] == c) by {
                assert(s.subrange(i, i + 1)[0] == s[i]);
            }
            lemma_replace_single(s, c, t, i + 1);
            let pre = s.subrange(start, i);
            assert forall|k: int| 0 <= k < pre.len() implies pre[k] != c by {
                if pre[k] == c {
                    assert(s.subrange(start + k, start + k + 1) =~= seq![c]);
                    assert(crate::text::occurs_at(s, seq![c], start + k));
                }
            }
            lemma_char_map_absent(pre, c, t);
            assert(s.skip(start) =~= pre + (seq![c] + s.skip(i + 1)));
            lemma_char_map_append(pre, seq![c] + s.skip(i + 1), c, t);
            lemma_char_map_append(seq![c], s.skip(i + 1), c, t);
            lemma_char_map_one(c, c, t);
        },
    }
}

proof fn lemma_esc_is_map(v: Seq<char>)
    ensures
        char_map(char_map(v, '\\', seq!['\\', '\\']), '"', seq!['\\', '"']) == esc_map(v),
    decreases v.len(),
{
    if v.len() > 0 {
        lemma_esc_is_map(v.drop_first());
        let head = if v[0] == '\\' {
            seq!['\\', '\\']
        } else {
            seq![v[0]]
        };
        lemma_char_map_append(head, char_map(v.drop_first(), '\\', seq!['\\', '\\']), '"', seq!['\\', '"']);
        lemma_char_map_one(v[0], '\\', seq!['\\', '\\']);
        assert(char_map(v, '\\', seq!['\\', '\\']) == head + char_map(v.drop_first(), '\\', seq!['\\', '\\']));
        if v[0] == '\\' {
            lemma_char_map_two('\\', '\\', '"', seq!['\\', '"']);
            lemma_char_map_one('\\', '"', seq!['\\', '"']);
            assert(char_map(head, '"', seq!['\\', '"']) =~= seq!['\\', '\\']);
        } else {
            lemma_char_map_one(v[0], '"', seq!['\\', '"']);
        }
    }
}

proof fn lemma_unescape_esc(v: Seq<char>)
    ensures
        unescape(esc_map(v)) == v,
    decreases v.len(),
{
    if v.len() > 0 {
        lemma_unescape_esc(v.drop_first());
        let e = esc_map(v);
        let rest = esc_map(v.drop_first());
        if v[0] == '\\' || v[0] == '"' {
            assert(e.skip(2) =~= rest);
            assert(e[0] == '\\' && e[1] == v[0]);
        } else {
            assert(e.skip(1) =~= rest);
            assert(e[0] == v[0]);
        }
        assert(v =~= seq![v[0]] + v.drop_first());
    }
}

/// A value escaped for a Starlark string reads back as itself: quotes and
/// backslashes in a define survive the BUILD file unchanged, and none of
/// them ends the string early.
pub proof fn law_escaped_values_read_back(value: Seq<char>)
    ensures
        unescape(esc(value)) == value,
{
    lemma_replace_single(value, '\\', seq!['\\', '\\'], 0);
    let once = replace(value, seq!['\\'], seq!['\\', '\\']);
    lemma_replace_single(once, '"', seq!['\\', '"'], 0);
    assert(value.skip(0) =~= value);
    assert(once.skip(0) =~= once);
    lemma_esc_is_map(value);
    lemma_unescape_esc(value);
}

/// One `"item",` line per item.
pub open spec fn quoted_lines(items: Seq<Seq<char>>) -> Seq<char>
    decreases items.len(),
{
    if items.len() == 0 {
        seq![]
    } else {
        quoted_lines(items.drop_last()) + "        \""@ + esc(items.last()) + "\",\n"@
    }
}

/// A list-valued attribute, one item per line; nothing at all when empty.
pub open spec fn string_list(attr: Seq<char>, items: Seq<Seq<char>>) -> Seq<char> {
    if items.len() == 0 {
        seq![]
    } else {
        "    "@ + attr + " = [\n"@ + quoted_lines(items) + "    ],\n"@
    }
}

/// Renders one list-valued attribute, one item per line. An empty list
/// emits nothing: every attribute written is optional and defaults to empty.
fn render_string_list(out: &mut String, attr: &str, items: &Vec<String>)
    ensures
        final(out)@ == old(out)@ + string_list(attr@, strs(items@)),
{
    if items.len() == 0 {
        return;
    }
    push_str(out, "    ");
    push_str(out, attr);
    push_str(out, " = [\n");
    let ghost head = out@;
    let mut i: usize = 0;
    while i < items.len()
        invariant
            i <= items@.len(),
            out@ == head + quoted_lines(strs(items@).take(i as int)),
        decreases items.len() - i,
    {
        proof {
            assert(strs(items@).take(i + 1).drop_last() =~= strs(items@).take(i as int));
        }
        push_str(out, "        \"");
        let e = escape_starlark(items[i].as_str());
        push_str(out, e.as_str());
        push_str(out, "\",\n");
        i += 1;
    }
    assert(strs(items@).take(items@.len() as int) =~= strs(items@));
    push_str(out, "    ],\n");
}

/// Whether every path in `paths` is module-relative.
pub open spec fn all_relative(paths: Seq<Seq<char>>) -> bool {
    forall|i: int| 0 <= i < paths.len() ==> module_relative(#[trigger] paths[i])
}

pub fn all_module_relative(paths: &Vec<String>) -> (r: bool)
    ensures
        r == all_relative(strs(paths@)),
{
    let mut i: usize = 0;
    while i < paths.len()
        invariant
            i <= paths@.len(),
            forall|k: int| 0 <= k < i ==> module_relative(paths@[k]@),
        decreases paths.len() - i,
    {
        if !is_module_relative(paths[i].as_str()) {
            assert(!module_relative(strs(paths@)[i as int]));
            return false;
        }
        i += 1;
    }
    assert forall|k: int| 0 <= k < strs(paths@).len() implies module_relative(
        #[trigger] strs(paths@)[k],
    ) by {
        assert(strs(paths@)[k] == paths@[k]@);
    }
    true
}

/// Renders a path-valued attribute. Every path must be relative to the
/// module root: the generated module is built away from this machine.
fn render_path_list(out: &mut String, attr: &str, paths: &Vec<String>)
    requires
        all_relative(strs(paths@)),
    ensures
        final(out)@ == old(out)@ + string_list(attr@, strs(paths@)),
{
    render_string_list(out, attr, paths)
}

/// `":" + name` for each name.
pub open spec fn labels(names: Seq<Seq<char>>) -> Seq<Seq<char>> {
    names.map_values(|n: Seq<char>| seq![':'] + n)
}

fn to_labels(names: &Vec<String>) -> (r: Vec<String>)
    ensures
        strs(r@) == labels(strs(names@)),
{
    let mut r: Vec<String> = Vec::new();
    let mut i: usize = 0;
    while i < names.len()
        invariant
            i <= names@.len(),
            strs(r@) == labels(strs(names@).take(i as int)),
        decreases names.len() - i,
    {
        let mut l = String::new();
        push_char(&mut l, ':');
        push_str(&mut l, names[i].as_str());
        let ghost before = strs(r@);
        r.push(l);
        assert(strs(r@) =~= before.push(seq![':'] + names@[i as int]@));
        i += 1;
        assert(labels(strs(names@).take(i as int)) =~= labels(strs(names@).take(i - 1)).push(
            seq![':'] + names@[i - 1]@,
        ));
    }
    assert(strs(names@).take(names@.len() as int) =~= strs(names@));
    r
}

/// The `deps` attribute: each sibling target name as a same-package label.
fn render_deps(out: &mut String, deps: &Vec<String>)
    ensures
        final(out)@ == old(out)@ + string_list("deps"@, labels(strs(deps@))),
{
    let l = to_labels(deps);
    render_string_list(out, "deps", &l);
}

} // verus!

verus! {

/// A project name's characters lowercased, with anything Bazel's module
/// grammar rejects replaced by `_`.
pub open spec fn module_char(c: char) -> char {
    let l = lower_char(c);
    if is_ascii_lower(l) || is_ascii_digit(l) || l == '.' || l == '-' || l == '_' {
        l
    } else {
        '_'
    }
}

pub open spec fn not_lower_or_digit() -> spec_fn(char) -> bool {
    |c: char| !(is_ascii_lower(c) || is_ascii_digit(c))
}

/// The Bazel module name for a project name: mapped character by
/// character, prefixed with `m_` unless it begins with a lowercase letter,
/// and with any trailing character that is not a letter or digit removed.
pub open spec fn module_name_spec(project: Seq<char>) -> Seq<char> {
    let mapped = project.map_values(|c: char| module_char(c));
    let prefixed = if mapped.len() > 0 && is_ascii_lower(mapped[0]) {
        mapped
    } else {
        seq!['m', '_'] + mapped
    };
    trim_end_by(prefixed, not_lower_or_digit())
}

/// A character Bazel's module grammar accepts in a module name.
pub open spec fn module_name_char(c: char) -> bool {
    is_ascii_lower(c) || is_ascii_digit(c) || c == '.' || c == '-' || c == '_'
}

/// Whatever the project is called, its module name is one Bazel accepts:
/// only lowercase letters, digits, `.`, `-` and `_`, beginning with a
/// lowercase letter and ending with a lowercase letter or digit.
pub proof fn law_module_names_are_valid(project: Seq<char>)
    ensures
        module_name_spec(project).len() > 0,
        is_ascii_lower(module_name_spec(project)[0]),
        is_ascii_lower(module_name_spec(project).last()) || is_ascii_digit(module_name_spec(project).last()),
        forall|i: int| 0 <= i < module_name_spec(project).len() ==> module_name_char(#[trigger] module_name_spec(project)[i]),
{
    let mapped = project.map_values(|c: char| module_char(c));
    let prefixed = if mapped.len() > 0 && is_ascii_lower(mapped[0]) {
        mapped
    } else {
        seq!['m', '_'] + mapped
    };
    assert(forall|i: int| 0 <= i < prefixed.len() ==> module_name_char(#[trigger] prefixed[i])) by {
        assert forall|i: int| 0 <= i < prefixed.len() implies module_name_char(#[trigger] prefixed[i]) by {
            if prefixed =~= mapped {
                assert(prefixed[i] == module_char(project[i]));
            } else if i >= 2 {
                assert(prefixed[i] == mapped[i - 2]);
                assert(mapped[i - 2] == module_char(project[i - 2]));
            }
        }
    }
    assert(is_ascii_lower(prefixed[0]));
    crate::text::lemma_trim_end_shape(prefixed, not_lower_or_digit());
    let r = trim_end_by(prefixed, not_lower_or_digit());
    assert(r == module_name_spec(project));
    assert(r[0] == prefixed[0]);
    assert(r.last() == prefixed[r.len() - 1]);
    assert forall|i: int| 0 <= i < r.len() implies module_name_char(#[trigger] r[i]) by {
        assert(r[i] == prefixed[i]);
    }
}

fn module_char_of(c: char) -> (r: char)
    ensures
        r == module_char(c),
{
    let l = to_ascii_lower(c);
    if ascii_lower(l) || ascii_digit(l) || l == '.' || l == '-' || l == '_' {
        l
    } else {
        '_'
    }
}

/// Normalizes a project name into a valid Bazel module name.
///
/// Bazel's grammar is stricter than CMake's: a module name may contain only
/// lowercase letters, digits, `.`, `-` and `_`, must begin with a lowercase
/// letter, and must end with a lowercase letter or digit. Total rather than
/// fallible: the mapping is lossy but deterministic.
pub fn module_name(project_name: &str) -> (r: String)
    ensures
        r@ == module_name_spec(project_name@),
{
    let p = chars_of(project_name);
    let ghost mapped = p@.map_values(|c: char| module_char(c));
    let mut m: Vec<char> = Vec::new();
    let mut i: usize = 0;
    while i < p.len()
        invariant
            i <= p@.len(),
            m@ == p@.take(i as int).map_values(|c: char| module_char(c)),
        decreases p.len() - i,
    {
        m.push(module_char_of(p[i]));
        i += 1;
        assert(m@ =~= p@.take(i as int).map_values(|c: char| module_char(c)));
    }
    assert(p@.take(p@.len() as int) =~= p@);
    assert(m@ == mapped);
    let mut name: Vec<char> = Vec::new();
    if !(m.len() > 0 && ascii_lower(m[0])) {
        name.push('m');
        name.push('_');
    }
    crate::text::push_all(&mut name, m.as_slice());
    let ghost prefixed = name@;
    assert(prefixed =~= (if mapped.len() > 0 && is_ascii_lower(mapped[0]) {
        mapped
    } else {
        seq!['m', '_'] + mapped
    }));
    let mut j = name.len();
    while j > 0 && !(ascii_lower(name[j - 1]) || ascii_digit(name[j - 1]))
        invariant
            j <= name@.len(),
            name@ == prefixed,
            forall|k: int| j <= k < name@.len() ==> not_lower_or_digit()(name@[k]),
        decreases j,
    {
        j -= 1;
    }
    proof {
        crate::text::lemma_trim_end_at(prefixed, not_lower_or_digit(), j as int);
    }
    let kept = crate::text::subvec(name.as_slice(), 0, j);
    string_of(kept.as_slice())
}

pub open spec fn rule_name_spec(kind: TargetKind) -> Seq<char> {
    match kind {
        TargetKind::Executable => "cc_binary"@,
        TargetKind::Library => "cc_library"@,
    }
}

/// The `rules_cc` rule a target kind maps to.
fn rule_name(kind: &TargetKind) -> (r: &'static str)
    ensures
        r@ == rule_name_spec(*kind),
{
    match kind {
        TargetKind::Executable => "cc_binary",
        TargetKind::Library => "cc_library",
    }
}

pub open spec fn version_line(version: Option<String>) -> Seq<char> {
    match version {
        Some(v) => "    version = \""@ + v@ + "\",\n"@,
        None => seq![],
    }
}

/// `MODULE.bazel`: the module, its toolchain dependencies, `rules_shell`
/// only when there are tests to wrap, and `cc_config` only when there are
/// config headers to generate.
pub open spec fn module_bazel(g: BuildGraph) -> Seq<char> {
    "module(\n    name = \""@ + module_name_spec(g.module.name@) + "\",\n"@ + version_line(g.module.version)
        + ")\n\nbazel_dep(name = \"rules_cc\", version = \"0.2.22\")\nbazel_dep(name = \"llvm\", version = \"0.8.14\")\n"@
        + (if g.tests@.len() == 0 {
        seq![]
    } else {
        "bazel_dep(name = \"rules_shell\", version = \"0.8.0\")\n"@
    }) + (if g.config_headers@.len() == 0 {
        seq![]
    } else {
        "bazel_dep(name = \"cc_config\", version = \"0.0.0\")\n"@
    }) + "\nregister_toolchains(\"@llvm//toolchain:all\")\n"@
}

pub fn render_module_bazel(graph: &BuildGraph) -> (r: String)
    ensures
        r@ == module_bazel(*graph),
{
    let mut out = String::new();
    push_str(&mut out, "module(\n    name = \"");
    let name = module_name(graph.module.name.as_str());
    push_str(&mut out, name.as_str());
    push_str(&mut out, "\",\n");
    match &graph.module.version {
        Some(v) => {
            push_str(&mut out, "    version = \"");
            push_str(&mut out, v.as_str());
            push_str(&mut out, "\",\n");
        },
        None => {},
    }
    push_str(
        &mut out,
        ")\n\nbazel_dep(name = \"rules_cc\", version = \"0.2.22\")\nbazel_dep(name = \"llvm\", version = \"0.8.14\")\n",
    );
    if graph.tests.len() != 0 {
        push_str(&mut out, "bazel_dep(name = \"rules_shell\", version = \"0.8.0\")\n");
    }
    if graph.config_headers.len() != 0 {
        push_str(&mut out, "bazel_dep(name = \"cc_config\", version = \"0.0.0\")\n");
    }
    push_str(&mut out, "\nregister_toolchains(\"@llvm//toolchain:all\")\n");
    out
}

/// A config header's rule name: its output with every character that is
/// not an ASCII letter or digit replaced by `_`.
pub open spec fn config_header_name_spec(output: Seq<char>) -> Seq<char> {
    output.map_values(|c: char| if is_ascii_alnum(c) { c } else { '_' })
}

/// The rule name for a config header's target, so `config.h` becomes a valid
/// target `config_h` that won't collide with the output file.
pub fn config_header_name(header: &ConfigHeader) -> (r: String)
    ensures
        r@ == config_header_name_spec(header.output@),
{
    let o = chars(&header.output);
    let mut r = String::new();
    let mut i: usize = 0;
    while i < o.len()
        invariant
            i <= o@.len(),
            o@ == header.output@,
            r@ == o@.take(i as int).map_values(|c: char| if is_ascii_alnum(c) { c } else { '_' }),
        decreases o.len() - i,
    {
        let c = o[i];
        if ascii_alnum(c) {
            push_char(&mut r, c);
        } else {
            push_char(&mut r, '_');
        }
        i += 1;
        assert(r@ =~= o@.take(i as int).map_values(
            |c: char| if is_ascii_alnum(c) { c } else { '_' },
        ));
    }
    assert(o@.take(o@.len() as int) =~= o@);
    r
}

/// One `"name": "value",` line per pair.
pub open spec fn value_lines(values: Seq<(Seq<char>, Seq<char>)>) -> Seq<char>
    decreases values.len(),
{
    if values.len() == 0 {
        seq![]
    } else {
        value_lines(values.drop_last()) + "        \""@ + esc(values.last().0) + "\": \""@ + esc(
            values.last().1,
        ) + "\",\n"@
    }
}

/// `@NAME@` for each substituted name.
pub open spec fn placeholders(values: Seq<(Seq<char>, Seq<char>)>) -> Seq<Seq<char>>
    decreases values.len(),
{
    if values.len() == 0 {
        seq![]
    } else {
        placeholders(values.drop_last()).push(seq!['@'] + values.last().0 + seq!['@'])
    }
}

/// The number of bytes UTF-8 takes to encode `c`.
pub open spec fn utf8_width(c: char) -> nat {
    if (c as u32) < 0x80 {
        1
    } else if (c as u32) < 0x800 {
        2
    } else if (c as u32) < 0x10000 {
        3
    } else {
        4
    }
}

/// The UTF-8 length of a string, which `str::len` reports.
pub open spec fn byte_len(s: Seq<char>) -> nat
    decreases s.len(),
{
    if s.len() == 0 {
        0
    } else {
        byte_len(s.drop_last()) + utf8_width(s.last())
    }
}

/// Whether `s` takes at least four bytes as UTF-8.
fn at_least_four_bytes(s: &String) -> (r: bool)
    ensures
        r == (byte_len(s@) >= 4),
{
    let v = chars(s);
    let mut total: usize = 0;
    let mut i: usize = 0;
    while i < v.len()
        invariant
            i <= v@.len(),
            v@ == s@,
            total == byte_len(v@.take(i as int)),
            total < 4,
        decreases v.len() - i,
    {
        assert(v@.take(i + 1).drop_last() =~= v@.take(i as int));
        let c = v[i];
        let w: usize = if (c as u32) < 0x80 {
            1
        } else if (c as u32) < 0x800 {
            2
        } else if (c as u32) < 0x10000 {
            3
        } else {
            4
        };
        total = total + w;
        i += 1;
        if total >= 4 {
            proof {
                lemma_byte_len_grows(v@, i as int);
            }
            return true;
        }
    }
    assert(v@.take(v@.len() as int) =~= v@);
    false
}

proof fn lemma_byte_len_grows(s: Seq<char>, i: int)
    requires
        0 <= i <= s.len(),
    ensures
        byte_len(s.take(i)) <= byte_len(s),
    decreases s.len() - i,
{
    if i < s.len() {
        lemma_byte_len_grows(s, i + 1);
        assert(s.take(i + 1).drop_last() =~= s.take(i));
    } else {
        assert(s.take(i) =~= s);
    }
}

/// The substituted values long enough that finding one in the generated
/// header means something: an empty or very short value is found in any
/// header by accident.
pub open spec fn distinguishing_values(values: Seq<(Seq<char>, Seq<char>)>) -> Seq<Seq<char>>
    decreases values.len(),
{
    if values.len() == 0 {
        seq![]
    } else if byte_len(values.last().1) >= 4 {
        distinguishing_values(values.drop_last()).push(values.last().1)
    } else {
        distinguishing_values(values.drop_last())
    }
}

/// The `assert_config_header_test` companion of a config header.
pub open spec fn config_assertion(h: ConfigHeader) -> Seq<char> {
    let name = config_header_name_spec(h.output@);
    "\nassert_config_header_test(\n    name = \""@ + name + "_test\",\n    header = \":"@ + name
        + "\",\n"@ + string_list("must_contain"@, distinguishing_values(pairs(h.values@)))
        + string_list("must_not_contain"@, seq!["#cmakedefine"@] + placeholders(pairs(h.values@)))
        + ")\n"@
}

/// The `config_header` rule for a config header, followed by its assertion.
pub open spec fn config_header_block(h: ConfigHeader) -> Seq<char> {
    "config_header(\n    name = \""@ + config_header_name_spec(h.output@) + "\",\n"@
        + "    output = \""@ + h.output@ + "\",\n"@ + "    template = \""@ + h.template@ + "\",\n"@
        + string_list("probes"@, strs(h.catalog_probes@)) + (if h.values@.len() == 0 {
        seq![]
    } else {
        "    values = {\n"@ + value_lines(pairs(h.values@)) + "    },\n"@
    }) + ")\n"@ + config_assertion(h)
}

/// Renders one `config_header` rule: the probe-driven reproduction of a
/// generated header.
#[verifier::rlimit(40)]
pub fn render_config_header(out: &mut String, header: &ConfigHeader)
    ensures
        final(out)@ == old(out)@ + config_header_block(*header),
{
    push_str(out, "config_header(\n    name = \"");
    let name = config_header_name(header);
    push_str(out, name.as_str());
    push_str(out, "\",\n");
    push_str(out, "    output = \"");
    push_str(out, header.output.as_str());
    push_str(out, "\",\n");
    push_str(out, "    template = \"");
    push_str(out, header.template.as_str());
    push_str(out, "\",\n");
    render_string_list(out, "probes", &header.catalog_probes);
    if header.values.len() != 0 {
        push_str(out, "    values = {\n");
        let ghost head = out@;
        let mut i: usize = 0;
        while i < header.values.len()
            invariant
                i <= header.values@.len(),
                out@ == head + value_lines(pairs(header.values@).take(i as int)),
            decreases header.values.len() - i,
        {
            proof {
                assert(pairs(header.values@).take(i + 1).drop_last() =~= pairs(header.values@).take(
                    i as int,
                ));
            }
            let (n, v) = &header.values[i];
            push_str(out, "        \"");
            let en = escape_starlark(n.as_str());
            push_str(out, en.as_str());
            push_str(out, "\": \"");
            let ev = escape_starlark(v.as_str());
            push_str(out, ev.as_str());
            push_str(out, "\",\n");
            i += 1;
        }
        assert(pairs(header.values@).take(header.values@.len() as int) =~= pairs(header.values@));
        push_str(out, "    },\n");
    }
    push_str(out, ")\n");
    render_config_header_assertion(out, header);
}

/// Emits the `assert_config_header_test` for a generated config header.
///
/// It asserts only what is toolchain-independent: no `#cmakedefine` and no
/// `@NAME@` of a supplied value survive, and each distinguishing value
/// appears. Whether a probe resolves true is a fact about the consumer's
/// toolchain, and pinning this host's answer would bake it in.
fn render_config_header_assertion(out: &mut String, header: &ConfigHeader)
    ensures
        final(out)@ == old(out)@ + config_assertion(*header),
{
    let name = config_header_name(header);
    let mut must_not_contain: Vec<String> = Vec::new();
    must_not_contain.push(string_of(chars_of("#cmakedefine").as_slice()));
    let mut must_contain: Vec<String> = Vec::new();
    let ghost vs = pairs(header.values@);
    let mut i: usize = 0;
    while i < header.values.len()
        invariant
            i <= header.values@.len(),
            vs == pairs(header.values@),
            strs(must_not_contain@) == seq!["#cmakedefine"@] + placeholders(vs.take(i as int)),
            strs(must_contain@) == distinguishing_values(vs.take(i as int)),
        decreases header.values.len() - i,
    {
        proof {
            assert(vs.take(i + 1).drop_last() =~= vs.take(i as int));
        }
        let (n, v) = &header.values[i];
        let mut ph = String::new();
        push_char(&mut ph, '@');
        push_str(&mut ph, n.as_str());
        push_char(&mut ph, '@');
        assert(ph@ =~= seq!['@'] + n@ + seq!['@']);
        let ghost b1 = strs(must_not_contain@);
        must_not_contain.push(ph);
        assert(strs(must_not_contain@) =~= b1.push(seq!['@'] + n@ + seq!['@']));
        if at_least_four_bytes(v) {
            let ghost b2 = strs(must_contain@);
            must_contain.push(v.clone());
            assert(strs(must_contain@) =~= b2.push(v@));
        }
        i += 1;
    }
    assert(vs.take(header.values@.len() as int) =~= vs);
    push_str(out, "\nassert_config_header_test(\n    name = \"");
    push_str(out, name.as_str());
    push_str(out, "_test\",\n    header = \":");
    push_str(out, name.as_str());
    push_str(out, "\",\n");
    render_string_list(out, "must_contain", &must_contain);
    render_string_list(out, "must_not_contain", &must_not_contain);
    push_str(out, ")\n");
}

/// The `sh_test` wrapping one registered test: it runs the module's
/// `run_cmake_test.sh` with the binary, the working directory (`.` for the
/// module root, since Bazel drops an empty argument) and the pass regex.
pub open spec fn sh_test_block(t: Test) -> Seq<char> {
    let wd = if t.working_directory@.len() == 0 {
        "."@
    } else {
        t.working_directory@
    };
    let glob = if t.working_directory@.len() == 0 {
        "glob([\"**\"], exclude = [\"BUILD.bazel\", \"MODULE.bazel\"])"@
    } else {
        "glob([\""@ + t.working_directory@ + "/**\"])"@
    };
    let regex = match t.pass_regex {
        Some(r) => r@,
        None => seq![],
    };
    "sh_test(\n    name = \""@ + t.name@ + "_test\",\n    srcs = [\"run_cmake_test.sh\"],\n    args = [\n         \""@
        + t.target@ + "\",\n         \""@ + wd + "\",\n         \""@ + regex
        + "\",\n    ],\n    data = [\n         \":"@ + t.target@ + "\",\n    ] + "@ + glob + ",\n)\n"@
}

fn render_sh_test(out: &mut String, test: &Test)
    ensures
        final(out)@ == old(out)@ + sh_test_block(*test),
{
    push_str(out, "sh_test(\n    name = \"");
    push_str(out, test.name.as_str());
    push_str(out, "_test\",\n    srcs = [\"run_cmake_test.sh\"],\n    args = [\n         \"");
    push_str(out, test.target.as_str());
    push_str(out, "\",\n         \"");
    if test.working_directory.as_str().is_empty() {
        push_str(out, ".");
    } else {
        push_str(out, test.working_directory.as_str());
    }
    push_str(out, "\",\n         \"");
    match &test.pass_regex {
        Some(r) => push_str(out, r.as_str()),
        None => {},
    }
    push_str(out, "\",\n    ],\n    data = [\n         \":");
    push_str(out, test.target.as_str());
    push_str(out, "\",\n    ] + ");
    if test.working_directory.as_str().is_empty() {
        push_str(out, "glob([\"**\"], exclude = [\"BUILD.bazel\", \"MODULE.bazel\"])");
    } else {
        push_str(out, "glob([\"");
        push_str(out, test.working_directory.as_str());
        push_str(out, "/**\"])");
    }
    push_str(out, ",\n)\n");
}

} // verus!

verus! {

pub open spec fn public_visibility() -> Seq<char> {
    "    visibility = [\"//visibility:public\"],\n"@
}

/// Whether `t` reaches its headers through the staged `_include` directory:
/// it asked for the module root on its include path, and there is
/// something to stage (public headers or a config header).
pub open spec fn staged_for_spec(t: Target, n_config: nat) -> bool {
    t.needs_root_include && !(t.public_headers@.len() == 0 && n_config == 0)
}

fn staged_for(target: &Target, config_headers: &Vec<ConfigHeader>) -> (r: bool)
    ensures
        r == staged_for_spec(*target, config_headers@.len()),
{
    target.needs_root_include && !(target.public_headers.len() == 0 && config_headers.len() == 0)
}

/// `":" + rule name` of each config header.
pub open spec fn config_labels(chs: Seq<ConfigHeader>) -> Seq<Seq<char>> {
    chs.map_values(|h: ConfigHeader| seq![':'] + config_header_name_spec(h.output@))
}

/// `srcs`: the sources, every config header's label, and the staging
/// genrule when it is the only way the target sees its staged headers.
pub open spec fn srcs_of(t: Target, chs: Seq<ConfigHeader>) -> Seq<Seq<char>> {
    strs(t.sources@) + config_labels(chs) + (if staged_for_spec(t, chs.len())
        && t.public_headers@.len() == 0 {
        seq![":_staged_hdrs"@]
    } else {
        seq![]
    })
}

/// `hdrs`: the public headers, or the staging genrule that replaces them.
pub open spec fn hdrs_of(t: Target, chs: Seq<ConfigHeader>) -> Seq<Seq<char>> {
    if staged_for_spec(t, chs.len()) && t.public_headers@.len() != 0 {
        seq![":_staged_hdrs"@]
    } else {
        strs(t.public_headers@)
    }
}

/// `includes`: the target's own, plus the staged directory.
pub open spec fn includes_of(t: Target, chs: Seq<ConfigHeader>) -> Seq<Seq<char>> {
    strs(t.includes@) + (if staged_for_spec(t, chs.len()) {
        seq!["_include"@]
    } else {
        seq![]
    })
}

pub open spec fn textual_name(t: Target) -> Seq<char> {
    t.name@ + "_textual"@
}

/// The target's dependencies, plus its companion textual library.
pub open spec fn deps_of(t: Target) -> Seq<Seq<char>> {
    strs(t.dependencies@) + (if t.textual_sources@.len() == 0 {
        seq![]
    } else {
        seq![textual_name(t)]
    })
}

/// The `cc_shared_library` label of each dependency that is shared.
pub open spec fn dynamic_labels(deps: Seq<Seq<char>>, shared: Seq<Seq<char>>) -> Seq<Seq<char>>
    decreases deps.len(),
{
    if deps.len() == 0 {
        seq![]
    } else if shared.contains(deps.last()) {
        dynamic_labels(deps.drop_last(), shared).push(seq![':'] + deps.last() + "_shared"@)
    } else {
        dynamic_labels(deps.drop_last(), shared)
    }
}

/// The companion `cc_library` carrying a target's textually included
/// sources in `textual_hdrs`, which only `cc_library` has.
pub open spec fn textual_block(t: Target) -> Seq<char> {
    if t.textual_sources@.len() == 0 {
        seq![]
    } else {
        "cc_library(\n    name = \""@ + textual_name(t) + "\",\n"@ + string_list(
            "textual_hdrs"@,
            strs(t.textual_sources@),
        ) + public_visibility() + ")\n\n"@
    }
}

/// The `cc_shared_library` wrapping a target declared shared.
pub open spec fn shared_block(t: Target) -> Seq<char> {
    if !t.is_shared {
        seq![]
    } else {
        "\ncc_shared_library(\n    name = \""@ + t.name@ + "_shared"@ + "\",\n"@ + string_list(
            "deps"@,
            seq![seq![':'] + t.name@],
        ) + public_visibility() + ")\n"@
    }
}

/// The attributes of a target's `cc_binary`/`cc_library`: only a library
/// has `hdrs`, and only a binary `dynamic_deps`.
#[verifier::opaque]
pub open spec fn rule_attrs(t: Target, chs: Seq<ConfigHeader>, shared: Seq<Seq<char>>) -> Seq<char> {
    string_list("srcs"@, srcs_of(t, chs)) + (if t.kind == TargetKind::Library {
        string_list("hdrs"@, hdrs_of(t, chs))
    } else {
        seq![]
    }) + string_list("includes"@, includes_of(t, chs)) + string_list(
        "local_defines"@,
        strs(t.local_defines@),
    ) + string_list("deps"@, labels(deps_of(t))) + (if t.kind == TargetKind::Executable {
        string_list("dynamic_deps"@, dynamic_labels(strs(t.dependencies@), shared))
    } else {
        seq![]
    })
}

pub open spec fn rule_head(t: Target) -> Seq<char> {
    rule_name_spec(t.kind) + "(\n"@ + "    name = \""@ + t.name@ + "\",\n"@
}

pub open spec fn rule_tail() -> Seq<char> {
    public_visibility() + ")\n"@
}

/// The rules for one target: its textual companion, its `cc_binary` or
/// `cc_library`, and its shared-library wrapper.
pub open spec fn cc_rule(t: Target, chs: Seq<ConfigHeader>, shared: Seq<Seq<char>>) -> Seq<char> {
    textual_block(t) + rule_head(t) + rule_attrs(t, chs, shared) + rule_tail() + shared_block(t)
}

/// What the rules for `t` require of its paths: each that reaches a
/// path-valued attribute is module-relative.
pub open spec fn target_renderable(t: Target, chs: Seq<ConfigHeader>) -> bool {
    &&& all_relative(strs(t.textual_sources@))
    &&& all_relative(strs(t.sources@))
    &&& (t.kind == TargetKind::Library ==> all_relative(hdrs_of(t, chs)))
    &&& all_relative(includes_of(t, chs))
}

fn push_string(v: &mut Vec<String>, s: &str)
    ensures
        strs(final(v)@) == strs(old(v)@).push(s@),
{
    let t = string_of(chars_of(s).as_slice());
    v.push(t);
    assert(strs(v@) =~= strs(old(v)@).push(s@));
}

pub fn extend_strings(v: &mut Vec<String>, w: &Vec<String>)
    ensures
        strs(final(v)@) == strs(old(v)@) + strs(w@),
{
    let mut i: usize = 0;
    while i < w.len()
        invariant
            i <= w@.len(),
            strs(v@) == strs(old(v)@) + strs(w@.take(i as int)),
        decreases w.len() - i,
    {
        let ghost before = strs(v@);
        v.push(w[i].clone());
        assert(strs(v@) =~= before.push(w@[i as int]@));
        i += 1;
        assert(strs(w@.take(i as int)) =~= strs(w@.take(i - 1)).push(w@[i - 1]@));
        assert(strs(v@) =~= strs(old(v)@) + strs(w@.take(i as int)));
    }
    assert(w@.take(w@.len() as int) =~= w@);
}

fn srcs_for(target: &Target, config_headers: &Vec<ConfigHeader>) -> (r: Vec<String>)
    ensures
        strs(r@) == srcs_of(*target, config_headers@),
{
    let mut srcs: Vec<String> = Vec::new();
    extend_strings(&mut srcs, &target.sources);
    let mut i: usize = 0;
    while i < config_headers.len()
        invariant
            i <= config_headers@.len(),
            strs(srcs@) == strs(target.sources@) + config_labels(config_headers@.take(i as int)),
        decreases config_headers.len() - i,
    {
        let name = config_header_name(&config_headers[i]);
        let mut l = String::new();
        push_char(&mut l, ':');
        push_str(&mut l, name.as_str());
        let ghost before = strs(srcs@);
        srcs.push(l);
        assert(strs(srcs@) =~= before.push(seq![':'] + config_header_name_spec(config_headers@[i as int].output@)));
        i += 1;
        assert(config_labels(config_headers@.take(i as int)) =~= config_labels(config_headers@.take(i - 1)).push(
            seq![':'] + config_header_name_spec(config_headers@[i - 1].output@),
        ));
    }
    assert(config_headers@.take(config_headers@.len() as int) =~= config_headers@);
    if staged_for(target, config_headers) && target.public_headers.len() == 0 {
        push_string(&mut srcs, ":_staged_hdrs");
    }
    srcs
}

fn hdrs_for(target: &Target, config_headers: &Vec<ConfigHeader>) -> (r: Vec<String>)
    ensures
        strs(r@) == hdrs_of(*target, config_headers@),
{
    let mut hdrs: Vec<String> = Vec::new();
    if staged_for(target, config_headers) && target.public_headers.len() != 0 {
        push_string(&mut hdrs, ":_staged_hdrs");
    } else {
        extend_strings(&mut hdrs, &target.public_headers);
    }
    hdrs
}

fn includes_for(target: &Target, config_headers: &Vec<ConfigHeader>) -> (r: Vec<String>)
    ensures
        strs(r@) == includes_of(*target, config_headers@),
{
    let mut includes: Vec<String> = Vec::new();
    extend_strings(&mut includes, &target.includes);
    if staged_for(target, config_headers) {
        push_string(&mut includes, "_include");
    }
    includes
}

fn textual_name_of(target: &Target) -> (r: String)
    ensures
        r@ == textual_name(*target),
{
    let mut name = target.name.clone();
    push_str(&mut name, "_textual");
    name
}

fn deps_for(target: &Target) -> (r: Vec<String>)
    ensures
        strs(r@) == deps_of(*target),
{
    let mut deps: Vec<String> = Vec::new();
    extend_strings(&mut deps, &target.dependencies);
    if target.textual_sources.len() != 0 {
        let n = textual_name_of(target);
        let ghost before = strs(deps@);
        deps.push(n);
        assert(strs(deps@) =~= before.push(textual_name(*target)));
    }
    deps
}

fn dynamic_for(deps: &Vec<String>, shared: &Vec<String>) -> (r: Vec<String>)
    ensures
        strs(r@) == dynamic_labels(strs(deps@), strs(shared@)),
{
    let mut r: Vec<String> = Vec::new();
    let mut i: usize = 0;
    while i < deps.len()
        invariant
            i <= deps@.len(),
            strs(r@) == dynamic_labels(strs(deps@).take(i as int), strs(shared@)),
        decreases deps.len() - i,
    {
        proof {
            assert(strs(deps@).take(i + 1).drop_last() =~= strs(deps@).take(i as int));
            assert(strs(deps@).take(i + 1).last() == deps@[i as int]@);
        }
        if contains_string(shared, &deps[i]) {
            let mut l = String::new();
            push_char(&mut l, ':');
            push_str(&mut l, deps[i].as_str());
            push_str(&mut l, "_shared");
            let ghost before = strs(r@);
            r.push(l);
            assert(strs(r@) =~= before.push(seq![':'] + deps@[i as int]@ + "_shared"@));
        }
        i += 1;
    }
    assert(strs(deps@).take(deps@.len() as int) =~= strs(deps@));
    r
}

/// Emits a companion `cc_library` holding `target`'s textually included
/// sources, returning its name for the target's `deps`, or `None` when there
/// are none.
fn render_textual_hdrs_library(out: &mut String, target: &Target) -> (r: Option<String>)
    requires
        all_relative(strs(target.textual_sources@)),
    ensures
        final(out)@ == old(out)@ + textual_block(*target),
        r matches Some(n) ==> target.textual_sources@.len() != 0 && n@ == textual_name(*target),
        r is None ==> target.textual_sources@.len() == 0,
{
    if target.textual_sources.len() == 0 {
        return None;
    }
    let name = textual_name_of(target);
    push_str(out, "cc_library(\n    name = \"");
    push_str(out, name.as_str());
    push_str(out, "\",\n");
    render_path_list(out, "textual_hdrs", &target.textual_sources);
    push_str(out, "    visibility = [\"//visibility:public\"],\n");
    push_str(out, ")\n\n");
    Some(name)
}

/// Emits the `cc_shared_library` for a target declared shared. It wraps the
/// `cc_library` rather than replacing it, since it provides no `CcInfo`.
fn render_shared_library(out: &mut String, target: &Target)
    ensures
        final(out)@ == old(out)@ + shared_block(*target),
{
    if !target.is_shared {
        return;
    }
    push_str(out, "\ncc_shared_library(\n    name = \"");
    push_str(out, target.name.as_str());
    push_str(out, "_shared");
    push_str(out, "\",\n");
    let mut deps: Vec<String> = Vec::new();
    let mut l = String::new();
    push_char(&mut l, ':');
    push_str(&mut l, target.name.as_str());
    deps.push(l);
    assert(strs(deps@) =~= seq![seq![':'] + target.name@]);
    render_string_list(out, "deps", &deps);
    push_str(out, "    visibility = [\"//visibility:public\"],\n");
    push_str(out, ")\n");
}

#[verifier::rlimit(40)]
fn render_rule_attrs(
    out: &mut String,
    target: &Target,
    config_headers: &Vec<ConfigHeader>,
    shared: &Vec<String>,
)
    requires
        target_renderable(*target, config_headers@),
    ensures
        final(out)@ == old(out)@ + rule_attrs(*target, config_headers@, strs(shared@)),
{
    let ghost start = out@;
    let srcs = srcs_for(target, config_headers);
    render_string_list(out, "srcs", &srcs);
    let ghost a1 = out@;
    if target.kind == TargetKind::Library {
        let hdrs = hdrs_for(target, config_headers);
        render_path_list(out, "hdrs", &hdrs);
    }
    let ghost a2 = out@;
    let includes = includes_for(target, config_headers);
    render_path_list(out, "includes", &includes);
    render_string_list(out, "local_defines", &target.local_defines);
    let ghost a3 = out@;
    let deps = deps_for(target);
    render_deps(out, &deps);
    let ghost a4 = out@;
    if target.kind == TargetKind::Executable {
        let dynamic = dynamic_for(&target.dependencies, shared);
        render_string_list(out, "dynamic_deps", &dynamic);
    }
    proof {
        reveal(rule_attrs);
    }
    assert(out@ =~= start + rule_attrs(*target, config_headers@, strs(shared@)));
}

/// Renders the rules for one target.
fn render_cc_rule(
    out: &mut String,
    target: &Target,
    config_headers: &Vec<ConfigHeader>,
    shared: &Vec<String>,
)
    requires
        target_renderable(*target, config_headers@),
    ensures
        final(out)@ == old(out)@ + cc_rule(*target, config_headers@, strs(shared@)),
{
    let ghost start = out@;
    let _textual = render_textual_hdrs_library(out, target);
    let ghost a1 = out@;
    assert(a1 == start + textual_block(*target));
    push_str(out, rule_name(&target.kind));
    push_str(out, "(\n");
    push_str(out, "    name = \"");
    push_str(out, target.name.as_str());
    push_str(out, "\",\n");
    assert(out@ =~= a1 + rule_head(*target));
    let ghost a2 = out@;
    render_rule_attrs(out, target, config_headers, shared);
    let ghost a3 = out@;
    push_str(out, "    visibility = [\"//visibility:public\"],\n");
    push_str(out, ")\n");
    assert(out@ =~= a3 + rule_tail());
    let ghost a4 = out@;
    render_shared_library(out, target);
    let ghost tb = textual_block(*target);
    let ghost rh = rule_head(*target);
    let ghost ra = rule_attrs(*target, config_headers@, strs(shared@));
    let ghost rt = rule_tail();
    let ghost sb = shared_block(*target);
    assert(out@ =~= start + (tb + rh + ra + rt + sb));
}

} // verus!

verus! {

/// The `load` statement of one `rules_cc` rule.
pub open spec fn load_line(rule: Seq<char>) -> Seq<char> {
    "load(\"@rules_cc//cc:"@ + rule + ".bzl\", \""@ + rule + "\")\n"@
}

pub open spec fn any_of_kind(ts: Seq<Target>, k: TargetKind) -> bool {
    exists|i: int| 0 <= i < ts.len() && (#[trigger] ts[i]).kind == k
}

pub open spec fn any_textual(ts: Seq<Target>) -> bool {
    exists|i: int| 0 <= i < ts.len() && (#[trigger] ts[i]).textual_sources@.len() != 0
}

pub open spec fn any_shared(ts: Seq<Target>) -> bool {
    exists|i: int| 0 <= i < ts.len() && (#[trigger] ts[i]).is_shared
}

pub open spec fn any_root_include(ts: Seq<Target>) -> bool {
    exists|i: int| 0 <= i < ts.len() && (#[trigger] ts[i]).needs_root_include
}

/// The head of `BUILD.bazel`: one `load` per distinct `rules_cc` rule in
/// use, in sorted order (`cc_binary`, `cc_library`, `cc_shared_library`),
/// the test and config-header loads when needed, and a blank line after
/// any of them.
pub open spec fn loads_block(g: BuildGraph) -> Seq<char> {
    let ts = g.targets@;
    (if any_of_kind(ts, TargetKind::Executable) {
        load_line("cc_binary"@)
    } else {
        seq![]
    }) + (if any_of_kind(ts, TargetKind::Library) || any_textual(ts) {
        load_line("cc_library"@)
    } else {
        seq![]
    }) + (if any_shared(ts) {
        load_line("cc_shared_library"@)
    } else {
        seq![]
    }) + (if g.tests@.len() == 0 {
        seq![]
    } else {
        "load(\"@rules_shell//shell:sh_test.bzl\", \"sh_test\")\n"@
    }) + (if g.config_headers@.len() == 0 {
        seq![]
    } else {
        "load(\"@cc_config//cc_config:config_header.bzl\", \"assert_config_header_test\", \"config_header\")\n"@
    }) + (if ts.len() != 0 || g.tests@.len() != 0 || g.config_headers@.len() != 0 {
        "\n"@
    } else {
        seq![]
    })
}

/// Each config header's rules, each followed by a blank line.
pub open spec fn config_blocks(chs: Seq<ConfigHeader>) -> Seq<char>
    decreases chs.len(),
{
    if chs.len() == 0 {
        seq![]
    } else {
        config_blocks(chs.drop_last()) + config_header_block(chs.last()) + "\n"@
    }
}

/// The names of the targets declared shared.
pub open spec fn shared_names(ts: Seq<Target>) -> Seq<Seq<char>>
    decreases ts.len(),
{
    if ts.len() == 0 {
        seq![]
    } else if ts.last().is_shared {
        shared_names(ts.drop_last()).push(ts.last().name@)
    } else {
        shared_names(ts.drop_last())
    }
}

/// The public headers of every target that asked for the module root on
/// its include path, in target order.
pub open spec fn root_public_headers(ts: Seq<Target>) -> Seq<Seq<char>>
    decreases ts.len(),
{
    if ts.len() == 0 {
        seq![]
    } else {
        root_public_headers(ts.drop_last()) + (if ts.last().needs_root_include {
            strs(ts.last().public_headers@)
        } else {
            seq![]
        })
    }
}

/// Where a staged file lands.
pub open spec fn staged_path(p: Seq<char>) -> Seq<char> {
    "_include/"@ + p
}

/// `(source, staged output)` for everything the staging genrule copies:
/// the distinct root public headers in sorted order, then every config
/// header by its label.
pub open spec fn staged_pairs(g: BuildGraph) -> Seq<(Seq<char>, Seq<char>)> {
    sort_dedup(root_public_headers(g.targets@)).map_values(
        |h: Seq<char>| (h, staged_path(h)),
    ) + g.config_headers@.map_values(
        |h: ConfigHeader| (seq![':'] + config_header_name_spec(h.output@), staged_path(h.output@)),
    )
}

pub open spec fn firsts(p: Seq<(Seq<char>, Seq<char>)>) -> Seq<Seq<char>> {
    p.map_values(|x: (Seq<char>, Seq<char>)| x.0)
}

pub open spec fn seconds(p: Seq<(Seq<char>, Seq<char>)>) -> Seq<Seq<char>> {
    p.map_values(|x: (Seq<char>, Seq<char>)| x.1)
}

/// One `mkdir`/`cp` step per staged file, both paths written out.
pub open spec fn staging_cmd(p: Seq<(Seq<char>, Seq<char>)>) -> Seq<char>
    decreases p.len(),
{
    if p.len() == 0 {
        seq![]
    } else {
        staging_cmd(p.drop_last()) + "mkdir -p $$(dirname $(RULEDIR)/"@ + p.last().1
            + ") && cp $(location "@ + p.last().0 + ") $(RULEDIR)/"@ + p.last().1 + " && "@
    }
}

/// Whether the module-wide staging genrule is emitted: some target asked
/// for the module root, and there is something to stage.
pub open spec fn staged_emitted(g: BuildGraph) -> bool {
    any_root_include(g.targets@) && staged_pairs(g).len() != 0
}

pub open spec fn staging_comment() -> Seq<char> {
    "# Staged so `includes` can name the directory these headers are in.\n# Bazel rejects `includes = [\".\"]` and passes only `-iquote .` for a\n# root package, so a header at the module root is unreachable by\n# `#include <angled>`. Workaround for a rules_cc limitation; remove it\n# and emit the headers in place once upstream supports this.\n"@
}

/// The staging genrule, or nothing.
pub open spec fn staged_block(g: BuildGraph) -> Seq<char> {
    let p = staged_pairs(g);
    if !staged_emitted(g) {
        seq![]
    } else {
        staging_comment() + "genrule(\n    name = \"_staged_hdrs\",\n"@ + string_list("srcs"@, firsts(p))
            + string_list("outs"@, seconds(p)) + "    cmd = \""@ + staging_cmd(p) + "true\",\n"@
            + public_visibility() + ")\n"@
    }
}

/// The rules of each target, separated by blank lines (and from the
/// staging genrule when there is one).
pub open spec fn target_blocks(
    ts: Seq<Target>,
    staged: bool,
    chs: Seq<ConfigHeader>,
    shared: Seq<Seq<char>>,
) -> Seq<char>
    decreases ts.len(),
{
    if ts.len() == 0 {
        seq![]
    } else {
        target_blocks(ts.drop_last(), staged, chs, shared) + (if ts.len() > 1 || staged {
            "\n"@
        } else {
            seq![]
        }) + cc_rule(ts.last(), chs, shared)
    }
}

/// One `sh_test` per registered test, each after a blank line.
pub open spec fn test_blocks(tests: Seq<Test>) -> Seq<char>
    decreases tests.len(),
{
    if tests.len() == 0 {
        seq![]
    } else {
        test_blocks(tests.drop_last()) + "\n"@ + sh_test_block(tests.last())
    }
}

/// `BUILD.bazel`: loads, config headers first (the cc targets reference
/// them), the staging genrule, the targets, then the tests.
pub open spec fn build_bazel(g: BuildGraph) -> Seq<char> {
    loads_block(g) + config_blocks(g.config_headers@) + staged_block(g) + target_blocks(
        g.targets@,
        staged_emitted(g),
        g.config_headers@,
        shared_names(g.targets@),
    ) + test_blocks(g.tests@)
}

/// What rendering asks of a graph: every path that reaches a path-valued
/// attribute is module-relative. A graph that breaks this is a frontend
/// defect, refused before anything is written.
pub open spec fn renderable(g: BuildGraph) -> bool {
    &&& forall|i: int|
        0 <= i < g.targets@.len() ==> target_renderable(
            #[trigger] g.targets@[i],
            g.config_headers@,
        )
    &&& staged_emitted(g) ==> all_relative(firsts(staged_pairs(g))) && all_relative(
        seconds(staged_pairs(g)),
    )
}

} // verus!

verus! {

fn has_kind(ts: &Vec<Target>, k: TargetKind) -> (r: bool)
    ensures
        r == any_of_kind(ts@, k),
{
    let mut i: usize = 0;
    while i < ts.len()
        invariant
            i <= ts@.len(),
            forall|j: int| 0 <= j < i ==> ts@[j].kind != k,
        decreases ts.len() - i,
    {
        if ts[i].kind == k {
            return true;
        }
        i += 1;
    }
    false
}

fn has_textual(ts: &Vec<Target>) -> (r: bool)
    ensures
        r == any_textual(ts@),
{
    let mut i: usize = 0;
    while i < ts.len()
        invariant
            i <= ts@.len(),
            forall|j: int| 0 <= j < i ==> ts@[j].textual_sources@.len() == 0,
        decreases ts.len() - i,
    {
        if ts[i].textual_sources.len() != 0 {
            return true;
        }
        i += 1;
    }
    false
}

fn has_shared(ts: &Vec<Target>) -> (r: bool)
    ensures
        r == any_shared(ts@),
{
    let mut i: usize = 0;
    while i < ts.len()
        invariant
            i <= ts@.len(),
            forall|j: int| 0 <= j < i ==> !ts@[j].is_shared,
        decreases ts.len() - i,
    {
        if ts[i].is_shared {
            return true;
        }
        i += 1;
    }
    false
}

fn has_root_include(ts: &Vec<Target>) -> (r: bool)
    ensures
        r == any_root_include(ts@),
{
    let mut i: usize = 0;
    while i < ts.len()
        invariant
            i <= ts@.len(),
            forall|j: int| 0 <= j < i ==> !ts@[j].needs_root_include,
        decreases ts.len() - i,
    {
        if ts[i].needs_root_include {
            return true;
        }
        i += 1;
    }
    false
}

fn render_load(out: &mut String, rule: &str)
    ensures
        final(out)@ == old(out)@ + load_line(rule@),
{
    push_str(out, "load(\"@rules_cc//cc:");
    push_str(out, rule);
    push_str(out, ".bzl\", \"");
    push_str(out, rule);
    push_str(out, "\")\n");
}

fn render_loads(out: &mut String, graph: &BuildGraph)
    ensures
        final(out)@ == old(out)@ + loads_block(*graph),
{
    let ghost start = out@;
    let ts = &graph.targets;
    if has_kind(ts, TargetKind::Executable) {
        render_load(out, "cc_binary");
    }
    let ghost a1 = out@;
    if has_kind(ts, TargetKind::Library) || has_textual(ts) {
        render_load(out, "cc_library");
    }
    let ghost a2 = out@;
    if has_shared(ts) {
        render_load(out, "cc_shared_library");
    }
    let ghost a3 = out@;
    if graph.tests.len() != 0 {
        push_str(out, "load(\"@rules_shell//shell:sh_test.bzl\", \"sh_test\")\n");
    }
    let ghost a4 = out@;
    if graph.config_headers.len() != 0 {
        push_str(
            out,
            "load(\"@cc_config//cc_config:config_header.bzl\", \"assert_config_header_test\", \"config_header\")\n",
        );
    }
    let ghost a5 = out@;
    if ts.len() != 0 || graph.tests.len() != 0 || graph.config_headers.len() != 0 {
        push_str(out, "\n");
    }
    proof {
        let g = *graph;
        let t = g.targets@;
        crate::text::lemma_concat6(
            start,
            if any_of_kind(t, TargetKind::Executable) { load_line("cc_binary"@) } else { seq![] },
            if any_of_kind(t, TargetKind::Library) || any_textual(t) {
                load_line("cc_library"@)
            } else {
                seq![]
            },
            if any_shared(t) { load_line("cc_shared_library"@) } else { seq![] },
            if g.tests@.len() == 0 {
                seq![]
            } else {
                "load(\"@rules_shell//shell:sh_test.bzl\", \"sh_test\")\n"@
            },
            if g.config_headers@.len() == 0 {
                seq![]
            } else {
                "load(\"@cc_config//cc_config:config_header.bzl\", \"assert_config_header_test\", \"config_header\")\n"@
            },
            if t.len() != 0 || g.tests@.len() != 0 || g.config_headers@.len() != 0 {
                "\n"@
            } else {
                seq![]
            },
            a1,
            a2,
            a3,
            a4,
            a5,
            out@,
        );
    }
}

#[verifier::rlimit(40)]
fn render_config_blocks(out: &mut String, chs: &Vec<ConfigHeader>)
    ensures
        final(out)@ == old(out)@ + config_blocks(chs@),
{
    let ghost start = out@;
    let mut i: usize = 0;
    while i < chs.len()
        invariant
            i <= chs@.len(),
            out@ == start + config_blocks(chs@.take(i as int)),
        decreases chs.len() - i,
    {
        proof {
            assert(chs@.take(i + 1).drop_last() =~= chs@.take(i as int));
        }
        render_config_header(out, &chs[i]);
        push_str(out, "\n");
        i += 1;
    }
    assert(chs@.take(chs@.len() as int) =~= chs@);
}

fn shared_names_of(ts: &Vec<Target>) -> (r: Vec<String>)
    ensures
        strs(r@) == shared_names(ts@),
{
    let mut r: Vec<String> = Vec::new();
    let mut i: usize = 0;
    while i < ts.len()
        invariant
            i <= ts@.len(),
            strs(r@) == shared_names(ts@.take(i as int)),
        decreases ts.len() - i,
    {
        proof {
            assert(ts@.take(i + 1).drop_last() =~= ts@.take(i as int));
        }
        if ts[i].is_shared {
            let ghost before = strs(r@);
            r.push(ts[i].name.clone());
            assert(strs(r@) =~= before.push(ts@[i as int].name@));
        }
        i += 1;
    }
    assert(ts@.take(ts@.len() as int) =~= ts@);
    r
}

fn root_public_headers_of(ts: &Vec<Target>) -> (r: Vec<String>)
    ensures
        strs(r@) == root_public_headers(ts@),
{
    let mut r: Vec<String> = Vec::new();
    let mut i: usize = 0;
    while i < ts.len()
        invariant
            i <= ts@.len(),
            strs(r@) == root_public_headers(ts@.take(i as int)),
        decreases ts.len() - i,
    {
        proof {
            assert(ts@.take(i + 1).drop_last() =~= ts@.take(i as int));
        }
        if ts[i].needs_root_include {
            extend_strings(&mut r, &ts[i].public_headers);
        } else {
            assert(strs(r@) =~= root_public_headers(ts@.take(i as int)) + seq![]);
        }
        i += 1;
    }
    assert(ts@.take(ts@.len() as int) =~= ts@);
    r
}

fn staged_path_of(p: &str) -> (r: String)
    ensures
        r@ == staged_path(p@),
{
    let mut r = String::new();
    push_str(&mut r, "_include/");
    push_str(&mut r, p);
    r
}

fn staged_pairs_of(graph: &BuildGraph) -> (r: Vec<(String, String)>)
    ensures
        pairs(r@) == staged_pairs(*graph),
{
    let roots = root_public_headers_of(&graph.targets);
    let headers = sort_dedup_strings(&roots);
    let ghost hs = sort_dedup(root_public_headers(graph.targets@));
    let ghost chs = graph.config_headers@;
    let mut r: Vec<(String, String)> = Vec::new();
    let mut i: usize = 0;
    while i < headers.len()
        invariant
            i <= headers@.len(),
            strs(headers@) == hs,
            pairs(r@) == hs.take(i as int).map_values(|h: Seq<char>| (h, staged_path(h))),
        decreases headers.len() - i,
    {
        let s = staged_path_of(headers[i].as_str());
        let ghost before = pairs(r@);
        let ghost h = headers@[i as int]@;
        r.push((headers[i].clone(), s));
        assert(pairs(r@) =~= before.push((h, staged_path(h))));
        assert(hs[i as int] == h);
        assert(hs.take(i + 1).map_values(|h: Seq<char>| (h, staged_path(h))) =~= hs.take(
            i as int,
        ).map_values(|h: Seq<char>| (h, staged_path(h))).push((h, staged_path(h))));
        i += 1;
    }
    assert(hs.take(hs.len() as int) =~= hs);
    let ghost head = pairs(r@);
    let mut j: usize = 0;
    while j < graph.config_headers.len()
        invariant
            j <= chs.len(),
            chs == graph.config_headers@,
            pairs(r@) == head + chs.take(j as int).map_values(
                |h: ConfigHeader| (seq![':'] + config_header_name_spec(h.output@), staged_path(h.output@)),
            ),
        decreases graph.config_headers.len() - j,
    {
        let name = config_header_name(&graph.config_headers[j]);
        let mut l = String::new();
        push_char(&mut l, ':');
        push_str(&mut l, name.as_str());
        let s = staged_path_of(graph.config_headers[j].output.as_str());
        let ghost before = pairs(r@);
        let ghost h = chs[j as int];
        let ghost e = (seq![':'] + config_header_name_spec(h.output@), staged_path(h.output@));
        assert(l@ =~= e.0);
        r.push((l, s));
        assert(pairs(r@) =~= before.push(e));
        assert(chs.take(j + 1).map_values(
            |h: ConfigHeader| (seq![':'] + config_header_name_spec(h.output@), staged_path(h.output@)),
        ) =~= chs.take(j as int).map_values(
            |h: ConfigHeader| (seq![':'] + config_header_name_spec(h.output@), staged_path(h.output@)),
        ).push(e));
        j += 1;
    }
    assert(chs.take(chs.len() as int) =~= chs);
    r
}

fn firsts_of(p: &Vec<(String, String)>) -> (r: Vec<String>)
    ensures
        strs(r@) == firsts(pairs(p@)),
{
    let mut r: Vec<String> = Vec::new();
    let mut i: usize = 0;
    while i < p.len()
        invariant
            i <= p@.len(),
            strs(r@) == firsts(pairs(p@)).take(i as int),
        decreases p.len() - i,
    {
        let ghost before = strs(r@);
        r.push(p[i].0.clone());
        assert(strs(r@) =~= before.push(p@[i as int].0@));
        assert(firsts(pairs(p@)).take(i + 1) =~= firsts(pairs(p@)).take(i as int).push(p@[i as int].0@));
        i += 1;
    }
    assert(firsts(pairs(p@)).take(p@.len() as int) =~= firsts(pairs(p@)));
    r
}

fn seconds_of(p: &Vec<(String, String)>) -> (r: Vec<String>)
    ensures
        strs(r@) == seconds(pairs(p@)),
{
    let mut r: Vec<String> = Vec::new();
    let mut i: usize = 0;
    while i < p.len()
        invariant
            i <= p@.len(),
            strs(r@) == seconds(pairs(p@)).take(i as int),
        decreases p.len() - i,
    {
        let ghost before = strs(r@);
        r.push(p[i].1.clone());
        assert(strs(r@) =~= before.push(p@[i as int].1@));
        assert(seconds(pairs(p@)).take(i + 1) =~= seconds(pairs(p@)).take(i as int).push(p@[i as int].1@));
        i += 1;
    }
    assert(seconds(pairs(p@)).take(p@.len() as int) =~= seconds(pairs(p@)));
    r
}

fn render_staging_cmd(out: &mut String, p: &Vec<(String, String)>)
    ensures
        final(out)@ == old(out)@ + staging_cmd(pairs(p@)),
{
    let ghost start = out@;
    let mut i: usize = 0;
    while i < p.len()
        invariant
            i <= p@.len(),
            out@ == start + staging_cmd(pairs(p@).take(i as int)),
        decreases p.len() - i,
    {
        proof {
            assert(pairs(p@).take(i + 1).drop_last() =~= pairs(p@).take(i as int));
        }
        let (src, dst) = &p[i];
        push_str(out, "mkdir -p $$(dirname $(RULEDIR)/");
        push_str(out, dst.as_str());
        push_str(out, ") && cp $(location ");
        push_str(out, src.as_str());
        push_str(out, ") $(RULEDIR)/");
        push_str(out, dst.as_str());
        push_str(out, " && ");
        i += 1;
    }
    assert(pairs(p@).take(p@.len() as int) =~= pairs(p@));
}

/// Emits the module-wide genrule copying public headers (and every config
/// header) into `_include`, so an `includes` entry can name the directory
/// they are in. Returns whether it emitted anything.
///
/// A workaround for a `rules_cc` limitation: a header at the module root
/// cannot be reached by `#include <angled>`. It fires only when some target
/// asked for the module root on its include path.
#[verifier::rlimit(40)]
fn render_staged_headers(out: &mut String, graph: &BuildGraph) -> (r: bool)
    requires
        staged_emitted(*graph) ==> all_relative(firsts(staged_pairs(*graph))) && all_relative(
            seconds(staged_pairs(*graph)),
        ),
    ensures
        r == staged_emitted(*graph),
        final(out)@ == old(out)@ + staged_block(*graph),
{
    if !has_root_include(&graph.targets) {
        return false;
    }
    let staged = staged_pairs_of(graph);
    if staged.len() == 0 {
        return false;
    }
    let ghost p = staged_pairs(*graph);
    let srcs = firsts_of(&staged);
    let outs = seconds_of(&staged);
    let ghost start = out@;
    push_str(
        out,
        "# Staged so `includes` can name the directory these headers are in.\n# Bazel rejects `includes = [\".\"]` and passes only `-iquote .` for a\n# root package, so a header at the module root is unreachable by\n# `#include <angled>`. Workaround for a rules_cc limitation; remove it\n# and emit the headers in place once upstream supports this.\n",
    );
    push_str(out, "genrule(\n    name = \"_staged_hdrs\",\n");
    let ghost a1 = out@;
    render_path_list(out, "srcs", &srcs);
    let ghost a2 = out@;
    render_path_list(out, "outs", &outs);
    let ghost a3 = out@;
    push_str(out, "    cmd = \"");
    render_staging_cmd(out, &staged);
    push_str(out, "true\",\n");
    let ghost a4 = out@;
    push_str(out, "    visibility = [\"//visibility:public\"],\n");
    push_str(out, ")\n");
    let ghost head = staging_comment() + "genrule(\n    name = \"_staged_hdrs\",\n"@;
    let ghost s1 = string_list("srcs"@, firsts(p));
    let ghost s2 = string_list("outs"@, seconds(p));
    let ghost c = "    cmd = \""@ + staging_cmd(p) + "true\",\n"@;
    let ghost tail = public_visibility() + ")\n"@;
    assert(a1 =~= start + head);
    assert(a4 =~= a3 + c);
    assert(out@ =~= a4 + tail);
    assert(out@ =~= start + (head + s1 + s2 + c + tail));
    true
}

} // verus!

verus! {

#[verifier::rlimit(30)]
fn render_targets(
    out: &mut String,
    targets: &Vec<Target>,
    staged: bool,
    config_headers: &Vec<ConfigHeader>,
    shared: &Vec<String>,
)
    requires
        forall|i: int|
            0 <= i < targets@.len() ==> target_renderable(
                #[trigger] targets@[i],
                config_headers@,
            ),
    ensures
        final(out)@ == old(out)@ + target_blocks(
            targets@,
            staged,
            config_headers@,
            strs(shared@),
        ),
{
    let ghost start = out@;
    let mut i: usize = 0;
    while i < targets.len()
        invariant
            i <= targets@.len(),
            forall|k: int|
                0 <= k < targets@.len() ==> target_renderable(
                    #[trigger] targets@[k],
                    config_headers@,
                ),
            out@ == start + target_blocks(
                targets@.take(i as int),
                staged,
                config_headers@,
                strs(shared@),
            ),
        decreases targets.len() - i,
    {
        proof {
            assert(targets@.take(i + 1).drop_last() =~= targets@.take(i as int));
        }
        let ghost a0 = out@;
        if i > 0 || staged {
            push_str(out, "\n");
        }
        let ghost a1 = out@;
        render_cc_rule(out, &targets[i], config_headers, shared);
        i += 1;
        let ghost sep = if targets@.take(i as int).len() > 1 || staged {
            "\n"@
        } else {
            seq![]
        };
        let ghost rule = cc_rule(targets@[i - 1], config_headers@, strs(shared@));
        assert(a1 == a0 + sep);
        assert(out@ == a1 + rule);
        assert(out@ =~= a0 + (sep + rule));
    }
    assert(targets@.take(targets@.len() as int) =~= targets@);
}

fn render_tests(out: &mut String, tests: &Vec<Test>)
    ensures
        final(out)@ == old(out)@ + test_blocks(tests@),
{
    let ghost start = out@;
    let mut i: usize = 0;
    while i < tests.len()
        invariant
            i <= tests@.len(),
            out@ == start + test_blocks(tests@.take(i as int)),
        decreases tests.len() - i,
    {
        proof {
            assert(tests@.take(i + 1).drop_last() =~= tests@.take(i as int));
        }
        push_str(out, "\n");
        render_sh_test(out, &tests[i]);
        i += 1;
    }
    assert(tests@.take(tests@.len() as int) =~= tests@);
}

pub fn render_build_bazel(graph: &BuildGraph) -> (r: String)
    requires
        renderable(*graph),
    ensures
        r@ == build_bazel(*graph),
{
    let mut out = String::new();
    render_loads(&mut out, graph);
    let ghost a1 = out@;
    render_config_blocks(&mut out, &graph.config_headers);
    let ghost a2 = out@;
    let shared = shared_names_of(&graph.targets);
    let staged = render_staged_headers(&mut out, graph);
    let ghost a3 = out@;
    render_targets(&mut out, &graph.targets, staged, &graph.config_headers, &shared);
    let ghost a4 = out@;
    render_tests(&mut out, &graph.tests);
    let ghost l = loads_block(*graph);
    let ghost c = config_blocks(graph.config_headers@);
    let ghost s = staged_block(*graph);
    let ghost t = target_blocks(
        graph.targets@,
        staged_emitted(*graph),
        graph.config_headers@,
        shared_names(graph.targets@),
    );
    let ghost u = test_blocks(graph.tests@);
    assert(a1 =~= l);
    assert(out@ =~= l + c + s + t + u);
    out
}

/// Renders both files into memory, before anything is written: a graph
/// that would produce a non-portable module is refused with nothing on
/// disk (see [`is_renderable`]).
pub fn render(graph: &BuildGraph) -> (r: GeneratedModule)
    requires
        renderable(*graph),
    ensures
        r.module_bazel@ == module_bazel(*graph),
        r.build_bazel@ == build_bazel(*graph),
{
    GeneratedModule {
        module_bazel: render_module_bazel(graph),
        build_bazel: render_build_bazel(graph),
    }
}

fn target_is_renderable(target: &Target, config_headers: &Vec<ConfigHeader>) -> (r: bool)
    ensures
        r == target_renderable(*target, config_headers@),
{
    if !all_module_relative(&target.textual_sources) || !all_module_relative(&target.sources) {
        return false;
    }
    if target.kind == TargetKind::Library {
        let hdrs = hdrs_for(target, config_headers);
        if !all_module_relative(&hdrs) {
            return false;
        }
    }
    let includes = includes_for(target, config_headers);
    all_module_relative(&includes)
}

/// Whether `graph` can be rendered: every path bound for a path-valued
/// attribute is relative to the module root and stays inside it. A
/// violation is a frontend defect, not bad input; the caller refuses the
/// whole conversion on it.
pub fn is_renderable(graph: &BuildGraph) -> (r: bool)
    ensures
        r == renderable(*graph),
{
    let mut i: usize = 0;
    while i < graph.targets.len()
        invariant
            i <= graph.targets@.len(),
            forall|k: int|
                0 <= k < i ==> target_renderable(
                    #[trigger] graph.targets@[k],
                    graph.config_headers@,
                ),
        decreases graph.targets.len() - i,
    {
        if !target_is_renderable(&graph.targets[i], &graph.config_headers) {
            return false;
        }
        i += 1;
    }
    if has_root_include(&graph.targets) {
        let staged = staged_pairs_of(graph);
        if staged.len() != 0 {
            let srcs = firsts_of(&staged);
            let outs = seconds_of(&staged);
            return all_module_relative(&srcs) && all_module_relative(&outs);
        }
    }
    true
}

} // verus!

verus! {

/// `BUILD.bazel` of the module's `needs_attention/` directory: a package
/// even with no items, so its `all` label always resolves; `MANIFEST` is
/// listed explicitly so the group never vanishes from runfiles.
pub open spec fn needs_attention_build_bazel() -> Seq<char> {
    "filegroup(\n    name = \"all\",\n    srcs = glob(\n        [\"*.md\"],\n        allow_empty = True,\n    ) + [\"MANIFEST\"],\n    visibility = [\"//visibility:public\"],\n)\n"@
}

/// Renders the `BUILD.bazel` for the generated module's `needs_attention/`
/// directory.
pub fn render_needs_attention_build_bazel() -> (r: String)
    ensures
        r@ == needs_attention_build_bazel(),
{
    "filegroup(\n    name = \"all\",\n    srcs = glob(\n        [\"*.md\"],\n        allow_empty = True,\n    ) + [\"MANIFEST\"],\n    visibility = [\"//visibility:public\"],\n)\n".to_owned()
}

/// Each path double-quoted, joined by `, `.
pub open spec fn quoted_join(items: Seq<Seq<char>>) -> Seq<char>
    decreases items.len(),
{
    if items.len() == 0 {
        seq![]
    } else if items.len() == 1 {
        "\""@ + items[0] + "\""@
    } else {
        quoted_join(items.drop_last()) + ", \""@ + items.last() + "\""@
    }
}

/// The alias `filegroup` of each executable built under a subdirectory,
/// named by its target; none where the name is the artifact's path.
pub open spec fn executable_aliases(executables: Seq<(Seq<char>, Seq<char>)>) -> Seq<char>
    decreases executables.len(),
{
    if executables.len() == 0 {
        seq![]
    } else {
        let (name, path) = executables.last();
        executable_aliases(executables.drop_last()) + (if name == path {
            seq![]
        } else {
            "\nfilegroup(\n    name = \""@ + name + "\",\n    srcs = [\""@ + path
                + "\"],\n    visibility = [\"//visibility:public\"],\n)\n"@
        })
    }
}

/// `BUILD.bazel` of `ground_truth/`: every artifact exported, an alias per
/// subdirectory executable, and the `shared_libs` group (present even when
/// empty, so the comparison test can always name it).
pub open spec fn ground_truth_build_bazel(
    artifacts: Seq<Seq<char>>,
    executables: Seq<(Seq<char>, Seq<char>)>,
    shared_libs: Seq<Seq<char>>,
) -> Seq<char> {
    "exports_files(["@ + quoted_join(artifacts) + "])\n"@ + executable_aliases(executables)
        + "\nfilegroup(\n    name = \"shared_libs\",\n    srcs = ["@ + quoted_join(shared_libs)
        + "],\n    visibility = [\"//visibility:public\"],\n)\n"@
}

fn push_quoted_join(out: &mut String, items: &[String])
    ensures
        final(out)@ == old(out)@ + quoted_join(strs(items@)),
{
    let ghost start = out@;
    let mut i: usize = 0;
    while i < items.len()
        invariant
            i <= items@.len(),
            out@ == start + quoted_join(strs(items@).take(i as int)),
        decreases items.len() - i,
    {
        proof {
            assert(strs(items@).take(i + 1).drop_last() =~= strs(items@).take(i as int));
        }
        let ghost before = out@;
        if i > 0 {
            push_str(out, ", \"");
        } else {
            push_str(out, "\"");
        }
        push_str(out, items[i].as_str());
        push_str(out, "\"");
        proof {
            let item = items@[i as int]@;
            if i == 0 {
                assert(strs(items@).take(1)[0] == item);
                assert(out@ =~= start + quoted_join(strs(items@).take(1)));
            } else {
                let t = strs(items@).take(i + 1);
                assert(t.last() == item);
                assert(quoted_join(t) == quoted_join(t.drop_last()) + ", \""@ + item + "\""@);
                assert(out@ =~= before + (", \""@ + item + "\""@));
                assert(out@ =~= start + quoted_join(t));
            }
        }
        i += 1;
    }
    assert(strs(items@).take(items@.len() as int) =~= strs(items@));
}

/// Renders the `BUILD.bazel` for the generated module's `ground_truth/`
/// directory, exporting the artifacts the real build produced so the
/// equivalence tests can reference them. `executables` are (target name,
/// artifact path); `shared_libs` are the staged shared-library files a
/// dynamically linked ground-truth binary loads.
pub fn render_ground_truth_build_bazel(
    artifacts: &[String],
    executables: &[(String, String)],
    shared_libs: &[String],
) -> (r: String)
    ensures
        r@ == ground_truth_build_bazel(strs(artifacts@), pairs(executables@), strs(shared_libs@)),
{
    let mut out = String::new();
    push_str(&mut out, "exports_files([");
    push_quoted_join(&mut out, artifacts);
    push_str(&mut out, "])\n");
    let ghost a1 = out@;
    let ghost e = pairs(executables@);
    let mut i: usize = 0;
    while i < executables.len()
        invariant
            i <= executables@.len(),
            e == pairs(executables@),
            out@ == a1 + executable_aliases(e.take(i as int)),
        decreases executables.len() - i,
    {
        proof {
            assert(e.take(i + 1).drop_last() =~= e.take(i as int));
        }
        let (name, path) = &executables[i];
        if *name != *path {
            push_str(&mut out, "\nfilegroup(\n    name = \"");
            push_str(&mut out, name.as_str());
            push_str(&mut out, "\",\n    srcs = [\"");
            push_str(&mut out, path.as_str());
            push_str(&mut out, "\"],\n    visibility = [\"//visibility:public\"],\n)\n");
        }
        i += 1;
    }
    assert(e.take(e.len() as int) =~= e);
    push_str(&mut out, "\nfilegroup(\n    name = \"shared_libs\",\n    srcs = [");
    push_quoted_join(&mut out, shared_libs);
    push_str(&mut out, "],\n    visibility = [\"//visibility:public\"],\n)\n");
    out
}

/// The wrapper script a generated module ships to run a registered test:
/// it copies the module's data into a writable directory, runs the binary
/// from its runfiles location there, and decides pass/fail by the pass
/// regex when there is one, else by the exit code. Args: the binary's
/// runfiles-relative path, the working directory (`.` for the module
/// root), the pass regex (possibly dropped when empty).
pub const RUN_CMAKE_TEST_SH: &'static str = r#"#!/usr/bin/env bash
# Runs a CMake-registered test (see codegen::RUN_CMAKE_TEST_SH and
# docs/lore/cmake-test-model-lives-in-ctest-not-file-api.md). Not `set -e`:
# the binary's own nonzero exit is data this script evaluates, not a reason
# to abort before checking the pass regex.
set -uo pipefail

binary_name="$1"
working_dir="$2"
# Defaulted, not "$3": Bazel DROPS a trailing empty string when it tokenizes
# `args`, so a test with no PASS_REGULAR_EXPRESSION arrives with argc=2 and a
# bare "$3" aborts under `set -u` before the binary ever runs. The
# working-directory slot dodges this by never being empty (codegen sends "."),
# but the regex is genuinely empty whenever CMake declared none — which is the
# common case, and every prior sh_test producer happened to declare one.
pass_regex="${3:-}"

# This wrapper, the test binary, and the module's runtime data are all in
# the same package, so in runfiles they are siblings in this script's own
# directory. Derive the module's runfiles root from $0 rather than from
# TEST_WORKSPACE: when this module is a *dependency* of the workspace under
# test, its files live under runfiles/<canonical_repo>/ (e.g. tinyxml2+/),
# not runfiles/<TEST_WORKSPACE>/ — and the canonical repo name is something
# the module itself cannot know. $0's directory is correct whether the module
# is the root or a dependency.
module_runfiles="$(cd "$(dirname "$0")" && pwd)"

# Runfiles are read-only and the test writes into its working directory
# (tinyxml2's xmltest writes resources/out/), so stage a writable copy of the
# module's DATA and run with that as the working directory.
#
# The binary itself is deliberately NOT run from the staged copy. A binary
# linked against a cc_shared_library finds its .so through an $ORIGIN-relative
# RUNPATH into Bazel's _solib_* tree; moving the executable out from under
# runfiles severs every one of those paths and it dies with "cannot open
# shared object file". Left in place it resolves with no LD_LIBRARY_PATH at
# all. Verified both ways (bzl-i4i.8).
#
# Safe because the test binaries resolve their data relative to the WORKING
# DIRECTORY, not to their own location — checked across the corpus; the only
# argv[0] uses are usage strings and minigzip's basename-based mode switch,
# neither of which cares where the executable sits.
work_root="${TEST_TMPDIR:-$(mktemp -d)}/work"
mkdir -p "${work_root}"
cp -RL "${module_runfiles}/." "${work_root}/" 2>/dev/null || true
# working_dir is "." for the module root, or a module-relative subdir — never
# empty (an empty positional arg would be dropped when Bazel tokenizes args).
run_dir="${work_root}/${working_dir}"
mkdir -p "${run_dir}"

# In runfiles, not in the staged copy — see above.
binary="${module_runfiles}/${binary_name}"
chmod +x "${binary}" 2>/dev/null || true

output="$(cd "${run_dir}" && "${binary}" 2>&1)"
exit_code=$?

echo "${output}"

if [[ -n "${pass_regex}" ]]; then
  if ! grep -qE "${pass_regex}" <<<"${output}"; then
    echo "FAIL: output did not match PASS_REGULAR_EXPRESSION ${pass_regex}" >&2
    exit 1
  fi
  # With a pass regex, CTest treats a match as success regardless of exit
  # code; mirror that (many test harnesses signal via output, not status).
  exit 0
fi

exit "${exit_code}"
"#;

/// Returns the wrapper test runner script the module ships when it has
/// registered tests.
pub fn render_run_cmake_test_sh() -> (r: String)
    ensures
        r@ == RUN_CMAKE_TEST_SH@,
{
    RUN_CMAKE_TEST_SH.to_owned()
}

/// The text of an optional string, empty when there is none.
pub open spec fn optional_text(o: Option<String>) -> Seq<char> {
    match o {
        Some(r) => r@,
        None => seq![],
    }
}

/// `block` holds `a` somewhere.
pub open spec fn holds_args(block: Seq<char>, a: Seq<char>) -> bool {
    exists|i: int| 0 <= i && i + a.len() <= block.len() && #[trigger] block.subrange(i, i + a.len()) == a
}

/// The `args` lines of an `sh_test` passing these three arguments.
pub open spec fn sh_args(target: Seq<char>, wd: Seq<char>, regex: Seq<char>) -> Seq<char> {
    "args = [\n         \""@ + target + "\",\n         \""@ + wd + "\",\n         \""@ + regex + "\",\n"@
}

/// A rendered `sh_test` passes the test's target, then its working
/// directory (`.` only when that is empty, for the module root), then its
/// pass pattern: the test runs where it was registered to run.
pub proof fn law_sh_tests_run_in_their_working_directory(t: Test)
    ensures
        t.working_directory@.len() > 0 ==> holds_args(
            sh_test_block(t),
            sh_args(t.target@, t.working_directory@, optional_text(t.pass_regex)),
        ),
        t.working_directory@.len() == 0 ==> holds_args(
            sh_test_block(t),
            sh_args(t.target@, "."@, optional_text(t.pass_regex)),
        ),
{
    let wd = if t.working_directory@.len() == 0 {
        "."@
    } else {
        t.working_directory@
    };
    let glob = if t.working_directory@.len() == 0 {
        "glob([\"**\"], exclude = [\"BUILD.bazel\", \"MODULE.bazel\"])"@
    } else {
        "glob([\""@ + t.working_directory@ + "/**\"])"@
    };
    let regex = match t.pass_regex {
        Some(r) => r@,
        None => seq![],
    };
    let a = sh_args(t.target@, wd, regex);
    let pre = "sh_test(\n    name = \""@ + t.name@ + "_test\",\n    srcs = [\"run_cmake_test.sh\"],\n    "@;
    let post = "    ],\n    data = [\n         \":"@ + t.target@ + "\",\n    ] + "@ + glob + ",\n)\n"@;
    reveal_strlit("sh_test(\n    name = \"");
    reveal_strlit("_test\",\n    srcs = [\"run_cmake_test.sh\"],\n    args = [\n         \"");
    reveal_strlit("_test\",\n    srcs = [\"run_cmake_test.sh\"],\n    ");
    reveal_strlit("args = [\n         \"");
    reveal_strlit("\",\n         \"");
    reveal_strlit("\",\n    ],\n    data = [\n         \":");
    reveal_strlit("\",\n");
    reveal_strlit("    ],\n    data = [\n         \":");
    let b = sh_test_block(t);
    assert(b =~= pre + a + post);
    let i: int = pre.len() as int;
    assert(b.subrange(i, i + a.len()) =~= a);
    assert(holds_args(b, a));
}

} // verus!
