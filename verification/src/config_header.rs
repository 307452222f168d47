//! autoconf's config headers: the ones `config.status` records, and the
//! plan for reproducing each.
//!
//! `AC_CONFIG_HEADERS` templates declare what they need with `#undef NAME`;
//! `AC_CONFIG_FILES` headers are `@VAR@` substitution only. Both resolve
//! against the same probe catalog the CMake side uses, and against make's
//! variable database for what `configure` substituted. The caller reads
//! `config.status`, the templates and the database; this module decides.

use vstd::prelude::*;
use crate::configure_file::{
    catalog_label, is_catalog, is_catalog_define, lookup, lookup_value, plan_view, probe_label,
    substituted_names, template_macros,
};
use crate::headers::{ext_is, interface_ext, is_config_header_output};
use crate::model::{opt_view, pairs, ConfigDialect, ConfigHeader};
use crate::text::{
    chars, chars_of, has_prefix, is_ascii_digit, is_ws, lines, lines_of, one_of, sort_dedup,
    sort_dedup_strings, split_once, split_once_at, split_whitespace, split_ws, starts_with,
    str_eq, string_of, strs, subvec, trim, trim_end_by, trim_end_set, trim_start, trim_start_by,
    trim_start_set, trim_start_ws, trim_ws, views,
};

verus! {

/// A bare number: non-empty, ASCII digits only.
pub open spec fn numeric(v: Seq<char>) -> bool {
    v.len() > 0 && forall|k: int| 0 <= k < v.len() ==> is_ascii_digit(#[trigger] v[k])
}

/// Whether a substituted value is a bare number, and so must not be
/// quoted: autoconf emits `8` for `AC_DEFINE([SIZEOF_LONG], [8])` but
/// `"xz"` for a string.
pub fn is_numeric_literal(value: &str) -> (r: bool)
    ensures
        r == numeric(value@),
{
    let v = chars_of(value);
    if v.len() == 0 {
        return false;
    }
    let mut k: usize = 0;
    while k < v.len()
        invariant
            k <= v@.len(),
            v@ == value@,
            forall|j: int| 0 <= j < k ==> is_ascii_digit(#[trigger] v@[j]),
        decreases v.len() - k,
    {
        if !crate::text::ascii_digit(v[k]) {
            return false;
        }
        k += 1;
    }
    true
}

/// The name a line declares with `#undef`: only whitespace may precede the
/// `#`, whitespace may follow it, and a space or tab must follow `undef`
/// (so `#undefine` is none); the rest, trimmed, must be one word.
pub open spec fn undef_in(line: Seq<char>) -> Option<Seq<char>> {
    let t = trim_start(line);
    if !has_prefix(t, seq!['#']) {
        None
    } else {
        let u = trim_start(t.skip(1));
        if !has_prefix(u, "undef"@) {
            None
        } else {
            let rest = u.skip("undef"@.len() as int);
            if rest.len() == 0 || !(rest[0] == ' ' || rest[0] == '\t') {
                None
            } else {
                let name = trim(rest);
                if name.len() > 0 && forall|k: int| 0 <= k < name.len() ==> !is_ws(#[trigger] name[k]) {
                    Some(name)
                } else {
                    None
                }
            }
        }
    }
}

pub open spec fn undefs_in(ls: Seq<Seq<char>>) -> Seq<Seq<char>>
    decreases ls.len(),
{
    if ls.len() == 0 {
        seq![]
    } else {
        undefs_in(ls.drop_last()) + match undef_in(ls.last()) {
            Some(n) => seq![n],
            None => seq![],
        }
    }
}

fn no_whitespace(s: &[char]) -> (r: bool)
    ensures
        r == forall|k: int| 0 <= k < s@.len() ==> !is_ws(#[trigger] s@[k]),
{
    let mut k: usize = 0;
    while k < s.len()
        invariant
            k <= s@.len(),
            forall|j: int| 0 <= j < k ==> !is_ws(#[trigger] s@[j]),
        decreases s.len() - k,
    {
        if crate::text::is_whitespace(s[k]) {
            return false;
        }
        k += 1;
    }
    true
}

fn undef_of(line: &[char]) -> (r: Option<String>)
    ensures
        opt_view(r) == undef_in(line@),
{
    let t = trim_start_ws(line);
    if !(t.len() > 0 && t[0] == '#') {
        proof {
            if t@.len() > 0 {
                assert(t@.subrange(0, 1)[0] == t@[0]);
            }
        }
        return None;
    }
    assert(t@.subrange(0, 1) =~= seq!['#']);
    let after = subvec(t.as_slice(), 1, t.len());
    assert(after@ =~= t@.skip(1));
    let u = trim_start_ws(after.as_slice());
    let kw = chars_of("undef");
    if !starts_with(u.as_slice(), kw.as_slice()) {
        return None;
    }
    let rest = subvec(u.as_slice(), kw.len(), u.len());
    assert(rest@ =~= u@.skip(kw@.len() as int));
    if rest.len() == 0 || !(rest[0] == ' ' || rest[0] == '\t') {
        return None;
    }
    let name = trim_ws(rest.as_slice());
    if name.len() > 0 && no_whitespace(name.as_slice()) {
        Some(string_of(name.as_slice()))
    } else {
        None
    }
}

/// Every name an autoconf template declares with an `#undef`, in order.
/// Line-anchored: a mid-line `#undef` is ordinary C, not a declaration.
pub fn undef_names(template_text: &str) -> (r: Vec<String>)
    ensures
        strs(r@) == undefs_in(lines(template_text@)),
{
    let t = chars_of(template_text);
    let ls = lines_of(t.as_slice());
    let ghost lv = views(ls@);
    assert(lv =~= lines(template_text@));
    let mut r: Vec<String> = Vec::new();
    let mut i: usize = 0;
    while i < ls.len()
        invariant
            i <= ls@.len(),
            lv == views(ls@),
            strs(r@) == undefs_in(lv.take(i as int)),
        decreases ls.len() - i,
    {
        proof {
            assert(lv.take(i + 1).drop_last() =~= lv.take(i as int));
            assert(lv.take(i + 1).last() == ls@[i as int]@);
        }
        let ghost before = strs(r@);
        match undef_of(ls[i].as_slice()) {
            Some(n) => {
                r.push(n);
                assert(strs(r@) =~= before + seq![undef_in(ls@[i as int]@).unwrap()]);
            },
            None => {
                assert(strs(r@) =~= before + Seq::empty());
            },
        }
        i += 1;
    }
    assert(lv.take(lv.len() as int) =~= lv);
    r
}

/// How one declared name resolves.
pub enum Resolution {
    /// A catalog fact, answered by a probe.
    Probe,
    /// A macro a boolean build option controls, with that option.
    Flag(Seq<char>),
    /// A value `configure` substituted, as it goes into the header.
    Value(Seq<char>),
    /// `configure`'s shell word `no`: the fact is absent, nothing to define.
    Absent,
    /// Neither: escalated.
    Unmapped,
}

/// A substituted value as autoconf would write it: `yes` is the fact
/// (`1`), a number stays bare, anything else is a C string literal.
pub open spec fn c_value(v: Seq<char>) -> Seq<char> {
    if v == "yes"@ {
        "1"@
    } else if numeric(v) {
        v
    } else {
        "\""@ + v + "\""@
    }
}

/// How a `#undef NAME` resolves: a catalog probe first, then a flag that
/// controls it, then a non-empty value in make's database (where `no` means
/// absent); otherwise it is unmapped.
pub open spec fn resolution(
    name: Seq<char>,
    vars: Seq<(Seq<char>, Seq<char>)>,
    flags: Seq<(Seq<char>, Seq<char>)>,
) -> Resolution {
    if is_catalog(name) {
        Resolution::Probe
    } else if lookup(flags, name) is Some {
        Resolution::Flag(lookup(flags, name).unwrap())
    } else {
        match lookup(vars, name) {
            Some(v) => if v.len() == 0 {
                Resolution::Unmapped
            } else if v == "no"@ {
                Resolution::Absent
            } else {
                Resolution::Value(c_value(v))
            },
            None => Resolution::Unmapped,
        }
    }
}

/// The value a name resolved to a value gets: `1` for a flag's macro.
pub open spec fn resolved_value(
    name: Seq<char>,
    vars: Seq<(Seq<char>, Seq<char>)>,
    flags: Seq<(Seq<char>, Seq<char>)>,
) -> Seq<char> {
    match resolution(name, vars, flags) {
        Resolution::Flag(_) => "1"@,
        Resolution::Value(v) => v,
        _ => seq![],
    }
}

pub open spec fn names_where(
    names: Seq<Seq<char>>,
    vars: Seq<(Seq<char>, Seq<char>)>,
    flags: Seq<(Seq<char>, Seq<char>)>,
    kind: int,
) -> Seq<Seq<char>>
    decreases names.len(),
{
    if names.len() == 0 {
        seq![]
    } else {
        let n = names.last();
        let r = resolution(n, vars, flags);
        let hit = match r {
            Resolution::Probe => kind == 0,
            Resolution::Flag(_) => kind == 1 || kind == 2,
            Resolution::Value(_) => kind == 2,
            Resolution::Absent => false,
            Resolution::Unmapped => kind == 3,
        };
        names_where(names.drop_last(), vars, flags, kind) + if hit {
            seq![n]
        } else {
            seq![]
        }
    }
}

/// The options: each flag-controlled name with its flag, in template order.
pub open spec fn flag_options(
    names: Seq<Seq<char>>,
    vars: Seq<(Seq<char>, Seq<char>)>,
    flags: Seq<(Seq<char>, Seq<char>)>,
) -> Seq<(Seq<char>, Seq<char>)> {
    names_where(names, vars, flags, 1).map_values(|n: Seq<char>| (n, lookup(flags, n).unwrap()))
}

/// The plan for an autoconf template, and the names it leaves unmapped:
/// probes, values and unmapped names sorted and deduplicated; options in
/// template order.
pub open spec fn autoconf_plan(
    output: Seq<char>,
    template: Seq<char>,
    text: Seq<char>,
    vars: Seq<(Seq<char>, Seq<char>)>,
    flags: Seq<(Seq<char>, Seq<char>)>,
) -> (
    (Seq<char>, Seq<char>, Option<Seq<char>>, Seq<Seq<char>>, Seq<(Seq<char>, Seq<char>)>, ConfigDialect),
    Seq<(Seq<char>, Seq<char>)>,
    Seq<Seq<char>>,
) {
    let names = undefs_in(lines(text));
    let probes = sort_dedup(names_where(names, vars, flags, 0).map_values(|n: Seq<char>| probe_label(n)));
    let values = sort_dedup(names_where(names, vars, flags, 2)).map_values(
        |n: Seq<char>| (n, resolved_value(n, vars, flags)),
    );
    let unmapped = sort_dedup(names_where(names, vars, flags, 3));
    (
        (output, template, None, probes, values, ConfigDialect::Undef),
        flag_options(names, vars, flags),
        unmapped,
    )
}

/// The value a variable gets in the header, by the rules of `c_value`.
fn c_value_of(v: &String) -> (r: String)
    ensures
        r@ == c_value(v@),
{
    if str_eq(v.as_str(), "yes") {
        "1".to_owned()
    } else if is_numeric_literal(v.as_str()) {
        v.clone()
    } else {
        let mut r = "\"".to_owned();
        crate::text::push_str(&mut r, v.as_str());
        crate::text::push_str(&mut r, "\"");
        r
    }
}

/// Which of the four lists a name goes to (0 probes, 1 options, 2 values,
/// 3 unmapped), 4 for none, and its flag or value.
fn classify(name: &String, vars: &Vec<(String, String)>, flags: &Vec<(String, String)>) -> (r: (
    u8,
    String,
))
    ensures
        match resolution(name@, pairs(vars@), pairs(flags@)) {
            Resolution::Probe => r.0 == 0,
            Resolution::Flag(f) => r.0 == 1 && r.1@ == f,
            Resolution::Value(v) => r.0 == 2 && r.1@ == v,
            Resolution::Absent => r.0 == 4,
            Resolution::Unmapped => r.0 == 3,
        },
{
    if is_catalog_define(name.as_str()) {
        return (0, String::new());
    }
    match lookup_value(flags, name.as_str()) {
        Some(f) => (1, f),
        None => match lookup_value(vars, name.as_str()) {
            Some(v) => {
                if v.as_str().is_empty() {
                    (3, String::new())
                } else if str_eq(v.as_str(), "no") {
                    (4, String::new())
                } else {
                    (2, c_value_of(&v))
                }
            },
            None => (3, String::new()),
        },
    }
}

/// Builds the `config_header` plan for an autoconf `AC_CONFIG_HEADERS`
/// template, and the macros it references that neither the catalog, a
/// build option nor make's variable database answers.
///
/// A catalog fact is probed (the same catalog the CMake side uses). A
/// macro a boolean option controls is an option with value `1`. A value
/// `configure` substituted is written the way autoconf would: quoted unless
/// it is a number, `yes` as `1`, and `no` as no definition at all. An
/// empty variable is the absence of a value, so its macro escalates.
pub fn plan_config_header(
    output: &str,
    template: &str,
    template_text: &str,
    vars: &Vec<(String, String)>,
    flag_macros: &Vec<(String, String)>,
) -> (r: (ConfigHeader, Vec<String>))
    ensures
        ({
            let p = autoconf_plan(output@, template@, template_text@, pairs(vars@), pairs(flag_macros@));
            &&& plan_view(r.0) == p.0
            &&& pairs(r.0.options@) == p.1
            &&& strs(r.1@) == p.2
        }),
        r.0.splices@.len() == 0,
        r.0.shadow_dir is None,
{
    let names = undef_names(template_text);
    let ghost nv = strs(names@);
    let ghost v = pairs(vars@);
    let ghost f = pairs(flag_macros@);
    let mut labels: Vec<String> = Vec::new();
    let mut options: Vec<(String, String)> = Vec::new();
    let mut valued: Vec<String> = Vec::new();
    let mut unmapped: Vec<String> = Vec::new();
    let mut i: usize = 0;
    while i < names.len()
        invariant
            i <= names@.len(),
            nv == strs(names@),
            v == pairs(vars@),
            f == pairs(flag_macros@),
            strs(labels@) == names_where(nv.take(i as int), v, f, 0).map_values(
                |n: Seq<char>| probe_label(n),
            ),
            pairs(options@) == flag_options(nv.take(i as int), v, f),
            strs(valued@) == names_where(nv.take(i as int), v, f, 2),
            strs(unmapped@) == names_where(nv.take(i as int), v, f, 3),
        decreases names.len() - i,
    {
        let ghost t = nv.take(i + 1);
        proof {
            assert(t.drop_last() =~= nv.take(i as int));
            assert(t.last() == names@[i as int]@);
        }
        let ghost n = names@[i as int]@;
        let ghost bl = strs(labels@);
        let ghost bo = pairs(options@);
        let ghost bv = strs(valued@);
        let ghost bu = strs(unmapped@);
        let ghost w0 = names_where(nv.take(i as int), v, f, 0);
        let ghost w1 = names_where(nv.take(i as int), v, f, 1);
        let (kind, text) = classify(&names[i], vars, flag_macros);
        if kind == 0 {
            let label = match catalog_label(names[i].as_str()) {
                Some(l) => l,
                None => String::new(),
            };
            labels.push(label);
            assert(strs(labels@) =~= bl.push(probe_label(n)));
            assert(names_where(t, v, f, 0) =~= w0.push(n));
            assert(names_where(t, v, f, 0).map_values(|n: Seq<char>| probe_label(n)) =~= w0.map_values(
                |n: Seq<char>| probe_label(n),
            ).push(probe_label(n)));
        } else if kind == 1 {
            options.push((names[i].clone(), text));
            valued.push(names[i].clone());
            assert(pairs(options@) =~= bo.push((n, lookup(f, n).unwrap())));
            assert(names_where(t, v, f, 1) =~= w1.push(n));
            assert(flag_options(t, v, f) =~= w1.map_values(
                |n: Seq<char>| (n, lookup(f, n).unwrap()),
            ).push((n, lookup(f, n).unwrap())));
            assert(strs(valued@) =~= bv.push(n));
        } else if kind == 2 {
            valued.push(names[i].clone());
            assert(strs(valued@) =~= bv.push(n));
        } else if kind == 3 {
            unmapped.push(names[i].clone());
            assert(strs(unmapped@) =~= bu.push(n));
        }
        proof {
            assert(names_where(t, v, f, 0) =~= names_where(nv.take(i as int), v, f, 0) + (if kind
                == 0 {
                seq![n]
            } else {
                seq![]
            }));
            assert(names_where(t, v, f, 1) =~= w1 + (if kind == 1 {
                seq![n]
            } else {
                seq![]
            }));
            assert(names_where(t, v, f, 2) =~= bv + (if kind == 1 || kind == 2 {
                seq![n]
            } else {
                seq![]
            }));
            assert(names_where(t, v, f, 3) =~= bu + (if kind == 3 {
                seq![n]
            } else {
                seq![]
            }));
            if kind != 0 {
                assert(strs(labels@) =~= names_where(t, v, f, 0).map_values(
                    |n: Seq<char>| probe_label(n),
                ));
            }
            if kind != 1 {
                assert(flag_options(t, v, f) =~= flag_options(nv.take(i as int), v, f));
            }
        }
        i += 1;
    }
    assert(nv.take(nv.len() as int) =~= nv);
    let probes = sort_dedup_strings(&labels);
    let sorted_valued = sort_dedup_strings(&valued);
    let unmapped = sort_dedup_strings(&unmapped);
    let ghost sv = strs(sorted_valued@);
    let mut values: Vec<(String, String)> = Vec::new();
    let mut j: usize = 0;
    while j < sorted_valued.len()
        invariant
            j <= sorted_valued@.len(),
            sv == strs(sorted_valued@),
            v == pairs(vars@),
            f == pairs(flag_macros@),
            pairs(values@) == sv.take(j as int).map_values(
                |n: Seq<char>| (n, resolved_value(n, v, f)),
            ),
        decreases sorted_valued.len() - j,
    {
        let (kind, text) = classify(&sorted_valued[j], vars, flag_macros);
        let value = if kind == 1 {
            "1".to_owned()
        } else if kind == 2 {
            text
        } else {
            String::new()
        };
        let ghost n = sv[j as int];
        let ghost before = pairs(values@);
        assert(n == sorted_valued@[j as int]@);
        values.push((sorted_valued[j].clone(), value));
        assert(pairs(values@) =~= before.push((n, resolved_value(n, v, f))));
        j += 1;
        assert(sv.take(j as int).map_values(|n: Seq<char>| (n, resolved_value(n, v, f))) =~= sv.take(
            j - 1,
        ).map_values(|n: Seq<char>| (n, resolved_value(n, v, f))).push(
            (n, resolved_value(n, v, f)),
        ));
    }
    assert(sv.take(sv.len() as int) =~= sv);
    let header = ConfigHeader {
        output: output.to_owned(),
        template: template.to_owned(),
        template_source: None,
        catalog_probes: probes,
        values,
        options,
        splices: Vec::new(),
        dialect: ConfigDialect::Undef,
        shadow_dir: None,
    };
    (header, unmapped)
}


/// Whether a substituted name has a non-empty value in the database.
pub open spec fn has_value(name: Seq<char>, vars: Seq<(Seq<char>, Seq<char>)>) -> bool {
    lookup(vars, name) is Some && lookup(vars, name).unwrap().len() > 0
}

pub open spec fn substitutions_where(names: Seq<Seq<char>>, vars: Seq<(Seq<char>, Seq<char>)>, valued: bool) -> Seq<
    Seq<char>,
>
    decreases names.len(),
{
    if names.len() == 0 {
        seq![]
    } else {
        substitutions_where(names.drop_last(), vars, valued) + if has_value(names.last(), vars)
            == valued {
            seq![names.last()]
        } else {
            seq![]
        }
    }
}

/// The plan for an `AC_CONFIG_FILES` header: each `@VAR@` with a non-empty
/// value in make's database is substituted raw (the token is replaced in
/// place, so quoting would turn a keyword into a string); the rest are
/// unmapped. Both lists sorted.
pub open spec fn substitution_plan(
    output: Seq<char>,
    template: Seq<char>,
    text: Seq<char>,
    vars: Seq<(Seq<char>, Seq<char>)>,
) -> (
    (Seq<char>, Seq<char>, Option<Seq<char>>, Seq<Seq<char>>, Seq<(Seq<char>, Seq<char>)>, ConfigDialect),
    Seq<Seq<char>>,
) {
    let names = template_macros(text).1;
    let values = sort_dedup(substitutions_where(names, vars, true)).map_values(
        |n: Seq<char>| (n, lookup(vars, n).unwrap()),
    );
    let unmapped = sort_dedup(substitutions_where(names, vars, false));
    ((output, template, None, seq![], values, ConfigDialect::Substitution), unmapped)
}

fn value_of(name: &String, vars: &Vec<(String, String)>) -> (r: Option<String>)
    ensures
        match r {
            Some(v) => has_value(name@, pairs(vars@)) && v@ == lookup(pairs(vars@), name@).unwrap(),
            None => !has_value(name@, pairs(vars@)),
        },
{
    match lookup_value(vars, name.as_str()) {
        Some(v) => {
            if v.as_str().is_empty() {
                None
            } else {
                Some(v)
            }
        },
        None => None,
    }
}

/// Builds the `config_header` plan for an `AC_CONFIG_FILES` header, whose
/// template is `@VAR@` substitution rather than `#undef` declarations, and
/// the names make's database cannot answer. No catalog lookup: these are
/// the project's own shell variables, not toolchain facts.
pub fn plan_substitution_header(
    output: &str,
    template: &str,
    template_text: &str,
    vars: &Vec<(String, String)>,
) -> (r: (ConfigHeader, Vec<String>))
    ensures
        ({
            let p = substitution_plan(output@, template@, template_text@, pairs(vars@));
            &&& plan_view(r.0) == p.0
            &&& strs(r.1@) == p.1
        }),
        r.0.options@.len() == 0,
        r.0.splices@.len() == 0,
        r.0.shadow_dir is None,
{
    let names = substituted_names(template_text);
    let ghost nv = strs(names@);
    let ghost v = pairs(vars@);
    let mut valued: Vec<String> = Vec::new();
    let mut unmapped: Vec<String> = Vec::new();
    let mut i: usize = 0;
    while i < names.len()
        invariant
            i <= names@.len(),
            nv == strs(names@),
            v == pairs(vars@),
            strs(valued@) == substitutions_where(nv.take(i as int), v, true),
            strs(unmapped@) == substitutions_where(nv.take(i as int), v, false),
        decreases names.len() - i,
    {
        proof {
            assert(nv.take(i + 1).drop_last() =~= nv.take(i as int));
            assert(nv.take(i + 1).last() == names@[i as int]@);
        }
        let ghost bv = strs(valued@);
        let ghost bu = strs(unmapped@);
        match value_of(&names[i], vars) {
            Some(_) => {
                valued.push(names[i].clone());
                assert(strs(valued@) =~= bv.push(names@[i as int]@));
                assert(strs(unmapped@) =~= bu + Seq::empty());
            },
            None => {
                unmapped.push(names[i].clone());
                assert(strs(unmapped@) =~= bu.push(names@[i as int]@));
                assert(strs(valued@) =~= bv + Seq::empty());
            },
        }
        i += 1;
    }
    assert(nv.take(nv.len() as int) =~= nv);
    let sorted = sort_dedup_strings(&valued);
    let unmapped = sort_dedup_strings(&unmapped);
    let ghost sv = strs(sorted@);
    proof {
        crate::text::lemma_sort_dedup_members(substitutions_where(nv, v, true));
        lemma_substitutions_valued(nv, v);
    }
    let mut values: Vec<(String, String)> = Vec::new();
    let mut j: usize = 0;
    while j < sorted.len()
        invariant
            j <= sorted@.len(),
            sv == strs(sorted@),
            v == pairs(vars@),
            forall|k: int| 0 <= k < sv.len() ==> has_value(#[trigger] sv[k], v),
            pairs(values@) == sv.take(j as int).map_values(|n: Seq<char>| (n, lookup(v, n).unwrap())),
        decreases sorted.len() - j,
    {
        let ghost n = sv[j as int];
        assert(n == sorted@[j as int]@);
        assert(has_value(n, v));
        let value = match value_of(&sorted[j], vars) {
            Some(x) => x,
            None => String::new(),
        };
        let ghost before = pairs(values@);
        values.push((sorted[j].clone(), value));
        assert(pairs(values@) =~= before.push((n, lookup(v, n).unwrap())));
        j += 1;
        assert(sv.take(j as int).map_values(|n: Seq<char>| (n, lookup(v, n).unwrap())) =~= sv.take(
            j - 1,
        ).map_values(|n: Seq<char>| (n, lookup(v, n).unwrap())).push((n, lookup(v, n).unwrap())));
    }
    assert(sv.take(sv.len() as int) =~= sv);
    let header = ConfigHeader {
        output: output.to_owned(),
        template: template.to_owned(),
        template_source: None,
        catalog_probes: Vec::new(),
        values,
        options: Vec::new(),
        splices: Vec::new(),
        dialect: ConfigDialect::Substitution,
        shadow_dir: None,
    };
    assert(strs(header.catalog_probes@) =~= Seq::<Seq<char>>::empty());
    (header, unmapped)
}

proof fn lemma_substitutions_valued(names: Seq<Seq<char>>, vars: Seq<(Seq<char>, Seq<char>)>)
    ensures
        forall|x: Seq<char>| substitutions_where(names, vars, true).contains(x) ==> has_value(x, vars),
    decreases names.len(),
{
    if names.len() > 0 {
        lemma_substitutions_valued(names.drop_last(), vars);
        assert forall|x: Seq<char>| substitutions_where(names, vars, true).contains(x) implies has_value(
            x,
            vars,
        ) by {
            let r = substitutions_where(names.drop_last(), vars, true);
            let s = substitutions_where(names, vars, true);
            let k = choose|k: int| 0 <= k < s.len() && s[k] == x;
            if k < r.len() {
                assert(s[k] == r[k]);
                assert(r.contains(x));
            }
        }
    }
}

/// The first trimmed line of `config.status` starting with `key`, after it.
pub open spec fn status_value(ls: Seq<Seq<char>>, key: Seq<char>) -> Option<Seq<char>>
    decreases ls.len(),
{
    if ls.len() == 0 {
        None
    } else if has_prefix(trim(ls[0]), key) {
        Some(trim(ls[0]).skip(key.len() as int))
    } else {
        status_value(ls.drop_first(), key)
    }
}

pub open spec fn quote_chars() -> Seq<char> {
    seq!['"', '\'']
}

/// `s` without the quotes around it.
pub open spec fn unquoted(s: Seq<char>) -> Seq<char> {
    trim_end_by(trim_start_by(s, one_of(quote_chars())), one_of(quote_chars()))
}

/// One `AC_CONFIG_HEADERS` entry: `output:template`, or just the output
/// with autoconf's default template `<output>.in`.
pub open spec fn header_entry(spec: Seq<char>) -> (Seq<char>, Seq<char>) {
    match split_once(spec, seq![':']) {
        Some((o, t)) => (o, t),
        None => (spec, spec + ".in"@),
    }
}

/// The `config_headers=` entries of `config.status`.
pub open spec fn config_headers_spec(status: Seq<char>) -> Seq<(Seq<char>, Seq<char>)> {
    match status_value(lines(status), "config_headers="@) {
        None => seq![],
        Some(v) => split_ws(unquoted(v)).map_values(|e: Seq<char>| header_entry(e)),
    }
}

fn status_value_of(ls: &Vec<Vec<char>>, key: &[char]) -> (r: Option<Vec<char>>)
    ensures
        match r {
            Some(v) => status_value(views(ls@), key@) == Some(v@),
            None => status_value(views(ls@), key@) is None,
        },
{
    let ghost lv = views(ls@);
    assert(lv.skip(0) =~= lv);
    let mut i: usize = 0;
    while i < ls.len()
        invariant
            i <= ls@.len(),
            lv == views(ls@),
            status_value(lv, key@) == status_value(lv.skip(i as int), key@),
        decreases ls.len() - i,
    {
        assert(lv.skip(i as int)[0] == ls@[i as int]@);
        assert(lv.skip(i as int).drop_first() =~= lv.skip(i + 1));
        let t = trim_ws(ls[i].as_slice());
        if starts_with(t.as_slice(), key) {
            let rest = subvec(t.as_slice(), key.len(), t.len());
            assert(rest@ =~= t@.skip(key@.len() as int));
            return Some(rest);
        }
        i += 1;
    }
    None
}

fn unquote(s: &[char]) -> (r: Vec<char>)
    ensures
        r@ == unquoted(s@),
{
    let q: [char; 2] = ['"', '\''];
    assert(q@ =~= quote_chars());
    let a = trim_start_set(s, &q);
    trim_end_set(a.as_slice(), &q)
}

/// The config headers a project declares with `AC_CONFIG_HEADERS`, as
/// (output, template), read from `config.status`'s `config_headers=`.
pub fn parse_config_headers(config_status: &str) -> (r: Vec<(String, String)>)
    ensures
        pairs(r@) == config_headers_spec(config_status@),
{
    let t = chars_of(config_status);
    let ls = lines_of(t.as_slice());
    assert(views(ls@) =~= lines(config_status@));
    let key = chars_of("config_headers=");
    let v = match status_value_of(&ls, key.as_slice()) {
        None => return Vec::new(),
        Some(v) => v,
    };
    let entries = split_whitespace(unquote(v.as_slice()).as_slice());
    let ghost ev = views(entries@);
    let mut r: Vec<(String, String)> = Vec::new();
    let mut i: usize = 0;
    let colon: [char; 1] = [':'];
    assert(colon@ =~= seq![':']);
    while i < entries.len()
        invariant
            i <= entries@.len(),
            ev == views(entries@),
            colon@ == seq![':'],
            pairs(r@) == ev.take(i as int).map_values(|e: Seq<char>| header_entry(e)),
        decreases entries.len() - i,
    {
        let e = &entries[i];
        assert(ev[i as int] == e@);
        let entry = match split_once_at(e.as_slice(), &colon) {
            Some((o, tpl)) => (string_of(o.as_slice()), string_of(tpl.as_slice())),
            None => {
                let mut tpl = crate::text::subvec(e.as_slice(), 0, e.len());
                assert(tpl@ =~= e@);
                let suffix = chars_of(".in");
                crate::text::push_all(&mut tpl, suffix.as_slice());
                (string_of(e.as_slice()), string_of(tpl.as_slice()))
            },
        };
        let ghost before = pairs(r@);
        r.push(entry);
        assert(pairs(r@) =~= before.push(header_entry(e@)));
        i += 1;
        assert(ev.take(i as int).map_values(|e: Seq<char>| header_entry(e)) =~= ev.take(i - 1).map_values(
            |e: Seq<char>| header_entry(e),
        ).push(header_entry(e@)));
    }
    assert(ev.take(ev.len() as int) =~= ev);
    r
}

/// The output of an `AC_CONFIG_FILES` entry: what precedes its first `:`.
pub open spec fn entry_output(spec: Seq<char>) -> Seq<char> {
    match split_once(spec, seq![':']) {
        Some((o, _)) => o,
        None => spec,
    }
}

pub open spec fn header_outputs(entries: Seq<Seq<char>>) -> Seq<Seq<char>>
    decreases entries.len(),
{
    if entries.len() == 0 {
        seq![]
    } else {
        let o = entry_output(entries.last());
        header_outputs(entries.drop_last()) + if ext_is(o, |e: Seq<char>| interface_ext(e)) {
            seq![o]
        } else {
            seq![]
        }
    }
}

/// The `config_files=` entries of `config.status` that are headers.
pub open spec fn config_file_headers_spec(status: Seq<char>) -> Seq<Seq<char>> {
    match status_value(lines(status), "config_files="@) {
        None => seq![],
        Some(v) => header_outputs(split_ws(unquoted(v))),
    }
}

/// The headers a project generates through `AC_CONFIG_FILES`, read from
/// `config.status`'s `config_files=`: a list mixing Makefiles, `.pc` files
/// and headers, of which only the headers are kept, by extension.
pub fn parse_config_file_headers(config_status: &str) -> (r: Vec<String>)
    ensures
        strs(r@) == config_file_headers_spec(config_status@),
{
    let t = chars_of(config_status);
    let ls = lines_of(t.as_slice());
    assert(views(ls@) =~= lines(config_status@));
    let key = chars_of("config_files=");
    let v = match status_value_of(&ls, key.as_slice()) {
        None => return Vec::new(),
        Some(v) => v,
    };
    let entries = split_whitespace(unquote(v.as_slice()).as_slice());
    let ghost ev = views(entries@);
    let colon: [char; 1] = [':'];
    assert(colon@ =~= seq![':']);
    let mut r: Vec<String> = Vec::new();
    let mut i: usize = 0;
    while i < entries.len()
        invariant
            i <= entries@.len(),
            ev == views(entries@),
            colon@ == seq![':'],
            strs(r@) == header_outputs(ev.take(i as int)),
        decreases entries.len() - i,
    {
        proof {
            assert(ev.take(i + 1).drop_last() =~= ev.take(i as int));
            assert(ev.take(i + 1).last() == entries@[i as int]@);
        }
        let e = &entries[i];
        let o = match split_once_at(e.as_slice(), &colon) {
            Some((o, _)) => string_of(o.as_slice()),
            None => string_of(e.as_slice()),
        };
        let ghost before = strs(r@);
        if is_config_header_output(o.as_str()) {
            r.push(o);
            assert(strs(r@) =~= before + seq![entry_output(e@)]);
        } else {
            assert(strs(r@) =~= before + Seq::empty());
        }
        i += 1;
    }
    assert(ev.take(ev.len() as int) =~= ev);
    r
}

/// One `D["NAME"]=" value"` line of `config.status`: the name, and the
/// value without autoconf's separating space and its outer quotes.
pub open spec fn d_entry(line: Seq<char>) -> Option<(Seq<char>, Seq<char>)> {
    let t = trim(line);
    if !has_prefix(t, "D[\""@) {
        None
    } else {
        match split_once(t.skip("D[\""@.len() as int), "\"]="@) {
            None => None,
            Some((name, rest)) => {
                let value = trim(trim_end_by(trim_start_by(trim(rest), one_of(seq!['"'])), one_of(seq!['"'])));
                if name.len() > 0 && value.len() > 0 {
                    Some((name, value))
                } else {
                    None
                }
            },
        }
    }
}

pub open spec fn d_entries(ls: Seq<Seq<char>>) -> Seq<(Seq<char>, Seq<char>)>
    decreases ls.len(),
{
    if ls.len() == 0 {
        seq![]
    } else {
        d_entries(ls.drop_last()) + match d_entry(ls.last()) {
            Some(e) => seq![e],
            None => seq![],
        }
    }
}

fn d_entry_of(line: &[char]) -> (r: Option<(String, String)>)
    ensures
        match r {
            Some((n, v)) => d_entry(line@) == Some((n@, v@)),
            None => d_entry(line@) is None,
        },
{
    let t = trim_ws(line);
    let open = chars_of("D[\"");
    if !starts_with(t.as_slice(), open.as_slice()) {
        return None;
    }
    let rest = subvec(t.as_slice(), open.len(), t.len());
    assert(rest@ =~= t@.skip(open@.len() as int));
    let close = chars_of("\"]=");
    match split_once_at(rest.as_slice(), close.as_slice()) {
        None => None,
        Some((name, value_part)) => {
            let q: [char; 1] = ['"'];
            assert(q@ =~= seq!['"']);
            let a = trim_ws(value_part.as_slice());
            let b = trim_start_set(a.as_slice(), &q);
            let c = trim_end_set(b.as_slice(), &q);
            let value = trim_ws(c.as_slice());
            if name.len() > 0 && value.len() > 0 {
                Some((string_of(name.as_slice()), string_of(value.as_slice())))
            } else {
                None
            }
        },
    }
}

/// The values `configure` resolved for each config-header macro, read from
/// `config.status`'s own `D[]` table, in file order. Evidence for an
/// escalation, never an answer: these are this host's results. Collected
/// into a map, a later entry for a name overrides an earlier one.
pub fn parse_resolved_macro_values(config_status: &str) -> (r: Vec<(String, String)>)
    ensures
        pairs(r@) == d_entries(lines(config_status@)),
{
    let t = chars_of(config_status);
    let ls = lines_of(t.as_slice());
    let ghost lv = views(ls@);
    assert(lv =~= lines(config_status@));
    let mut r: Vec<(String, String)> = Vec::new();
    let mut i: usize = 0;
    while i < ls.len()
        invariant
            i <= ls@.len(),
            lv == views(ls@),
            pairs(r@) == d_entries(lv.take(i as int)),
        decreases ls.len() - i,
    {
        proof {
            assert(lv.take(i + 1).drop_last() =~= lv.take(i as int));
            assert(lv.take(i + 1).last() == ls@[i as int]@);
        }
        let ghost before = pairs(r@);
        match d_entry_of(ls[i].as_slice()) {
            Some(e) => {
                r.push(e);
                assert(pairs(r@) =~= before + seq![d_entry(ls@[i as int]@).unwrap()]);
            },
            None => {
                assert(pairs(r@) =~= before + Seq::empty());
            },
        }
        i += 1;
    }
    assert(lv.take(lv.len() as int) =~= lv);
    r
}

/// A substituted value stays bare in the header only when it is a
/// non-empty run of ASCII digits (or `yes`, written as the fact `1`); a
/// value with any other character, `2.1` or `1a` alike, becomes a C
/// string literal.
pub proof fn law_only_digit_runs_stay_bare(v: Seq<char>)
    ensures
        v.len() > 0 && (forall|k: int| 0 <= k < v.len() ==> is_ascii_digit(#[trigger] v[k])) ==> c_value(v) == v,
        v != "yes"@ && (exists|k: int| 0 <= k < v.len() && !is_ascii_digit(#[trigger] v[k])) ==> c_value(v)
            == "\""@ + v + "\""@,
        v.len() == 0 ==> c_value(v) == "\""@ + v + "\""@,
{
    reveal_strlit("yes");
    if v.len() > 0 && (forall|k: int| 0 <= k < v.len() ==> is_ascii_digit(#[trigger] v[k])) {
        assert(v != "yes"@) by {
            assert(is_ascii_digit(v[0]));
            if v == "yes"@ {
                assert(v[0] == 'y');
            }
        }
    }
    if v.len() == 0 {
        assert(v != "yes"@) by {
            if v == "yes"@ {
                assert(v.len() == 3);
            }
        }
    }
}

} // verus!
