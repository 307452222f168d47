//! An Autotools conversion assembled from what the build reported: the
//! command stream, make's variable database, `config.status`, the config
//! header templates and the files the build left behind.
//!
//! Running `configure` and `make` and reading the trees is the caller's
//! part; everything decided from their output is here.

use vstd::prelude::*;
use crate::autotools::{
    commands_view, parsed_commands, replacement_view, scope_for_index, stream_ok, BuildCommand,
    ReplacementHeader, VariableDatabase,
};
use crate::autotools_graph::{graph_inputs, graph_module_root, graph_of, ItemView, NamedList};
use crate::configure_file::{lookup, plan_view};
use crate::model::{opt_view, pairs, ConfigDialect, ConfigHeader};
use crate::needs_attention::{item_view, items_view, NeedsAttention};
use crate::text::{chars, chars_of, str_eq, string_of, strs};

verus! {

/// Why an Autotools conversion produced nothing to convert.
#[derive(Debug, Clone, PartialEq, Eq)]
pub enum AutotoolsError {
    /// The build printed no command: make had nothing to do, which means
    /// the build directory was not empty.
    NoBuildCommands { build_dir: String },
    /// The project directory is not inside the declared deliverable root.
    SourceDirOutsideDeliverableRoot { source_dir: String, deliverable_root: String },
    /// The command stream was not empty, and still no target came of it.
    NoTargets { config_headers: usize, tests: usize },
}

pub type PlanView = (
    Seq<char>,
    Seq<char>,
    Option<Seq<char>>,
    Seq<Seq<char>>,
    Seq<(Seq<char>, Seq<char>)>,
    ConfigDialect,
);

/// A config header as plain values: its plan, options, splices and shadow
/// directory.
pub type HeaderView = (
    PlanView,
    Seq<(Seq<char>, Seq<char>)>,
    Seq<(Seq<char>, Seq<char>)>,
    Option<Seq<char>>,
);

pub open spec fn header_view(h: ConfigHeader) -> HeaderView {
    (plan_view(h), pairs(h.options@), pairs(h.splices@), opt_view(h.shadow_dir))
}

pub open spec fn headers_view(hs: Seq<ConfigHeader>) -> Seq<HeaderView> {
    hs.map_values(|h: ConfigHeader| header_view(h))
}

/// The variables a build-tree file's `@VAR@`s read: those of the scope it
/// belongs to.
pub open spec fn scope_vars(db: VariableDatabase, path: Seq<char>) -> Seq<(Seq<char>, Seq<char>)> {
    db.scopes_view()[scope_for_index(db.scopes_view(), db.root_view(), path)].1
}

/// The `AC_CONFIG_HEADERS` headers whose template could be read, each
/// planned against its scope, with an item for each that declares macros
/// nothing answers.
pub open spec fn autoconf_headers(
    entries: Seq<(Seq<char>, Seq<char>)>,
    texts: Seq<(Seq<char>, Seq<char>)>,
    db: VariableDatabase,
    flags: Seq<(Seq<char>, Seq<char>)>,
) -> (Seq<HeaderView>, Seq<ItemView>)
    decreases entries.len(),
{
    if entries.len() == 0 {
        (seq![], seq![])
    } else {
        let prev = autoconf_headers(entries.drop_last(), texts, db, flags);
        let (o, t) = entries.last();
        match lookup(texts, t) {
            None => prev,
            Some(text) => {
                let p = crate::config_header::autoconf_plan(o, t, text, scope_vars(db, o), flags);
                (
                    prev.0.push((p.0, p.1, seq![], None)),
                    prev.1 + if p.2.len() > 0 {
                        seq![crate::needs_attention::unmapped_item(o, t, p.2)]
                    } else {
                        seq![]
                    },
                )
            },
        }
    }
}

/// The `AC_CONFIG_FILES` headers whose `<output>.in` template could be
/// read, planned as `@VAR@` substitutions, with the options that govern
/// their values.
pub open spec fn substitution_headers(
    outputs: Seq<Seq<char>>,
    texts: Seq<(Seq<char>, Seq<char>)>,
    db: VariableDatabase,
    flags: Seq<(Seq<char>, Seq<char>)>,
) -> (Seq<HeaderView>, Seq<ItemView>)
    decreases outputs.len(),
{
    if outputs.len() == 0 {
        (seq![], seq![])
    } else {
        let prev = substitution_headers(outputs.drop_last(), texts, db, flags);
        let o = outputs.last();
        let t = o + ".in"@;
        match lookup(texts, t) {
            None => prev,
            Some(text) => {
                let p = crate::config_header::substitution_plan(o, t, text, scope_vars(db, o));
                (
                    prev.0.push((p.0, crate::autotools::flag_options_spec(p.0.4, flags), seq![], None)),
                    prev.1 + if p.1.len() > 0 {
                        seq![crate::needs_attention::unmapped_item(o, t, p.1)]
                    } else {
                        seq![]
                    },
                )
            },
        }
    }
}

pub type ReplacementView = (
    Seq<char>,
    Seq<char>,
    Seq<(Seq<char>, Seq<char>)>,
    Seq<(Seq<char>, Seq<char>)>,
    Seq<char>,
);

/// The replacement headers whose template lies in the module, each
/// generated into its shadow directory.
pub open spec fn replacement_headers(reps: Seq<ReplacementView>, mr: Seq<char>) -> Seq<HeaderView>
    decreases reps.len(),
{
    if reps.len() == 0 {
        seq![]
    } else {
        let prev = replacement_headers(reps.drop_last(), mr);
        let r = reps.last();
        match crate::autotools::shadow_dir_spec(r.1, mr) {
            None => prev,
            Some((t, d)) => prev.push(
                (
                    (r.0, t, None, seq![], r.2, ConfigDialect::Substitution),
                    seq![],
                    crate::autotools::rebased_splices(r.3, d, mr),
                    Some(d),
                ),
            ),
        }
    }
}

/// The project's name: `PACKAGE`, else `PACKAGE_NAME`, else `project`.
pub open spec fn project_name_spec(root: Seq<(Seq<char>, Seq<char>)>) -> Seq<char> {
    match lookup(root, "PACKAGE"@) {
        Some(n) => n,
        None => match lookup(root, "PACKAGE_NAME"@) {
            Some(n) => n,
            None => "project"@,
        },
    }
}

fn autoconf_headers_exec(
    entries: &Vec<(String, String)>,
    texts: &Vec<(String, String)>,
    db: &VariableDatabase,
    flags: &Vec<(String, String)>,
    headers: &mut Vec<ConfigHeader>,
    items: &mut Vec<NeedsAttention>,
)
    requires
        db.wf(),
    ensures
        headers_view(final(headers)@) == headers_view(old(headers)@) + autoconf_headers(
            pairs(entries@),
            pairs(texts@),
            *db,
            pairs(flags@),
        ).0,
        items_view(final(items)@) == items_view(old(items)@) + autoconf_headers(
            pairs(entries@),
            pairs(texts@),
            *db,
            pairs(flags@),
        ).1,
{
    let ghost h0 = headers_view(headers@);
    let ghost i0 = items_view(items@);
    let ghost ev = pairs(entries@);
    let mut k: usize = 0;
    while k < entries.len()
        invariant
            k <= entries@.len(),
            ev == pairs(entries@),
            db.wf(),
            headers_view(headers@) == h0 + autoconf_headers(ev.take(k as int), pairs(texts@), *db, pairs(flags@)).0,
            items_view(items@) == i0 + autoconf_headers(ev.take(k as int), pairs(texts@), *db, pairs(flags@)).1,
        decreases entries.len() - k,
    {
        assert(ev.take(k + 1).drop_last() =~= ev.take(k as int));
        assert(ev.take(k + 1).last() == (entries@[k as int].0@, entries@[k as int].1@));
        let ghost hb = headers_view(headers@);
        let ghost ib = items_view(items@);
        let output = &entries[k].0;
        let template = &entries[k].1;
        match crate::configure_file::lookup_value(texts, template.as_str()) {
            None => {},
            Some(text) => {
                let vars = db.scope_for(output.as_str());
                let (header, unmapped) = crate::config_header::plan_config_header(
                    output.as_str(),
                    template.as_str(),
                    text.as_str(),
                    vars,
                    flags,
                );
                if unmapped.len() > 0 {
                    let it = crate::needs_attention::unmapped_config_macros_needs_attention(
                        output.as_str(),
                        template.as_str(),
                        unmapped.as_slice(),
                    );
                    items.push(it);
                    assert(items_view(items@) =~= ib + seq![item_view(it)]);
                } else {
                    assert(ib =~= ib + Seq::<ItemView>::empty());
                }
                assert(pairs(header.splices@) =~= Seq::<(Seq<char>, Seq<char>)>::empty());
                headers.push(header);
                assert(headers_view(headers@) =~= hb.push(header_view(header)));
            },
        }
        k += 1;
    }
    assert(ev.take(k as int) =~= ev);
}

fn substitution_headers_exec(
    outputs: &Vec<String>,
    texts: &Vec<(String, String)>,
    db: &VariableDatabase,
    flags: &Vec<(String, String)>,
    headers: &mut Vec<ConfigHeader>,
    items: &mut Vec<NeedsAttention>,
)
    requires
        db.wf(),
    ensures
        headers_view(final(headers)@) == headers_view(old(headers)@) + substitution_headers(
            strs(outputs@),
            pairs(texts@),
            *db,
            pairs(flags@),
        ).0,
        items_view(final(items)@) == items_view(old(items)@) + substitution_headers(
            strs(outputs@),
            pairs(texts@),
            *db,
            pairs(flags@),
        ).1,
{
    let ghost h0 = headers_view(headers@);
    let ghost i0 = items_view(items@);
    let ghost ov = strs(outputs@);
    let mut k: usize = 0;
    while k < outputs.len()
        invariant
            k <= outputs@.len(),
            ov == strs(outputs@),
            db.wf(),
            headers_view(headers@) == h0 + substitution_headers(ov.take(k as int), pairs(texts@), *db, pairs(flags@)).0,
            items_view(items@) == i0 + substitution_headers(ov.take(k as int), pairs(texts@), *db, pairs(flags@)).1,
        decreases outputs.len() - k,
    {
        assert(ov.take(k + 1).drop_last() =~= ov.take(k as int));
        assert(ov.take(k + 1).last() == outputs@[k as int]@);
        let ghost hb = headers_view(headers@);
        let ghost ib = items_view(items@);
        let output = &outputs[k];
        let mut template = output.clone();
        crate::text::push_str(&mut template, ".in");
        match crate::configure_file::lookup_value(texts, template.as_str()) {
            None => {},
            Some(text) => {
                let vars = db.scope_for(output.as_str());
                let (mut header, unmapped) = crate::config_header::plan_substitution_header(
                    output.as_str(),
                    template.as_str(),
                    text.as_str(),
                    vars,
                );
                header.options = crate::autotools::flag_options(&header, flags);
                if unmapped.len() > 0 {
                    let it = crate::needs_attention::unmapped_config_macros_needs_attention(
                        output.as_str(),
                        template.as_str(),
                        unmapped.as_slice(),
                    );
                    items.push(it);
                    assert(items_view(items@) =~= ib + seq![item_view(it)]);
                } else {
                    assert(ib =~= ib + Seq::<ItemView>::empty());
                }
                assert(pairs(header.splices@) =~= Seq::<(Seq<char>, Seq<char>)>::empty());
                headers.push(header);
                assert(headers_view(headers@) =~= hb.push(header_view(header)));
            },
        }
        k += 1;
    }
    assert(ov.take(k as int) =~= ov);
}

fn replacement_headers_exec(reps: &Vec<ReplacementHeader>, mr: &str, headers: &mut Vec<ConfigHeader>)
    ensures
        headers_view(final(headers)@) == headers_view(old(headers)@) + replacement_headers(
            reps@.map_values(|h: ReplacementHeader| replacement_view(h)),
            mr@,
        ),
{
    let ghost h0 = headers_view(headers@);
    let ghost rv = reps@.map_values(|h: ReplacementHeader| replacement_view(h));
    let mut k: usize = 0;
    while k < reps.len()
        invariant
            k <= reps@.len(),
            rv == reps@.map_values(|h: ReplacementHeader| replacement_view(h)),
            headers_view(headers@) == h0 + replacement_headers(rv.take(k as int), mr@),
        decreases reps.len() - k,
    {
        assert(rv.take(k + 1).drop_last() =~= rv.take(k as int));
        assert(rv.take(k + 1).last() == replacement_view(reps@[k as int]));
        let ghost hb = headers_view(headers@);
        let r = &reps[k];
        match crate::autotools::rebase_shadow_dir(r, mr) {
            None => {},
            Some((template, shadow)) => {
                let splices = crate::autotools::rebase_splices(r.splices.as_slice(), shadow.as_str(), mr);
                let h = ConfigHeader {
                    output: r.output.clone(),
                    template,
                    template_source: None,
                    catalog_probes: Vec::new(),
                    values: crate::autotools::copy_pairs(&r.values),
                    options: Vec::new(),
                    splices,
                    dialect: ConfigDialect::Substitution,
                    shadow_dir: Some(shadow),
                };
                assert(strs(h.catalog_probes@) =~= Seq::<Seq<char>>::empty());
                assert(pairs(h.options@) =~= Seq::<(Seq<char>, Seq<char>)>::empty());
                headers.push(h);
                assert(headers_view(headers@) =~= hb.push(header_view(h)));
            },
        }
        k += 1;
    }
    assert(rv.take(k as int) =~= rv);
}

fn project_name_of(db: &VariableDatabase) -> (r: String)
    requires
        db.wf(),
    ensures
        r@ == project_name_spec(db.scopes_view()[0].1),
{
    let root = db.root();
    match crate::configure_file::lookup_value(root, "PACKAGE") {
        Some(n) => n,
        None => match crate::configure_file::lookup_value(root, "PACKAGE_NAME") {
            Some(n) => n,
            None => {
                let mut r = String::new();
                crate::text::push_str(&mut r, "project");
                r
            },
        },
    }
}

/// The graph inputs of a discovery: the commands the stream shows, run
/// from `db`'s build root.
pub open spec fn discover_inputs(
    stream: Seq<char>,
    db: VariableDatabase,
    source_dir: Seq<char>,
    deliverable_root: Seq<char>,
) -> crate::autotools_graph::GraphInputs {
    crate::autotools_graph::GraphInputs {
        cmds: parsed_commands(stream, db.root_view()),
        scopes: db.scopes_view(),
        build_root: db.root_view(),
        source_dir,
        deliverable_root,
    }
}

/// Where a config header is written in the module.
pub open spec fn header_output(h: HeaderView) -> Seq<char> {
    match h.3 {
        Some(d) => d + seq!['/'] + h.0.0,
        None => h.0.0,
    }
}

/// Every config header of a discovery: `AC_CONFIG_HEADERS`, then
/// `AC_CONFIG_FILES` headers, then the replacement headers the stream
/// shows being generated.
pub open spec fn discovered_headers(
    stream: Seq<char>,
    db: VariableDatabase,
    mr: Seq<char>,
    status: Seq<char>,
    texts: Seq<(Seq<char>, Seq<char>)>,
    flags: Seq<(Seq<char>, Seq<char>)>,
) -> Seq<HeaderView> {
    autoconf_headers(crate::config_header::config_headers_spec(status), texts, db, flags).0 + substitution_headers(
        crate::config_header::config_file_headers_spec(status),
        texts,
        db,
        flags,
    ).0 + replacement_headers(crate::autotools::replacement_headers_spec(stream, db.root_view()), mr)
}

/// What a discovery escalates: macros no probe answers, the graph's own
/// items, and headers the build generated that nothing reproduces.
pub open spec fn discovered_items(
    stream: Seq<char>,
    db: VariableDatabase,
    source_dir: Seq<char>,
    deliverable_root: Seq<char>,
    deps: crate::dependencies::Dependencies,
    status: Seq<char>,
    texts: Seq<(Seq<char>, Seq<char>)>,
    flags: Seq<(Seq<char>, Seq<char>)>,
    la_texts: Seq<(Seq<char>, Seq<char>)>,
    build_files: Seq<Seq<char>>,
) -> Seq<ItemView> {
    let g = discover_inputs(stream, db, source_dir, deliverable_root);
    let mr = graph_module_root(g);
    let hs = discovered_headers(stream, db, mr, status, texts, flags);
    let generated = crate::autotools_graph::generated_spec(
        g.cmds,
        db.root_view(),
        source_dir,
        hs.map_values(|h: HeaderView| header_output(h)),
        stream,
        build_files,
    );
    autoconf_headers(crate::config_header::config_headers_spec(status), texts, db, flags).1 + substitution_headers(
        crate::config_header::config_file_headers_spec(status),
        texts,
        db,
        flags,
    ).1 + crate::autotools_graph::graph_attention(g, deps, la_texts) + if generated.len() > 0 {
        seq![crate::needs_attention::generated_item(generated)]
    } else {
        seq![]
    }
}

/// What the readable sources textually include, keyed by their path in
/// the module rooted at `mr`; a file outside it is not scanned.
pub open spec fn textual_scans(texts: Seq<(Seq<char>, Seq<char>)>, mr: Seq<char>) -> Seq<(Seq<char>, Seq<Seq<char>>)>
    decreases texts.len(),
{
    if texts.len() == 0 {
        seq![]
    } else {
        textual_scans(texts.drop_last(), mr) + match crate::paths::strip_path_prefix(texts.last().0, mr) {
            Some(rel) => seq![(rel, crate::headers::textual_names(crate::text::lines(texts.last().1)))],
            None => seq![],
        }
    }
}

/// `d` is the discovery of the given build outputs.
pub open spec fn discovered(
    d: crate::cmake_api::Discovery,
    stream: Seq<char>,
    db: VariableDatabase,
    source_dir: Seq<char>,
    deliverable_root: Seq<char>,
    deps: crate::dependencies::Dependencies,
    status: Seq<char>,
    texts: Seq<(Seq<char>, Seq<char>)>,
    flags: Seq<(Seq<char>, Seq<char>)>,
    la_texts: Seq<(Seq<char>, Seq<char>)>,
    build_files: Seq<Seq<char>>,
    source_files: Seq<Seq<char>>,
    source_texts: Seq<(Seq<char>, Seq<char>)>,
) -> bool {
    let g = discover_inputs(stream, db, source_dir, deliverable_root);
    let mr = graph_module_root(g);
    let ps = crate::autotools_graph::graph_plans(g, deps, la_texts);
    let es = crate::autotools::per_directory(db.scopes_view(), db.root_view());
    &&& d.module_root@ == mr
    &&& d.graph.module.name@ == project_name_spec(db.scopes_view()[0].1)
    &&& opt_view(d.graph.module.version) == lookup(db.scopes_view()[0].1, "VERSION"@)
    &&& exists|t0: Seq<crate::model::Target>, t1: Seq<crate::model::Target>, t2: Seq<crate::model::Target>|
        #![trigger crate::headers::injected(t1, t0, mr, source_files), crate::autotools_graph::textual_added(t2, t1, textual_scans(source_texts, mr))]
        crate::autotools_graph::all_match(t0, ps) && crate::headers::injected(t1, t0, mr, source_files)
            && crate::autotools_graph::textual_added(t2, t1, textual_scans(source_texts, mr))
            && crate::autotools_graph::promoted_all(
            d.graph.targets@,
            t2,
            crate::autotools_graph::installed_headers_spec(db.scopes_view()),
        )
    &&& crate::autotools_graph::tests_view(d.graph.tests@) == crate::autotools_graph::bound_tests(
        es,
        crate::autotools_graph::plan_names(ps),
    )
    &&& crate::autotools_graph::tests_view(d.graph.unexpressed_tests@) == crate::autotools_graph::unbound_tests(
        es,
        crate::autotools_graph::plan_names(ps),
    )
    &&& headers_view(d.graph.config_headers@) == discovered_headers(stream, db, mr, status, texts, flags)
    &&& d.graph.dependencies@.len() == 0
    &&& items_view(d.needs_attention@) == discovered_items(
        stream,
        db,
        source_dir,
        deliverable_root,
        deps,
        status,
        texts,
        flags,
        la_texts,
        build_files,
    )
}

fn scans_of(texts: &Vec<(String, String)>, mr: &str) -> (r: Vec<(String, Vec<String>)>)
    ensures
        crate::headers::opened_view(r@) == textual_scans(pairs(texts@), mr@),
{
    let ghost tv = pairs(texts@);
    let mut r: Vec<(String, Vec<String>)> = Vec::new();
    let mut i: usize = 0;
    while i < texts.len()
        invariant
            i <= texts@.len(),
            tv == pairs(texts@),
            crate::headers::opened_view(r@) == textual_scans(tv.take(i as int), mr@),
        decreases texts.len() - i,
    {
        assert(tv.take(i + 1).drop_last() =~= tv.take(i as int));
        assert(tv.take(i + 1).last() == (texts@[i as int].0@, texts@[i as int].1@));
        let ghost before = crate::headers::opened_view(r@);
        match crate::paths::strip_prefix_path(chars(&texts[i].0).as_slice(), chars_of(mr).as_slice()) {
            Some(rel) => {
                let names = crate::headers::textually_included_sources(texts[i].1.as_str());
                let e = (string_of(rel.as_slice()), names);
                r.push(e);
                assert(crate::headers::opened_view(r@) =~= before + seq![(rel@, strs(e.1@))]);
            },
            None => {
                assert(before =~= before + Seq::<(Seq<char>, Seq<Seq<char>>)>::empty());
            },
        }
        i += 1;
    }
    assert(tv.take(i as int) =~= tv);
    r
}

fn append_items(items: &mut Vec<NeedsAttention>, more: &Vec<NeedsAttention>)
    ensures
        items_view(final(items)@) == items_view(old(items)@) + items_view(more@),
{
    let ghost start = items_view(items@);
    let mut i: usize = 0;
    while i < more.len()
        invariant
            i <= more@.len(),
            items_view(items@) == start + items_view(more@).take(i as int),
        decreases more.len() - i,
    {
        let ghost before = items_view(items@);
        items.push(more[i].clone_item());
        assert(items_view(items@) =~= before.push(item_view(more@[i as int])));
        i += 1;
        assert(items_view(items@) =~= start + items_view(more@).take(i as int));
    }
    assert(items_view(more@).take(i as int) =~= items_view(more@));
}

/// Converts an Autotools project from what its build reported: `stream`
/// is make's output (the build, then the build of the check programs),
/// `db` its variable database, `config_status` the text of
/// `config.status`, `template_texts` each readable template by its path
/// in the source tree, `flag_macros` the macros each boolean option
/// owns, `la_texts` each libtool `.la` the build wrote, `build_files`
/// and `source_files` every file of the build tree and of the
/// deliverable, and `source_texts` the text of each readable source, by
/// absolute path.
///
/// Fails when the stream holds no command (the build directory was not
/// empty), when the project lies outside the deliverable root, and when
/// no target came of the stream; otherwise the discovery is exactly
/// `discovered`.
#[verifier::rlimit(100)]
pub fn discover(
    stream: &str,
    db: &VariableDatabase,
    source_dir: &str,
    deliverable_root: &str,
    deps: &crate::dependencies::Dependencies,
    config_status: &str,
    template_texts: &Vec<(String, String)>,
    flag_macros: &Vec<(String, String)>,
    la_texts: &Vec<(String, String)>,
    build_files: &Vec<String>,
    source_files: &Vec<String>,
    source_texts: &Vec<(String, String)>,
) -> (r: Result<crate::cmake_api::Discovery, AutotoolsError>)
    requires
        deps.wf(),
        db.wf(),
        stream_ok(stream@),
    ensures
        (r matches Err(AutotoolsError::NoBuildCommands { .. })) <==> parsed_commands(stream@, db.root_view()).len() == 0,
        r matches Err(AutotoolsError::NoBuildCommands { build_dir }) ==> build_dir@ == db.root_view(),
        (r matches Err(AutotoolsError::SourceDirOutsideDeliverableRoot { .. })) <==> (parsed_commands(
            stream@,
            db.root_view(),
        ).len() > 0 && !crate::paths::path_starts_with(source_dir@, deliverable_root@)),
        r matches Err(AutotoolsError::SourceDirOutsideDeliverableRoot { source_dir: s, deliverable_root: d })
            ==> s@ == source_dir@ && d@ == deliverable_root@,
        (r matches Err(AutotoolsError::NoTargets { .. })) <==> (parsed_commands(stream@, db.root_view()).len() > 0
            && crate::paths::path_starts_with(source_dir@, deliverable_root@) && crate::autotools_graph::graph_plans(
            discover_inputs(stream@, *db, source_dir@, deliverable_root@),
            *deps,
            pairs(la_texts@),
        ).len() == 0),
        r matches Err(AutotoolsError::NoTargets { config_headers, tests }) ==> config_headers
            == discovered_headers(
            stream@,
            *db,
            graph_module_root(discover_inputs(stream@, *db, source_dir@, deliverable_root@)),
            config_status@,
            pairs(template_texts@),
            pairs(flag_macros@),
        ).len() && tests == crate::autotools_graph::bound_tests(
            crate::autotools::per_directory(db.scopes_view(), db.root_view()),
            seq![],
        ).len(),
        r matches Ok(d) ==> discovered(
            d,
            stream@,
            *db,
            source_dir@,
            deliverable_root@,
            *deps,
            config_status@,
            pairs(template_texts@),
            pairs(flag_macros@),
            pairs(la_texts@),
            strs(build_files@),
            strs(source_files@),
            pairs(source_texts@),
        ),
{
    let ghost g = discover_inputs(stream@, *db, source_dir@, deliverable_root@);
    let br = db.build_root().clone();
    let cmds = crate::autotools::parse_commands(stream, br.as_str());
    if cmds.len() == 0 {
        return Err(AutotoolsError::NoBuildCommands { build_dir: br });
    }
    let mut headers: Vec<ConfigHeader> = Vec::new();
    let mut items: Vec<NeedsAttention> = Vec::new();
    assert(headers_view(headers@) =~= Seq::<HeaderView>::empty());
    assert(items_view(items@) =~= Seq::<ItemView>::empty());
    let entries = crate::config_header::parse_config_headers(config_status);
    autoconf_headers_exec(&entries, template_texts, db, flag_macros, &mut headers, &mut items);
    let outputs = crate::config_header::parse_config_file_headers(config_status);
    substitution_headers_exec(&outputs, template_texts, db, flag_macros, &mut headers, &mut items);
    let name = project_name_of(db);
    if !crate::paths::starts_with_path(chars_of(source_dir).as_slice(), chars_of(deliverable_root).as_slice()) {
        let mut s = String::new();
        crate::text::push_str(&mut s, source_dir);
        let mut d = String::new();
        crate::text::push_str(&mut d, deliverable_root);
        return Err(AutotoolsError::SourceDirOutsideDeliverableRoot { source_dir: s, deliverable_root: d });
    }
    let (mut graph, graph_items, mr) = crate::autotools_graph::to_graph_with_dependencies(
        &cmds,
        db,
        name.as_str(),
        source_dir,
        deliverable_root,
        deps,
        la_texts,
    );
    assert(crate::autotools_graph::graph_inputs(cmds@, *db, source_dir@, deliverable_root@) == g);
    let reps = crate::autotools::parse_replacement_headers(stream, br.as_str());
    replacement_headers_exec(&reps, mr.as_str(), &mut headers);
    append_items(&mut items, &graph_items);
    let ghost hv = headers_view(headers@);
    assert(headers@.map_values(|h: ConfigHeader| h.output_path_spec()) =~= hv.map_values(
        |h: HeaderView| header_output(h),
    ));
    let generated = crate::autotools_graph::generated_headers_in_build_tree(
        &cmds,
        br.as_str(),
        source_dir,
        &headers,
        stream,
        build_files,
    );
    let ghost before = items_view(items@);
    assert(crate::needs_attention::generated_view(generated@) =~= crate::autotools_graph::nameds_view(generated@));
    if generated.len() > 0 {
        let it = crate::needs_attention::generated_headers_needs_attention(generated.as_slice());
        items.push(it);
        assert(items_view(items@) =~= before + seq![item_view(it)]);
    } else {
        assert(before =~= before + Seq::<ItemView>::empty());
    }
    graph.config_headers = headers;
    let ghost t0 = graph.targets@;
    crate::headers::inject_headers_on_include_dirs(&mut graph.targets, mr.as_str(), source_files);
    let ghost t1 = graph.targets@;
    let scans = scans_of(source_texts, mr.as_str());
    crate::autotools_graph::inject_textual_includes(&mut graph.targets, &scans);
    let ghost t2 = graph.targets@;
    crate::autotools_graph::promote_installed_headers(&mut graph.targets, db);
    assert(crate::headers::injected(t1, t0, mr@, strs(source_files@)));
    assert(crate::autotools_graph::textual_added(t2, t1, textual_scans(pairs(source_texts@), mr@)));
    let ghost ps = crate::autotools_graph::graph_plans(g, *deps, pairs(la_texts@));
    let ghost mrv = graph_module_root(g);
    assert(mr@ == mrv);
    assert(crate::autotools_graph::all_match(t0, ps));
    assert(crate::autotools_graph::promoted_all(
        graph.targets@,
        t2,
        crate::autotools_graph::installed_headers_spec(db.scopes_view()),
    ));
    assert(hv == discovered_headers(stream@, *db, mrv, config_status@, pairs(template_texts@), pairs(flag_macros@)));
    if graph.targets.len() == 0 {
        assert(ps.len() == 0);
        assert(crate::autotools_graph::plan_names(ps) =~= Seq::<Seq<char>>::empty());
        return Err(AutotoolsError::NoTargets { config_headers: graph.config_headers.len(), tests: graph.tests.len() });
    }
    assert(items_view(items@) == discovered_items(
        stream@,
        *db,
        source_dir@,
        deliverable_root@,
        *deps,
        config_status@,
        pairs(template_texts@),
        pairs(flag_macros@),
        pairs(la_texts@),
        strs(build_files@),
    ));
    Ok(crate::cmake_api::Discovery { graph, needs_attention: items, module_root: mr })
}

} // verus!
