//! Gaps the deterministic translation could not close, written out as
//! `needs_attention/` items for the agent stage.
//!
//! An item is a structured description of one gap: a kind an agent can key
//! on, the one name it is about (empty for an item that gathers several),
//! a one-line title, and the gap itself with every name it involves.
//! Each constructor below states its exact text, so what an agent reads is
//! pinned down by the contract.

use vstd::prelude::*;
use crate::text::{push_str, strs};

verus! {

/// One escalated gap.
#[derive(Debug, Clone, PartialEq, Eq)]
pub struct NeedsAttention {
    /// What kind of gap this is, as a stable identifier.
    pub kind: String,
    /// The one target, library or header the gap is about, as the build
    /// spelled it; empty for an item that gathers several.
    pub subject: String,
    /// One line naming the gap.
    pub title: String,
    /// The gap, with every file, target or macro it involves.
    pub gap: String,
}

impl NeedsAttention {
    /// An exact copy.
    pub fn clone_item(&self) -> (r: Self)
        ensures
            r == *self,
    {
        NeedsAttention {
            kind: self.kind.clone(),
            subject: self.subject.clone(),
            title: self.title.clone(),
            gap: self.gap.clone(),
        }
    }
}

/// An item as plain values: kind, title, gap and subject.
pub open spec fn item_view(n: NeedsAttention) -> (Seq<char>, Seq<char>, Seq<char>, Seq<char>) {
    (n.kind@, n.title@, n.gap@, n.subject@)
}

pub open spec fn items_view(ns: Seq<NeedsAttention>) -> Seq<(Seq<char>, Seq<char>, Seq<char>, Seq<char>)> {
    ns.map_values(|n: NeedsAttention| item_view(n))
}

/// One `- \`item\`` line per item.
pub open spec fn bullets(items: Seq<Seq<char>>) -> Seq<char>
    decreases items.len(),
{
    if items.len() == 0 {
        seq![]
    } else {
        bullets(items.drop_last()) + "- `"@ + items.last() + "`\n"@
    }
}

fn push_bullets(out: &mut String, items: &[String])
    ensures
        final(out)@ == old(out)@ + bullets(strs(items@)),
{
    let ghost start = out@;
    let mut i: usize = 0;
    while i < items.len()
        invariant
            i <= items@.len(),
            out@ == start + bullets(strs(items@).take(i as int)),
        decreases items.len() - i,
    {
        proof {
            assert(strs(items@).take(i + 1).drop_last() =~= strs(items@).take(i as int));
        }
        push_str(out, "- `");
        push_str(out, items[i].as_str());
        push_str(out, "`\n");
        i += 1;
    }
    assert(strs(items@).take(items@.len() as int) =~= strs(items@));
}

fn item(kind: &str, subject: &str, title: String, gap: String) -> (r: NeedsAttention)
    ensures
        r.kind@ == kind@,
        r.subject@ == subject@,
        r.title == title,
        r.gap == gap,
{
    let mut k = String::new();
    push_str(&mut k, kind);
    let mut sj = String::new();
    push_str(&mut sj, subject);
    NeedsAttention { kind: k, subject: sj, title, gap }
}

pub open spec fn unsupported_target_title(name: Seq<char>, cmake_type: Seq<char>) -> Seq<char> {
    "Target `"@ + name + "` has CMake type "@ + cmake_type + ", which has no Bazel rule yet"@
}

pub open spec fn unsupported_target_gap(
    name: Seq<char>,
    cmake_type: Seq<char>,
    dropped: Seq<Seq<char>>,
) -> Seq<char> {
    "CMake reports `"@ + name + "` as a "@ + cmake_type
        + " target, and no rule was generated for it.\n"@ + if dropped.len() == 0 {
        seq![]
    } else {
        "These targets depended on it and lost that edge:\n"@ + bullets(dropped)
    }
}

/// A load-bearing target whose CMake type has no Bazel rule yet, with the
/// dependency edges its absence cost.
pub fn unsupported_target_needs_attention(
    name: &str,
    cmake_type: &str,
    dropped_edges: &[String],
) -> (r: NeedsAttention)
    ensures
        r.kind@ == "unsupported_target"@,
        r.subject@ == name@,
        r.title@ == unsupported_target_title(name@, cmake_type@),
        r.gap@ == unsupported_target_gap(name@, cmake_type@, strs(dropped_edges@)),
{
    let mut title = String::new();
    push_str(&mut title, "Target `");
    push_str(&mut title, name);
    push_str(&mut title, "` has CMake type ");
    push_str(&mut title, cmake_type);
    push_str(&mut title, ", which has no Bazel rule yet");
    let mut gap = String::new();
    push_str(&mut gap, "CMake reports `");
    push_str(&mut gap, name);
    push_str(&mut gap, "` as a ");
    push_str(&mut gap, cmake_type);
    push_str(&mut gap, " target, and no rule was generated for it.\n");
    if dropped_edges.len() != 0 {
        push_str(&mut gap, "These targets depended on it and lost that edge:\n");
        push_bullets(&mut gap, dropped_edges);
    }
    item("unsupported_target", name, title, gap)
}

/// The project's own convenience targets (no artifact, no dependents),
/// reported together rather than one apiece.
pub fn inert_convenience_targets_needs_attention(names: &[String]) -> (r: NeedsAttention)
    ensures
        r.kind@ == "inert_convenience_targets"@,
        r.subject@ == Seq::<char>::empty(),
        r.title@ == "Project-authored convenience targets were not translated"@,
        r.gap@ == "These targets produce no artifact and nothing depends on them:\n"@ + bullets(
            strs(names@),
        ),
{
    let mut title = String::new();
    push_str(&mut title, "Project-authored convenience targets were not translated");
    let mut gap = String::new();
    push_str(&mut gap, "These targets produce no artifact and nothing depends on them:\n");
    push_bullets(&mut gap, names);
    proof {
        reveal_strlit("");
    }
    item("inert_convenience_targets", "", title, gap)
}

pub open spec fn outside_title(target: Seq<char>) -> Seq<char> {
    "Target `"@ + target + "` has sources the module cannot reach"@
}

pub open spec fn outside_item(target: Seq<char>, sources: Seq<Seq<char>>) -> (Seq<char>, Seq<char>, Seq<char>, Seq<char>) {
    (
        "sources_outside_deliverable"@,
        outside_title(target),
        "These sources lie outside the deliverable root:\n"@ + bullets(sources),
        target,
    )
}

pub open spec fn test_command_item(names: Seq<Seq<char>>, commands: Seq<Seq<char>>) -> (Seq<char>, Seq<char>, Seq<char>, Seq<char>) {
    (
        "test_command_not_a_target"@,
        "Tests run commands that are not targets of this module"@,
        "Tests:\n"@ + bullets(names) + "Their commands:\n"@ + bullets(commands),
        seq![],
    )
}

pub open spec fn absorbs_item(target: Seq<char>, absorbed: Seq<Seq<char>>) -> (Seq<char>, Seq<char>, Seq<char>, Seq<char>) {
    (
        "shared_library_absorbs_static"@,
        "Shared library `"@ + target + "` links static libraries of this module"@,
        "`"@ + target + "` is a shared library that absorbs these static libraries:\n"@ + bullets(absorbed),
        target,
    )
}

pub open spec fn unmapped_item(output: Seq<char>, template: Seq<char>, macros: Seq<Seq<char>>) -> (Seq<char>, Seq<char>, Seq<char>, Seq<char>) {
    (
        "unmapped_config_macros"@,
        "Config header `"@ + output + "` has macros no probe answers"@,
        "Its template `"@ + template + "` declares these:\n"@ + bullets(macros),
        output,
    )
}

pub open spec fn generated_item(generated: Seq<(Seq<char>, Seq<Seq<char>>)>) -> (Seq<char>, Seq<char>, Seq<char>, Seq<char>) {
    (
        "generated_headers"@,
        "The build generates headers that nothing reproduces"@,
        "These headers are written by the build, and the recipe lines name them:\n"@ + generated_list(generated),
        seq![],
    )
}

pub open spec fn unconverted_item(library: Seq<char>, targets: Seq<Seq<char>>) -> (Seq<char>, Seq<char>, Seq<char>, Seq<char>) {
    (
        "unconverted_dependency"@,
        "`"@ + library + "` is linked, and no converted module builds it"@,
        "These targets link `"@ + library + "`:\n"@ + bullets(targets),
        library,
    )
}

/// Sources of `target` outside the deliverable root: they cannot be
/// reproduced from what the project ships.
pub fn sources_outside_deliverable_needs_attention(target: &str, sources: &[String]) -> (r:
    NeedsAttention)
    ensures
        r.kind@ == "sources_outside_deliverable"@,
        r.subject@ == target@,
        r.title@ == outside_title(target@),
        r.gap@ == "These sources lie outside the deliverable root:\n"@ + bullets(strs(sources@)),
        item_view(r) == outside_item(target@, strs(sources@)),
{
    let mut title = String::new();
    push_str(&mut title, "Target `");
    push_str(&mut title, target);
    push_str(&mut title, "` has sources the module cannot reach");
    let mut gap = String::new();
    push_str(&mut gap, "These sources lie outside the deliverable root:\n");
    push_bullets(&mut gap, sources);
    item("sources_outside_deliverable", target, title, gap)
}

pub open spec fn generated_header_title(target: Seq<char>) -> Seq<char> {
    "Target `"@ + target + "` uses build-generated headers"@
}

/// Headers of `target` that the build generates and no rule reproduces.
pub fn generated_config_header_needs_attention(target: &str, paths: &[String]) -> (r:
    NeedsAttention)
    ensures
        r.kind@ == "generated_config_header"@,
        r.subject@ == target@,
        r.title@ == generated_header_title(target@),
        r.gap@ == "The build generates these, and nothing reproduces them:\n"@ + bullets(
            strs(paths@),
        ),
{
    let mut title = String::new();
    push_str(&mut title, "Target `");
    push_str(&mut title, target);
    push_str(&mut title, "` uses build-generated headers");
    let mut gap = String::new();
    push_str(&mut gap, "The build generates these, and nothing reproduces them:\n");
    push_bullets(&mut gap, paths);
    item("generated_config_header", target, title, gap)
}

/// A library with dependents whose headers the project never declared
/// public.
pub fn header_visibility_needs_attention(name: &str) -> (r: NeedsAttention)
    ensures
        r.kind@ == "header_visibility"@,
        r.subject@ == name@,
        r.title@ == "Library `"@ + name@ + "` declares no public headers"@,
        r.gap@ == "Other targets depend on `"@ + name@
            + "`, but none of its headers is declared public.\n"@,
{
    let mut title = String::new();
    push_str(&mut title, "Library `");
    push_str(&mut title, name);
    push_str(&mut title, "` declares no public headers");
    let mut gap = String::new();
    push_str(&mut gap, "Other targets depend on `");
    push_str(&mut gap, name);
    push_str(&mut gap, "`, but none of its headers is declared public.\n");
    item("header_visibility", name, title, gap)
}

/// Sources of `name` that the build produces rather than the project
/// ships.
pub fn generated_sources_needs_attention(name: &str, sources: &[String]) -> (r: NeedsAttention)
    ensures
        r.kind@ == "generated_sources"@,
        r.subject@ == name@,
        r.title@ == "Target `"@ + name@ + "` has build-generated sources"@,
        r.gap@ == "The build produces these sources; no rule reproduces them:\n"@ + bullets(
            strs(sources@),
        ),
{
    let mut title = String::new();
    push_str(&mut title, "Target `");
    push_str(&mut title, name);
    push_str(&mut title, "` has build-generated sources");
    let mut gap = String::new();
    push_str(&mut gap, "The build produces these sources; no rule reproduces them:\n");
    push_bullets(&mut gap, sources);
    item("generated_sources", name, title, gap)
}

/// Registered tests whose command is not a binary this module builds.
pub fn ctest_command_not_a_target_needs_attention(names: &[String], commands: &[String]) -> (r:
    NeedsAttention)
    ensures
        r.kind@ == "test_command_not_a_target"@,
        r.subject@ == Seq::<char>::empty(),
        r.title@ == "Tests run commands that are not targets of this module"@,
        r.gap@ == "Tests:\n"@ + bullets(strs(names@)) + "Their commands:\n"@ + bullets(
            strs(commands@),
        ),
        item_view(r) == test_command_item(strs(names@), strs(commands@)),
{
    let mut title = String::new();
    push_str(&mut title, "Tests run commands that are not targets of this module");
    let mut gap = String::new();
    push_str(&mut gap, "Tests:\n");
    push_bullets(&mut gap, names);
    push_str(&mut gap, "Their commands:\n");
    push_bullets(&mut gap, commands);
    proof {
        reveal_strlit("");
    }
    item("test_command_not_a_target", "", title, gap)
}

/// Macros a config header template declares that no probe in the catalog
/// answers.
pub fn unmapped_config_macros_needs_attention(
    output: &str,
    template: &str,
    macros: &[String],
) -> (r: NeedsAttention)
    ensures
        r.kind@ == "unmapped_config_macros"@,
        r.subject@ == output@,
        r.title@ == "Config header `"@ + output@ + "` has macros no probe answers"@,
        r.gap@ == "Its template `"@ + template@ + "` declares these:\n"@ + bullets(strs(macros@)),
        item_view(r) == unmapped_item(output@, template@, strs(macros@)),
{
    let mut title = String::new();
    push_str(&mut title, "Config header `");
    push_str(&mut title, output);
    push_str(&mut title, "` has macros no probe answers");
    let mut gap = String::new();
    push_str(&mut gap, "Its template `");
    push_str(&mut gap, template);
    push_str(&mut gap, "` declares these:\n");
    push_bullets(&mut gap, macros);
    item("unmapped_config_macros", output, title, gap)
}

/// A shared library that links static libraries of the same module.
pub fn shared_library_absorbs_static_needs_attention(target: &str, absorbed: &[String]) -> (r:
    NeedsAttention)
    ensures
        r.kind@ == "shared_library_absorbs_static"@,
        r.subject@ == target@,
        r.title@ == "Shared library `"@ + target@ + "` links static libraries of this module"@,
        r.gap@ == "`"@ + target@ + "` is a shared library that absorbs these static libraries:\n"@
            + bullets(strs(absorbed@)),
        item_view(r) == absorbs_item(target@, strs(absorbed@)),
{
    let mut title = String::new();
    push_str(&mut title, "Shared library `");
    push_str(&mut title, target);
    push_str(&mut title, "` links static libraries of this module");
    let mut gap = String::new();
    push_str(&mut gap, "`");
    push_str(&mut gap, target);
    push_str(&mut gap, "` is a shared library that absorbs these static libraries:\n");
    push_bullets(&mut gap, absorbed);
    item("shared_library_absorbs_static", target, title, gap)
}

/// A library some targets link that neither this project nor any
/// converted dependency builds, with the targets that wait on it.
pub fn unconverted_dependency_needs_attention(library: &str, targets: &[String]) -> (r:
    NeedsAttention)
    ensures
        r.kind@ == "unconverted_dependency"@,
        r.subject@ == library@,
        r.title@ == "`"@ + library@ + "` is linked, and no converted module builds it"@,
        r.gap@ == "These targets link `"@ + library@ + "`:\n"@ + bullets(strs(targets@)),
        item_view(r) == unconverted_item(library@, strs(targets@)),
{
    let mut title = String::new();
    push_str(&mut title, "`");
    push_str(&mut title, library);
    push_str(&mut title, "` is linked, and no converted module builds it");
    let mut gap = String::new();
    push_str(&mut gap, "These targets link `");
    push_str(&mut gap, library);
    push_str(&mut gap, "`:\n");
    push_bullets(&mut gap, targets);
    item("unconverted_dependency", library, title, gap)
}

/// One indented line per recipe line.
pub open spec fn recipe_lines(lines: Seq<Seq<char>>) -> Seq<char>
    decreases lines.len(),
{
    if lines.len() == 0 {
        seq![]
    } else {
        recipe_lines(lines.drop_last()) + "    "@ + lines.last() + "\n"@
    }
}

/// Each generated header as a bullet, followed by the lines that made it.
pub open spec fn generated_list(items: Seq<(Seq<char>, Seq<Seq<char>>)>) -> Seq<char>
    decreases items.len(),
{
    if items.len() == 0 {
        seq![]
    } else {
        generated_list(items.drop_last()) + "- `"@ + items.last().0 + "`\n"@ + recipe_lines(
            items.last().1,
        )
    }
}

pub open spec fn generated_view(items: Seq<(String, Vec<String>)>) -> Seq<(Seq<char>, Seq<Seq<char>>)> {
    items.map_values(|g: (String, Vec<String>)| (g.0@, strs(g.1@)))
}

/// Headers the build generated into its own tree that nothing reproduces,
/// each with the stream lines that mention it.
pub fn generated_headers_needs_attention(generated: &[(String, Vec<String>)]) -> (r: NeedsAttention)
    ensures
        r.kind@ == "generated_headers"@,
        r.subject@ == Seq::<char>::empty(),
        r.title@ == "The build generates headers that nothing reproduces"@,
        r.gap@ == "These headers are written by the build, and the recipe lines name them:\n"@
            + generated_list(generated_view(generated@)),
        item_view(r) == generated_item(generated_view(generated@)),
{
    let mut title = String::new();
    push_str(&mut title, "The build generates headers that nothing reproduces");
    let mut gap = String::new();
    push_str(&mut gap, "These headers are written by the build, and the recipe lines name them:\n");
    let ghost start = gap@;
    let mut i: usize = 0;
    while i < generated.len()
        invariant
            i <= generated@.len(),
            gap@ == start + generated_list(generated_view(generated@).take(i as int)),
        decreases generated.len() - i,
    {
        proof {
            assert(generated_view(generated@).take(i + 1).drop_last() =~= generated_view(generated@).take(i as int));
            assert(generated_view(generated@).take(i + 1).last() == (generated@[i as int].0@, strs(generated@[i as int].1@)));
        }
        push_str(&mut gap, "- `");
        push_str(&mut gap, generated[i].0.as_str());
        push_str(&mut gap, "`\n");
        let lines = &generated[i].1;
        let ghost mid = gap@;
        let mut k: usize = 0;
        while k < lines.len()
            invariant
                k <= lines@.len(),
                gap@ == mid + recipe_lines(strs(lines@).take(k as int)),
            decreases lines.len() - k,
        {
            proof {
                assert(strs(lines@).take(k + 1).drop_last() =~= strs(lines@).take(k as int));
            }
            push_str(&mut gap, "    ");
            push_str(&mut gap, lines[k].as_str());
            push_str(&mut gap, "\n");
            k += 1;
        }
        assert(strs(lines@).take(k as int) =~= strs(lines@));
        i += 1;
    }
    assert(generated_view(generated@).take(i as int) =~= generated_view(generated@));
    proof {
        reveal_strlit("");
    }
    item("generated_headers", "", title, gap)
}

} // verus!
