//! Which files are headers, which install destinations are public include
//! directories, and the passes that add headers no target enumerated.
//!
//! Two header predicates deliberately disagree: [`looks_like_header`]
//! (`h hpp hh hxx`) drives the header-visibility escalation, where a false
//! positive costs an agent a non-gap; [`is_header_file`] (those plus `inc
//! ipp`) decides what is staged, where a false positive costs a copied file
//! nothing reads.
//!
//! Whatever these passes learn from the filesystem (which files exist,
//! which headers a directory holds) the caller finds out and hands in.

use vstd::prelude::*;
use crate::model::{Target, TargetKind};
use crate::paths::{
    components, components_of, dotdot, extension, extension_of, is_absolute, join_path, join_paths,
    normalize, normalize_path, parent, parent_of, path_starts_with, starts_with_path,
};
use crate::text::{chars, chars_of, contains_string, sort_dedup, sort_dedup_strings, str_eq, string_of, strs, views};

verus! {

/// `h`, `hpp`, `hh`, `hxx`: the extensions of an interface header.
pub open spec fn interface_ext(e: Seq<char>) -> bool {
    e == "h"@ || e == "hpp"@ || e == "hh"@ || e == "hxx"@
}

/// The interface header extensions, plus `inc` and `ipp` for `#include`d
/// bodies.
pub open spec fn staged_ext(e: Seq<char>) -> bool {
    interface_ext(e) || e == "inc"@ || e == "ipp"@
}

/// Whether a path's extension satisfies `p`.
pub open spec fn ext_is(path: Seq<char>, p: spec_fn(Seq<char>) -> bool) -> bool {
    match extension(path) {
        Some(e) => p(e),
        None => false,
    }
}

fn extension_string(path: &str) -> (r: Option<String>)
    ensures
        r matches Some(e) ==> extension(path@) == Some(e@),
        r is None ==> extension(path@) is None,
{
    let p = chars_of(path);
    match extension_of(p.as_slice()) {
        None => None,
        Some(e) => Some(string_of(e.as_slice())),
    }
}

fn is_interface_ext(e: &str) -> (r: bool)
    ensures
        r == interface_ext(e@),
{
    str_eq(e, "h") || str_eq(e, "hpp") || str_eq(e, "hh") || str_eq(e, "hxx")
}

/// Whether a plain source looks like a header, by extension. Only used to
/// decide whether a library with no public headers is worth escalating.
pub fn looks_like_header(path: &str) -> (r: bool)
    ensures
        r == ext_is(path@, |e: Seq<char>| interface_ext(e)),
{
    match extension_string(path) {
        None => false,
        Some(e) => is_interface_ext(e.as_str()),
    }
}

/// Whether a path names a C/C++ header by extension, including the
/// `#include`d bodies (`inc`, `ipp`) that must be staged too.
pub fn is_header_file(path: &str) -> (r: bool)
    ensures
        r == ext_is(path@, |e: Seq<char>| staged_ext(e)),
{
    match extension_string(path) {
        None => false,
        Some(e) => is_interface_ext(e.as_str()) || str_eq(e.as_str(), "inc") || str_eq(
            e.as_str(),
            "ipp",
        ),
    }
}

/// The lowercase form of a string, ASCII letters only.
pub open spec fn lower(s: Seq<char>) -> Seq<char> {
    s.map_values(|c: char| crate::text::lower_char(c))
}

/// `c`, `cc`, `cp`, `cpp`, `cxx`, `c++` and `s`, in any case: the
/// extensions of a file a C/C++ toolchain compiles.
pub open spec fn translation_unit_ext(e: Seq<char>) -> bool {
    let l = lower(e);
    l == "c"@ || l == "cc"@ || l == "cp"@ || l == "cpp"@ || l == "cxx"@ || l == "c++"@ || l == "s"@
}

/// Whether a path names a file the toolchain compiles, by extension.
pub fn is_translation_unit(path: &str) -> (r: bool)
    ensures
        r == ext_is(path@, |e: Seq<char>| translation_unit_ext(e)),
{
    match extension_string(path) {
        None => false,
        Some(e) => {
            let v = chars_of(e.as_str());
            let mut l: Vec<char> = Vec::new();
            let mut i: usize = 0;
            while i < v.len()
                invariant
                    i <= v@.len(),
                    l@ == lower(v@).take(i as int),
                decreases v.len() - i,
            {
                l.push(crate::text::to_ascii_lower(v[i]));
                i += 1;
                assert(l@ =~= lower(v@).take(i as int));
            }
            assert(lower(v@).take(i as int) =~= lower(v@));
            let ls = string_of(l.as_slice());
            str_eq(ls.as_str(), "c") || str_eq(ls.as_str(), "cc") || str_eq(ls.as_str(), "cp")
                || str_eq(ls.as_str(), "cpp") || str_eq(ls.as_str(), "cxx") || str_eq(
                ls.as_str(),
                "c++",
            ) || str_eq(ls.as_str(), "s")
        },
    }
}

/// Whether a `configure_file` output is a header a source compiles
/// against, rather than a packaging artifact (`.pc`, `.cmake`, `.tcl`).
pub fn is_config_header_output(path: &str) -> (r: bool)
    ensures
        r == ext_is(path@, |e: Seq<char>| interface_ext(e)),
{
    looks_like_header(path)
}

/// Components other than `..`.
pub open spec fn named_only(c: Seq<Seq<char>>) -> Seq<Seq<char>>
    decreases c.len(),
{
    if c.len() == 0 {
        seq![]
    } else if c.last() == dotdot() {
        named_only(c.drop_last())
    } else {
        named_only(c.drop_last()).push(c.last())
    }
}

/// The named components of a path: no root, no `.`, no `..`.
pub open spec fn normal_components(p: Seq<char>) -> Seq<Seq<char>> {
    named_only(components(p))
}

/// Whether an install destination is a public-header include directory:
/// some component is `include`, not directly under `lib`, `lib64` or
/// `share` (a build-private include tree).
pub open spec fn include_destination(destination: Seq<char>) -> bool {
    let c = normal_components(destination);
    exists|i: int|
        0 <= i < c.len() && #[trigger] c[i] == "include"@ && !(i > 0 && (c[i - 1] == "lib"@
            || c[i - 1] == "lib64"@ || c[i - 1] == "share"@))
}

/// Whether an `install(FILES ...)` destination is a public-header include
/// directory: a leading `include`, or one anywhere in an absolute path
/// (what `CMAKE_INSTALL_FULL_INCLUDEDIR` expands to), but not an `include`
/// nested under `lib`, `lib64` or `share`.
pub fn is_include_destination(destination: &str) -> (r: bool)
    ensures
        r == include_destination(destination@),
{
    let d = chars_of(destination);
    let all = components_of(d.as_slice());
    let mut c: Vec<Vec<char>> = Vec::new();
    let mut j: usize = 0;
    while j < all.len()
        invariant
            j <= all@.len(),
            views(all@) == components(destination@),
            d@ == destination@,
            views(c@) == named_only(views(all@).take(j as int)),
        decreases all.len() - j,
    {
        proof {
            let t = views(all@).take(j + 1);
            assert(t.drop_last() =~= views(all@).take(j as int));
            assert(t.last() == all@[j as int]@);
        }
        let comp = &all[j];
        let is_up = comp.len() == 2 && comp[0] == '.' && comp[1] == '.';
        proof {
            if comp@ == dotdot() {
                assert(comp@[0] == '.' && comp@[1] == '.');
            }
            if is_up {
                assert(comp@ =~= dotdot());
            }
        }
        if !is_up {
            let ghost before = views(c@);
            c.push(crate::text::subvec(comp.as_slice(), 0, comp.len()));
            assert(comp@.subrange(0, comp@.len() as int) =~= comp@);
            assert(views(c@) =~= before.push(comp@));
        }
        j += 1;
    }
    assert(views(all@).take(all@.len() as int) =~= views(all@));
    let ghost cv = normal_components(destination@);
    assert(views(c@) == cv);
    let mut i: usize = 0;
    while i < c.len()
        invariant
            i <= c@.len(),
            views(c@) == cv,
            cv == normal_components(destination@),
            forall|k: int|
                0 <= k < i ==> !(#[trigger] cv[k] == "include"@ && !(k > 0 && (cv[k - 1] == "lib"@
                    || cv[k - 1] == "lib64"@ || cv[k - 1] == "share"@))),
        decreases c.len() - i,
    {
        let name = string_of(c[i].as_slice());
        assert(cv[i as int] == c@[i as int]@);
        if str_eq(name.as_str(), "include") {
            let nested = if i > 0 {
                let prev = string_of(c[i - 1].as_slice());
                assert(cv[i - 1] == c@[i - 1]@);
                str_eq(prev.as_str(), "lib") || str_eq(prev.as_str(), "lib64") || str_eq(
                    prev.as_str(),
                    "share",
                )
            } else {
                false
            };
            if !nested {
                assert(cv[i as int] == "include"@);
                return true;
            }
        }
        i += 1;
    }
    false
}

/// Whether `path` is one of the listed files.
pub fn is_listed(files: &Vec<String>, path: &Vec<char>) -> (r: bool)
    ensures
        r == strs(files@).contains(path@),
{
    let mut i: usize = 0;
    while i < files.len()
        invariant
            i <= files@.len(),
            forall|k: int| 0 <= k < i ==> files@[k]@ != path@,
        decreases files.len() - i,
    {
        let f = chars(&files[i]);
        if crate::text::chars_eq(f.as_slice(), path.as_slice()) {
            assert(strs(files@)[i as int] == path@);
            return true;
        }
        i += 1;
    }
    proof {
        if strs(files@).contains(path@) {
            let k = choose|k: int| 0 <= k < strs(files@).len() && strs(files@)[k] == path@;
            assert(files@[k]@ == path@);
        }
    }
    false
}

/// Every path a target already accounts for: its sources and public
/// headers.
pub open spec fn accounted(t: Target) -> Seq<Seq<char>> {
    strs(t.sources@) + strs(t.public_headers@)
}

/// Every path any of `targets` accounts for.
pub open spec fn enumerated(targets: Seq<Target>) -> Seq<Seq<char>>
    decreases targets.len(),
{
    if targets.len() == 0 {
        seq![]
    } else {
        enumerated(targets.drop_last()) + accounted(targets.last())
    }
}

/// An installed header's absolute location: as given when absolute, else
/// below `source_dir`, normalized.
pub open spec fn installed_location(header: Seq<char>, source_dir: Seq<char>) -> Seq<char> {
    if is_absolute(header) {
        normalize(header)
    } else {
        normalize(join_path(source_dir, header))
    }
}

/// Whether an install-declared header is injected at all: no target
/// enumerated it, it lies in the source tree, it exists as a file, and it
/// has a parent directory.
pub open spec fn injectable(
    header: Seq<char>,
    enumerated: Seq<Seq<char>>,
    source_dir: Seq<char>,
    files: Seq<Seq<char>>,
) -> bool {
    let a = installed_location(header, source_dir);
    &&& !enumerated.contains(header)
    &&& path_starts_with(a, source_dir)
    &&& files.contains(a)
    &&& parent(a) is Some
}

/// Whether one of `t`'s include directories is `dir`.
pub open spec fn includes_dir(t: Target, dir: Seq<char>) -> bool {
    exists|k: int| 0 <= k < t.includes@.len() && normalize(#[trigger] t.includes@[k]@) == dir
}

/// The headers `t` receives: the injectable candidates whose directory is
/// on its include path, for a library only.
pub open spec fn injected_for(
    t: Target,
    candidates: Seq<Seq<char>>,
    enumerated: Seq<Seq<char>>,
    source_dir: Seq<char>,
    files: Seq<Seq<char>>,
) -> Seq<Seq<char>>
    decreases candidates.len(),
{
    if candidates.len() == 0 {
        seq![]
    } else {
        let h = candidates.last();
        injected_for(t, candidates.drop_last(), enumerated, source_dir, files) + if t.kind
            == TargetKind::Library && injectable(h, enumerated, source_dir, files) && includes_dir(
            t,
            parent(installed_location(h, source_dir)).unwrap(),
        ) {
            seq![h]
        } else {
            seq![]
        }
    }
}

fn enumerated_of(targets: &Vec<Target>) -> (r: Vec<String>)
    ensures
        strs(r@) == enumerated(targets@),
{
    let mut r: Vec<String> = Vec::new();
    let mut i: usize = 0;
    while i < targets.len()
        invariant
            i <= targets@.len(),
            strs(r@) == enumerated(targets@.take(i as int)),
        decreases targets.len() - i,
    {
        proof {
            assert(targets@.take(i + 1).drop_last() =~= targets@.take(i as int));
        }
        let ghost before = strs(r@);
        crate::codegen::extend_strings(&mut r, &targets[i].sources);
        crate::codegen::extend_strings(&mut r, &targets[i].public_headers);
        assert(strs(r@) =~= before + accounted(targets@[i as int]));
        i += 1;
    }
    assert(targets@.take(targets@.len() as int) =~= targets@);
    r
}

fn on_include_path(t: &Target, dir: &Vec<char>) -> (r: bool)
    ensures
        r == includes_dir(*t, dir@),
{
    let mut k: usize = 0;
    while k < t.includes.len()
        invariant
            k <= t.includes@.len(),
            forall|j: int| 0 <= j < k ==> normalize(t.includes@[j]@) != dir@,
        decreases t.includes.len() - k,
    {
        let n = normalize_path(chars(&t.includes[k]).as_slice());
        if crate::text::chars_eq(n.as_slice(), dir.as_slice()) {
            return true;
        }
        k += 1;
    }
    false
}

/// Adds public headers the project installs to an include destination but
/// that no target's source list enumerated, to every library whose own
/// include directories hold the header's directory. `existing_files` are
/// the absolute paths known to be files on disk.
///
/// Candidates are taken in sorted order, so the generated `hdrs` do not
/// depend on the order the install rules were read in. A header outside the
/// source tree (a generated one in the build directory) is skipped: the
/// config-header machinery reproduces those.
pub fn inject_unenumerated_installed_headers(
    targets: &mut Vec<Target>,
    installed_headers: &Vec<String>,
    source_dir: &str,
    existing_files: &Vec<String>,
)
    ensures
        final(targets)@.len() == old(targets)@.len(),
        forall|i: int|
            0 <= i < final(targets)@.len() ==> {
                let t = #[trigger] final(targets)@[i];
                let o = old(targets)@[i];
                &&& crate::model::same_but_paths(t, o)
                &&& t.sources@ == o.sources@
                &&& t.includes@ == o.includes@
                &&& strs(t.public_headers@) == strs(o.public_headers@) + injected_for(
                    o,
                    sort_dedup(strs(installed_headers@)),
                    enumerated(old(targets)@),
                    source_dir@,
                    strs(existing_files@),
                )
            },
{
    let listed = enumerated_of(targets);
    let candidates = sort_dedup_strings(installed_headers);
    let ghost cands = sort_dedup(strs(installed_headers@));
    let ghost en = enumerated(old(targets)@);
    let ghost files = strs(existing_files@);
    let src = chars_of(source_dir);
    let mut c: usize = 0;
    while c < candidates.len()
        invariant
            c <= candidates@.len(),
            strs(candidates@) == cands,
            strs(listed@) == en,
            src@ == source_dir@,
            files == strs(existing_files@),
            targets@.len() == old(targets)@.len(),
            forall|i: int|
                0 <= i < targets@.len() ==> {
                    let t = #[trigger] targets@[i];
                    let o = old(targets)@[i];
                    &&& crate::model::same_but_paths(t, o)
                    &&& t.sources@ == o.sources@
                    &&& t.includes@ == o.includes@
                    &&& strs(t.public_headers@) == strs(o.public_headers@) + injected_for(
                        o,
                        cands.take(c as int),
                        en,
                        source_dir@,
                        files,
                    )
                },
        decreases candidates.len() - c,
    {
        proof {
            assert(cands.take(c + 1).drop_last() =~= cands.take(c as int));
            assert(cands.take(c + 1).last() == candidates@[c as int]@);
        }
        let header = &candidates[c];
        let h = chars(header);
        let absolute = if crate::paths::absolute(h.as_slice()) {
            normalize_path(h.as_slice())
        } else {
            normalize_path(join_paths(src.as_slice(), h.as_slice()).as_slice())
        };
        let qualifies = !is_listed(&listed, &h) && starts_with_path(
            absolute.as_slice(),
            src.as_slice(),
        ) && is_listed(existing_files, &absolute);
        let dir = if qualifies {
            parent_of(absolute.as_slice())
        } else {
            None
        };
        match dir {
            None => {
                proof {
                    assert(!injectable(header@, en, source_dir@, files));
                    assert forall|i: int| 0 <= i < targets@.len() implies injected_for(
                        #[trigger] old(targets)@[i],
                        cands.take(c + 1),
                        en,
                        source_dir@,
                        files,
                    ) == injected_for(old(targets)@[i], cands.take(c as int), en, source_dir@, files) by {
                        let o = old(targets)@[i];
                        assert(injected_for(o, cands.take(c + 1), en, source_dir@, files) =~= injected_for(
                            o,
                            cands.take(c as int),
                            en,
                            source_dir@,
                            files,
                        ) + Seq::empty());
                    }
                }
            },
            Some(parent_dir) => {
                let mut i: usize = 0;
                while i < targets.len()
                    invariant
                        i <= targets@.len(),
                        targets@.len() == old(targets)@.len(),
                        c < cands.len(),
                        header@ == cands[c as int],
                        injectable(header@, en, source_dir@, files),
                        parent(installed_location(header@, source_dir@)) == Some(parent_dir@),
                        forall|k: int|
                            0 <= k < targets@.len() ==> {
                                let t = #[trigger] targets@[k];
                                let o = old(targets)@[k];
                                &&& crate::model::same_but_paths(t, o)
                                &&& t.sources@ == o.sources@
                                &&& t.includes@ == o.includes@
                                &&& strs(t.public_headers@) == strs(o.public_headers@)
                                    + injected_for(
                                    o,
                                    cands.take(c + (if k < i { 1int } else { 0int })),
                                    en,
                                    source_dir@,
                                    files,
                                )
                            },
                    decreases targets.len() - i,
                {
                    proof {
                        assert(cands.take(c + 1).drop_last() =~= cands.take(c as int));
                    }
                    if targets[i].kind == TargetKind::Library && on_include_path(
                        &targets[i],
                        &parent_dir,
                    ) {
                        let mut t = targets[i].copied();
                        let ghost before = strs(t.public_headers@);
                        t.public_headers.push(header.clone());
                        assert(strs(t.public_headers@) =~= before.push(header@));
                        targets.set(i, t);
                    }
                    i += 1;
                }
            },
        }
        c += 1;
    }
    assert(cands.take(cands.len() as int) =~= cands);
}


/// Whether the file `f` lies in directory `dir`: anywhere below it when
/// `recursive`, else directly in it.
pub open spec fn in_dir(f: Seq<char>, dir: Seq<char>, recursive: bool) -> bool {
    &&& path_starts_with(f, dir)
    &&& if recursive {
        components(f).len() > components(dir).len()
    } else {
        components(f).len() == components(dir).len() + 1
    }
}

/// The directories a target's headers are looked for in: each include
/// directory (walked recursively, as `#include "sub/foo.h"` reaches into
/// it) and the directory of each compiled source (the quoted-include rule
/// searches it first; only its own entries).
pub open spec fn scan_dirs(t: Target, source_dir: Seq<char>) -> Seq<(Seq<char>, bool)> {
    strs(t.includes@).map_values(|d: Seq<char>| (normalize(d), true)) + implicit_dirs(
        strs(t.sources@),
        source_dir,
    )
}

pub open spec fn implicit_dirs(sources: Seq<Seq<char>>, source_dir: Seq<char>) -> Seq<(Seq<char>, bool)>
    decreases sources.len(),
{
    if sources.len() == 0 {
        seq![]
    } else {
        let s = sources.last();
        implicit_dirs(sources.drop_last(), source_dir) + if ext_is(s, |e: Seq<char>| staged_ext(e)) {
            seq![]
        } else {
            match parent(s) {
                Some(p) => seq![(normalize(join_path(source_dir, p)), false)],
                None => seq![],
            }
        }
    }
}

/// The headers among `files` in `dir`, relative to the source directory.
pub open spec fn headers_in_dir(files: Seq<Seq<char>>, dir: Seq<char>, recursive: bool, source_dir: Seq<char>) -> Seq<
    Seq<char>,
>
    decreases files.len(),
{
    if files.len() == 0 {
        seq![]
    } else {
        let f = files.last();
        headers_in_dir(files.drop_last(), dir, recursive, source_dir) + if ext_is(
            f,
            |e: Seq<char>| staged_ext(e),
        ) && in_dir(f, dir, recursive) {
            match crate::paths::strip_path_prefix(f, source_dir) {
                Some(rel) => seq![rel],
                None => seq![],
            }
        } else {
            seq![]
        }
    }
}

/// Every header found in a target's scan directories inside the source
/// tree, in directory order. A directory outside the tree (the build
/// directory, toolchain paths) is not looked in.
pub open spec fn found_headers(dirs: Seq<(Seq<char>, bool)>, files: Seq<Seq<char>>, source_dir: Seq<char>) -> Seq<
    Seq<char>,
>
    decreases dirs.len(),
{
    if dirs.len() == 0 {
        seq![]
    } else {
        let (d, rec) = dirs.last();
        found_headers(dirs.drop_last(), files, source_dir) + if path_starts_with(d, source_dir) {
            headers_in_dir(files, d, rec, source_dir)
        } else {
            seq![]
        }
    }
}

pub open spec fn not_in(s: Seq<Seq<char>>) -> spec_fn(Seq<char>) -> bool {
    |x: Seq<char>| !s.contains(x)
}

/// The headers a target gains: those found in its scan directories that
/// it does not already account for, each once, sorted.
pub open spec fn discovered_headers(t: Target, source_dir: Seq<char>, files: Seq<Seq<char>>) -> Seq<Seq<char>> {
    sort_dedup(
        crate::configure_file::select(
            found_headers(scan_dirs(t, source_dir), files, source_dir),
            not_in(accounted(t)),
        ),
    )
}

fn scan_dirs_of(t: &Target, src: &[char]) -> (r: Vec<(Vec<char>, bool)>)
    ensures
        r@.map_values(|p: (Vec<char>, bool)| (p.0@, p.1)) == scan_dirs(*t, src@),
{
    let mut r: Vec<(Vec<char>, bool)> = Vec::new();
    let mut i: usize = 0;
    let ghost inc = strs(t.includes@);
    while i < t.includes.len()
        invariant
            i <= t.includes@.len(),
            inc == strs(t.includes@),
            r@.map_values(|p: (Vec<char>, bool)| (p.0@, p.1)) == inc.take(i as int).map_values(
                |d: Seq<char>| (normalize(d), true),
            ),
        decreases t.includes.len() - i,
    {
        let d = normalize_path(chars(&t.includes[i]).as_slice());
        let ghost before = r@.map_values(|p: (Vec<char>, bool)| (p.0@, p.1));
        r.push((d, true));
        assert(r@.map_values(|p: (Vec<char>, bool)| (p.0@, p.1)) =~= before.push(
            (normalize(inc[i as int]), true),
        ));
        i += 1;
        assert(inc.take(i as int).map_values(|d: Seq<char>| (normalize(d), true)) =~= inc.take(
            i - 1,
        ).map_values(|d: Seq<char>| (normalize(d), true)).push((normalize(inc[i - 1]), true)));
    }
    assert(inc.take(inc.len() as int) =~= inc);
    let ghost head = r@.map_values(|p: (Vec<char>, bool)| (p.0@, p.1));
    let ghost srcs = strs(t.sources@);
    let mut k: usize = 0;
    while k < t.sources.len()
        invariant
            k <= t.sources@.len(),
            srcs == strs(t.sources@),
            r@.map_values(|p: (Vec<char>, bool)| (p.0@, p.1)) == head + implicit_dirs(
                srcs.take(k as int),
                src@,
            ),
        decreases t.sources.len() - k,
    {
        proof {
            assert(srcs.take(k + 1).drop_last() =~= srcs.take(k as int));
            assert(srcs.take(k + 1).last() == t.sources@[k as int]@);
        }
        let ghost before = r@.map_values(|p: (Vec<char>, bool)| (p.0@, p.1));
        let s = &t.sources[k];
        if !is_header_file(s.as_str()) {
            match parent_of(chars(s).as_slice()) {
                Some(p) => {
                    let d = normalize_path(join_paths(src, p.as_slice()).as_slice());
                    r.push((d, false));
                    assert(r@.map_values(|p: (Vec<char>, bool)| (p.0@, p.1)) =~= before + seq![
                        (normalize(join_path(src@, p@)), false),
                    ]);
                },
                None => {
                    assert(r@.map_values(|p: (Vec<char>, bool)| (p.0@, p.1)) =~= before
                        + Seq::empty());
                },
            }
        } else {
            assert(r@.map_values(|p: (Vec<char>, bool)| (p.0@, p.1)) =~= before + Seq::empty());
        }
        k += 1;
    }
    assert(srcs.take(srcs.len() as int) =~= srcs);
    r
}

fn is_in_dir(f: &[char], dir: &[char], recursive: bool) -> (r: bool)
    ensures
        r == in_dir(f@, dir@, recursive),
{
    if !starts_with_path(f, dir) {
        return false;
    }
    let fc = components_of(f);
    let dc = components_of(dir);
    if recursive {
        fc.len() > dc.len()
    } else {
        fc.len() > dc.len() && fc.len() - dc.len() == 1
    }
}

fn push_headers_in_dir(
    out: &mut Vec<String>,
    files: &Vec<String>,
    dir: &[char],
    recursive: bool,
    src: &[char],
)
    ensures
        strs(final(out)@) == strs(old(out)@) + headers_in_dir(strs(files@), dir@, recursive, src@),
{
    let ghost start = strs(out@);
    let ghost fs = strs(files@);
    let mut i: usize = 0;
    while i < files.len()
        invariant
            i <= files@.len(),
            fs == strs(files@),
            strs(out@) == start + headers_in_dir(fs.take(i as int), dir@, recursive, src@),
        decreases files.len() - i,
    {
        proof {
            assert(fs.take(i + 1).drop_last() =~= fs.take(i as int));
            assert(fs.take(i + 1).last() == files@[i as int]@);
        }
        let ghost before = strs(out@);
        let f = chars(&files[i]);
        if is_header_file(files[i].as_str()) && is_in_dir(f.as_slice(), dir, recursive) {
            match crate::paths::strip_prefix_path(f.as_slice(), src) {
                Some(rel) => {
                    out.push(string_of(rel.as_slice()));
                    assert(strs(out@) =~= before + seq![rel@]);
                },
                None => {
                    assert(strs(out@) =~= before + Seq::empty());
                },
            }
        } else {
            assert(strs(out@) =~= before + Seq::empty());
        }
        i += 1;
    }
    assert(fs.take(fs.len() as int) =~= fs);
}

/// `after` is `before` with each target's discovered headers appended to
/// its sources, and nothing else changed.
pub open spec fn injected(after: Seq<Target>, before: Seq<Target>, source_dir: Seq<char>, files: Seq<Seq<char>>) -> bool {
    &&& after.len() == before.len()
    &&& forall|i: int|
        0 <= i < after.len() ==> {
            let t = #[trigger] after[i];
            let o = before[i];
            &&& crate::model::same_but_paths(t, o)
            &&& t.public_headers@ == o.public_headers@
            &&& t.includes@ == o.includes@
            &&& strs(t.sources@) == strs(o.sources@) + discovered_headers(o, source_dir, files)
        }
}

/// Attaches every header in a target's own include directories (and the
/// directories of its compiled sources) that the target does not already
/// account for, sorted, to its sources, so Bazel stages it into the
/// compile sandbox. `source_files` are every file below the source
/// directory, absolute and normalized. Per target, not global: a header
/// enumerated on a sibling target is still needed here.
pub fn inject_headers_on_include_dirs(targets: &mut Vec<Target>, source_dir: &str, source_files: &Vec<String>)
    ensures
        injected(final(targets)@, old(targets)@, source_dir@, strs(source_files@)),
{
    let src = chars_of(source_dir);
    let ghost orig = targets@;
    let ghost files = strs(source_files@);
    let mut i: usize = 0;
    while i < targets.len()
        invariant
            i <= targets@.len(),
            targets@.len() == orig.len(),
            src@ == source_dir@,
            files == strs(source_files@),
            forall|k: int| i <= k < targets@.len() ==> targets@[k] == orig[k],
            forall|k: int|
                0 <= k < i ==> {
                    let t = #[trigger] targets@[k];
                    let o = orig[k];
                    &&& crate::model::same_but_paths(t, o)
                    &&& t.public_headers@ == o.public_headers@
                    &&& t.includes@ == o.includes@
                    &&& strs(t.sources@) == strs(o.sources@) + discovered_headers(
                        o,
                        source_dir@,
                        files,
                    )
                },
        decreases targets.len() - i,
    {
        let o = &targets[i];
        let dirs = scan_dirs_of(o, src.as_slice());
        let ghost dv = dirs@.map_values(|p: (Vec<char>, bool)| (p.0@, p.1));
        let mut found: Vec<String> = Vec::new();
        let mut d: usize = 0;
        while d < dirs.len()
            invariant
                d <= dirs@.len(),
                dv == dirs@.map_values(|p: (Vec<char>, bool)| (p.0@, p.1)),
                src@ == source_dir@,
                files == strs(source_files@),
                strs(found@) == found_headers(dv.take(d as int), files, source_dir@),
            decreases dirs.len() - d,
        {
            proof {
                assert(dv.take(d + 1).drop_last() =~= dv.take(d as int));
                assert(dv.take(d + 1).last() == (dirs@[d as int].0@, dirs@[d as int].1));
            }
            let (dir, rec) = (&dirs[d].0, dirs[d].1);
            if starts_with_path(dir.as_slice(), src.as_slice()) {
                push_headers_in_dir(&mut found, source_files, dir.as_slice(), rec, src.as_slice());
            } else {
                assert(strs(found@) =~= strs(found@) + Seq::empty());
            }
            d += 1;
        }
        assert(dv.take(dv.len() as int) =~= dv);
        let mut accounted_paths = crate::text::clone_strings(&o.sources);
        crate::codegen::extend_strings(&mut accounted_paths, &o.public_headers);
        let ghost acc = accounted(*o);
        let ghost fv = strs(found@);
        let mut fresh: Vec<String> = Vec::new();
        let mut k: usize = 0;
        while k < found.len()
            invariant
                k <= found@.len(),
                fv == strs(found@),
                strs(accounted_paths@) == acc,
                strs(fresh@) == crate::configure_file::select(fv.take(k as int), not_in(acc)),
            decreases found.len() - k,
        {
            proof {
                assert(fv.take(k + 1).drop_last() =~= fv.take(k as int));
                assert(fv.take(k + 1).last() == found@[k as int]@);
            }
            if !contains_string(&accounted_paths, &found[k]) {
                let ghost before = strs(fresh@);
                fresh.push(found[k].clone());
                assert(strs(fresh@) =~= before.push(found@[k as int]@));
            }
            k += 1;
        }
        assert(fv.take(fv.len() as int) =~= fv);
        let discovered = sort_dedup_strings(&fresh);
        let mut nt = o.copied();
        crate::codegen::extend_strings(&mut nt.sources, &discovered);
        targets.set(i, nt);
        i += 1;
    }
}

/// What the compiler opened for the target named `name`: the last entry
/// for that name.
pub open spec fn opened_for(opened: Seq<(Seq<char>, Seq<Seq<char>>)>, name: Seq<char>) -> Option<Seq<Seq<char>>>
    decreases opened.len(),
{
    if opened.len() == 0 {
        None
    } else if opened.last().0 == name {
        Some(opened.last().1)
    } else {
        opened_for(opened.drop_last(), name)
    }
}

/// The opened files a target does not already carry as a source, public
/// header or textual source, in order.
pub open spec fn unaccounted(files: Seq<Seq<char>>, t: (Seq<Seq<char>>, Seq<Seq<char>>, Seq<Seq<char>>)) -> Seq<
    Seq<char>,
>
    decreases files.len(),
{
    if files.len() == 0 {
        seq![]
    } else {
        let f = files.last();
        unaccounted(files.drop_last(), t) + if !t.0.contains(f) && !t.1.contains(f) && !t.2.contains(f) {
            seq![f]
        } else {
            seq![]
        }
    }
}

/// A target's sources, public headers and textual sources.
pub open spec fn carried(t: Target) -> (Seq<Seq<char>>, Seq<Seq<char>>, Seq<Seq<char>>) {
    (strs(t.sources@), strs(t.public_headers@), strs(t.textual_sources@))
}

/// The entries of `s` that are headers (`want`) or that are not.
pub open spec fn split_headers(s: Seq<Seq<char>>, want: bool) -> Seq<Seq<char>>
    decreases s.len(),
{
    if s.len() == 0 {
        seq![]
    } else {
        split_headers(s.drop_last(), want) + if ext_is(s.last(), |e: Seq<char>| staged_ext(e)) == want {
            seq![s.last()]
        } else {
            seq![]
        }
    }
}

/// `after` is `before` with the files the compiler opened for it and that
/// it does not account for added: the headers, sorted, to its sources, the
/// rest, sorted, to its textual sources.
pub open spec fn opened_injected(after: Target, before: Target, opened: Seq<(Seq<char>, Seq<Seq<char>>)>) -> bool {
    match opened_for(opened, before.name@) {
        None => crate::model::same_target(after, before),
        Some(o) => {
            let fresh = unaccounted(o, carried(before));
            &&& crate::model::same_but_paths_and_textual(after, before)
            &&& after.public_headers@ == before.public_headers@
            &&& after.includes@ == before.includes@
            &&& strs(after.sources@) == strs(before.sources@) + crate::autotools_graph::sort_keep(split_headers(fresh, true))
            &&& strs(after.textual_sources@) == strs(before.textual_sources@) + crate::autotools_graph::sort_keep(
                split_headers(fresh, false),
            )
        },
    }
}

fn opened_for_exec(opened: &Vec<(String, Vec<String>)>, name: &String) -> (r: Option<usize>)
    ensures
        r matches Some(k) ==> k < opened@.len() && opened_for(opened_view(opened@), name@) == Some(
            strs(opened@[k as int].1@),
        ),
        r is None ==> opened_for(opened_view(opened@), name@) is None,
{
    let ghost ov = opened_view(opened@);
    let mut k = opened.len();
    assert(ov.take(k as int) =~= ov);
    while k > 0
        invariant
            k <= opened@.len(),
            ov == opened_view(opened@),
            opened_for(ov, name@) == opened_for(ov.take(k as int), name@),
        decreases k,
    {
        assert(ov.take(k as int).drop_last() =~= ov.take(k - 1));
        assert(ov.take(k as int).last() == (opened@[k - 1].0@, strs(opened@[k - 1].1@)));
        if crate::text::chars_eq(chars(&opened[k - 1].0).as_slice(), chars(name).as_slice()) {
            return Some(k - 1);
        }
        k -= 1;
    }
    None
}

pub open spec fn opened_view(opened: Seq<(String, Vec<String>)>) -> Seq<(Seq<char>, Seq<Seq<char>>)> {
    opened.map_values(|e: (String, Vec<String>)| (e.0@, strs(e.1@)))
}

fn push_strings(v: &mut Vec<String>, more: &Vec<String>)
    ensures
        strs(final(v)@) == strs(old(v)@) + strs(more@),
{
    let ghost start = strs(v@);
    let mut i: usize = 0;
    while i < more.len()
        invariant
            i <= more@.len(),
            strs(v@) == start + strs(more@).take(i as int),
        decreases more.len() - i,
    {
        let ghost before = strs(v@);
        v.push(more[i].clone());
        assert(strs(v@) =~= before.push(more@[i as int]@));
        i += 1;
        assert(strs(v@) =~= start + strs(more@).take(i as int));
    }
    assert(strs(more@).take(i as int) =~= strs(more@));
}

fn inject_opened_into(t: &mut Target, files: &Vec<String>)
    ensures
        crate::model::same_but_paths_and_textual(*final(t), *old(t)),
        final(t).public_headers@ == old(t).public_headers@,
        final(t).includes@ == old(t).includes@,
        strs(final(t).sources@) == strs(old(t).sources@) + crate::autotools_graph::sort_keep(
            split_headers(unaccounted(strs(files@), carried(*old(t))), true),
        ),
        strs(final(t).textual_sources@) == strs(old(t).textual_sources@) + crate::autotools_graph::sort_keep(
            split_headers(unaccounted(strs(files@), carried(*old(t))), false),
        ),
{
    let ghost fv = strs(files@);
    let mut headers: Vec<String> = Vec::new();
    let mut textual: Vec<String> = Vec::new();
    let mut i: usize = 0;
    while i < files.len()
        invariant
            i <= files@.len(),
            fv == strs(files@),
            t == old(t),
            strs(headers@) == split_headers(unaccounted(fv.take(i as int), carried(*t)), true),
            strs(textual@) == split_headers(unaccounted(fv.take(i as int), carried(*t)), false),
        decreases files.len() - i,
    {
        assert(fv.take(i + 1).drop_last() =~= fv.take(i as int));
        assert(fv.take(i + 1).last() == files@[i as int]@);
        let ghost u = unaccounted(fv.take(i as int), carried(*t));
        let ghost hb = strs(headers@);
        let ghost tb = strs(textual@);
        let f = &files[i];
        if !contains_string(&t.sources, f) && !contains_string(&t.public_headers, f) && !contains_string(
            &t.textual_sources,
            f,
        ) {
            assert(unaccounted(fv.take(i + 1), carried(*t)) == u.push(f@));
            assert(u.push(f@).drop_last() =~= u);
            if is_header_file(f.as_str()) {
                headers.push(f.clone());
                assert(strs(headers@) =~= hb + seq![f@]);
                assert(tb =~= tb + Seq::<Seq<char>>::empty());
            } else {
                textual.push(f.clone());
                assert(strs(textual@) =~= tb + seq![f@]);
                assert(hb =~= hb + Seq::<Seq<char>>::empty());
            }
        } else {
            assert(unaccounted(fv.take(i + 1), carried(*t)) =~= u);
        }
        i += 1;
    }
    assert(fv.take(i as int) =~= fv);
    let hs = crate::autotools_graph::sort_keep_strings(&headers);
    let ts = crate::autotools_graph::sort_keep_strings(&textual);
    push_strings(&mut t.sources, &hs);
    push_strings(&mut t.textual_sources, &ts);
}

/// Adds the files the compiler opened for each target but that nothing
/// declared (see `opened_injected`), keyed by target name. Only ever adds;
/// nothing lands in the public headers.
pub fn inject_opened_files(targets: &mut Vec<Target>, opened_by_target: &Vec<(String, Vec<String>)>)
    ensures
        final(targets)@.len() == old(targets)@.len(),
        forall|i: int|
            0 <= i < final(targets)@.len() ==> opened_injected(
                #[trigger] final(targets)@[i],
                old(targets)@[i],
                opened_view(opened_by_target@),
            ),
{
    let ghost orig = targets@;
    let mut i: usize = 0;
    while i < targets.len()
        invariant
            i <= targets@.len(),
            targets@.len() == orig.len(),
            orig == old(targets)@,
            forall|j: int| 0 <= j < i ==> opened_injected(#[trigger] targets@[j], orig[j], opened_view(opened_by_target@)),
            forall|j: int| i <= j < targets@.len() ==> #[trigger] targets@[j] == orig[j],
        decreases targets.len() - i,
    {
        match opened_for_exec(opened_by_target, &targets[i].name) {
            None => {
                assert(crate::model::same_target(targets@[i as int], orig[i as int]));
            },
            Some(k) => {
                let mut t = targets[i].copied();
                let ghost before = t;
                inject_opened_into(&mut t, &opened_by_target[k].1);
                proof {
                    assert(before.name@ == orig[i as int].name@);
                }
                targets.set(i, t);
                assert(carried(before) == carried(orig[i as int]));
                assert(opened_injected(targets@[i as int], orig[i as int], opened_view(opened_by_target@)));
            },
        }
        i += 1;
    }
}

/// The file a `#include "name"` line names, spaces allowed after the `#`
/// and after `include`.
pub open spec fn quoted_include(line: Seq<char>) -> Option<Seq<char>> {
    match crate::text::strip_prefix(crate::text::trim(line), "#"@) {
        None => None,
        Some(a) => match crate::text::strip_prefix(crate::text::trim_start(a), "include"@) {
            None => None,
            Some(b) => match crate::text::strip_prefix(crate::text::trim_start(b), "\""@) {
                None => None,
                Some(c) => match crate::text::split_once(c, "\""@) {
                    Some((name, _)) => Some(name),
                    None => None,
                },
            },
        },
    }
}

/// The sources (files the toolchain compiles) that lines quote-include.
pub open spec fn textual_names(ls: Seq<Seq<char>>) -> Seq<Seq<char>>
    decreases ls.len(),
{
    if ls.len() == 0 {
        seq![]
    } else {
        textual_names(ls.drop_last()) + match quoted_include(ls.last()) {
            Some(n) => if ext_is(n, |e: Seq<char>| translation_unit_ext(e)) {
                seq![n]
            } else {
                seq![]
            },
            None => seq![],
        }
    }
}

fn quoted_include_of(line: &[char]) -> (r: Option<Vec<char>>)
    ensures
        r matches Some(n) ==> quoted_include(line@) == Some(n@),
        r is None ==> quoted_include(line@) is None,
{
    let t = crate::text::trim_ws(line);
    match crate::text::strip_prefix_of(t.as_slice(), chars_of("#").as_slice()) {
        None => None,
        Some(a) => match crate::text::strip_prefix_of(
            crate::text::trim_start_ws(a.as_slice()).as_slice(),
            chars_of("include").as_slice(),
        ) {
            None => None,
            Some(b) => match crate::text::strip_prefix_of(
                crate::text::trim_start_ws(b.as_slice()).as_slice(),
                chars_of("\"").as_slice(),
            ) {
                None => None,
                Some(c) => match crate::text::split_once_at(c.as_slice(), chars_of("\"").as_slice()) {
                    Some((name, _)) => Some(name),
                    None => None,
                },
            },
        },
    }
}

/// The sources a file's text textually `#include`s, by the names its
/// quoted includes spell, in order: what a target must stage without
/// compiling.
pub fn textually_included_sources(text: &str) -> (r: Vec<String>)
    ensures
        strs(r@) == textual_names(crate::text::lines(text@)),
{
    let ls = crate::text::lines_of(chars_of(text).as_slice());
    let ghost lv = views(ls@);
    assert(lv =~= crate::text::lines(text@));
    let mut r: Vec<String> = Vec::new();
    let mut i: usize = 0;
    while i < ls.len()
        invariant
            i <= ls@.len(),
            lv == views(ls@),
            strs(r@) == textual_names(lv.take(i as int)),
        decreases ls.len() - i,
    {
        assert(lv.take(i + 1).drop_last() =~= lv.take(i as int));
        assert(lv.take(i + 1).last() == ls@[i as int]@);
        let ghost before = strs(r@);
        let mut pushed = false;
        match quoted_include_of(ls[i].as_slice()) {
            Some(n) => {
                let ns = string_of(n.as_slice());
                if is_translation_unit(ns.as_str()) {
                    r.push(ns);
                    assert(strs(r@) =~= before + seq![n@]);
                    pushed = true;
                }
            },
            None => {},
        }
        if !pushed {
            assert(before =~= before + Seq::<Seq<char>>::empty());
        }
        i += 1;
    }
    assert(lv.take(i as int) =~= lv);
    r
}

} // verus!
