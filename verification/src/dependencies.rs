//! Converted modules a project depends on, as seen at conversion time.
//!
//! A project that links a library it does not build is converted against
//! that library's own conversion: the dependency's ground-truth build is
//! installed into a scratch tree, and the trees of every dependency are
//! merged into one sysroot. A link input whose path lies inside the sysroot
//! is resolved, by path and never by library name, to the module that
//! installed it.
//!
//! Reading the module trees and merging the install trees is I/O and lives
//! with the caller; this module holds what is decided: the parsed manifests,
//! who installed which file (a second claim on one file is a conflict), and
//! the resolution of link inputs.

use vstd::prelude::*;
use crate::model::{ExternalDependency, ModuleDependency};
use crate::paths::{file_name, file_name_of, join_path, join_paths, strip_path_prefix, strip_prefix_path};
use crate::text::{
    chars, chars_of, has_prefix, lines, lines_of, push_str, split_once, split_once_at, split_whitespace,
    split_ws, string_of, strs, subvec, trim, trim_ws, views, find, find_str, lemma_find_from,
    occurs_at, starts_with,
};

verus! {

/// One library target a converted dependency exposes.
#[derive(Debug, Clone, PartialEq, Eq)]
pub struct Library {
    /// File stem of the built artifact: `libgreet` for `libgreet.la`,
    /// `libgreet.so` or `libgreet.a`. A link line names the library by it.
    pub stem: String,
    /// The Bazel target name inside the dependency's module.
    pub target: String,
    pub shared: bool,
}

/// One converted dependency: what it is called and what it built.
#[derive(Debug, Clone, PartialEq, Eq)]
pub struct Dependency {
    pub module: ModuleDependency,
    /// Library targets the dependency's module exposes, from its `TARGETS`
    /// manifest.
    pub libraries: Vec<Library>,
}

/// Why a set of dependencies cannot be assembled.
#[derive(Debug, Clone, PartialEq, Eq)]
pub enum DependencyError {
    /// A `--dependency` argument without the `:` between its two trees.
    Spec { spec: String },
    /// A module tree whose file at `path` cannot be read, or whose
    /// `MODULE.bazel` names no module; `reason` says which.
    ModuleTree { path: String, reason: String },
    /// Two dependencies installing one file: two modules claiming one file
    /// is a real conflict, not something to settle by order.
    Conflict { path: String, first: String, second: String },
}

/// What `{:?}` writes for a string: the string between double quotes,
/// with quotes, backslashes and unprintable characters escaped.
pub uninterp spec fn debug_quoted(s: Seq<char>) -> Seq<char>;

/// Printable ASCII, without a quote, an apostrophe or a backslash: the
/// characters `{:?}` writes as themselves.
pub open spec fn plain_ascii(s: Seq<char>) -> bool {
    forall|i: int|
        0 <= i < s.len() ==> 0x20 <= (#[trigger] s[i]) as u32 <= 0x7e && s[i] != '"' && s[i] != '\\' && s[i]
            != '\''
}

/// `format!("{:?}", s)` for a string (`<str as Debug>::fmt`). Its result is
/// named `debug_quoted`; the one fact claimed of it is that a string of
/// plain printable ASCII comes out between double quotes unchanged.
#[verifier::external_body]
fn debug_format(s: &str) -> (r: String)
    ensures
        r@ == debug_quoted(s@),
        plain_ascii(s@) ==> r@ == seq!['"'] + s@ + seq!['"'],
{
    format!("{:?}", s)
}

impl DependencyError {
    /// The error as a sentence.
    pub fn message(&self) -> (r: String)
        ensures
            self matches DependencyError::Spec { spec } ==> r@ == "--dependency "@ + debug_quoted(spec@)
                + ": expected <converted module tree>:<install tree>"@,
            self matches DependencyError::ModuleTree { path, reason } ==> r@
                == "cannot read the converted dependency's "@ + path@ + ": "@ + reason@,
            self matches DependencyError::Conflict { path, first, second } ==> r@
                == "dependencies "@ + first@ + " and "@ + second@ + " both install "@ + path@
                + "; two modules cannot own one installed file"@,
    {
        let mut r = String::new();
        match self {
            DependencyError::Spec { spec } => {
                push_str(&mut r, "--dependency ");
                let q = debug_format(spec.as_str());
                push_str(&mut r, q.as_str());
                push_str(&mut r, ": expected <converted module tree>:<install tree>");
            },
            DependencyError::ModuleTree { path, reason } => {
                push_str(&mut r, "cannot read the converted dependency's ");
                push_str(&mut r, path.as_str());
                push_str(&mut r, ": ");
                push_str(&mut r, reason.as_str());
            },
            DependencyError::Conflict { path, first, second } => {
                push_str(&mut r, "dependencies ");
                push_str(&mut r, first.as_str());
                push_str(&mut r, " and ");
                push_str(&mut r, second.as_str());
                push_str(&mut r, " both install ");
                push_str(&mut r, path.as_str());
                push_str(&mut r, "; two modules cannot own one installed file");
            },
        }
        r
    }
}

/// The install prefix every dependency's ground-truth build is installed
/// under, inside its scratch tree. Fixed, so the `.pc` files a dependency
/// installs stay path-free and `PKG_CONFIG_SYSROOT_DIR` does the
/// relocation.
pub const INSTALL_PREFIX: &'static str = "/usr/local";

/// The install prefix below a sysroot.
pub open spec fn prefix_in(sysroot: Seq<char>) -> Seq<char> {
    join_path(sysroot, "usr/local"@)
}

/// The environment that makes a configure script find the dependencies:
/// pkg-config relocated into the sysroot, and the include and library
/// directories for checks that do not go through pkg-config.
pub open spec fn configure_env_spec(sysroot: Option<Seq<char>>) -> Seq<(Seq<char>, Seq<char>)> {
    match sysroot {
        None => seq![],
        Some(s) => seq![
            ("PKG_CONFIG_LIBDIR"@, join_path(prefix_in(s), "lib/pkgconfig"@)),
            ("PKG_CONFIG_SYSROOT_DIR"@, s),
            ("CPPFLAGS"@, "-I"@ + join_path(prefix_in(s), "include"@)),
            ("LDFLAGS"@, "-L"@ + join_path(prefix_in(s), "lib"@)),
        ],
    }
}

/// `libgreet` from `libgreet.so.1.0.0`: the name before its first `.`.
pub open spec fn stem_of_name(name: Seq<char>) -> Seq<char> {
    match split_once(name, seq!['.']) {
        Some((stem, _)) => stem,
        None => name,
    }
}

/// The stem of a path's file name; `None` for a path with no file name.
pub open spec fn library_stem_spec(path: Seq<char>) -> Option<Seq<char>> {
    match file_name(path) {
        Some(n) => Some(stem_of_name(n)),
        None => None,
    }
}

/// `libgreet` from `libgreet.so`, `libgreet.so.1.0.0`, `libgreet.a` or
/// `libgreet.la`: the name before the first extension. `None` for a path
/// with no file name.
pub fn library_stem(path: &str) -> (r: Option<String>)
    ensures
        r matches Some(s) ==> library_stem_spec(path@) == Some(s@),
        r is None ==> library_stem_spec(path@) is None,
{
    let p = chars_of(path);
    match file_name_of(p.as_slice()) {
        None => None,
        Some(name) => {
            let d: [char; 1] = ['.'];
            assert(d@ =~= seq!['.']);
            match split_once_at(name.as_slice(), &d) {
                Some((stem, _)) => Some(string_of(stem.as_slice())),
                None => Some(string_of(name.as_slice())),
            }
        },
    }
}

/// The index of the first library whose stem is `stem`.
pub open spec fn library_index(libraries: Seq<Library>, stem: Seq<char>) -> Option<int>
    decreases libraries.len(),
{
    if libraries.len() == 0 {
        None
    } else {
        match library_index(libraries.drop_last(), stem) {
            Some(i) => Some(i),
            None => if libraries.last().stem@ == stem {
                Some(libraries.len() - 1)
            } else {
                None
            },
        }
    }
}

/// An external dependency as its three plain values.
pub open spec fn external_view(e: ExternalDependency) -> (Seq<char>, Seq<char>, bool) {
    (e.module@, e.target@, e.shared)
}

/// What the library of `dependency` with stem `stem` resolves to.
pub open spec fn library_in(dependency: Dependency, stem: Seq<char>) -> Option<
    (Seq<char>, Seq<char>, bool),
> {
    match library_index(dependency.libraries@, stem) {
        Some(i) => Some(
            (
                dependency.module.name@,
                dependency.libraries@[i].target@,
                dependency.libraries@[i].shared,
            ),
        ),
        None => None,
    }
}

/// Which dependency installed `relative`, by the first record of it.
pub open spec fn origin_of(origin: Seq<(Seq<char>, int)>, relative: Seq<char>) -> Option<int>
    decreases origin.len(),
{
    if origin.len() == 0 {
        None
    } else {
        match origin_of(origin.drop_last(), relative) {
            Some(i) => Some(i),
            None => if origin.last().0 == relative {
                Some(origin.last().1)
            } else {
                None
            },
        }
    }
}

/// One `module = "..."`-style field of a `MODULE.bazel`: on the first
/// trimmed line that starts with `key = "`, what follows up to the next
/// quote.
pub open spec fn module_field(lines: Seq<Seq<char>>, key: Seq<char>) -> Option<Seq<char>>
    decreases lines.len(),
{
    if lines.len() == 0 {
        None
    } else {
        let line = trim(lines[0]);
        let head = key + " = \""@;
        if has_prefix(line, head) {
            let rest = line.skip(head.len() as int);
            Some(
                match find(rest, seq!['"']) {
                    Some(i) => rest.take(i),
                    None => rest,
                },
            )
        } else {
            module_field(lines.drop_first(), key)
        }
    }
}

/// The module a `MODULE.bazel` declares; `None` when it names none.
pub open spec fn parse_module_spec(text: Seq<char>) -> Option<(Seq<char>, Option<Seq<char>>)> {
    match module_field(lines(text), "name"@) {
        Some(name) => Some((name, module_field(lines(text), "version"@))),
        None => None,
    }
}

/// The library a `TARGETS` line declares: `library <target> <stem>
/// <shared|static>`, further fields ignored.
pub open spec fn library_line(line: Seq<char>) -> Option<(Seq<char>, Seq<char>, bool)> {
    let f = split_ws(line);
    if f.len() >= 4 && f[0] == "library"@ {
        Some((f[1], f[2], f[3] == "shared"@))
    } else {
        None
    }
}

/// The libraries of a `TARGETS` manifest, in line order.
pub open spec fn libraries_in(lines: Seq<Seq<char>>) -> Seq<(Seq<char>, Seq<char>, bool)>
    decreases lines.len(),
{
    if lines.len() == 0 {
        seq![]
    } else {
        libraries_in(lines.drop_last()) + match library_line(lines.last()) {
            Some(l) => seq![l],
            None => seq![],
        }
    }
}

/// A library as `(target, stem, shared)`.
pub open spec fn library_view(l: Library) -> (Seq<char>, Seq<char>, bool) {
    (l.target@, l.stem@, l.shared)
}

/// The part of a trimmed line after `head`, up to the next quote.
fn field_value(line: &[char], head: &[char]) -> (r: Vec<char>)
    requires
        has_prefix(line@, head@),
    ensures
        r@ == (match find(line@.skip(head@.len() as int), seq!['"']) {
            Some(i) => line@.skip(head@.len() as int).take(i),
            None => line@.skip(head@.len() as int),
        }),
{
    let rest = subvec(line, head.len(), line.len());
    assert(rest@ =~= line@.skip(head@.len() as int));
    let q: [char; 1] = ['"'];
    assert(q@ =~= seq!['"']);
    match find_str(rest.as_slice(), &q) {
        Some(i) => {
            proof {
                lemma_find_from(rest@, q@, 0);
            }
            let r = subvec(rest.as_slice(), 0, i);
            assert(r@ =~= rest@.take(i as int));
            r
        },
        None => rest,
    }
}

fn find_module_field(ls: &Vec<Vec<char>>, key: &str) -> (r: Option<String>)
    ensures
        r matches Some(v) ==> module_field(views(ls@), key@) == Some(v@),
        r is None ==> module_field(views(ls@), key@) is None,
{
    let mut head = chars_of(key);
    let tail = chars_of(" = \"");
    crate::text::push_all(&mut head, tail.as_slice());
    let ghost h = key@ + " = \""@;
    assert(head@ =~= h);
    assert(views(ls@).skip(0) =~= views(ls@));
    let mut i: usize = 0;
    while i < ls.len()
        invariant
            i <= ls@.len(),
            head@ == h,
            h == key@ + " = \""@,
            module_field(views(ls@), key@) == module_field(views(ls@).skip(i as int), key@),
        decreases ls.len() - i,
    {
        let line = trim_ws(ls[i].as_slice());
        assert(views(ls@).skip(i as int)[0] == ls@[i as int]@);
        assert(views(ls@).skip(i as int).drop_first() =~= views(ls@).skip(i + 1));
        if starts_with(line.as_slice(), head.as_slice()) {
            let v = field_value(line.as_slice(), head.as_slice());
            return Some(string_of(v.as_slice()));
        }
        i += 1;
    }
    None
}

/// The module a `MODULE.bazel` declares, read back from the one form the
/// code generator writes; `None` when it has no `name = "..."` line.
pub fn parse_module_bazel(text: &str) -> (r: Option<ModuleDependency>)
    ensures
        r matches Some(m) ==> parse_module_spec(text@) == Some(
            (m.name@, crate::model::opt_view(m.version)),
        ),
        r is None ==> parse_module_spec(text@) is None,
{
    let t = chars_of(text);
    let ls = lines_of(t.as_slice());
    assert(views(ls@) =~= lines(text@));
    match find_module_field(&ls, "name") {
        None => None,
        Some(name) => {
            let version = find_module_field(&ls, "version");
            Some(ModuleDependency { name, version })
        },
    }
}

fn library_of_line(line: &[char]) -> (r: Option<Library>)
    ensures
        r matches Some(l) ==> library_line(line@) == Some(library_view(l)),
        r is None ==> library_line(line@) is None,
{
    let f = split_whitespace(line);
    let kw = chars_of("library");
    let sh = chars_of("shared");
    if f.len() >= 4 && crate::text::chars_eq(f[0].as_slice(), kw.as_slice()) {
        assert(views(f@)[0] == f@[0]@);
        let shared = crate::text::chars_eq(f[3].as_slice(), sh.as_slice());
        Some(
            Library {
                stem: string_of(f[2].as_slice()),
                target: string_of(f[1].as_slice()),
                shared,
            },
        )
    } else {
        proof {
            if f@.len() >= 4 {
                assert(views(f@)[0] == f@[0]@);
            }
        }
        None
    }
}

/// The `library <target> <stem> <shared|static>` lines of a module's
/// `TARGETS` manifest.
pub fn parse_targets_manifest(text: &str) -> (r: Vec<Library>)
    ensures
        r@.map_values(|l: Library| library_view(l)) == libraries_in(lines(text@)),
{
    let t = chars_of(text);
    let ls = lines_of(t.as_slice());
    assert(views(ls@) =~= lines(text@));
    let ghost lv = views(ls@);
    let mut r: Vec<Library> = Vec::new();
    let mut i: usize = 0;
    while i < ls.len()
        invariant
            i <= ls@.len(),
            lv == views(ls@),
            r@.map_values(|l: Library| library_view(l)) == libraries_in(lv.take(i as int)),
        decreases ls.len() - i,
    {
        proof {
            assert(lv.take(i + 1).drop_last() =~= lv.take(i as int));
            assert(lv.take(i + 1).last() == ls@[i as int]@);
        }
        let ghost before = r@.map_values(|l: Library| library_view(l));
        match library_of_line(ls[i].as_slice()) {
            Some(l) => {
                r.push(l);
                assert(r@.map_values(|l: Library| library_view(l)) =~= before + seq![
                    library_line(ls@[i as int]@).unwrap(),
                ]);
            },
            None => {
                assert(before =~= before + Seq::<(Seq<char>, Seq<char>, bool)>::empty());
            },
        }
        i += 1;
    }
    assert(lv.take(lv.len() as int) =~= lv);
    r
}

/// Splits a `--dependency <module tree>:<install tree>` argument at its
/// first `:`.
pub fn parse_dependency_spec(spec: &str) -> (r: Result<(String, String), DependencyError>)
    ensures
        r matches Ok((m, i)) ==> split_once(spec@, seq![':']) == Some((m@, i@)),
        r matches Err(e) ==> split_once(spec@, seq![':']) is None && e is Spec && e->spec@ == spec@,
{
    let s = chars_of(spec);
    let c: [char; 1] = [':'];
    assert(c@ =~= seq![':']);
    match split_once_at(s.as_slice(), &c) {
        Some((m, i)) => Ok((string_of(m.as_slice()), string_of(i.as_slice()))),
        None => Err(DependencyError::Spec { spec: string_of(s.as_slice()) }),
    }
}

/// Every dependency, the one directory their install trees were merged
/// into, and which of them installed each merged file.
#[derive(Debug, Default)]
pub struct Dependencies {
    dependencies: Vec<Dependency>,
    /// Where the merged install trees live; `None` when there are no
    /// dependencies, so "nothing to point configure at" differs from "an
    /// empty sysroot".
    sysroot: Option<String>,
    /// Sysroot-relative path of every installed file, with the index of
    /// the dependency that installed it. Recorded while merging, because
    /// after the merge the files are indistinguishable.
    origin: Vec<(String, usize)>,
}

impl Dependencies {
    /// Each recorded file names a known dependency, and is recorded once.
    pub closed spec fn wf(&self) -> bool {
        &&& forall|k: int| 0 <= k < self.origin@.len() ==> #[trigger] self.origin@[k].1 < self.dependencies@.len()
        &&& forall|j: int, k: int|
            0 <= j < k < self.origin@.len() ==> #[trigger] self.origin@[j].0@ != #[trigger] self.origin@[k].0@
    }

    /// The dependencies, in the order they were added.
    pub closed spec fn entries(&self) -> Seq<Dependency> {
        self.dependencies@
    }

    /// The merged sysroot, if there is one.
    pub closed spec fn root(&self) -> Option<Seq<char>> {
        crate::model::opt_view(self.sysroot)
    }

    /// Each recorded installed file with the index of its dependency.
    pub closed spec fn origins(&self) -> Seq<(Seq<char>, int)> {
        self.origin@.map_values(|o: (String, usize)| (o.0@, o.1 as int))
    }

    /// No dependencies: no sysroot and no environment.
    pub fn new() -> (r: Self)
        ensures
            r.wf(),
            r.entries().len() == 0,
            r.root() is None,
            r.origins().len() == 0,
    {
        Dependencies { dependencies: Vec::new(), sysroot: None, origin: Vec::new() }
    }

    /// An empty set of dependencies whose install trees merge into
    /// `sysroot`.
    pub fn with_sysroot(sysroot: &str) -> (r: Self)
        ensures
            r.wf(),
            r.entries().len() == 0,
            r.root() == Some(sysroot@),
            r.origins().len() == 0,
    {
        let s = string_of(chars_of(sysroot).as_slice());
        Dependencies { dependencies: Vec::new(), sysroot: Some(s), origin: Vec::new() }
    }

    /// Adds a dependency, returning its index.
    pub fn add(&mut self, dependency: Dependency) -> (index: usize)
        requires
            old(self).wf(),
            old(self).entries().len() < usize::MAX,
        ensures
            final(self).wf(),
            index == old(self).entries().len(),
            final(self).entries() == old(self).entries().push(dependency),
            final(self).root() == old(self).root(),
            final(self).origins() == old(self).origins(),
    {
        let index = self.dependencies.len();
        self.dependencies.push(dependency);
        assert(self.origin@.map_values(|o: (String, usize)| (o.0@, o.1 as int)) =~= old(self).origins());
        index
    }

    /// Records that dependency `index` installed the sysroot-relative file
    /// `relative`. A file another dependency already installed is refused
    /// and nothing is recorded.
    pub fn record_origin(&mut self, relative: &str, index: usize) -> (r: Result<(), DependencyError>)
        requires
            old(self).wf(),
            index < old(self).entries().len(),
        ensures
            final(self).wf(),
            final(self).entries() == old(self).entries(),
            final(self).root() == old(self).root(),
            r is Ok <==> origin_of(old(self).origins(), relative@) is None,
            r is Ok ==> final(self).origins() == old(self).origins().push((relative@, index as int)),
            r matches Err(e) ==> final(self).origins() == old(self).origins() && ({
                let prior = origin_of(old(self).origins(), relative@).unwrap();
                &&& e is Conflict
                &&& e->Conflict_path@ == relative@
                &&& e->first@ == old(self).entries()[prior].module.name@
                &&& e->second@ == old(self).entries()[index as int].module.name@
            }),
    {
        let ghost o = self.origins();
        let mut k: usize = 0;
        while k < self.origin.len()
            invariant
                k <= self.origin@.len(),
                o == self.origin@.map_values(|o: (String, usize)| (o.0@, o.1 as int)),
                origin_of(o.take(k as int), relative@) is None,
                self.wf(),
                index < self.dependencies@.len(),
                forall|j: int| 0 <= j < self.origin@.len() ==> #[trigger] self.origin@[j].1 < self.dependencies@.len(),
            decreases self.origin.len() - k,
        {
            assert(o.take(k + 1).drop_last() =~= o.take(k as int));
            let e = chars(&self.origin[k].0);
            let rc = chars_of(relative);
            if crate::text::chars_eq(e.as_slice(), rc.as_slice()) {
                proof {
                    lemma_origin_prefix(o, relative@, k as int + 1);
                }
                let prior = self.origin[k].1;
                return Err(
                    DependencyError::Conflict {
                        path: string_of(chars_of(relative).as_slice()),
                        first: self.dependencies[prior].module.name.clone(),
                        second: self.dependencies[index].module.name.clone(),
                    },
                );
            }
            k += 1;
        }
        assert(o.take(o.len() as int) =~= o);
        let ghost before = self.origin@;
        self.origin.push((string_of(chars_of(relative).as_slice()), index));
        assert(self.origin@.map_values(|o: (String, usize)| (o.0@, o.1 as int)) =~= o.push(
            (relative@, index as int),
        ));
        proof {
            assert forall|j: int, k: int|
                0 <= j < k < self.origin@.len() implies #[trigger] self.origin@[j].0@
                != #[trigger] self.origin@[k].0@ by {
                if k == self.origin@.len() - 1 {
                    lemma_origin_absent(o, relative@, j);
                }
            }
        }
        Ok(())
    }

    /// The environment that makes a configure script find the
    /// dependencies; empty when there are none.
    pub fn configure_env(&self) -> (r: Vec<(String, String)>)
        ensures
            crate::model::pairs(r@) == configure_env_spec(self.root()),
    {
        match &self.sysroot {
            None => Vec::new(),
            Some(sysroot) => {
                let s = chars(sysroot);
                let prefix = join_paths(s.as_slice(), chars_of("usr/local").as_slice());
                let libdir = join_paths(prefix.as_slice(), chars_of("lib/pkgconfig").as_slice());
                let mut cpp = chars_of("-I");
                crate::text::push_all(
                    &mut cpp,
                    join_paths(prefix.as_slice(), chars_of("include").as_slice()).as_slice(),
                );
                let mut ld = chars_of("-L");
                crate::text::push_all(
                    &mut ld,
                    join_paths(prefix.as_slice(), chars_of("lib").as_slice()).as_slice(),
                );
                let mut r: Vec<(String, String)> = Vec::new();
                r.push((string_of(chars_of("PKG_CONFIG_LIBDIR").as_slice()), string_of(libdir.as_slice())));
                r.push((string_of(chars_of("PKG_CONFIG_SYSROOT_DIR").as_slice()), sysroot.clone()));
                r.push((string_of(chars_of("CPPFLAGS").as_slice()), string_of(cpp.as_slice())));
                r.push((string_of(chars_of("LDFLAGS").as_slice()), string_of(ld.as_slice())));
                assert(crate::model::pairs(r@) =~= configure_env_spec(self.root()));
                r
            },
        }
    }

    /// The modules the dependent ends up depending on, in the order they
    /// were added.
    pub fn modules(&self) -> (r: Vec<ModuleDependency>)
        ensures
            r@.len() == self.entries().len(),
            forall|i: int|
                0 <= i < r@.len() ==> (#[trigger] r@[i]).name@ == self.entries()[i].module.name@
                    && crate::model::opt_view(r@[i].version) == crate::model::opt_view(
                    self.entries()[i].module.version,
                ),
    {
        let mut r: Vec<ModuleDependency> = Vec::new();
        let mut i: usize = 0;
        while i < self.dependencies.len()
            invariant
                i <= self.dependencies@.len(),
                r@.len() == i,
                forall|k: int|
                    0 <= k < i ==> (#[trigger] r@[k]).name@ == self.dependencies@[k].module.name@
                        && crate::model::opt_view(r@[k].version) == crate::model::opt_view(
                        self.dependencies@[k].module.version,
                    ),
            decreases self.dependencies.len() - i,
        {
            let m = &self.dependencies[i].module;
            let version = match &m.version {
                Some(v) => Some(v.clone()),
                None => None,
            };
            r.push(ModuleDependency { name: m.name.clone(), version });
            i += 1;
        }
        r
    }

    /// What a library file at `path` resolves to: the dependency that
    /// installed that file (by its path below the sysroot), and its library
    /// of the file's stem.
    pub open spec fn resolve_path_spec(&self, path: Seq<char>) -> Option<(Seq<char>, Seq<char>, bool)> {
        match self.root() {
            None => None,
            Some(s) => match strip_path_prefix(path, s) {
                None => None,
                Some(rel) => match origin_of(self.origins(), rel) {
                    None => None,
                    Some(i) => match library_stem_spec(path) {
                        None => None,
                        Some(stem) => library_in(self.entries()[i], stem),
                    },
                },
            },
        }
    }

    /// Resolves a library file the link line named by absolute path.
    pub fn resolve_path(&self, path: &str) -> (r: Option<ExternalDependency>)
        requires
            self.wf(),
        ensures
            r matches Some(e) ==> self.resolve_path_spec(path@) == Some(external_view(e)),
            r is None ==> self.resolve_path_spec(path@) is None,
    {
        let sysroot = match &self.sysroot {
            Some(s) => s,
            None => return None,
        };
        let p = chars_of(path);
        let s = chars(sysroot);
        let relative = match strip_prefix_path(p.as_slice(), s.as_slice()) {
            Some(r) => r,
            None => return None,
        };
        let index = match self.origin_index(&relative) {
            Some(i) => i,
            None => return None,
        };
        let stem = match library_stem(path) {
            Some(s) => s,
            None => return None,
        };
        self.library(index, &stem)
    }

    fn origin_index(&self, relative: &Vec<char>) -> (r: Option<usize>)
        requires
            self.wf(),
        ensures
            r matches Some(i) ==> origin_of(self.origins(), relative@) == Some(i as int) && i
                < self.entries().len(),
            r is None ==> origin_of(self.origins(), relative@) is None,
    {
        let ghost o = self.origins();
        let mut k: usize = 0;
        while k < self.origin.len()
            invariant
                k <= self.origin@.len(),
                o == self.origin@.map_values(|o: (String, usize)| (o.0@, o.1 as int)),
                origin_of(o.take(k as int), relative@) is None,
                forall|j: int| 0 <= j < self.origin@.len() ==> #[trigger] self.origin@[j].1 < self.dependencies@.len(),
            decreases self.origin.len() - k,
        {
            assert(o.take(k + 1).drop_last() =~= o.take(k as int));
            let e = chars(&self.origin[k].0);
            if crate::text::chars_eq(e.as_slice(), relative.as_slice()) {
                proof {
                    lemma_origin_prefix(o, relative@, k as int + 1);
                }
                return Some(self.origin[k].1);
            }
            k += 1;
        }
        assert(o.take(o.len() as int) =~= o);
        None
    }

    fn library(&self, index: usize, stem: &String) -> (r: Option<ExternalDependency>)
        requires
            index < self.entries().len(),
        ensures
            r matches Some(e) ==> library_in(self.entries()[index as int], stem@) == Some(
                external_view(e),
            ),
            r is None ==> library_in(self.entries()[index as int], stem@) is None,
    {
        let dependency = &self.dependencies[index];
        let libs = &dependency.libraries;
        let mut k: usize = 0;
        while k < libs.len()
            invariant
                k <= libs@.len(),
                index < self.dependencies@.len(),
                *dependency == self.dependencies@[index as int],
                *libs == dependency.libraries,
                forall|j: int| 0 <= j < k ==> libs@[j].stem@ != stem@,
            decreases libs.len() - k,
        {
            if libs[k].stem == *stem {
                proof {
                    lemma_library_index_first(libs@, stem@, k as int);
                }
                return Some(
                    ExternalDependency {
                        module: dependency.module.name.clone(),
                        target: libs[k].target.clone(),
                        shared: libs[k].shared,
                    },
                );
            }
            k += 1;
        }
        proof {
            lemma_library_index_none(libs@, stem@);
        }
        None
    }

    /// What `-l<name>` resolves to against the `-L` directories of the same
    /// link line: the first directory, in order, holding `lib<name>.so`, or
    /// else `lib<name>.a`, that resolves.
    pub open spec fn resolve_name_spec(&self, name: Seq<char>, dirs: Seq<Seq<char>>) -> Option<
        (Seq<char>, Seq<char>, bool),
    >
        decreases dirs.len(),
    {
        if dirs.len() == 0 {
            None
        } else {
            match self.resolve_name_spec(name, dirs.drop_last()) {
                Some(r) => Some(r),
                None => match self.resolve_path_spec(
                    join_path(dirs.last(), "lib"@ + name + ".so"@),
                ) {
                    Some(r) => Some(r),
                    None => self.resolve_path_spec(join_path(dirs.last(), "lib"@ + name + ".a"@)),
                },
            }
        }
    }

    /// Resolves a `-l<name>` the way the linker would: the first directory
    /// holding `lib<name>.so` or `lib<name>.a` wins. `None` when no
    /// directory inside the sysroot has it: a system library, or a
    /// genuinely unconverted one; the caller decides which.
    pub fn resolve_name(&self, name: &str, search_dirs: &[String]) -> (r: Option<ExternalDependency>)
        requires
            self.wf(),
        ensures
            r matches Some(e) ==> self.resolve_name_spec(name@, strs(search_dirs@)) == Some(
                external_view(e),
            ),
            r is None ==> self.resolve_name_spec(name@, strs(search_dirs@)) is None,
    {
        let mut i: usize = 0;
        while i < search_dirs.len()
            invariant
                self.wf(),
                i <= search_dirs@.len(),
                self.resolve_name_spec(name@, strs(search_dirs@).take(i as int)) is None,
            decreases search_dirs.len() - i,
        {
            proof {
                assert(strs(search_dirs@).take(i + 1).drop_last() =~= strs(search_dirs@).take(
                    i as int,
                ));
            }
            let dir = chars(&search_dirs[i]);
            for ext in 0..2usize
                invariant
                    self.wf(),
                    0 <= i < search_dirs@.len(),
                    dir@ == search_dirs@[i as int]@,
                    self.resolve_name_spec(name@, strs(search_dirs@).take(i as int)) is None,
                    ext >= 1 ==> self.resolve_path_spec(
                        join_path(dir@, "lib"@ + name@ + ".so"@),
                    ) is None,
                    ext >= 2 ==> self.resolve_path_spec(
                        join_path(dir@, "lib"@ + name@ + ".a"@),
                    ) is None,
            {
                let mut candidate = chars_of("lib");
                crate::text::push_all(&mut candidate, chars_of(name).as_slice());
                let suffix = if ext == 0 {
                    chars_of(".so")
                } else {
                    chars_of(".a")
                };
                crate::text::push_all(&mut candidate, suffix.as_slice());
                let path = join_paths(dir.as_slice(), candidate.as_slice());
                let p = string_of(path.as_slice());
                match self.resolve_path(p.as_str()) {
                    Some(found) => {
                        proof {
                            let t = strs(search_dirs@).take(i + 1);
                            assert(t.last() == dir@);
                            assert(t.drop_last() =~= strs(search_dirs@).take(i as int));
                            self.lemma_resolve_name_prefix(name@, strs(search_dirs@), i + 1);
                        }
                        return Some(found);
                    },
                    None => {},
                }
            }
            assert(strs(search_dirs@).take(i + 1).last() == dir@);
            i += 1;
        }
        assert(strs(search_dirs@).take(search_dirs@.len() as int) =~= strs(search_dirs@));
        None
    }
}

/// The index of the first dependency whose module is named `module`.
pub open spec fn dependency_index(deps: Seq<Dependency>, module: Seq<char>) -> Option<int>
    decreases deps.len(),
{
    if deps.len() == 0 {
        None
    } else {
        match dependency_index(deps.drop_last(), module) {
            Some(i) => Some(i),
            None => if deps.last().module.name@ == module {
                Some(deps.len() - 1)
            } else {
                None
            },
        }
    }
}

/// The index of the first shared library whose target is `target`.
pub open spec fn shared_library_index(libs: Seq<Library>, target: Seq<char>) -> Option<int>
    decreases libs.len(),
{
    if libs.len() == 0 {
        None
    } else {
        match shared_library_index(libs.drop_last(), target) {
            Some(i) => Some(i),
            None => if libs.last().target@ == target && libs.last().shared {
                Some(libs.len() - 1)
            } else {
                None
            },
        }
    }
}

/// The first file recorded for dependency `index` whose file name is
/// `name`.
pub open spec fn installed_file(origin: Seq<(Seq<char>, int)>, index: int, name: Seq<char>) -> Option<
    Seq<char>,
>
    decreases origin.len(),
{
    if origin.len() == 0 {
        None
    } else {
        match installed_file(origin.drop_last(), index, name) {
            Some(f) => Some(f),
            None => if origin.last().1 == index && file_name(origin.last().0) == Some(name) {
                Some(origin.last().0)
            } else {
                None
            },
        }
    }
}

impl Dependencies {
    /// The real shared-library file behind an external dependency: the
    /// `<stem>.so` its module installed, below the sysroot.
    pub open spec fn shared_library_path_spec(&self, module: Seq<char>, target: Seq<char>) -> Option<
        Seq<char>,
    > {
        match self.root() {
            None => None,
            Some(s) => match dependency_index(self.entries(), module) {
                None => None,
                Some(i) => match shared_library_index(self.entries()[i].libraries@, target) {
                    None => None,
                    Some(l) => match installed_file(
                        self.origins(),
                        i,
                        self.entries()[i].libraries@[l].stem@ + ".so"@,
                    ) {
                        None => None,
                        Some(rel) => Some(join_path(s, rel)),
                    },
                },
            },
        }
    }

    /// The real shared-library file behind an external dependency, for
    /// staging beside the dependent's ground-truth binaries: the binary
    /// names it, and the sysroot is gone by the time the comparison runs.
    /// Where the module installed several files of that name, the one
    /// recorded first is taken.
    pub fn shared_library_path(&self, dep: &ExternalDependency) -> (r: Option<String>)
        requires
            self.wf(),
        ensures
            r matches Some(p) ==> self.shared_library_path_spec(dep.module@, dep.target@) == Some(p@),
            r is None ==> self.shared_library_path_spec(dep.module@, dep.target@) is None,
    {
        let sysroot = match &self.sysroot {
            Some(s) => s,
            None => return None,
        };
        let ghost deps = self.dependencies@;
        let mut i: usize = 0;
        while i < self.dependencies.len() && self.dependencies[i].module.name != dep.module
            invariant
                i <= deps.len(),
                deps == self.dependencies@,
                dependency_index(deps.take(i as int), dep.module@) is None,
            decreases self.dependencies.len() - i,
        {
            assert(deps.take(i + 1).drop_last() =~= deps.take(i as int));
            i += 1;
        }
        if i == self.dependencies.len() {
            assert(deps.take(deps.len() as int) =~= deps);
            return None;
        }
        proof {
            assert(deps.take(i + 1).drop_last() =~= deps.take(i as int));
            self.lemma_dependency_index_prefix(deps, dep.module@, i as int + 1);
        }
        let libs = &self.dependencies[i].libraries;
        let mut l: usize = 0;
        while l < libs.len() && !(libs[l].target == dep.target && libs[l].shared)
            invariant
                l <= libs@.len(),
                shared_library_index(libs@.take(l as int), dep.target@) is None,
            decreases libs.len() - l,
        {
            assert(libs@.take(l + 1).drop_last() =~= libs@.take(l as int));
            l += 1;
        }
        if l == libs.len() {
            assert(libs@.take(libs@.len() as int) =~= libs@);
            return None;
        }
        proof {
            assert(libs@.take(l + 1).drop_last() =~= libs@.take(l as int));
            lemma_shared_library_index_prefix(libs@, dep.target@, l as int + 1);
        }
        let mut name = libs[l].stem.clone();
        push_str(&mut name, ".so");
        let nv = chars(&name);
        let ghost o = self.origins();
        let mut k: usize = 0;
        while k < self.origin.len()
            invariant
                k <= self.origin@.len(),
                o == self.origins(),
                o == self.origin@.map_values(|o: (String, usize)| (o.0@, o.1 as int)),
                installed_file(o.take(k as int), i as int, nv@) is None,
                i < self.dependencies@.len(),
                dependency_index(self.entries(), dep.module@) == Some(i as int),
                l < libs@.len(),
                *libs == self.dependencies@[i as int].libraries,
                shared_library_index(libs@, dep.target@) == Some(l as int),
                nv@ == libs@[l as int].stem@ + ".so"@,
                self.root() == Some(sysroot@),
            decreases self.origin.len() - k,
        {
            assert(o.take(k + 1).drop_last() =~= o.take(k as int));
            if self.origin[k].1 == i {
                let rel = chars(&self.origin[k].0);
                match file_name_of(rel.as_slice()) {
                    Some(f) => {
                        if crate::text::chars_eq(f.as_slice(), nv.as_slice()) {
                            proof {
                                assert(o[k as int].0 == rel@);
                                assert(o.take(k + 1).last() == o[k as int]);
                                lemma_installed_file_prefix(o, i as int, nv@, k as int + 1);
                            }
                            let s = chars(sysroot);
                            let joined = join_paths(s.as_slice(), rel.as_slice());
                            return Some(string_of(joined.as_slice()));
                        }
                    },
                    None => {},
                }
            }
            k += 1;
        }
        assert(o.take(o.len() as int) =~= o);
        None
    }

    proof fn lemma_dependency_index_prefix(&self, deps: Seq<Dependency>, module: Seq<char>, k: int)
        requires
            1 <= k <= deps.len(),
            dependency_index(deps.take(k), module) is Some,
        ensures
            dependency_index(deps, module) == dependency_index(deps.take(k), module),
        decreases deps.len() - k,
    {
        if k == deps.len() {
            assert(deps.take(k) =~= deps);
        } else {
            assert(deps.drop_last().take(k) =~= deps.take(k));
            self.lemma_dependency_index_prefix(deps.drop_last(), module, k);
        }
    }

    proof fn lemma_resolve_name_prefix(&self, name: Seq<char>, dirs: Seq<Seq<char>>, k: int)
        requires
            0 <= k <= dirs.len(),
            self.resolve_name_spec(name, dirs.take(k)) is Some,
        ensures
            self.resolve_name_spec(name, dirs) == self.resolve_name_spec(name, dirs.take(k)),
        decreases dirs.len() - k,
    {
        if k == dirs.len() {
            assert(dirs.take(k) =~= dirs);
        } else {
            assert(dirs.drop_last().take(k) =~= dirs.take(k));
            self.lemma_resolve_name_prefix(name, dirs.drop_last(), k);
        }
    }
}

proof fn lemma_shared_library_index_prefix(libs: Seq<Library>, target: Seq<char>, k: int)
    requires
        1 <= k <= libs.len(),
        shared_library_index(libs.take(k), target) is Some,
    ensures
        shared_library_index(libs, target) == shared_library_index(libs.take(k), target),
    decreases libs.len() - k,
{
    if k == libs.len() {
        assert(libs.take(k) =~= libs);
    } else {
        assert(libs.drop_last().take(k) =~= libs.take(k));
        lemma_shared_library_index_prefix(libs.drop_last(), target, k);
    }
}

proof fn lemma_installed_file_prefix(o: Seq<(Seq<char>, int)>, index: int, name: Seq<char>, k: int)
    requires
        1 <= k <= o.len(),
        installed_file(o.take(k), index, name) is Some,
    ensures
        installed_file(o, index, name) == installed_file(o.take(k), index, name),
    decreases o.len() - k,
{
    if k == o.len() {
        assert(o.take(k) =~= o);
    } else {
        assert(o.drop_last().take(k) =~= o.take(k));
        lemma_installed_file_prefix(o.drop_last(), index, name, k);
    }
}

proof fn lemma_origin_prefix(o: Seq<(Seq<char>, int)>, rel: Seq<char>, k: int)
    requires
        1 <= k <= o.len(),
        origin_of(o.take(k - 1), rel) is None,
        o[k - 1].0 == rel,
    ensures
        origin_of(o, rel) == Some(o[k - 1].1),
    decreases o.len() - k,
{
    if k == o.len() {
        assert(o.take(k) =~= o);
        assert(o.drop_last() =~= o.take(k - 1));
    } else {
        assert(o.drop_last().take(k - 1) =~= o.take(k - 1));
        assert(o.drop_last()[k - 1] == o[k - 1]);
        lemma_origin_prefix(o.drop_last(), rel, k);
    }
}

proof fn lemma_origin_absent(o: Seq<(Seq<char>, int)>, rel: Seq<char>, j: int)
    requires
        origin_of(o, rel) is None,
        0 <= j < o.len(),
    ensures
        o[j].0 != rel,
    decreases o.len(),
{
    if j < o.len() - 1 {
        lemma_origin_absent(o.drop_last(), rel, j);
    }
}

proof fn lemma_library_index_first(libs: Seq<Library>, stem: Seq<char>, k: int)
    requires
        0 <= k < libs.len(),
        libs[k].stem@ == stem,
        forall|j: int| 0 <= j < k ==> libs[j].stem@ != stem,
    ensures
        library_index(libs, stem) == Some(k),
    decreases libs.len(),
{
    if k < libs.len() - 1 {
        lemma_library_index_first(libs.drop_last(), stem, k);
    } else {
        lemma_library_index_none(libs.drop_last(), stem);
    }
}

proof fn lemma_library_index_none(libs: Seq<Library>, stem: Seq<char>)
    requires
        forall|j: int| 0 <= j < libs.len() ==> libs[j].stem@ != stem,
    ensures
        library_index(libs, stem) is None,
    decreases libs.len(),
{
    if libs.len() > 0 {
        lemma_library_index_none(libs.drop_last(), stem);
    }
}

/// Once a dependency records a file, the file is that dependency's for
/// good: whatever is recorded afterwards, its origin stays the first
/// recorder, so another dependency installing it is refused, never
/// ordered.
pub proof fn law_a_recorded_file_keeps_its_first_owner(
    o: Seq<(Seq<char>, int)>,
    relative: Seq<char>,
    index: int,
    later: Seq<(Seq<char>, int)>,
)
    requires
        origin_of(o, relative) is None,
    ensures
        origin_of(o.push((relative, index)) + later, relative) == Some(index),
    decreases later.len(),
{
    if later.len() == 0 {
        assert(o.push((relative, index)) + later =~= o.push((relative, index)));
        assert(o.push((relative, index)).drop_last() =~= o);
    } else {
        law_a_recorded_file_keeps_its_first_owner(o, relative, index, later.drop_last());
        assert((o.push((relative, index)) + later).drop_last() =~= o.push((relative, index)) + later.drop_last());
    }
}

/// A library file resolves to a converted module only through the record
/// of which dependency installed that very file below the sysroot: by
/// path, never by library name.
pub proof fn law_paths_resolve_to_their_installer(deps: Dependencies, path: Seq<char>)
    ensures
        deps.resolve_path_spec(path) matches Some(e) ==> exists|rel: Seq<char>, i: int|
            #![trigger origin_of(deps.origins(), rel), deps.entries()[i]]
            deps.root() is Some && strip_path_prefix(path, deps.root().unwrap()) == Some(rel) && origin_of(
                deps.origins(),
                rel,
            ) == Some(i) && e.0 == deps.entries()[i].module.name@,
{
    match deps.resolve_path_spec(path) {
        None => {},
        Some(e) => {
            let s = deps.root().unwrap();
            let rel = strip_path_prefix(path, s).unwrap();
            let i = origin_of(deps.origins(), rel).unwrap();
            let stem = library_stem_spec(path).unwrap();
            assert(library_in(deps.entries()[i], stem) == Some(e));
            assert(origin_of(deps.origins(), rel) == Some(i) && e.0 == deps.entries()[i].module.name@);
        },
    }
}

/// The files a `-l<name>` may name, in the linker's order: in each search
/// directory, `lib<name>.so` then `lib<name>.a`.
pub open spec fn name_candidates(name: Seq<char>, dirs: Seq<Seq<char>>) -> Seq<Seq<char>>
    decreases dirs.len(),
{
    if dirs.len() == 0 {
        seq![]
    } else {
        name_candidates(name, dirs.drop_last()) + seq![
            join_path(dirs.last(), "lib"@ + name + ".so"@),
            join_path(dirs.last(), "lib"@ + name + ".a"@),
        ]
    }
}

/// What the first of `paths` that resolves resolves to.
pub open spec fn first_resolved(deps: Dependencies, paths: Seq<Seq<char>>) -> Option<(Seq<char>, Seq<char>, bool)>
    decreases paths.len(),
{
    if paths.len() == 0 {
        None
    } else {
        match deps.resolve_path_spec(paths[0]) {
            Some(r) => Some(r),
            None => first_resolved(deps, paths.drop_first()),
        }
    }
}

proof fn lemma_first_resolved_append(deps: Dependencies, a: Seq<Seq<char>>, b: Seq<Seq<char>>)
    ensures
        first_resolved(deps, a + b) == match first_resolved(deps, a) {
            Some(r) => Some(r),
            None => first_resolved(deps, b),
        },
    decreases a.len(),
{
    if a.len() == 0 {
        assert(a + b =~= b);
    } else {
        lemma_first_resolved_append(deps, a.drop_first(), b);
        assert((a + b).drop_first() =~= a.drop_first() + b);
        assert((a + b)[0] == a[0]);
    }
}

/// `-l<name>` resolves as the linker looks it up: to what the first of
/// `lib<name>.so`, `lib<name>.a` in the first search directory, then the
/// next, ... resolves to, by the file's path.
pub proof fn law_names_resolve_in_search_order(deps: Dependencies, name: Seq<char>, dirs: Seq<Seq<char>>)
    ensures
        deps.resolve_name_spec(name, dirs) == first_resolved(deps, name_candidates(name, dirs)),
    decreases dirs.len(),
{
    if dirs.len() > 0 {
        law_names_resolve_in_search_order(deps, name, dirs.drop_last());
        let so = join_path(dirs.last(), "lib"@ + name + ".so"@);
        let a = join_path(dirs.last(), "lib"@ + name + ".a"@);
        lemma_first_resolved_append(deps, name_candidates(name, dirs.drop_last()), seq![so, a]);
        let two = seq![so, a];
        assert(two[0] == so);
        assert(two.drop_first() =~= seq![a]);
        assert(seq![a][0] == a);
        assert(seq![a].drop_first() =~= Seq::<Seq<char>>::empty());
        assert(first_resolved(deps, seq![a]) == match deps.resolve_path_spec(a) {
            Some(r) => Some(r),
            None => first_resolved(deps, Seq::<Seq<char>>::empty()),
        });
    }
}

} // verus!
