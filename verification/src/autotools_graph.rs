//! The Autotools build graph: automake's declarations (make's variable
//! database) joined to the build's own command stream.
//!
//! The database gives target identity (the name automake uses, where it
//! installs, which primary declared it); the stream gives what was really
//! built (each compile's resolved `-I` and `-D`, which objects went into
//! which artifact). The two are joined on the artifact each target
//! produces.

use vstd::prelude::*;
use crate::autotools::{
    canonical, command_view, commands_view, copy_pairs, decl_view, decls_view, expand_go,
    expanded, label_of, set_var, BuildCommand, DeclaredTarget, VariableDatabase,
};
use crate::model::pairs;
use crate::paths::{
    components, file_name, file_name_of, join_path, join_paths, normalize, normalize_path,
    strip_path_prefix, strip_prefix_path,
};
use crate::text::{
    chars, chars_eq, chars_of, contains, contains_str, ends_with, has_prefix, has_suffix, lex_lt,
    split_once, split_once_at, split_whitespace, split_ws, starts_with, string_of, strip_prefix,
    strip_prefix_of, strip_suffix, strip_suffix_of, strs, subvec, views,
};

verus! {

/// The first index of `x` in `s`.
pub open spec fn index_of(s: Seq<Seq<char>>, x: Seq<char>) -> Option<int>
    decreases s.len(),
{
    if s.len() == 0 {
        None
    } else {
        match index_of(s.drop_last(), x) {
            Some(i) => Some(i),
            None => if s.last() == x {
                Some(s.len() - 1)
            } else {
                None
            },
        }
    }
}

/// The argument following the first `flag`, e.g. `-o foo` gives `foo`.
pub open spec fn flag_value_spec(args: Seq<Seq<char>>, flag: Seq<char>) -> Option<Seq<char>> {
    match index_of(args, flag) {
        Some(i) => if i + 1 < args.len() {
            Some(args[i + 1])
        } else {
            None
        },
        None => None,
    }
}

proof fn lemma_index_of(s: Seq<Seq<char>>, x: Seq<char>)
    ensures
        index_of(s, x) matches Some(i) ==> 0 <= i < s.len() && s[i] == x && forall|k: int|
            0 <= k < i ==> s[k] != x,
        index_of(s, x) is None ==> forall|k: int| 0 <= k < s.len() ==> s[k] != x,
    decreases s.len(),
{
    if s.len() > 0 {
        lemma_index_of(s.drop_last(), x);
        assert forall|k: int| 0 <= k < s.len() - 1 implies s.drop_last()[k] == s[k] by {}
        if index_of(s.drop_last(), x) is None {
            assert forall|k: int| 0 <= k < s.len() - 1 implies s[k] != x by {
                assert(s.drop_last()[k] == s[k]);
            }
        }
    }
}

pub fn flag_value(args: &Vec<String>, flag: &str) -> (r: Option<String>)
    ensures
        crate::model::opt_view(r) == flag_value_spec(strs(args@), flag@),
{
    let f = chars_of(flag);
    let mut i: usize = 0;
    while i < args.len()
        invariant
            i <= args@.len(),
            f@ == flag@,
            forall|k: int| 0 <= k < i ==> strs(args@)[k] != flag@,
        decreases args.len() - i,
    {
        if chars_eq(chars(&args[i]).as_slice(), f.as_slice()) {
            proof {
                lemma_index_of(strs(args@), flag@);
                assert(strs(args@)[i as int] == flag@);
            }
            if i + 1 < args.len() {
                return Some(args[i + 1].clone());
            } else {
                return None;
            }
        }
        i += 1;
    }
    proof {
        lemma_index_of(strs(args@), flag@);
    }
    None
}

/// The arguments that are not flags.
pub open spec fn non_flags(args: Seq<Seq<char>>) -> Seq<Seq<char>>
    decreases args.len(),
{
    if args.len() == 0 {
        seq![]
    } else {
        non_flags(args.drop_last()) + if has_prefix(args.last(), seq!['-']) {
            seq![]
        } else {
            seq![args.last()]
        }
    }
}

/// The artifact a link or archive command produces; `None` for a compile.
pub open spec fn produced(prog: Seq<char>, args: Seq<Seq<char>>) -> Option<Seq<char>> {
    if prog == "ar"@ {
        if non_flags(args).len() >= 2 {
            Some(non_flags(args)[1])
        } else {
            None
        }
    } else if args.contains("-c"@) {
        None
    } else {
        flag_value_spec(args, "-o"@)
    }
}

fn has_arg(args: &Vec<String>, a: &str) -> (r: bool)
    ensures
        r == strs(args@).contains(a@),
{
    let v = chars_of(a);
    let mut i: usize = 0;
    while i < args.len()
        invariant
            i <= args@.len(),
            v@ == a@,
            forall|k: int| 0 <= k < i ==> strs(args@)[k] != a@,
        decreases args.len() - i,
    {
        if chars_eq(chars(&args[i]).as_slice(), v.as_slice()) {
            assert(strs(args@)[i as int] == a@);
            return true;
        }
        i += 1;
    }
    false
}

pub fn produced_artifact(cmd: &BuildCommand) -> (r: Option<String>)
    ensures
        crate::model::opt_view(r) == produced(cmd.program@, strs(cmd.args@)),
{
    if crate::text::str_eq(cmd.program.as_str(), "ar") {
        let mut nf: Vec<String> = Vec::new();
        let mut i: usize = 0;
        let dash: [char; 1] = ['-'];
        assert(dash@ =~= seq!['-']);
        while i < cmd.args.len()
            invariant
                i <= cmd.args@.len(),
                dash@ == seq!['-'],
                strs(nf@) == non_flags(strs(cmd.args@).take(i as int)),
            decreases cmd.args.len() - i,
        {
            proof {
                assert(strs(cmd.args@).take(i + 1).drop_last() =~= strs(cmd.args@).take(i as int));
            }
            let ghost before = strs(nf@);
            if !starts_with(chars(&cmd.args[i]).as_slice(), &dash) {
                nf.push(cmd.args[i].clone());
                assert(strs(nf@) =~= before.push(cmd.args@[i as int]@));
            } else {
                assert(before =~= before + Seq::<Seq<char>>::empty());
            }
            i += 1;
        }
        assert(strs(cmd.args@).take(i as int) =~= strs(cmd.args@));
        if nf.len() >= 2 {
            assert(strs(nf@)[1] == nf@[1]@);
            return Some(nf[1].clone());
        }
        return None;
    }
    if has_arg(&cmd.args, "-c") {
        return None;
    }
    flag_value(&cmd.args, "-o")
}

/// A path's file name, or the path itself where it has none.
pub open spec fn base_name(path: Seq<char>) -> Seq<char> {
    match file_name(path) {
        Some(n) => n,
        None => path,
    }
}

pub fn basename(path: &[char]) -> (r: Vec<char>)
    ensures
        r@ == base_name(path@),
{
    match file_name_of(path) {
        Some(n) => n,
        None => subvec(path, 0, path.len()),
    }
}

/// The values of the flags that begin with `flag`, the flag stripped,
/// empty ones skipped.
pub open spec fn flag_values(args: Seq<Seq<char>>, flag: Seq<char>) -> Seq<Seq<char>>
    decreases args.len(),
{
    if args.len() == 0 {
        seq![]
    } else {
        flag_values(args.drop_last(), flag) + match strip_prefix(args.last(), flag) {
            Some(v) => if v.len() > 0 {
                seq![v]
            } else {
                seq![]
            },
            None => seq![],
        }
    }
}

fn flag_values_exec(args: &Vec<String>, flag: &str) -> (r: Vec<String>)
    ensures
        strs(r@) == flag_values(strs(args@), flag@),
{
    let f = chars_of(flag);
    let mut r: Vec<String> = Vec::new();
    let mut i: usize = 0;
    while i < args.len()
        invariant
            i <= args@.len(),
            f@ == flag@,
            strs(r@) == flag_values(strs(args@).take(i as int), flag@),
        decreases args.len() - i,
    {
        proof {
            assert(strs(args@).take(i + 1).drop_last() =~= strs(args@).take(i as int));
            assert(strs(args@).take(i + 1).last() == args@[i as int]@);
        }
        let ghost before = strs(r@);
        match strip_prefix_of(chars(&args[i]).as_slice(), f.as_slice()) {
            Some(v) => {
                if v.len() > 0 {
                    r.push(string_of(v.as_slice()));
                    assert(strs(r@) =~= before.push(v@));
                } else {
                    assert(before =~= before + Seq::<Seq<char>>::empty());
                }
            },
            None => {
                assert(before =~= before + Seq::<Seq<char>>::empty());
            },
        }
        i += 1;
    }
    assert(strs(args@).take(i as int) =~= strs(args@));
    r
}

/// `-I` directories, the flag stripped.
pub fn includes_of(args: &Vec<String>) -> (r: Vec<String>)
    ensures
        strs(r@) == flag_values(strs(args@), "-I"@),
{
    flag_values_exec(args, "-I")
}

/// `-D` definitions, the flag stripped.
pub fn defines_of(args: &Vec<String>) -> (r: Vec<String>)
    ensures
        strs(r@) == flag_values(strs(args@), "-D"@),
{
    flag_values_exec(args, "-D")
}

/// The source file a compile names, seeing through automake's VPATH guard
/// (`test -f 'x.c' || echo '<srcdir>/'`x.c`): the last argument, with the
/// echoed directory glued back onto the file name at the backtick; `None`
/// unless it is a translation unit.
pub open spec fn compiled_source_spec(args: Seq<Seq<char>>) -> Option<Seq<char>> {
    if args.len() == 0 {
        None
    } else {
        let full = match split_once(args.last(), seq!['`']) {
            Some((d, n)) => d + n,
            None => args.last(),
        };
        if crate::headers::ext_is(full, |e: Seq<char>| crate::headers::translation_unit_ext(e)) {
            Some(full)
        } else {
            None
        }
    }
}

pub fn compiled_source(args: &Vec<String>) -> (r: Option<String>)
    ensures
        crate::model::opt_view(r) == compiled_source_spec(strs(args@)),
{
    if args.len() == 0 {
        return None;
    }
    let last = chars(&args[args.len() - 1]);
    assert(strs(args@).last() == last@);
    let bt: [char; 1] = ['`'];
    assert(bt@ =~= seq!['`']);
    let full = match split_once_at(last.as_slice(), &bt) {
        Some((d, n)) => {
            let mut f = d;
            crate::text::push_all(&mut f, n.as_slice());
            f
        },
        None => last,
    };
    let fs = string_of(full.as_slice());
    if crate::headers::is_translation_unit(fs.as_str()) {
        Some(fs)
    } else {
        None
    }
}

/// The objects a link or archive command consumes (`.o`, `.lo`).
pub open spec fn link_inputs_spec(args: Seq<Seq<char>>) -> Seq<Seq<char>>
    decreases args.len(),
{
    if args.len() == 0 {
        seq![]
    } else {
        link_inputs_spec(args.drop_last()) + if has_suffix(args.last(), ".o"@) || has_suffix(
            args.last(),
            ".lo"@,
        ) {
            seq![args.last()]
        } else {
            seq![]
        }
    }
}

pub fn link_inputs(args: &Vec<String>) -> (r: Vec<String>)
    ensures
        strs(r@) == link_inputs_spec(strs(args@)),
{
    let mut r: Vec<String> = Vec::new();
    let mut i: usize = 0;
    while i < args.len()
        invariant
            i <= args@.len(),
            strs(r@) == link_inputs_spec(strs(args@).take(i as int)),
        decreases args.len() - i,
    {
        proof {
            assert(strs(args@).take(i + 1).drop_last() =~= strs(args@).take(i as int));
            assert(strs(args@).take(i + 1).last() == args@[i as int]@);
        }
        let ghost before = strs(r@);
        let a = chars(&args[i]);
        if ends_with(a.as_slice(), chars_of(".o").as_slice()) || ends_with(
            a.as_slice(),
            chars_of(".lo").as_slice(),
        ) {
            r.push(args[i].clone());
            assert(strs(r@) =~= before.push(a@));
        } else {
            assert(before =~= before + Seq::<Seq<char>>::empty());
        }
        i += 1;
    }
    assert(strs(args@).take(i as int) =~= strs(args@));
    r
}

/// Whether a link input is a library file.
pub open spec fn library_file(path: Seq<char>) -> bool {
    has_suffix(path, ".a"@) || has_suffix(path, ".la"@) || contains(path, ".so"@)
}

pub fn is_library(path: &[char]) -> (r: bool)
    ensures
        r == library_file(path@),
{
    ends_with(path, chars_of(".a").as_slice()) || ends_with(path, chars_of(".la").as_slice())
        || contains_str(path, chars_of(".so").as_slice())
}

/// The C toolchain's own runtime libraries: every hermetic toolchain
/// supplies these, so linking one is no dependency on the host.
pub open spec fn toolchain_library(n: Seq<char>) -> bool {
    ||| n == "c"@
    ||| n == "m"@
    ||| n == "pthread"@
    ||| n == "dl"@
    ||| n == "rt"@
    ||| n == "util"@
    ||| n == "resolv"@
    ||| n == "gcc"@
    ||| n == "gcc_s"@
    ||| n == "stdc++"@
    ||| n == "atomic"@
}

pub fn is_toolchain_library(n: &[char]) -> (r: bool)
    ensures
        r == toolchain_library(n@),
{
    chars_eq(n, chars_of("c").as_slice()) || chars_eq(n, chars_of("m").as_slice()) || chars_eq(
        n,
        chars_of("pthread").as_slice(),
    ) || chars_eq(n, chars_of("dl").as_slice()) || chars_eq(n, chars_of("rt").as_slice())
        || chars_eq(n, chars_of("util").as_slice()) || chars_eq(n, chars_of("resolv").as_slice())
        || chars_eq(n, chars_of("gcc").as_slice()) || chars_eq(n, chars_of("gcc_s").as_slice())
        || chars_eq(n, chars_of("stdc++").as_slice()) || chars_eq(n, chars_of("atomic").as_slice())
}

/// The length of the common leading run of two sequences of components.
pub open spec fn common_len(a: Seq<Seq<char>>, b: Seq<Seq<char>>) -> nat
    decreases a.len(),
{
    if a.len() == 0 || b.len() == 0 || a[0] != b[0] {
        0
    } else {
        1 + common_len(a.drop_first(), b.drop_first())
    }
}

/// `n` copies of `..`.
pub open spec fn ups(n: nat) -> Seq<Seq<char>>
    decreases n,
{
    if n == 0 {
        seq![]
    } else {
        ups((n - 1) as nat).push(".."@)
    }
}

/// `path` relative to `base`, walking up with `..` where it must: the
/// components after their common leading run, behind one `..` for each of
/// `base`'s that remain (with a trailing `/` when nothing follows them).
pub open spec fn path_diff(path: Seq<char>, base: Seq<char>) -> Seq<char> {
    let p = components(path);
    let b = components(base);
    let n = common_len(p, b);
    let up = ups((b.len() - n) as nat);
    let rest = p.skip(n as int);
    if up.len() > 0 && rest.len() == 0 {
        crate::paths::join_all(up) + seq!['/']
    } else {
        crate::paths::join_all(up + rest)
    }
}

proof fn lemma_common_len(a: Seq<Seq<char>>, b: Seq<Seq<char>>, i: int)
    requires
        0 <= i <= a.len(),
        i <= b.len(),
        forall|k: int| 0 <= k < i ==> a[k] == b[k],
    ensures
        common_len(a, b) == i + common_len(a.skip(i), b.skip(i)),
    decreases i,
{
    if i > 0 {
        lemma_common_len(a.drop_first(), b.drop_first(), i - 1);
        assert(a.drop_first().skip(i - 1) =~= a.skip(i));
        assert(b.drop_first().skip(i - 1) =~= b.skip(i));
    } else {
        assert(a.skip(0) =~= a);
        assert(b.skip(0) =~= b);
    }
}

pub fn pathdiff(path: &[char], base: &[char]) -> (r: Vec<char>)
    ensures
        r@ == path_diff(path@, base@),
{
    let p = crate::paths::components_of(path);
    let b = crate::paths::components_of(base);
    let ghost pv = views(p@);
    let ghost bv = views(b@);
    let mut n: usize = 0;
    while n < p.len() && n < b.len() && chars_eq(p[n].as_slice(), b[n].as_slice())
        invariant
            n <= p@.len(),
            n <= b@.len(),
            pv == views(p@),
            bv == views(b@),
            forall|k: int| 0 <= k < n ==> pv[k] == bv[k],
        decreases p.len() - n,
    {
        assert(pv[n as int] == p@[n as int]@);
        assert(bv[n as int] == b@[n as int]@);
        n += 1;
    }
    proof {
        lemma_common_len(pv, bv, n as int);
        if n < p@.len() && n < b@.len() {
            assert(pv.skip(n as int)[0] == p@[n as int]@);
            assert(bv.skip(n as int)[0] == b@[n as int]@);
        }
        assert(common_len(pv.skip(n as int), bv.skip(n as int)) == 0);
    }
    let mut comps: Vec<Vec<char>> = Vec::new();
    let mut k: usize = 0;
    while k < b.len() - n
        invariant
            n <= b@.len(),
            k <= b@.len() - n,
            views(comps@) == ups(k as nat),
        decreases b.len() - n - k,
    {
        let ghost before = views(comps@);
        comps.push(chars_of(".."));
        k += 1;
        assert(views(comps@) =~= before.push(".."@));
    }
    let ups_len = comps.len();
    assert(views(comps@).len() == comps@.len());
    assert(pv == components(path@) && bv == components(base@));
    let mut j = n;
    while j < p.len()
        invariant
            n <= j <= p@.len(),
            views(comps@) == ups((b@.len() - n) as nat) + pv.skip(n as int).take(j - n),
            pv == views(p@),
            comps@.len() == ups_len + (j - n),
        decreases p.len() - j,
    {
        let ghost before = views(comps@);
        let c = subvec(p[j].as_slice(), 0, p[j].len());
        assert(c@ =~= p@[j as int]@);
        comps.push(c);
        assert(views(comps@) =~= before.push(c@));
        assert(pv.skip(n as int).take(j + 1 - n) =~= pv.skip(n as int).take(j - n).push(pv[j as int]));
        j += 1;
        assert(views(comps@) =~= ups((b@.len() - n) as nat) + pv.skip(n as int).take(j - n));
    }
    assert(pv.skip(n as int).take(j - n) =~= pv.skip(n as int));
    assert(common_len(pv, bv) == n);
    assert(ups((b@.len() - n) as nat).len() == ups_len);
    assert(views(comps@) == ups((bv.len() - n) as nat) + pv.skip(n as int));
    if ups_len > 0 && j == n {
        let mut r = crate::paths::join_components(subvec_vecs(&comps, 0, ups_len).as_slice());
        r.push('/');
        proof {
            assert(pv.skip(n as int).len() == 0);
            assert(views(comps@) =~= ups((b@.len() - n) as nat));
            assert(views(comps@).subrange(0, ups_len as int) =~= views(comps@));
        }
        r
    } else {
        let r = crate::paths::join_components(comps.as_slice());
        assert(!(ups((bv.len() - n) as nat).len() > 0 && pv.skip(n as int).len() == 0));
        r
    }
}

/// The vectors of `v` from `from` up to `to`, copied.
pub fn subvec_vecs(v: &Vec<Vec<char>>, from: usize, to: usize) -> (r: Vec<Vec<char>>)
    requires
        from <= to <= v@.len(),
    ensures
        views(r@) == views(v@).subrange(from as int, to as int),
{
    let mut r: Vec<Vec<char>> = Vec::new();
    let mut i = from;
    while i < to
        invariant
            from <= i <= to,
            to <= v@.len(),
            views(r@) == views(v@).subrange(from as int, i as int),
        decreases to - i,
    {
        let c = subvec(v[i].as_slice(), 0, v[i].len());
        assert(c@ =~= v@[i as int]@);
        let ghost before = views(r@);
        r.push(c);
        assert(views(r@) =~= before.push(c@));
        i += 1;
        assert(views(r@) =~= views(v@).subrange(from as int, i as int));
    }
    r
}

/// The marker `includedir` is pinned to while a header directory is
/// expanded, so what lies under it can be told apart.
pub open spec fn includedir_marker() -> Seq<char> {
    seq!['\u{1}', 'I', 'N', 'C', 'L', 'U', 'D', 'E', 'D', 'I', 'R', '\u{1}']
}

fn marker() -> (r: Vec<char>)
    ensures
        r@ == includedir_marker(),
{
    let r: Vec<char> = vec!['\u{1}', 'I', 'N', 'C', 'L', 'U', 'D', 'E', 'D', 'I', 'R', '\u{1}'];
    assert(r@ =~= includedir_marker());
    r
}

/// The prefix of a `<prefix>_HEADERS` variable, without `dist_`/`nodist_`,
/// unless the headers are not installed (`noinst`, `EXTRA`) or keep their
/// declared path (`nobase_`).
pub open spec fn headers_prefix(var: Seq<char>) -> Option<Seq<char>> {
    match strip_suffix(var, "_HEADERS"@) {
        None => None,
        Some(prefix) => {
            let p = match strip_prefix(prefix, "dist_"@) {
                Some(r) => r,
                None => match strip_prefix(prefix, "nodist_"@) {
                    Some(r) => r,
                    None => prefix,
                },
            };
            if has_prefix(p, "noinst"@) || has_prefix(p, "EXTRA"@) || has_prefix(p, "nobase_"@) {
                None
            } else {
                Some(p)
            }
        },
    }
}

/// The subdirectory of `includedir` a headers prefix installs into: empty
/// for `include`, else what its `<prefix>dir` holds below `includedir`;
/// `None` when that directory is not under `includedir` at all.
pub open spec fn header_subdir(prefix: Seq<char>, vars: Seq<(Seq<char>, Seq<char>)>) -> Option<Seq<char>> {
    if prefix == "include"@ {
        Some(seq![])
    } else {
        let pinned = set_var(vars, "includedir"@, includedir_marker());
        let dir = match crate::configure_file::lookup(vars, prefix + "dir"@) {
            Some(d) => expanded(d, pinned),
            None => seq![],
        };
        match strip_prefix(dir, includedir_marker()) {
            Some(rest) => Some(
                crate::text::trim_end_by(
                    crate::text::trim_start_by(rest, crate::text::one_of(seq!['/'])),
                    crate::text::one_of(seq!['/']),
                ),
            ),
            None => None,
        }
    }
}

/// The `(declared path, subdirectory)` pairs for the expanded tokens of a
/// headers variable, skipping unexpanded references.
pub open spec fn header_pairs(toks: Seq<Seq<char>>, subdir: Seq<char>) -> Seq<(Seq<char>, Seq<char>)>
    decreases toks.len(),
{
    if toks.len() == 0 {
        seq![]
    } else {
        header_pairs(toks.drop_last(), subdir) + if contains(toks.last(), "$("@) {
            seq![]
        } else {
            seq![(toks.last(), subdir)]
        }
    }
}

/// One scope's installed headers, variable by variable.
pub open spec fn installed_in(entries: Seq<(Seq<char>, Seq<char>)>, vars: Seq<(Seq<char>, Seq<char>)>) -> Seq<
    (Seq<char>, Seq<char>),
>
    decreases entries.len(),
{
    if entries.len() == 0 {
        seq![]
    } else {
        installed_in(entries.drop_last(), vars) + match headers_prefix(entries.last().0) {
            None => seq![],
            Some(p) => match header_subdir(p, vars) {
                None => seq![],
                Some(sub) => header_pairs(split_ws(expanded(entries.last().1, vars)), sub),
            },
        }
    }
}

pub open spec fn installed_all(scopes: Seq<(Seq<char>, Seq<(Seq<char>, Seq<char>)>)>) -> Seq<
    (Seq<char>, Seq<char>),
>
    decreases scopes.len(),
{
    if scopes.len() == 0 {
        seq![]
    } else {
        installed_all(scopes.drop_last()) + installed_in(scopes.last().1, scopes.last().1)
    }
}

/// Every header the project installs under its include directory, as
/// `(path as declared, subdirectory of includedir it lands in)`, sorted
/// and distinct: `<name>_HEADERS` installs into `$(<name>dir)`, and only a
/// directory under `$(includedir)` makes a header public.
pub open spec fn installed_headers_spec(scopes: Seq<(Seq<char>, Seq<(Seq<char>, Seq<char>)>)>) -> Seq<
    (Seq<char>, Seq<char>),
> {
    crate::autotools::sort_dedup_pairs(installed_all(scopes))
}

fn headers_prefix_exec(var: &[char]) -> (r: Option<Vec<char>>)
    ensures
        r matches Some(p) ==> headers_prefix(var@) == Some(p@),
        r is None ==> headers_prefix(var@) is None,
{
    match strip_suffix_of(var, chars_of("_HEADERS").as_slice()) {
        None => None,
        Some(prefix) => {
            let p = match strip_prefix_of(prefix.as_slice(), chars_of("dist_").as_slice()) {
                Some(r) => r,
                None => match strip_prefix_of(prefix.as_slice(), chars_of("nodist_").as_slice()) {
                    Some(r) => r,
                    None => prefix,
                },
            };
            if starts_with(p.as_slice(), chars_of("noinst").as_slice()) || starts_with(
                p.as_slice(),
                chars_of("EXTRA").as_slice(),
            ) || starts_with(p.as_slice(), chars_of("nobase_").as_slice()) {
                None
            } else {
                Some(p)
            }
        },
    }
}

fn header_subdir_exec(prefix: &[char], vars: &Vec<(String, String)>) -> (r: Option<Vec<char>>)
    ensures
        r matches Some(d) ==> header_subdir(prefix@, pairs(vars@)) == Some(d@),
        r is None ==> header_subdir(prefix@, pairs(vars@)) is None,
{
    if chars_eq(prefix, chars_of("include").as_slice()) {
        return Some(Vec::new());
    }
    let mut pinned = copy_pairs(vars);
    let m = marker();
    crate::autotools::set_var_pub(&mut pinned, chars_of("includedir").as_slice(), m.as_slice());
    assert(pairs(pinned@) == set_var(pairs(vars@), "includedir"@, includedir_marker()));
    let mut key = subvec(prefix, 0, prefix.len());
    crate::text::push_all(&mut key, chars_of("dir").as_slice());
    assert(key@ =~= prefix@ + "dir"@);
    let ks = string_of(key.as_slice());
    let dir = match crate::configure_file::lookup_value(vars, ks.as_str()) {
        Some(d) => chars(&crate::autotools::expand_references(d.as_str(), &pinned)),
        None => Vec::new(),
    };
    assert(dir@ == match crate::configure_file::lookup(pairs(vars@), prefix@ + "dir"@) {
        Some(d) => expanded(d, set_var(pairs(vars@), "includedir"@, includedir_marker())),
        None => Seq::<char>::empty(),
    });
    let slash: [char; 1] = ['/'];
    assert(slash@ =~= seq!['/']);
    match strip_prefix_of(dir.as_slice(), m.as_slice()) {
        Some(rest) => {
            let a = crate::text::trim_start_set(rest.as_slice(), &slash);
            Some(crate::text::trim_end_set(a.as_slice(), &slash))
        },
        None => None,
    }
}

/// One scope's installed headers.
pub fn installed_headers_in(vars: &Vec<(String, String)>) -> (r: Vec<(String, String)>)
    ensures
        pairs(r@) == installed_in(pairs(vars@), pairs(vars@)),
{
    let ghost pv = pairs(vars@);
    proof {
        reveal_strlit("$(");
    }
    let refpat = chars_of("$(");
    let mut out: Vec<(String, String)> = Vec::new();
    let mut k: usize = 0;
    assert(pairs(out@) =~= Seq::<(Seq<char>, Seq<char>)>::empty());
    while k < vars.len()
        invariant
            k <= vars@.len(),
            pv == pairs(vars@),
            refpat@ == "$("@,
            pairs(out@) == installed_in(pv.take(k as int), pv),
        decreases vars.len() - k,
    {
        proof {
            assert(pv.take(k + 1).drop_last() =~= pv.take(k as int));
            assert(pv.take(k + 1).last() == pv[k as int]);
        }
        let ghost before = pairs(out@);
        match headers_prefix_exec(chars(&vars[k].0).as_slice()) {
            None => {
                assert(before =~= before + Seq::<(Seq<char>, Seq<char>)>::empty());
            },
            Some(p) => match header_subdir_exec(p.as_slice(), vars) {
                None => {
                    assert(before =~= before + Seq::<(Seq<char>, Seq<char>)>::empty());
                },
                Some(sub) => {
                    let value = crate::autotools::expand_references(vars[k].1.as_str(), vars);
                    let toks = split_whitespace(chars(&value).as_slice());
                    let ghost tv = views(toks@);
                    let mut t: usize = 0;
                    assert(tv.take(0) =~= Seq::<Seq<char>>::empty());
                    while t < toks.len()
                        invariant
                            t <= toks@.len(),
                            tv == views(toks@),
                            refpat@ == "$("@,
                            pairs(out@) == before + header_pairs(tv.take(t as int), sub@),
                        decreases toks.len() - t,
                    {
                        proof {
                            assert(tv.take(t + 1).drop_last() =~= tv.take(t as int));
                            assert(tv.take(t + 1).last() == toks@[t as int]@);
                        }
                        let ghost mid = pairs(out@);
                        if !contains_str(toks[t].as_slice(), refpat.as_slice()) {
                            out.push((string_of(toks[t].as_slice()), string_of(sub.as_slice())));
                            assert(pairs(out@) =~= mid.push((toks@[t as int]@, sub@)));
                        } else {
                            assert(mid =~= mid + Seq::<(Seq<char>, Seq<char>)>::empty());
                        }
                        assert(pairs(out@) =~= before + header_pairs(tv.take(t + 1), sub@));
                        t += 1;
                    }
                    assert(tv.take(t as int) =~= tv);
                },
            },
        }
        k += 1;
    }
    assert(pv.take(k as int) =~= pv);
    out
}

/// Every header the project installs, as `(declared path, subdirectory of
/// includedir)`, sorted and distinct, from every scope.
pub fn installed_headers(db: &VariableDatabase) -> (r: Vec<(String, String)>)
    ensures
        pairs(r@) == installed_headers_spec(db.scopes_view()),
{
    let ghost sv = db.scopes_view();
    let n = db.scope_count();
    let mut all: Vec<(String, String)> = Vec::new();
    let mut k: usize = 0;
    assert(pairs(all@) =~= Seq::<(Seq<char>, Seq<char>)>::empty());
    while k < n
        invariant
            k <= n,
            n == sv.len(),
            sv == db.scopes_view(),
            pairs(all@) == installed_all(sv.take(k as int)),
        decreases n - k,
    {
        proof {
            assert(sv.take(k + 1).drop_last() =~= sv.take(k as int));
            assert(sv.take(k + 1).last() == sv[k as int]);
        }
        let (_, vars) = db.scope_at(k);
        let h = installed_headers_in(vars);
        let ghost before = pairs(all@);
        let mut t: usize = 0;
        while t < h.len()
            invariant
                t <= h@.len(),
                pairs(all@) == before + pairs(h@).take(t as int),
            decreases h.len() - t,
        {
            let ghost mid = pairs(all@);
            let a = h[t].0.clone();
            let b = h[t].1.clone();
            assert((a@, b@) == pairs(h@)[t as int]);
            all.push((a, b));
            assert(pairs(all@) =~= mid.push((a@, b@)));
            t += 1;
            assert(pairs(all@) =~= before + pairs(h@).take(t as int));
        }
        assert(pairs(h@).take(t as int) =~= pairs(h@));
        k += 1;
    }
    assert(sv.take(k as int) =~= sv);
    crate::autotools::sort_dedup_pair_strings(&all)
}

/// The prefix to strip from `path` so it is reachable at
/// `subdir/<basename>`, its installed name: `include/event2/buffer.h`
/// installed as `event2/buffer.h` strips `include`. `None` when the path is
/// not one strip away from that name, or nothing needs stripping.
pub open spec fn strip_for_spec(path: Seq<char>, subdir: Seq<char>) -> Option<Seq<char>> {
    let installed = if subdir.len() == 0 {
        base_name(path)
    } else {
        subdir + seq!['/'] + base_name(path)
    };
    if path == installed {
        None
    } else {
        match strip_suffix(path, seq!['/'] + installed) {
            Some(prefix) => if prefix.len() > 0 {
                Some(prefix)
            } else {
                None
            },
            None => None,
        }
    }
}

pub fn strip_for(path: &str, subdir: &str) -> (r: Option<String>)
    ensures
        crate::model::opt_view(r) == strip_for_spec(path@, subdir@),
{
    let p = chars_of(path);
    let b = basename(p.as_slice());
    let sd = chars_of(subdir);
    let installed = if sd.len() == 0 {
        b
    } else {
        let mut i = chars_of(subdir);
        i.push('/');
        crate::text::push_all(&mut i, b.as_slice());
        assert(i@ =~= subdir@ + seq!['/'] + base_name(path@));
        i
    };
    assert(installed@ == (if subdir@.len() == 0 {
        base_name(path@)
    } else {
        subdir@ + seq!['/'] + base_name(path@)
    }));
    if chars_eq(p.as_slice(), installed.as_slice()) {
        return None;
    }
    let mut suffix: Vec<char> = vec!['/'];
    crate::text::push_all(&mut suffix, installed.as_slice());
    assert(suffix@ =~= seq!['/'] + installed@);
    match strip_suffix_of(p.as_slice(), suffix.as_slice()) {
        Some(prefix) => if prefix.len() > 0 {
            Some(string_of(prefix.as_slice()))
        } else {
            None
        },
        None => None,
    }
}

/// The first installed header a target's source is: the same path, or a
/// path ending in `/<declared path>` (a `_HEADERS` value is relative to the
/// Makefile.am that declared it).
pub open spec fn installed_match(s: Seq<char>, installed: Seq<(Seq<char>, Seq<char>)>) -> Option<int>
    decreases installed.len(),
{
    if installed.len() == 0 {
        None
    } else {
        match installed_match(s, installed.drop_last()) {
            Some(k) => Some(k),
            None => if s == installed.last().0 || has_suffix(s, seq!['/'] + installed.last().0) {
                Some(installed.len() - 1)
            } else {
                None
            },
        }
    }
}

/// Whether a source is an installed header, to be made public.
pub open spec fn promoted(s: Seq<char>, installed: Seq<(Seq<char>, Seq<char>)>) -> bool {
    crate::headers::ext_is(s, |e: Seq<char>| crate::headers::staged_ext(e)) && installed_match(s, installed) is Some
}

pub open spec fn promoted_of(sources: Seq<Seq<char>>, installed: Seq<(Seq<char>, Seq<char>)>) -> Seq<Seq<char>>
    decreases sources.len(),
{
    if sources.len() == 0 {
        seq![]
    } else {
        promoted_of(sources.drop_last(), installed) + if promoted(sources.last(), installed) {
            seq![sources.last()]
        } else {
            seq![]
        }
    }
}

pub open spec fn kept_of(sources: Seq<Seq<char>>, installed: Seq<(Seq<char>, Seq<char>)>) -> Seq<Seq<char>>
    decreases sources.len(),
{
    if sources.len() == 0 {
        seq![]
    } else {
        kept_of(sources.drop_last(), installed) + if promoted(sources.last(), installed) {
            seq![]
        } else {
            seq![sources.last()]
        }
    }
}

/// The prefix each promoted header would have stripped.
pub open spec fn strips_of(promoted: Seq<Seq<char>>, installed: Seq<(Seq<char>, Seq<char>)>) -> Seq<
    Option<Seq<char>>,
> {
    promoted.map_values(
        |s: Seq<char>|
            match installed_match(s, installed) {
                Some(k) => strip_for_spec(s, installed[k].1),
                None => None,
            },
    )
}

/// The one prefix every promoted header agrees on, if there is one.
pub open spec fn unique_strip(strips: Seq<Option<Seq<char>>>) -> Option<Seq<char>> {
    if strips.len() > 0 && strips[0] is Some && forall|k: int| 0 <= k < strips.len() ==> #[trigger] strips[k] == strips[0] {
        strips[0]
    } else {
        None
    }
}

/// `x` inserted into sorted `r` after every element not greater than it.
pub open spec fn insert_keep(r: Seq<Seq<char>>, x: Seq<char>) -> Seq<Seq<char>>
    decreases r.len(),
{
    if r.len() == 0 {
        seq![x]
    } else if lex_lt(x, r[0]) {
        seq![x] + r
    } else {
        seq![r[0]] + insert_keep(r.drop_first(), x)
    }
}

/// `s` sorted, repeats kept.
pub open spec fn sort_keep(s: Seq<Seq<char>>) -> Seq<Seq<char>>
    decreases s.len(),
{
    if s.len() == 0 {
        seq![]
    } else {
        insert_keep(sort_keep(s.drop_last()), s.last())
    }
}

proof fn lemma_insert_keep_at(r: Seq<Seq<char>>, x: Seq<char>, k: int)
    requires
        0 <= k <= r.len(),
        forall|j: int| 0 <= j < k ==> !lex_lt(x, r[j]),
        k == r.len() || lex_lt(x, r[k]),
    ensures
        insert_keep(r, x) == r.take(k) + seq![x] + r.skip(k),
    decreases k,
{
    if k == 0 {
        assert(r.take(0) + seq![x] + r.skip(0) =~= seq![x] + r);
    } else {
        let t = r.drop_first();
        assert forall|j: int| 0 <= j < k - 1 implies !lex_lt(x, t[j]) by {
            assert(t[j] == r[j + 1]);
        }
        lemma_insert_keep_at(t, x, k - 1);
        assert(seq![r[0]] + (t.take(k - 1) + seq![x] + t.skip(k - 1)) =~= r.take(k) + seq![x] + r.skip(k));
    }
}

fn insert_keep_exec(r: &mut Vec<String>, x: String)
    ensures
        strs(final(r)@) == insert_keep(strs(old(r)@), x@),
{
    let xv = chars(&x);
    let mut k: usize = 0;
    while k < r.len() && !crate::text::lex_less(xv.as_slice(), chars(&r[k]).as_slice())
        invariant
            k <= r@.len(),
            xv@ == x@,
            r@ == old(r)@,
            forall|j: int| 0 <= j < k ==> !lex_lt(x@, #[trigger] r@[j]@),
        decreases r.len() - k,
    {
        k += 1;
    }
    proof {
        assert forall|j: int| 0 <= j < k implies !lex_lt(x@, strs(r@)[j]) by {}
        lemma_insert_keep_at(strs(r@), x@, k as int);
    }
    let ghost before = r@;
    r.insert(k, x);
    assert(strs(r@) =~= strs(before).take(k as int) + seq![x@] + strs(before).skip(k as int));
}

/// `v` sorted, repeats kept (see `sort_keep`).
pub fn sort_keep_strings(v: &Vec<String>) -> (r: Vec<String>)
    ensures
        strs(r@) == sort_keep(strs(v@)),
{
    let mut r: Vec<String> = Vec::new();
    let mut i: usize = 0;
    while i < v.len()
        invariant
            i <= v@.len(),
            strs(r@) == sort_keep(strs(v@).take(i as int)),
        decreases v.len() - i,
    {
        proof {
            assert(strs(v@).take(i + 1).drop_last() =~= strs(v@).take(i as int));
        }
        insert_keep_exec(&mut r, v[i].clone());
        i += 1;
    }
    assert(strs(v@).take(i as int) =~= strs(v@));
    r
}

fn installed_match_exec(s: &[char], installed: &Vec<(String, String)>) -> (r: Option<usize>)
    ensures
        r matches Some(k) ==> k < installed@.len() && installed_match(s@, pairs(installed@)) == Some(k as int),
        r is None ==> installed_match(s@, pairs(installed@)) is None,
{
    let ghost iv = pairs(installed@);
    let mut k: usize = 0;
    while k < installed.len()
        invariant
            k <= installed@.len(),
            iv == pairs(installed@),
            installed_match(s@, iv.take(k as int)) is None,
        decreases installed.len() - k,
    {
        proof {
            assert(iv.take(k + 1).drop_last() =~= iv.take(k as int));
            assert(iv.take(k + 1).last() == iv[k as int]);
        }
        let raw = chars(&installed[k].0);
        let mut suffix: Vec<char> = vec!['/'];
        crate::text::push_all(&mut suffix, raw.as_slice());
        assert(suffix@ =~= seq!['/'] + raw@);
        if chars_eq(s, raw.as_slice()) || ends_with(s, suffix.as_slice()) {
            proof {
                lemma_installed_match_prefix(s@, iv, k as int + 1, k as int);
            }
            return Some(k);
        }
        k += 1;
    }
    assert(iv.take(k as int) =~= iv);
    None
}

proof fn lemma_installed_match_prefix(s: Seq<char>, iv: Seq<(Seq<char>, Seq<char>)>, m: int, i: int)
    requires
        0 <= i < m <= iv.len(),
        installed_match(s, iv.take(m)) == Some(i),
    ensures
        installed_match(s, iv) == Some(i),
    decreases iv.len() - m,
{
    if m < iv.len() {
        assert(iv.take(m + 1).drop_last() =~= iv.take(m));
        lemma_installed_match_prefix(s, iv, m + 1, i);
    } else {
        assert(iv.take(m) =~= iv);
    }
}

/// A library target after promotion: its installed headers moved from
/// `sources` to `public_headers` (added where not already there, then
/// sorted), and the one prefix they all strip recorded.
pub open spec fn promoted_target(after: crate::model::Target, before: crate::model::Target, installed: Seq<(Seq<char>, Seq<char>)>) -> bool {
    let p = promoted_of(strs(before.sources@), installed);
    &&& strs(after.sources@) == kept_of(strs(before.sources@), installed)
    &&& strs(after.public_headers@) == sort_keep(crate::autotools::add_new(strs(before.public_headers@), p))
    &&& crate::model::opt_view(after.strip_include_prefix) == unique_strip(strips_of(p, installed))
}

/// Two targets equal but for sources, public headers and the prefix to
/// strip.
pub open spec fn same_but_promotion(a: crate::model::Target, b: crate::model::Target) -> bool {
    &&& a.name == b.name
    &&& a.kind == b.kind
    &&& a.dependencies@ == b.dependencies@
    &&& a.external_dependencies@ == b.external_dependencies@
    &&& a.includes@ == b.includes@
    &&& a.local_defines@ == b.local_defines@
    &&& a.artifacts@ == b.artifacts@
    &&& a.textual_sources@ == b.textual_sources@
    &&& a.is_shared == b.is_shared
    &&& a.soname == b.soname
    &&& a.needs_root_include == b.needs_root_include
}

/// `after` is `before` with each library's installed headers promoted
/// (see `promoted_target`), and every other target unchanged.
pub open spec fn promoted_all(
    after: Seq<crate::model::Target>,
    before: Seq<crate::model::Target>,
    installed: Seq<(Seq<char>, Seq<char>)>,
) -> bool {
    &&& after.len() == before.len()
    &&& forall|i: int|
        0 <= i < after.len() ==> {
            let a = #[trigger] after[i];
            let b = before[i];
            if b.kind == crate::model::TargetKind::Library {
                same_but_promotion(a, b) && promoted_target(a, b, installed)
            } else {
                crate::model::same_target(a, b)
            }
        }
}

/// Moves every installed header a library carries in its sources into its
/// public headers, and records the prefix to strip so the header is
/// reachable at its installed path. A binary keeps its headers: nothing
/// depends on a binary's headers.
pub fn promote_installed_headers(targets: &mut Vec<crate::model::Target>, db: &VariableDatabase)
    ensures
        promoted_all(final(targets)@, old(targets)@, installed_headers_spec(db.scopes_view())),
{
    let installed = installed_headers(db);
    let ghost iv = pairs(installed@);
    let mut i: usize = 0;
    while i < targets.len()
        invariant
            i <= targets@.len(),
            targets@.len() == old(targets)@.len(),
            iv == pairs(installed@),
            iv == installed_headers_spec(db.scopes_view()),
            forall|j: int| i <= j < targets@.len() ==> targets@[j] == old(targets)@[j],
            forall|j: int|
                0 <= j < i ==> {
                    let a = #[trigger] targets@[j];
                    let b = old(targets)@[j];
                    if b.kind == crate::model::TargetKind::Library {
                        same_but_promotion(a, b) && promoted_target(a, b, iv)
                    } else {
                        crate::model::same_target(a, b)
                    }
                },
        decreases targets.len() - i,
    {
        if targets[i].kind == crate::model::TargetKind::Library {
            let ghost b = targets@[i as int];
            let srcs = &targets[i].sources;
            let ghost sv = strs(srcs@);
            let mut kept: Vec<String> = Vec::new();
            let mut prom: Vec<String> = Vec::new();
            let mut strips: Vec<Option<String>> = Vec::new();
            let mut k: usize = 0;
            while k < srcs.len()
                invariant
                    k <= srcs@.len(),
                    sv == strs(srcs@),
                    iv == pairs(installed@),
                    strs(kept@) == kept_of(sv.take(k as int), iv),
                    strs(prom@) == promoted_of(sv.take(k as int), iv),
                    strips@.map_values(|o: Option<String>| crate::model::opt_view(o)) == strips_of(
                        promoted_of(sv.take(k as int), iv),
                        iv,
                    ),
                decreases srcs.len() - k,
            {
                proof {
                    assert(sv.take(k + 1).drop_last() =~= sv.take(k as int));
                    assert(sv.take(k + 1).last() == srcs@[k as int]@);
                }
                let s = chars(&srcs[k]);
                let ghost k0 = strs(kept@);
                let ghost p0 = strs(prom@);
                let ghost s0 = strips@.map_values(|o: Option<String>| crate::model::opt_view(o));
                let is_h = crate::headers::is_header_file(srcs[k].as_str());
                let m = if is_h {
                    installed_match_exec(s.as_slice(), &installed)
                } else {
                    None
                };
                match m {
                    Some(idx) => {
                        let st = strip_for(srcs[k].as_str(), installed[idx].1.as_str());
                        prom.push(srcs[k].clone());
                        strips.push(st);
                        assert(strs(prom@) =~= p0.push(s@));
                        assert(strips@.map_values(|o: Option<String>| crate::model::opt_view(o)) =~= s0.push(
                            crate::model::opt_view(st),
                        ));
                        assert(strs(kept@) =~= k0 + Seq::<Seq<char>>::empty());
                        assert(strips_of(promoted_of(sv.take(k + 1), iv), iv) =~= strips_of(promoted_of(sv.take(k as int), iv), iv).push(
                            crate::model::opt_view(st),
                        ));
                    },
                    None => {
                        kept.push(srcs[k].clone());
                        assert(strs(kept@) =~= k0.push(s@));
                        assert(strs(prom@) =~= p0 + Seq::<Seq<char>>::empty());
                    },
                }
                k += 1;
            }
            assert(sv.take(k as int) =~= sv);
            let mut public = crate::text::copy_strings(&targets[i].public_headers);
            let ghost pub0 = strs(public@);
            let mut q: usize = 0;
            while q < prom.len()
                invariant
                    q <= prom@.len(),
                    strs(public@) == crate::autotools::add_new(pub0, strs(prom@).take(q as int)),
                decreases prom.len() - q,
            {
                proof {
                    assert(strs(prom@).take(q + 1).drop_last() =~= strs(prom@).take(q as int));
                    assert(strs(prom@).take(q + 1).last() == prom@[q as int]@);
                }
                let ghost before = strs(public@);
                if !crate::text::contains_string(&public, &prom[q]) {
                    public.push(prom[q].clone());
                    assert(strs(public@) =~= before.push(prom@[q as int]@));
                }
                q += 1;
            }
            assert(strs(prom@).take(q as int) =~= strs(prom@));
            let sorted = sort_keep_strings(&public);
            let strip = unique_strip_exec(&strips);
            let mut t = targets[i].copied();
            t.sources = kept;
            t.public_headers = sorted;
            t.strip_include_prefix = strip;
            targets.set(i, t);
        }
        i += 1;
    }
}

fn unique_strip_exec(strips: &Vec<Option<String>>) -> (r: Option<String>)
    ensures
        crate::model::opt_view(r) == unique_strip(strips@.map_values(|o: Option<String>| crate::model::opt_view(o))),
{
    let ghost sv = strips@.map_values(|o: Option<String>| crate::model::opt_view(o));
    if strips.len() == 0 {
        return None;
    }
    let first = match &strips[0] {
        None => return None,
        Some(f) => chars(f),
    };
    let mut k: usize = 0;
    while k < strips.len()
        invariant
            k <= strips@.len(),
            strips@.len() > 0,
            sv == strips@.map_values(|o: Option<String>| crate::model::opt_view(o)),
            sv[0] == Some(first@),
            forall|j: int| 0 <= j < k ==> #[trigger] sv[j] == sv[0],
        decreases strips.len() - k,
    {
        match &strips[k] {
            None => {
                assert(sv[k as int] != sv[0]);
                return None;
            },
            Some(x) => {
                if !chars_eq(chars(x).as_slice(), first.as_slice()) {
                    assert(sv[k as int] != sv[0]);
                    return None;
                }
            },
        }
        k += 1;
    }
    Some(string_of(first.as_slice()))
}

} // verus!

verus! {

/// What a graph is built from: the command stream, make's scopes, and the
/// three roots.
pub struct GraphInputs {
    pub cmds: Seq<(Seq<char>, Seq<Seq<char>>, Seq<char>)>,
    pub scopes: Seq<(Seq<char>, Seq<(Seq<char>, Seq<char>)>)>,
    pub build_root: Seq<char>,
    pub source_dir: Seq<char>,
    pub deliverable_root: Seq<char>,
}

/// The last command that produced an artifact named `b`.
pub open spec fn built_index(cmds: Seq<(Seq<char>, Seq<Seq<char>>, Seq<char>)>, b: Seq<char>) -> Option<int>
    decreases cmds.len(),
{
    if cmds.len() == 0 {
        None
    } else {
        match produced(cmds.last().0, cmds.last().1) {
            Some(a) => if base_name(a) == b {
                Some(cmds.len() - 1)
            } else {
                built_index(cmds.drop_last(), b)
            },
            None => built_index(cmds.drop_last(), b),
        }
    }
}

/// A compile command's object, source, `-I` and `-D` values.
pub open spec fn compile_info(c: (Seq<char>, Seq<Seq<char>>, Seq<char>)) -> Option<
    (Seq<char>, Seq<char>, Seq<Seq<char>>, Seq<Seq<char>>),
> {
    if c.0 == "ar"@ {
        None
    } else {
        match flag_value_spec(c.1, "-o"@) {
            None => None,
            Some(obj) => if !c.1.contains("-c"@) {
                None
            } else {
                match compiled_source_spec(c.1) {
                    Some(src) => Some((obj, src, flag_values(c.1, "-I"@), flag_values(c.1, "-D"@))),
                    None => None,
                }
            },
        }
    }
}

/// An object's entry: object, source, the directory the compile ran in,
/// its `-I` and `-D` values.
pub type ObjectEntry = (Seq<char>, Seq<char>, Seq<char>, Seq<Seq<char>>, Seq<Seq<char>>);

pub open spec fn object_index(table: Seq<ObjectEntry>, obj: Seq<char>) -> Option<int>
    decreases table.len(),
{
    if table.len() == 0 {
        None
    } else {
        match object_index(table.drop_last(), obj) {
            Some(i) => Some(i),
            None => if table.last().0 == obj {
                Some(table.len() - 1)
            } else {
                None
            },
        }
    }
}

/// Every compiled object with the last compile that produced it, in the
/// order objects first appear.
pub open spec fn object_table(cmds: Seq<(Seq<char>, Seq<Seq<char>>, Seq<char>)>) -> Seq<ObjectEntry>
    decreases cmds.len(),
{
    if cmds.len() == 0 {
        seq![]
    } else {
        let t = object_table(cmds.drop_last());
        let c = cmds.last();
        match compile_info(c) {
            None => t,
            Some((obj, src, incs, defs)) => match object_index(t, obj) {
                Some(i) => t.update(i, (obj, src, c.2, incs, defs)),
                None => t.push((obj, src, c.2, incs, defs)),
            },
        }
    }
}

/// A path a command reported, resolved against the directory it ran in,
/// relative to the module root or else to the build root.
pub open spec fn rebase_spec(path: Seq<char>, dir: Seq<char>, module_root: Seq<char>, build_root: Seq<char>) -> Option<
    Seq<char>,
> {
    let a = normalize(join_path(dir, path));
    match strip_path_prefix(a, module_root) {
        Some(r) => Some(r),
        None => strip_path_prefix(a, build_root),
    }
}

/// The directory a target's `_SOURCES` are relative to: where its link ran,
/// mapped from the build tree onto the source tree.
pub open spec fn declaring_dir(g: GraphInputs, name: Seq<char>) -> Seq<char> {
    match built_index(g.cmds, base_name(name)) {
        Some(k) => match strip_path_prefix(g.cmds[k].2, g.build_root) {
            Some(rel) => join_path(g.source_dir, rel),
            None => g.source_dir,
        },
        None => g.source_dir,
    }
}

/// A per-target variable, from the scope that declared the target.
pub open spec fn target_var(g: GraphInputs, d: (Seq<char>, Seq<char>, Seq<char>, Seq<char>), key: Seq<char>) -> Option<
    Seq<char>,
> {
    match crate::autotools::scope_index(g.scopes, d.3) {
        Some(k) => crate::configure_file::lookup(g.scopes[k].1, key),
        None => None,
    }
}

/// The sources of the objects a link consumed, each made absolute.
pub open spec fn object_sources(objs: Seq<Seq<char>>, table: Seq<ObjectEntry>) -> Seq<Seq<char>>
    decreases objs.len(),
{
    if objs.len() == 0 {
        seq![]
    } else {
        object_sources(objs.drop_last(), table) + match object_index(table, objs.last()) {
            Some(i) => seq![normalize(join_path(table[i].2, table[i].1))],
            None => seq![],
        }
    }
}

pub open spec fn raw_sources(g: GraphInputs, d: (Seq<char>, Seq<char>, Seq<char>, Seq<char>)) -> Seq<char> {
    match target_var(g, d, canonical(d.0) + "_SOURCES"@) {
        Some(v) => v,
        None => seq![],
    }
}

/// The sources a target declared: its `_SOURCES` words, or, where that
/// holds an unexpanded conditional reference, the sources of the objects
/// its link consumed.
pub open spec fn declared_sources_survey(g: GraphInputs, d: (Seq<char>, Seq<char>, Seq<char>, Seq<char>)) -> Seq<
    Seq<char>,
> {
    let raw = raw_sources(g, d);
    if contains(raw, "$("@) {
        match built_index(g.cmds, base_name(d.0)) {
            Some(k) => object_sources(link_inputs_spec(g.cmds[k].1), object_table(g.cmds)),
            None => seq![],
        }
    } else {
        split_ws(raw)
    }
}

pub open spec fn installed_raw(g: GraphInputs) -> Seq<Seq<char>> {
    installed_headers_spec(g.scopes).map_values(|h: (Seq<char>, Seq<char>)| h.0)
}

pub open spec fn link_includes(g: GraphInputs, name: Seq<char>) -> Seq<Seq<char>> {
    match built_index(g.cmds, base_name(name)) {
        Some(k) => flag_values(g.cmds[k].1, "-I"@),
        None => seq![],
    }
}

/// The paths of `ps` that, resolved against `dir`, lie in the deliverable.
pub open spec fn shipped_of(ps: Seq<Seq<char>>, dir: Seq<char>, deliverable_root: Seq<char>) -> Seq<Seq<char>>
    decreases ps.len(),
{
    if ps.len() == 0 {
        seq![]
    } else {
        let a = normalize(join_path(dir, ps.last()));
        shipped_of(ps.drop_last(), dir, deliverable_root) + if crate::paths::path_starts_with(
            a,
            deliverable_root,
        ) {
            seq![a]
        } else {
            seq![]
        }
    }
}

/// Everything the build references from inside the deliverable, target
/// by target: sources, installed headers and the link's include dirs.
pub open spec fn shipped_all(g: GraphInputs, ds: Seq<(Seq<char>, Seq<char>, Seq<char>, Seq<char>)>) -> Seq<Seq<char>>
    decreases ds.len(),
{
    if ds.len() == 0 {
        seq![]
    } else {
        let d = ds.last();
        shipped_all(g, ds.drop_last()) + shipped_of(
            declared_sources_survey(g, d) + installed_raw(g) + link_includes(g, d.0),
            declaring_dir(g, d.0),
            g.deliverable_root,
        )
    }
}

pub open spec fn graph_decls(g: GraphInputs) -> Seq<(Seq<char>, Seq<char>, Seq<char>, Seq<char>)> {
    crate::autotools::dedup_decls(crate::autotools::all_declared(g.scopes))
}

/// The module root: the deepest directory holding the project directory
/// and everything the build references from inside the deliverable.
pub open spec fn graph_module_root(g: GraphInputs) -> Seq<char> {
    crate::paths::common_ancestor(g.source_dir, shipped_all(g, graph_decls(g)))
}

pub type DeclView = (Seq<char>, Seq<char>, Seq<char>, Seq<char>);

pub type ExtView = (Seq<char>, Seq<char>, bool);

/// The sources a target declared, relative to its declaring directory.
pub open spec fn decl_sources(g: GraphInputs, d: DeclView) -> Seq<Seq<char>> {
    let raw = raw_sources(g, d);
    let dir = declaring_dir(g, d.0);
    if contains(raw, "$("@) {
        match built_index(g.cmds, base_name(d.0)) {
            Some(k) => object_sources(link_inputs_spec(g.cmds[k].1), object_table(g.cmds)).map_values(
                |a: Seq<char>| path_diff(a, dir),
            ),
            None => seq![],
        }
    } else {
        split_ws(raw)
    }
}

pub open spec fn is_tu(s: Seq<char>) -> bool {
    crate::headers::ext_is(s, |e: Seq<char>| crate::headers::translation_unit_ext(e))
}

pub open spec fn is_hdr(s: Seq<char>) -> bool {
    crate::headers::ext_is(s, |e: Seq<char>| crate::headers::staged_ext(e))
}

/// The entries of `s` the toolchain compiles.
pub open spec fn compiled_of(s: Seq<Seq<char>>) -> Seq<Seq<char>>
    decreases s.len(),
{
    if s.len() == 0 {
        seq![]
    } else {
        compiled_of(s.drop_last()) + if is_tu(s.last()) {
            seq![s.last()]
        } else {
            seq![]
        }
    }
}

/// The entries of `s` that are headers and not compiled.
pub open spec fn headers_of(s: Seq<Seq<char>>) -> Seq<Seq<char>>
    decreases s.len(),
{
    if s.len() == 0 {
        seq![]
    } else {
        headers_of(s.drop_last()) + if !is_tu(s.last()) && is_hdr(s.last()) {
            seq![s.last()]
        } else {
            seq![]
        }
    }
}

/// The entries of `s` that `set` holds, in order.
pub open spec fn held_in(s: Seq<Seq<char>>, set: Seq<Seq<char>>) -> Seq<Seq<char>>
    decreases s.len(),
{
    if s.len() == 0 {
        seq![]
    } else {
        held_in(s.drop_last(), set) + if set.contains(s.last()) {
            seq![s.last()]
        } else {
            seq![]
        }
    }
}

/// The paths of `ps` that rebase, rebased.
pub open spec fn rebased_all(ps: Seq<Seq<char>>, dir: Seq<char>, mr: Seq<char>, br: Seq<char>) -> Seq<Seq<char>>
    decreases ps.len(),
{
    if ps.len() == 0 {
        seq![]
    } else {
        rebased_all(ps.drop_last(), dir, mr, br) + match rebase_spec(ps.last(), dir, mr, br) {
            Some(r) => seq![r],
            None => seq![],
        }
    }
}

/// The paths of `ps` that do not rebase, anchored for display.
pub open spec fn escaped_all(ps: Seq<Seq<char>>, dir: Seq<char>, mr: Seq<char>, br: Seq<char>, deliv: Seq<char>) -> Seq<
    Seq<char>,
>
    decreases ps.len(),
{
    if ps.len() == 0 {
        seq![]
    } else {
        escaped_all(ps.drop_last(), dir, mr, br, deliv) + match rebase_spec(ps.last(), dir, mr, br) {
            Some(_) => seq![],
            None => seq![crate::paths::anchored(normalize(join_path(dir, ps.last())), br, deliv)],
        }
    }
}

/// A compile's include dirs as the module sees them: the module root
/// itself is reported as a flag, one outside the module is dropped.
pub open spec fn inc_contrib(incs: Seq<Seq<char>>, dir: Seq<char>, mr: Seq<char>, br: Seq<char>) -> (
    Seq<Seq<char>>,
    bool,
)
    decreases incs.len(),
{
    if incs.len() == 0 {
        (seq![], false)
    } else {
        let prev = inc_contrib(incs.drop_last(), dir, mr, br);
        match rebase_spec(incs.last(), dir, mr, br) {
            Some(r) => if r.len() == 0 {
                (prev.0, true)
            } else {
                (prev.0.push(r), prev.1)
            },
            None => prev,
        }
    }
}

/// The include dirs, defines and root-include flag of the compiles of a
/// target's sources.
pub open spec fn flag_acc(table: Seq<ObjectEntry>, sources: Seq<Seq<char>>, mr: Seq<char>, br: Seq<char>) -> (
    Seq<Seq<char>>,
    Seq<Seq<char>>,
    bool,
)
    decreases table.len(),
{
    if table.len() == 0 {
        (seq![], seq![], false)
    } else {
        let prev = flag_acc(table.drop_last(), sources, mr, br);
        let e = table.last();
        match rebase_spec(e.1, e.2, mr, br) {
            Some(s) => if sources.contains(s) {
                let ic = inc_contrib(e.3, e.2, mr, br);
                (prev.0 + ic.0, prev.1 + e.4, prev.2 || ic.1)
            } else {
                prev
            },
            None => prev,
        }
    }
}

/// The first declaration whose name has the file name `b`.
pub open spec fn decl_by_base(ds: Seq<DeclView>, b: Seq<char>) -> Option<int>
    decreases ds.len(),
{
    if ds.len() == 0 {
        None
    } else {
        match decl_by_base(ds.drop_last(), b) {
            Some(i) => Some(i),
            None => if base_name(ds.last().0) == b {
                Some(ds.len() - 1)
            } else {
                None
            },
        }
    }
}

/// The `-L` directories of a link, resolved against where it ran.
pub open spec fn search_dirs(args: Seq<Seq<char>>, dir: Seq<char>) -> Seq<Seq<char>> {
    flag_values(args, "-L"@).map_values(|d: Seq<char>| join_path(dir, d))
}

/// One link input read: an edge to a target of this module, a library of
/// a converted dependency, or a library nothing converted builds.
pub open spec fn link_step(
    st: (Seq<Seq<char>>, Seq<ExtView>, Seq<Seq<char>>),
    input: Seq<char>,
    ds: Seq<DeclView>,
    deps: crate::dependencies::Dependencies,
    dirs: Seq<Seq<char>>,
    link_dir: Seq<char>,
    self_name: Seq<char>,
) -> (Seq<Seq<char>>, Seq<ExtView>, Seq<Seq<char>>) {
    let lib = match strip_prefix(input, "-l"@) {
        Some(n) => if n.len() > 0 {
            Some(n)
        } else {
            None
        },
        None => None,
    };
    match lib {
        Some(n) => match deps.resolve_name_spec(n, dirs) {
            Some(e) => (st.0, st.1.push(e), st.2),
            None => if !toolchain_library(n) {
                (st.0, st.1, st.2.push(input))
            } else {
                st
            },
        },
        None => if !library_file(input) {
            st
        } else {
            match deps.resolve_path_spec(join_path(link_dir, input)) {
                Some(e) => (st.0, st.1.push(e), st.2),
                None => match decl_by_base(ds, base_name(input)) {
                    Some(j) => if ds[j].0 != self_name {
                        (st.0.push(label_of(ds[j].0)), st.1, st.2)
                    } else {
                        st
                    },
                    None => (st.0, st.1, st.2.push(input)),
                },
            }
        },
    }
}

pub open spec fn link_run(
    args: Seq<Seq<char>>,
    ds: Seq<DeclView>,
    deps: crate::dependencies::Dependencies,
    dirs: Seq<Seq<char>>,
    link_dir: Seq<char>,
    self_name: Seq<char>,
) -> (Seq<Seq<char>>, Seq<ExtView>, Seq<Seq<char>>)
    decreases args.len(),
{
    if args.len() == 0 {
        (seq![], seq![], seq![])
    } else {
        link_step(link_run(args.drop_last(), ds, deps, dirs, link_dir, self_name), args.last(), ds, deps, dirs, link_dir, self_name)
    }
}

/// `x` inserted after every dependency whose (module, target) is not
/// greater.
pub open spec fn insert_ext(r: Seq<ExtView>, x: ExtView) -> Seq<ExtView>
    decreases r.len(),
{
    if r.len() == 0 {
        seq![x]
    } else if crate::autotools::pair_lt((x.0, x.1), (r[0].0, r[0].1)) {
        seq![x] + r
    } else {
        seq![r[0]] + insert_ext(r.drop_first(), x)
    }
}

/// Sorted by (module, target), stably.
pub open spec fn sort_ext(s: Seq<ExtView>) -> Seq<ExtView>
    decreases s.len(),
{
    if s.len() == 0 {
        seq![]
    } else {
        insert_ext(sort_ext(s.drop_last()), s.last())
    }
}

/// Adjacent repeats removed.
pub open spec fn dedup_adj<A>(s: Seq<A>) -> Seq<A>
    decreases s.len(),
{
    if s.len() == 0 {
        seq![]
    } else {
        let r = dedup_adj(s.drop_last());
        if s.len() >= 2 && s[s.len() - 2] == s.last() {
            r
        } else {
            r.push(s.last())
        }
    }
}

/// Everything decided about one built target.
pub struct TargetPlan {
    pub declared: Seq<char>,
    pub name: Seq<char>,
    pub library: bool,
    pub sources: Seq<Seq<char>>,
    pub public_headers: Seq<Seq<char>>,
    pub dependencies: Seq<Seq<char>>,
    pub external: Seq<ExtView>,
    pub includes: Seq<Seq<char>>,
    pub defines: Seq<Seq<char>>,
    pub artifact: Seq<char>,
    pub is_shared: bool,
    pub soname: Option<Seq<char>>,
    pub root_include: bool,
    pub escaped: Seq<Seq<char>>,
    pub unresolved: Seq<Seq<char>>,
}

/// The `dlname=` a libtool `.la` file's text declares, quotes trimmed.
pub open spec fn dlname_in(ls: Seq<Seq<char>>) -> Option<Seq<char>>
    decreases ls.len(),
{
    if ls.len() == 0 {
        None
    } else {
        match strip_prefix(ls[0], "dlname="@) {
            Some(v) => Some(
                crate::text::trim_end_by(
                    crate::text::trim_start_by(v, crate::text::one_of(seq!['\''])),
                    crate::text::one_of(seq!['\'']),
                ),
            ),
            None => dlname_in(ls.drop_first()),
        }
    }
}

/// The SONAME a libtool `.la` declares in its `dlname=` field: `None` for
/// anything that is not a `.la`, a file not among `la_texts`, or a
/// static-only library (empty `dlname`).
pub open spec fn libtool_dlname_spec(la: Seq<char>, la_texts: Seq<(Seq<char>, Seq<char>)>) -> Option<Seq<char>> {
    if crate::paths::extension(la) != Some("la"@) {
        None
    } else {
        match la_text_index(la_texts, la) {
            None => None,
            Some(k) => match dlname_in(crate::text::lines(la_texts[k].1)) {
                Some(n) => if n.len() > 0 {
                    Some(n)
                } else {
                    None
                },
                None => None,
            },
        }
    }
}

pub open spec fn la_text_index(la_texts: Seq<(Seq<char>, Seq<char>)>, la: Seq<char>) -> Option<int>
    decreases la_texts.len(),
{
    if la_texts.len() == 0 {
        None
    } else {
        match la_text_index(la_texts.drop_last(), la) {
            Some(i) => Some(i),
            None => if crate::autotools::same_path(la_texts.last().0, la) {
                Some(la_texts.len() - 1)
            } else {
                None
            },
        }
    }
}

/// The plan for a built declaration `d` in module root `mr`.
pub open spec fn plan_of(
    g: GraphInputs,
    deps: crate::dependencies::Dependencies,
    la_texts: Seq<(Seq<char>, Seq<char>)>,
    d: DeclView,
    mr: Seq<char>,
) -> TargetPlan {
    let dir = declaring_dir(g, d.0);
    let all = decl_sources(g, d);
    let compiled = compiled_of(all);
    let headers = headers_of(all);
    let unsorted = rebased_all(compiled, dir, mr, g.build_root);
    let table = object_table(g.cmds);
    let fl = flag_acc(table, unsorted, mr, g.build_root);
    let k = built_index(g.cmds, base_name(d.0)).unwrap();
    let link = g.cmds[k];
    let artifact = match produced(link.0, link.1) {
        Some(out) => match strip_path_prefix(normalize(join_path(link.2, out)), g.build_root) {
            Some(rel) => rel,
            None => d.0,
        },
        None => d.0,
    };
    let lk = link_run(link.1, graph_decls(g), deps, search_dirs(link.1, link.2), link.2, d.0);
    let rel_dir = match strip_path_prefix(dir, mr) {
        Some(r) => r,
        None => seq![],
    };
    TargetPlan {
        declared: d.0,
        name: label_of(d.0),
        library: d.2 != "PROGRAMS"@,
        sources: crate::text::sort_dedup(unsorted),
        public_headers: rebased_all(
            held_in(headers, installed_raw(g)),
            dir,
            mr,
            g.build_root,
        ),
        dependencies: crate::text::sort_dedup(lk.0),
        external: dedup_adj(sort_ext(lk.1)),
        includes: crate::text::sort_dedup(fl.0),
        defines: crate::text::sort_dedup(fl.1),
        artifact,
        is_shared: d.2 == "LTLIBRARIES"@ && d.1 != "noinst"@,
        soname: libtool_dlname_spec(join_path(join_path(g.build_root, rel_dir), d.0), la_texts),
        root_include: fl.2,
        escaped: crate::text::sort_dedup(escaped_all(compiled, dir, mr, g.build_root, g.deliverable_root)),
        unresolved: crate::text::sort_dedup(lk.2),
    }
}

/// A target holds exactly what its plan decided.
pub open spec fn matches_plan(t: crate::model::Target, p: TargetPlan) -> bool {
    &&& t.name@ == p.name
    &&& (t.kind == crate::model::TargetKind::Library) == p.library
    &&& strs(t.sources@) == p.sources
    &&& strs(t.public_headers@) == p.public_headers
    &&& strs(t.dependencies@) == p.dependencies
    &&& t.external_dependencies@.map_values(|e: crate::model::ExternalDependency| crate::dependencies::external_view(e)) == p.external
    &&& strs(t.includes@) == p.includes
    &&& strs(t.local_defines@) == p.defines
    &&& strs(t.artifacts@) == seq![p.artifact]
    &&& t.textual_sources@.len() == 0
    &&& t.is_shared == p.is_shared
    &&& crate::model::opt_view(t.soname) == p.soname
    &&& t.strip_include_prefix is None
    &&& t.needs_root_include == p.root_include
}

/// The plans of the declarations among `ds` that the build produced, in
/// declaration order.
pub open spec fn built_plans(
    g: GraphInputs,
    deps: crate::dependencies::Dependencies,
    la_texts: Seq<(Seq<char>, Seq<char>)>,
    ds: Seq<DeclView>,
    mr: Seq<char>,
) -> Seq<TargetPlan>
    decreases ds.len(),
{
    if ds.len() == 0 {
        seq![]
    } else {
        built_plans(g, deps, la_texts, ds.drop_last(), mr) + if built_index(g.cmds, base_name(ds.last().0)) is Some {
            seq![plan_of(g, deps, la_texts, ds.last(), mr)]
        } else {
            seq![]
        }
    }
}

/// `x` inserted into `r` after every plan whose name is not greater.
pub open spec fn insert_plan(r: Seq<TargetPlan>, x: TargetPlan) -> Seq<TargetPlan>
    decreases r.len(),
{
    if r.len() == 0 {
        seq![x]
    } else if lex_lt(x.name, r[0].name) {
        seq![x] + r
    } else {
        seq![r[0]] + insert_plan(r.drop_first(), x)
    }
}

/// Plans sorted by name, stably.
pub open spec fn sort_plans(s: Seq<TargetPlan>) -> Seq<TargetPlan>
    decreases s.len(),
{
    if s.len() == 0 {
        seq![]
    } else {
        insert_plan(sort_plans(s.drop_last()), s.last())
    }
}

/// A name with a list of paths.
pub type NamedList = (Seq<char>, Seq<Seq<char>>);

/// `x` inserted into `r` after every entry whose name is not greater.
pub open spec fn insert_named(r: Seq<NamedList>, x: NamedList) -> Seq<NamedList>
    decreases r.len(),
{
    if r.len() == 0 {
        seq![x]
    } else if lex_lt(x.0, r[0].0) {
        seq![x] + r
    } else {
        seq![r[0]] + insert_named(r.drop_first(), x)
    }
}

/// Entries sorted by name, stably.
pub open spec fn sort_named(s: Seq<NamedList>) -> Seq<NamedList>
    decreases s.len(),
{
    if s.len() == 0 {
        seq![]
    } else {
        insert_named(sort_named(s.drop_last()), s.last())
    }
}

/// Each plan with sources outside the module: its declared name and those
/// sources.
pub open spec fn escapes_of(ps: Seq<TargetPlan>) -> Seq<NamedList>
    decreases ps.len(),
{
    if ps.len() == 0 {
        seq![]
    } else {
        escapes_of(ps.drop_last()) + if ps.last().escaped.len() > 0 {
            seq![(ps.last().declared, ps.last().escaped)]
        } else {
            seq![]
        }
    }
}

/// Each plan linking libraries nothing converted builds: its label and
/// those libraries.
pub open spec fn links_of(ps: Seq<TargetPlan>) -> Seq<NamedList>
    decreases ps.len(),
{
    if ps.len() == 0 {
        seq![]
    } else {
        links_of(ps.drop_last()) + if ps.last().unresolved.len() > 0 {
            seq![(ps.last().name, ps.last().unresolved)]
        } else {
            seq![]
        }
    }
}

/// The plans of a graph's targets, in the order the graph lists them.
pub open spec fn graph_plans(
    g: GraphInputs,
    deps: crate::dependencies::Dependencies,
    la_texts: Seq<(Seq<char>, Seq<char>)>,
) -> Seq<TargetPlan> {
    sort_plans(built_plans(g, deps, la_texts, graph_decls(g), graph_module_root(g)))
}

pub open spec fn plan_names(ps: Seq<TargetPlan>) -> Seq<Seq<char>> {
    ps.map_values(|p: TargetPlan| p.name)
}

/// The names of the static libraries among `ps`.
pub open spec fn static_names(ps: Seq<TargetPlan>) -> Seq<Seq<char>>
    decreases ps.len(),
{
    if ps.len() == 0 {
        seq![]
    } else {
        static_names(ps.drop_last()) + if ps.last().library && !ps.last().is_shared {
            seq![ps.last().name]
        } else {
            seq![]
        }
    }
}

/// A test as plain values: name, target, command, working directory,
/// pass pattern.
pub type TestView = (Seq<char>, Seq<char>, Seq<char>, Seq<char>, Option<Seq<char>>);

pub open spec fn test_view(t: crate::model::Test) -> TestView {
    (t.name@, t.target@, t.command@, t.working_directory@, crate::model::opt_view(t.pass_regex))
}

pub open spec fn tests_view(ts: Seq<crate::model::Test>) -> Seq<TestView> {
    ts.map_values(|t: crate::model::Test| test_view(t))
}

/// Whether a `TESTS` entry runs a binary the module builds.
pub open spec fn bound_entry(e: (crate::autotools::EntryKind, Seq<char>), names: Seq<Seq<char>>) -> bool {
    e.0 == crate::autotools::EntryKind::Binary && names.contains(label_of(e.1))
}

/// The tests that run a target of the module.
pub open spec fn bound_tests(es: Seq<(crate::autotools::EntryKind, Seq<char>)>, names: Seq<Seq<char>>) -> Seq<TestView>
    decreases es.len(),
{
    if es.len() == 0 {
        seq![]
    } else {
        bound_tests(es.drop_last(), names) + if bound_entry(es.last(), names) {
            seq![(es.last().1, label_of(es.last().1), es.last().1, seq![], None)]
        } else {
            seq![]
        }
    }
}

/// The tests no rule around a target can express.
pub open spec fn unbound_tests(es: Seq<(crate::autotools::EntryKind, Seq<char>)>, names: Seq<Seq<char>>) -> Seq<TestView>
    decreases es.len(),
{
    if es.len() == 0 {
        seq![]
    } else {
        unbound_tests(es.drop_last(), names) + if !bound_entry(es.last(), names) {
            seq![(es.last().1, seq![], es.last().1, seq![], None)]
        } else {
            seq![]
        }
    }
}

pub type ItemView = (Seq<char>, Seq<char>, Seq<char>, Seq<char>);

pub open spec fn outside_items(es: Seq<NamedList>) -> Seq<ItemView>
    decreases es.len(),
{
    if es.len() == 0 {
        seq![]
    } else {
        outside_items(es.drop_last()).push(crate::needs_attention::outside_item(es.last().0, es.last().1))
    }
}

/// One item per shared library that links static libraries of the module.
pub open spec fn absorbs_items(ps: Seq<TargetPlan>, statics: Seq<Seq<char>>) -> Seq<ItemView>
    decreases ps.len(),
{
    if ps.len() == 0 {
        seq![]
    } else {
        let p = ps.last();
        absorbs_items(ps.drop_last(), statics) + if p.is_shared && held_in(p.dependencies, statics).len() > 0 {
            seq![crate::needs_attention::absorbs_item(p.name, held_in(p.dependencies, statics))]
        } else {
            seq![]
        }
    }
}

/// The entries of `s` that do not repeat an earlier one.
pub open spec fn first_links(s: Seq<NamedList>) -> Seq<NamedList>
    decreases s.len(),
{
    if s.len() == 0 {
        seq![]
    } else {
        first_links(s.drop_last()) + if s.drop_last().contains(s.last()) {
            seq![]
        } else {
            seq![s.last()]
        }
    }
}

/// Every library of every entry.
pub open spec fn all_libraries(s: Seq<NamedList>) -> Seq<Seq<char>>
    decreases s.len(),
{
    if s.len() == 0 {
        seq![]
    } else {
        all_libraries(s.drop_last()) + s.last().1
    }
}

/// The names of the entries that link `lib`.
pub open spec fn linking(s: Seq<NamedList>, lib: Seq<char>) -> Seq<Seq<char>>
    decreases s.len(),
{
    if s.len() == 0 {
        seq![]
    } else {
        linking(s.drop_last(), lib) + if s.last().1.contains(lib) {
            seq![s.last().0]
        } else {
            seq![]
        }
    }
}

/// One item per library in `libs`, naming every target that links it.
pub open spec fn unconverted_items(libs: Seq<Seq<char>>, links: Seq<NamedList>) -> Seq<ItemView>
    decreases libs.len(),
{
    if libs.len() == 0 {
        seq![]
    } else {
        unconverted_items(libs.drop_last(), links).push(
            crate::needs_attention::unconverted_item(libs.last(), sort_keep(linking(links, libs.last()))),
        )
    }
}

/// What a graph escalates: sources outside the module (by target name),
/// shared libraries absorbing static ones, tests that are not targets,
/// and libraries nothing converted builds (by library).
pub open spec fn graph_attention(
    g: GraphInputs,
    deps: crate::dependencies::Dependencies,
    la_texts: Seq<(Seq<char>, Seq<char>)>,
) -> Seq<ItemView> {
    let ps = graph_plans(g, deps, la_texts);
    let unbound = unbound_tests(crate::autotools::per_directory(g.scopes, g.build_root), plan_names(ps));
    let uniq = first_links(links_of(built_plans(g, deps, la_texts, graph_decls(g), graph_module_root(g))));
    outside_items(sort_named(escapes_of(built_plans(g, deps, la_texts, graph_decls(g), graph_module_root(g)))))
        + absorbs_items(ps, static_names(ps)) + if unbound.len() > 0 {
        seq![
            crate::needs_attention::test_command_item(
                unbound.map_values(|t: TestView| t.0),
                unbound.map_values(|t: TestView| t.2),
            ),
        ]
    } else {
        seq![]
    } + unconverted_items(crate::text::sort_dedup(all_libraries(uniq)), uniq)
}

/// An object of the command stream: its source, the directory its compile
/// ran in, and that compile's `-I` and `-D` values.
pub struct ObjectRow {
    pub obj: String,
    pub src: String,
    pub dir: String,
    pub incs: Vec<String>,
    pub defs: Vec<String>,
}

pub open spec fn row_view(r: ObjectRow) -> ObjectEntry {
    (r.obj@, r.src@, r.dir@, strs(r.incs@), strs(r.defs@))
}

pub open spec fn rows_view(rs: Seq<ObjectRow>) -> Seq<ObjectEntry> {
    rs.map_values(|r: ObjectRow| row_view(r))
}

fn built_index_exec(cmds: &Vec<BuildCommand>, b: &[char]) -> (r: Option<usize>)
    ensures
        r matches Some(k) ==> k < cmds@.len() && built_index(commands_view(cmds@), b@) == Some(k as int),
        r is None ==> built_index(commands_view(cmds@), b@) is None,
{
    let ghost cv = commands_view(cmds@);
    let mut n = cmds.len();
    assert(cv.take(n as int) =~= cv);
    while n > 0
        invariant
            n <= cmds@.len(),
            cv == commands_view(cmds@),
            built_index(cv, b@) == built_index(cv.take(n as int), b@),
        decreases n,
    {
        assert(cv.take(n as int).drop_last() =~= cv.take(n - 1));
        assert(cv.take(n as int).last() == command_view(cmds@[n - 1]));
        match produced_artifact(&cmds[n - 1]) {
            Some(a) => {
                if chars_eq(basename(chars(&a).as_slice()).as_slice(), b) {
                    return Some(n - 1);
                }
            },
            None => {},
        }
        n -= 1;
    }
    None
}

fn compile_info_exec(c: &BuildCommand) -> (r: Option<(String, String, Vec<String>, Vec<String>)>)
    ensures
        match compile_info(command_view(*c)) {
            None => r is None,
            Some(ci) => r matches Some(x) && (x.0@, x.1@, strs(x.2@), strs(x.3@)) == ci,
        },
{
    if crate::text::str_eq(c.program.as_str(), "ar") {
        return None;
    }
    let obj = match flag_value(&c.args, "-o") {
        None => return None,
        Some(o) => o,
    };
    if !has_arg(&c.args, "-c") {
        return None;
    }
    match compiled_source(&c.args) {
        Some(src) => Some((obj, src, includes_of(&c.args), defines_of(&c.args))),
        None => None,
    }
}

fn object_index_exec(rows: &Vec<ObjectRow>, obj: &[char]) -> (r: Option<usize>)
    ensures
        r matches Some(i) ==> i < rows@.len() && object_index(rows_view(rows@), obj@) == Some(i as int),
        r is None ==> object_index(rows_view(rows@), obj@) is None,
{
    let ghost rv = rows_view(rows@);
    let mut k: usize = 0;
    while k < rows.len()
        invariant
            k <= rows@.len(),
            rv == rows_view(rows@),
            object_index(rv.take(k as int), obj@) is None,
        decreases rows.len() - k,
    {
        assert(rv.take(k + 1).drop_last() =~= rv.take(k as int));
        assert(rv.take(k + 1).last() == row_view(rows@[k as int]));
        if chars_eq(chars(&rows[k].obj).as_slice(), obj) {
            proof {
                lemma_object_index_prefix(rv, obj@, k as int + 1, k as int);
            }
            return Some(k);
        }
        k += 1;
    }
    assert(rv.take(k as int) =~= rv);
    None
}

proof fn lemma_object_index_prefix(rv: Seq<ObjectEntry>, obj: Seq<char>, m: int, i: int)
    requires
        0 <= i < m <= rv.len(),
        object_index(rv.take(m), obj) == Some(i),
    ensures
        object_index(rv, obj) == Some(i),
    decreases rv.len() - m,
{
    if m < rv.len() {
        assert(rv.take(m + 1).drop_last() =~= rv.take(m));
        lemma_object_index_prefix(rv, obj, m + 1, i);
    } else {
        assert(rv.take(m) =~= rv);
    }
}

/// The table of every compiled object (see `object_table`).
pub fn object_table_exec(cmds: &Vec<BuildCommand>) -> (r: Vec<ObjectRow>)
    ensures
        rows_view(r@) == object_table(commands_view(cmds@)),
{
    let ghost cv = commands_view(cmds@);
    let mut rows: Vec<ObjectRow> = Vec::new();
    let mut k: usize = 0;
    assert(rows_view(rows@) =~= Seq::<ObjectEntry>::empty());
    while k < cmds.len()
        invariant
            k <= cmds@.len(),
            cv == commands_view(cmds@),
            rows_view(rows@) == object_table(cv.take(k as int)),
        decreases cmds.len() - k,
    {
        proof {
            assert(cv.take(k + 1).drop_last() =~= cv.take(k as int));
            assert(cv.take(k + 1).last() == command_view(cmds@[k as int]));
        }
        let ghost before = rows_view(rows@);
        match compile_info_exec(&cmds[k]) {
            None => {},
            Some((obj, src, incs, defs)) => {
                let row = ObjectRow { obj, src, dir: cmds[k].dir.clone(), incs, defs };
                match object_index_exec(&rows, chars(&row.obj).as_slice()) {
                    Some(i) => {
                        rows.set(i, row);
                        assert(rows_view(rows@) =~= before.update(i as int, row_view(row)));
                    },
                    None => {
                        rows.push(row);
                        assert(rows_view(rows@) =~= before.push(row_view(row)));
                    },
                }
            },
        }
        k += 1;
    }
    assert(cv.take(k as int) =~= cv);
    rows
}

/// `rebase_spec`, computed.
pub fn rebase_exec(path: &[char], dir: &[char], mr: &[char], br: &[char]) -> (r: Option<Vec<char>>)
    ensures
        r matches Some(v) ==> rebase_spec(path@, dir@, mr@, br@) == Some(v@),
        r is None ==> rebase_spec(path@, dir@, mr@, br@) is None,
{
    let a = normalize_path(join_paths(dir, path).as_slice());
    match strip_prefix_path(a.as_slice(), mr) {
        Some(r) => Some(r),
        None => strip_prefix_path(a.as_slice(), br),
    }
}

fn declaring_dir_exec(cmds: &Vec<BuildCommand>, br: &[char], src: &[char], name: &[char]) -> (r: Vec<char>)
    ensures
        r@ == declaring_dir(
            GraphInputs {
                cmds: commands_view(cmds@),
                scopes: seq![],
                build_root: br@,
                source_dir: src@,
                deliverable_root: seq![],
            },
            name@,
        ),
{
    match built_index_exec(cmds, basename(name).as_slice()) {
        Some(k) => match strip_prefix_path(chars(&cmds[k].dir).as_slice(), br) {
            Some(rel) => join_paths(src, rel.as_slice()),
            None => subvec(src, 0, src.len()),
        },
        None => subvec(src, 0, src.len()),
    }
}

fn object_sources_exec(objs: &Vec<String>, rows: &Vec<ObjectRow>) -> (r: Vec<Vec<char>>)
    ensures
        views(r@) == object_sources(strs(objs@), rows_view(rows@)),
{
    let ghost ov = strs(objs@);
    let mut r: Vec<Vec<char>> = Vec::new();
    let mut i: usize = 0;
    while i < objs.len()
        invariant
            i <= objs@.len(),
            ov == strs(objs@),
            views(r@) == object_sources(ov.take(i as int), rows_view(rows@)),
        decreases objs.len() - i,
    {
        proof {
            assert(ov.take(i + 1).drop_last() =~= ov.take(i as int));
            assert(ov.take(i + 1).last() == objs@[i as int]@);
        }
        let ghost before = views(r@);
        match object_index_exec(rows, chars(&objs[i]).as_slice()) {
            Some(k) => {
                let a = normalize_path(join_paths(chars(&rows[k].dir).as_slice(), chars(&rows[k].src).as_slice()).as_slice());
                assert(rows_view(rows@)[k as int] == row_view(rows@[k as int]));
                r.push(a);
                assert(views(r@) =~= before.push(a@));
            },
            None => {
                assert(before =~= before + Seq::<Seq<char>>::empty());
            },
        }
        i += 1;
    }
    assert(ov.take(i as int) =~= ov);
    r
}

fn rebased_all_exec(ps: &Vec<Vec<char>>, dir: &[char], mr: &[char], br: &[char]) -> (r: Vec<String>)
    ensures
        strs(r@) == rebased_all(views(ps@), dir@, mr@, br@),
{
    let ghost pv = views(ps@);
    let mut r: Vec<String> = Vec::new();
    let mut i: usize = 0;
    while i < ps.len()
        invariant
            i <= ps@.len(),
            pv == views(ps@),
            strs(r@) == rebased_all(pv.take(i as int), dir@, mr@, br@),
        decreases ps.len() - i,
    {
        proof {
            assert(pv.take(i + 1).drop_last() =~= pv.take(i as int));
            assert(pv.take(i + 1).last() == ps@[i as int]@);
        }
        let ghost before = strs(r@);
        match rebase_exec(ps[i].as_slice(), dir, mr, br) {
            Some(v) => {
                r.push(string_of(v.as_slice()));
                assert(strs(r@) =~= before.push(v@));
            },
            None => {
                assert(before =~= before + Seq::<Seq<char>>::empty());
            },
        }
        i += 1;
    }
    assert(pv.take(i as int) =~= pv);
    r
}

fn escaped_all_exec(ps: &Vec<Vec<char>>, dir: &[char], mr: &[char], br: &[char], deliv: &[char]) -> (r: Vec<String>)
    ensures
        strs(r@) == escaped_all(views(ps@), dir@, mr@, br@, deliv@),
{
    let ghost pv = views(ps@);
    let mut r: Vec<String> = Vec::new();
    let mut i: usize = 0;
    while i < ps.len()
        invariant
            i <= ps@.len(),
            pv == views(ps@),
            strs(r@) == escaped_all(pv.take(i as int), dir@, mr@, br@, deliv@),
        decreases ps.len() - i,
    {
        proof {
            assert(pv.take(i + 1).drop_last() =~= pv.take(i as int));
            assert(pv.take(i + 1).last() == ps@[i as int]@);
        }
        let ghost before = strs(r@);
        match rebase_exec(ps[i].as_slice(), dir, mr, br) {
            Some(_) => {
                assert(before =~= before + Seq::<Seq<char>>::empty());
            },
            None => {
                let a = normalize_path(join_paths(dir, ps[i].as_slice()).as_slice());
                let shown = crate::paths::anchor_for_display(a.as_slice(), br, deliv);
                r.push(string_of(shown.as_slice()));
                assert(strs(r@) =~= before.push(shown@));
            },
        }
        i += 1;
    }
    assert(pv.take(i as int) =~= pv);
    r
}

fn inc_contrib_exec(incs: &Vec<String>, dir: &[char], mr: &[char], br: &[char], out: &mut Vec<String>) -> (root: bool)
    ensures
        strs(final(out)@) == strs(old(out)@) + inc_contrib(strs(incs@), dir@, mr@, br@).0,
        root == inc_contrib(strs(incs@), dir@, mr@, br@).1,
{
    let ghost start = strs(out@);
    let ghost iv = strs(incs@);
    let mut root = false;
    let mut i: usize = 0;
    while i < incs.len()
        invariant
            i <= incs@.len(),
            iv == strs(incs@),
            strs(out@) == start + inc_contrib(iv.take(i as int), dir@, mr@, br@).0,
            root == inc_contrib(iv.take(i as int), dir@, mr@, br@).1,
        decreases incs.len() - i,
    {
        proof {
            assert(iv.take(i + 1).drop_last() =~= iv.take(i as int));
            assert(iv.take(i + 1).last() == incs@[i as int]@);
        }
        let ghost before = strs(out@);
        match rebase_exec(chars(&incs[i]).as_slice(), dir, mr, br) {
            Some(r) => {
                if r.len() == 0 {
                    root = true;
                } else {
                    out.push(string_of(r.as_slice()));
                    assert(strs(out@) =~= before.push(r@));
                }
            },
            None => {},
        }
        i += 1;
    }
    assert(iv.take(i as int) =~= iv);
    root
}

fn flag_acc_exec(rows: &Vec<ObjectRow>, sources: &Vec<String>, mr: &[char], br: &[char]) -> (r: (
    Vec<String>,
    Vec<String>,
    bool,
))
    ensures
        (strs(r.0@), strs(r.1@), r.2) == flag_acc(rows_view(rows@), strs(sources@), mr@, br@),
{
    let ghost rv = rows_view(rows@);
    let mut incs: Vec<String> = Vec::new();
    let mut defs: Vec<String> = Vec::new();
    let mut root = false;
    let mut i: usize = 0;
    assert(strs(incs@) =~= Seq::<Seq<char>>::empty());
    assert(strs(defs@) =~= Seq::<Seq<char>>::empty());
    while i < rows.len()
        invariant
            i <= rows@.len(),
            rv == rows_view(rows@),
            (strs(incs@), strs(defs@), root) == flag_acc(rv.take(i as int), strs(sources@), mr@, br@),
        decreases rows.len() - i,
    {
        proof {
            assert(rv.take(i + 1).drop_last() =~= rv.take(i as int));
            assert(rv.take(i + 1).last() == row_view(rows@[i as int]));
        }
        let row = &rows[i];
        match rebase_exec(chars(&row.src).as_slice(), chars(&row.dir).as_slice(), mr, br) {
            Some(s) => {
                let ss = string_of(s.as_slice());
                if crate::text::contains_string(sources, &ss) {
                    let r2 = inc_contrib_exec(&row.incs, chars(&row.dir).as_slice(), mr, br, &mut incs);
                    let ghost d0 = strs(defs@);
                    let mut q: usize = 0;
                    while q < row.defs.len()
                        invariant
                            q <= row.defs@.len(),
                            strs(defs@) == d0 + strs(row.defs@).take(q as int),
                        decreases row.defs.len() - q,
                    {
                        let ghost before = strs(defs@);
                        defs.push(row.defs[q].clone());
                        assert(strs(defs@) =~= before.push(row.defs@[q as int]@));
                        q += 1;
                        assert(strs(defs@) =~= d0 + strs(row.defs@).take(q as int));
                    }
                    assert(strs(row.defs@).take(q as int) =~= strs(row.defs@));
                    root = root || r2;
                }
            },
            None => {},
        }
        i += 1;
    }
    assert(rv.take(i as int) =~= rv);
    (incs, defs, root)
}

fn decl_by_base_exec(ds: &Vec<DeclaredTarget>, b: &[char]) -> (r: Option<usize>)
    ensures
        r matches Some(i) ==> i < ds@.len() && decl_by_base(decls_view(ds@), b@) == Some(i as int),
        r is None ==> decl_by_base(decls_view(ds@), b@) is None,
{
    let ghost dv = decls_view(ds@);
    let mut k: usize = 0;
    while k < ds.len()
        invariant
            k <= ds@.len(),
            dv == decls_view(ds@),
            decl_by_base(dv.take(k as int), b@) is None,
        decreases ds.len() - k,
    {
        assert(dv.take(k + 1).drop_last() =~= dv.take(k as int));
        assert(dv.take(k + 1).last() == decl_view(ds@[k as int]));
        if chars_eq(basename(chars(&ds[k].name).as_slice()).as_slice(), b) {
            proof {
                lemma_decl_by_base_prefix(dv, b@, k as int + 1, k as int);
            }
            return Some(k);
        }
        k += 1;
    }
    assert(dv.take(k as int) =~= dv);
    None
}

proof fn lemma_decl_by_base_prefix(dv: Seq<DeclView>, b: Seq<char>, m: int, i: int)
    requires
        0 <= i < m <= dv.len(),
        decl_by_base(dv.take(m), b) == Some(i),
    ensures
        decl_by_base(dv, b) == Some(i),
    decreases dv.len() - m,
{
    if m < dv.len() {
        assert(dv.take(m + 1).drop_last() =~= dv.take(m));
        lemma_decl_by_base_prefix(dv, b, m + 1, i);
    } else {
        assert(dv.take(m) =~= dv);
    }
}

fn link_run_exec(
    args: &Vec<String>,
    ds: &Vec<DeclaredTarget>,
    deps: &crate::dependencies::Dependencies,
    dirs: &Vec<String>,
    link_dir: &[char],
    self_name: &[char],
) -> (r: (Vec<String>, Vec<crate::model::ExternalDependency>, Vec<String>))
    requires
        deps.wf(),
    ensures
        (strs(r.0@), r.1@.map_values(|e: crate::model::ExternalDependency| crate::dependencies::external_view(e)), strs(r.2@))
            == link_run(strs(args@), decls_view(ds@), *deps, strs(dirs@), link_dir@, self_name@),
{
    let ghost av = strs(args@);
    let mut dl: Vec<String> = Vec::new();
    let mut ex: Vec<crate::model::ExternalDependency> = Vec::new();
    let mut un: Vec<String> = Vec::new();
    let mut i: usize = 0;
    assert(strs(dl@) =~= Seq::<Seq<char>>::empty());
    assert(strs(un@) =~= Seq::<Seq<char>>::empty());
    assert(ex@.map_values(|e: crate::model::ExternalDependency| crate::dependencies::external_view(e)) =~= Seq::<ExtView>::empty());
    while i < args.len()
        invariant
            i <= args@.len(),
            av == strs(args@),
            deps.wf(),
            (strs(dl@), ex@.map_values(|e: crate::model::ExternalDependency| crate::dependencies::external_view(e)), strs(un@))
                == link_run(av.take(i as int), decls_view(ds@), *deps, strs(dirs@), link_dir@, self_name@),
        decreases args.len() - i,
    {
        proof {
            assert(av.take(i + 1).drop_last() =~= av.take(i as int));
            assert(av.take(i + 1).last() == args@[i as int]@);
        }
        let ghost d0 = strs(dl@);
        let ghost e0 = ex@.map_values(|e: crate::model::ExternalDependency| crate::dependencies::external_view(e));
        let ghost u0 = strs(un@);
        let input = chars(&args[i]);
        let lib = match strip_prefix_of(input.as_slice(), chars_of("-l").as_slice()) {
            Some(n) => if n.len() > 0 {
                Some(n)
            } else {
                None
            },
            None => None,
        };
        match lib {
            Some(n) => {
                match deps.resolve_name(string_of(n.as_slice()).as_str(), dirs.as_slice()) {
                    Some(e) => {
                        ex.push(e);
                        assert(ex@.map_values(|e: crate::model::ExternalDependency| crate::dependencies::external_view(e)) =~= e0.push(
                            crate::dependencies::external_view(e),
                        ));
                    },
                    None => {
                        if !is_toolchain_library(n.as_slice()) {
                            un.push(args[i].clone());
                            assert(strs(un@) =~= u0.push(input@));
                        }
                    },
                }
            },
            None => {
                if is_library(input.as_slice()) {
                    let full = join_paths(link_dir, input.as_slice());
                    match deps.resolve_path(string_of(full.as_slice()).as_str()) {
                        Some(e) => {
                            ex.push(e);
                            assert(ex@.map_values(|e: crate::model::ExternalDependency| crate::dependencies::external_view(e)) =~= e0.push(
                                crate::dependencies::external_view(e),
                            ));
                        },
                        None => {
                            match decl_by_base_exec(ds, basename(input.as_slice()).as_slice()) {
                                Some(j) => {
                                    assert(decls_view(ds@)[j as int] == decl_view(ds@[j as int]));
                                    if !chars_eq(chars(&ds[j].name).as_slice(), self_name) {
                                        let l = crate::autotools::target_label(ds[j].name.as_str());
                                        dl.push(l);
                                        assert(strs(dl@) =~= d0.push(l@));
                                    }
                                },
                                None => {
                                    un.push(args[i].clone());
                                    assert(strs(un@) =~= u0.push(input@));
                                },
                            }
                        },
                    }
                }
            },
        }
        i += 1;
    }
    assert(av.take(i as int) =~= av);
    (dl, ex, un)
}

proof fn lemma_insert_ext_at(r: Seq<ExtView>, x: ExtView, k: int)
    requires
        0 <= k <= r.len(),
        forall|j: int| 0 <= j < k ==> !crate::autotools::pair_lt((x.0, x.1), (#[trigger] r[j].0, r[j].1)),
        k == r.len() || crate::autotools::pair_lt((x.0, x.1), (r[k].0, r[k].1)),
    ensures
        insert_ext(r, x) == r.take(k) + seq![x] + r.skip(k),
    decreases k,
{
    if k == 0 {
        assert(r.take(0) + seq![x] + r.skip(0) =~= seq![x] + r);
    } else {
        let t = r.drop_first();
        assert forall|j: int| 0 <= j < k - 1 implies !crate::autotools::pair_lt((x.0, x.1), (#[trigger] t[j].0, t[j].1)) by {
            assert(t[j] == r[j + 1]);
        }
        lemma_insert_ext_at(t, x, k - 1);
        assert(seq![r[0]] + (t.take(k - 1) + seq![x] + t.skip(k - 1)) =~= r.take(k) + seq![x] + r.skip(k));
    }
}

fn ext_before(x: &crate::model::ExternalDependency, y: &crate::model::ExternalDependency) -> (r: bool)
    ensures
        r == crate::autotools::pair_lt((x.module@, x.target@), (y.module@, y.target@)),
{
    let xm = chars(&x.module);
    let ym = chars(&y.module);
    crate::text::lex_less(xm.as_slice(), ym.as_slice()) || (chars_eq(xm.as_slice(), ym.as_slice())
        && crate::text::lex_less(chars(&x.target).as_slice(), chars(&y.target).as_slice()))
}

fn sort_ext_exec(v: &Vec<crate::model::ExternalDependency>) -> (r: Vec<crate::model::ExternalDependency>)
    ensures
        r@.map_values(|e: crate::model::ExternalDependency| crate::dependencies::external_view(e)) == sort_ext(
            v@.map_values(|e: crate::model::ExternalDependency| crate::dependencies::external_view(e)),
        ),
{
    let ghost vv = v@.map_values(|e: crate::model::ExternalDependency| crate::dependencies::external_view(e));
    let mut r: Vec<crate::model::ExternalDependency> = Vec::new();
    let mut i: usize = 0;
    while i < v.len()
        invariant
            i <= v@.len(),
            vv == v@.map_values(|e: crate::model::ExternalDependency| crate::dependencies::external_view(e)),
            r@.map_values(|e: crate::model::ExternalDependency| crate::dependencies::external_view(e)) == sort_ext(vv.take(i as int)),
        decreases v.len() - i,
    {
        proof {
            assert(vv.take(i + 1).drop_last() =~= vv.take(i as int));
            assert(vv.take(i + 1).last() == crate::dependencies::external_view(v@[i as int]));
        }
        let x = v[i].copied();
        let ghost rv = r@.map_values(|e: crate::model::ExternalDependency| crate::dependencies::external_view(e));
        let mut k: usize = 0;
        while k < r.len() && !ext_before(&x, &r[k])
            invariant
                k <= r@.len(),
                rv == r@.map_values(|e: crate::model::ExternalDependency| crate::dependencies::external_view(e)),
                forall|j: int| 0 <= j < k ==> !crate::autotools::pair_lt((x.module@, x.target@), (#[trigger] rv[j].0, rv[j].1)),
            decreases r.len() - k,
        {
            k += 1;
        }
        proof {
            lemma_insert_ext_at(rv, crate::dependencies::external_view(x), k as int);
        }
        r.insert(k, x);
        assert(r@.map_values(|e: crate::model::ExternalDependency| crate::dependencies::external_view(e)) =~= rv.take(k as int)
            + seq![crate::dependencies::external_view(x)] + rv.skip(k as int));
        i += 1;
    }
    assert(vv.take(i as int) =~= vv);
    r
}

fn dedup_ext_exec(v: &Vec<crate::model::ExternalDependency>) -> (r: Vec<crate::model::ExternalDependency>)
    ensures
        r@.map_values(|e: crate::model::ExternalDependency| crate::dependencies::external_view(e)) == dedup_adj(
            v@.map_values(|e: crate::model::ExternalDependency| crate::dependencies::external_view(e)),
        ),
{
    let ghost vv = v@.map_values(|e: crate::model::ExternalDependency| crate::dependencies::external_view(e));
    let mut r: Vec<crate::model::ExternalDependency> = Vec::new();
    let mut i: usize = 0;
    while i < v.len()
        invariant
            i <= v@.len(),
            vv == v@.map_values(|e: crate::model::ExternalDependency| crate::dependencies::external_view(e)),
            r@.map_values(|e: crate::model::ExternalDependency| crate::dependencies::external_view(e)) == dedup_adj(vv.take(i as int)),
        decreases v.len() - i,
    {
        proof {
            assert(vv.take(i + 1).drop_last() =~= vv.take(i as int));
            assert(vv.take(i + 1).last() == vv[i as int]);
            if i >= 1 {
                assert(vv.take(i + 1)[i - 1] == vv[i - 1]);
            }
        }
        let ghost before = r@.map_values(|e: crate::model::ExternalDependency| crate::dependencies::external_view(e));
        let same = i >= 1 && chars_eq(chars(&v[i - 1].module).as_slice(), chars(&v[i].module).as_slice())
            && chars_eq(chars(&v[i - 1].target).as_slice(), chars(&v[i].target).as_slice())
            && v[i - 1].shared == v[i].shared;
        if !same {
            let x = v[i].copied();
            r.push(x);
            assert(r@.map_values(|e: crate::model::ExternalDependency| crate::dependencies::external_view(e)) =~= before.push(
                crate::dependencies::external_view(x),
            ));
        }
        i += 1;
    }
    assert(vv.take(i as int) =~= vv);
    r
}

fn dlname_of(text: &String) -> (r: Option<Vec<char>>)
    ensures
        r matches Some(n) ==> dlname_in(crate::text::lines(text@)) == Some(n@),
        r is None ==> dlname_in(crate::text::lines(text@)) is None,
{
    let t = chars(text);
    let ls = crate::text::lines_of(t.as_slice());
    let ghost lv = views(ls@);
    assert(lv =~= crate::text::lines(text@));
    let key = chars_of("dlname=");
    let q: [char; 1] = ['\''];
    assert(q@ =~= seq!['\'']);
    let mut k: usize = 0;
    assert(lv.skip(0) =~= lv);
    while k < ls.len()
        invariant
            k <= ls@.len(),
            lv == views(ls@),
            lv == crate::text::lines(text@),
            key@ == "dlname="@,
            q@ == seq!['\''],
            dlname_in(lv) == dlname_in(lv.skip(k as int)),
        decreases ls.len() - k,
    {
        assert(lv.skip(k as int)[0] == ls@[k as int]@);
        assert(lv.skip(k as int).drop_first() =~= lv.skip(k + 1));
        match strip_prefix_of(ls[k].as_slice(), key.as_slice()) {
            Some(v) => {
                let a = crate::text::trim_start_set(v.as_slice(), &q);
                let r = crate::text::trim_end_set(a.as_slice(), &q);
                assert(dlname_in(lv.skip(k as int)) == Some(r@));
                return Some(r);
            },
            None => {},
        }
        k += 1;
    }
    None
}

/// The SONAME a libtool `.la` declares (see `libtool_dlname_spec`);
/// `la_texts` holds the text of every `.la` the build wrote, by path.
pub fn libtool_dlname(la: &[char], la_texts: &Vec<(String, String)>) -> (r: Option<String>)
    ensures
        crate::model::opt_view(r) == libtool_dlname_spec(la@, pairs(la_texts@)),
{
    match crate::paths::extension_of(la) {
        Some(e) => {
            if !chars_eq(e.as_slice(), chars_of("la").as_slice()) {
                return None;
            }
        },
        None => return None,
    }
    let ghost tv = pairs(la_texts@);
    let mut k: usize = 0;
    while k < la_texts.len()
        invariant
            k <= la_texts@.len(),
            tv == pairs(la_texts@),
            crate::paths::extension(la@) == Some("la"@),
            la_text_index(tv.take(k as int), la@) is None,
        decreases la_texts.len() - k,
    {
        assert(tv.take(k + 1).drop_last() =~= tv.take(k as int));
        assert(tv.take(k + 1).last() == tv[k as int]);
        if crate::autotools::same_path_pub(chars(&la_texts[k].0).as_slice(), la) {
            proof {
                lemma_la_index_prefix(tv, la@, k as int + 1, k as int);
                assert(tv[k as int].1 == la_texts@[k as int].1@);
            }
            return match dlname_of(&la_texts[k].1) {
                Some(n) => if n.len() > 0 {
                    Some(string_of(n.as_slice()))
                } else {
                    None
                },
                None => None,
            };
        }
        k += 1;
    }
    assert(tv.take(k as int) =~= tv);
    None
}

proof fn lemma_la_index_prefix(tv: Seq<(Seq<char>, Seq<char>)>, la: Seq<char>, m: int, i: int)
    requires
        0 <= i < m <= tv.len(),
        la_text_index(tv.take(m), la) == Some(i),
    ensures
        la_text_index(tv, la) == Some(i),
    decreases tv.len() - m,
{
    if m < tv.len() {
        assert(tv.take(m + 1).drop_last() =~= tv.take(m));
        lemma_la_index_prefix(tv, la, m + 1, i);
    } else {
        assert(tv.take(m) =~= tv);
    }
}

/// The inputs of a graph, as plain values.
pub open spec fn graph_inputs(
    cmds: Seq<BuildCommand>,
    db: VariableDatabase,
    source_dir: Seq<char>,
    deliverable_root: Seq<char>,
) -> GraphInputs {
    GraphInputs {
        cmds: commands_view(cmds),
        scopes: db.scopes_view(),
        build_root: db.root_view(),
        source_dir,
        deliverable_root,
    }
}

fn raw_sources_exec(db: &VariableDatabase, d: &DeclaredTarget) -> (r: Vec<char>)
    ensures
        forall|g: GraphInputs| g.scopes == db.scopes_view() ==> #[trigger] raw_sources(g, decl_view(*d)) == r@,
{
    let mut key = crate::autotools::canonical_name(d.name.as_str());
    crate::text::push_str(&mut key, "_SOURCES");
    match db.scope(d.directory.as_str()) {
        Some(vars) => match crate::configure_file::lookup_value(vars, key.as_str()) {
            Some(v) => chars(&v),
            None => Vec::new(),
        },
        None => Vec::new(),
    }
}

fn linked_sources_exec(cmds: &Vec<BuildCommand>, rows: &Vec<ObjectRow>, name: &[char]) -> (r: Vec<Vec<char>>)
    requires
        rows_view(rows@) == object_table(commands_view(cmds@)),
    ensures
        views(r@) == match built_index(commands_view(cmds@), base_name(name@)) {
            Some(k) => object_sources(link_inputs_spec(commands_view(cmds@)[k].1), object_table(commands_view(cmds@))),
            None => seq![],
        },
{
    match built_index_exec(cmds, basename(name).as_slice()) {
        Some(k) => {
            let objs = link_inputs(&cmds[k].args);
            object_sources_exec(&objs, rows)
        },
        None => {
            let r: Vec<Vec<char>> = Vec::new();
            assert(views(r@) =~= Seq::<Seq<char>>::empty());
            r
        },
    }
}

fn survey_exec(
    cmds: &Vec<BuildCommand>,
    db: &VariableDatabase,
    src: &[char],
    deliv: &[char],
    rows: &Vec<ObjectRow>,
    d: &DeclaredTarget,
) -> (r: Vec<Vec<char>>)
    requires
        rows_view(rows@) == object_table(commands_view(cmds@)),
    ensures
        views(r@) == declared_sources_survey(graph_inputs(cmds@, *db, src@, deliv@), decl_view(*d)),
{
    let ghost g = graph_inputs(cmds@, *db, src@, deliv@);
    let raw = raw_sources_exec(db, d);
    assert(raw_sources(g, decl_view(*d)) == raw@);
    if contains_str(raw.as_slice(), chars_of("$(").as_slice()) {
        linked_sources_exec(cmds, rows, chars(&d.name).as_slice())
    } else {
        split_whitespace(raw.as_slice())
    }
}

fn decl_sources_exec(
    cmds: &Vec<BuildCommand>,
    db: &VariableDatabase,
    src: &[char],
    deliv: &[char],
    rows: &Vec<ObjectRow>,
    d: &DeclaredTarget,
    dir: &[char],
) -> (r: Vec<Vec<char>>)
    requires
        rows_view(rows@) == object_table(commands_view(cmds@)),
        dir@ == declaring_dir(graph_inputs(cmds@, *db, src@, deliv@), d.name@),
    ensures
        views(r@) == decl_sources(graph_inputs(cmds@, *db, src@, deliv@), decl_view(*d)),
{
    let ghost g = graph_inputs(cmds@, *db, src@, deliv@);
    let raw = raw_sources_exec(db, d);
    assert(raw_sources(g, decl_view(*d)) == raw@);
    if contains_str(raw.as_slice(), chars_of("$(").as_slice()) {
        let abs = linked_sources_exec(cmds, rows, chars(&d.name).as_slice());
        let ghost av = views(abs@);
        let mut r: Vec<Vec<char>> = Vec::new();
        let mut i: usize = 0;
        while i < abs.len()
            invariant
                i <= abs@.len(),
                av == views(abs@),
                views(r@) =~= av.take(i as int).map_values(|a: Seq<char>| path_diff(a, dir@)),
            decreases abs.len() - i,
        {
            let ghost before = views(r@);
            r.push(pathdiff(abs[i].as_slice(), dir));
            assert(views(r@) =~= before.push(path_diff(av[i as int], dir@)));
            assert(av.take(i + 1).map_values(|a: Seq<char>| path_diff(a, dir@)) =~= av.take(i as int).map_values(
                |a: Seq<char>| path_diff(a, dir@),
            ).push(path_diff(av[i as int], dir@)));
            i += 1;
        }
        assert(av.take(i as int) =~= av);
        r
    } else {
        split_whitespace(raw.as_slice())
    }
}

fn compiled_exec(v: &Vec<Vec<char>>) -> (r: Vec<Vec<char>>)
    ensures
        views(r@) == compiled_of(views(v@)),
{
    let ghost vv = views(v@);
    let mut r: Vec<Vec<char>> = Vec::new();
    let mut i: usize = 0;
    while i < v.len()
        invariant
            i <= v@.len(),
            vv == views(v@),
            views(r@) == compiled_of(vv.take(i as int)),
        decreases v.len() - i,
    {
        assert(vv.take(i + 1).drop_last() =~= vv.take(i as int));
        assert(vv.take(i + 1).last() == v@[i as int]@);
        let ghost before = views(r@);
        let sv = string_of(v[i].as_slice());
        if crate::headers::is_translation_unit(sv.as_str()) {
            r.push(v[i].clone());
            assert(views(r@) =~= before + seq![v@[i as int]@]);
        } else {
            assert(before =~= before + Seq::<Seq<char>>::empty());
        }
        i += 1;
    }
    assert(vv.take(i as int) =~= vv);
    r
}

fn headers_exec(v: &Vec<Vec<char>>) -> (r: Vec<Vec<char>>)
    ensures
        views(r@) == headers_of(views(v@)),
{
    let ghost vv = views(v@);
    let mut r: Vec<Vec<char>> = Vec::new();
    let mut i: usize = 0;
    while i < v.len()
        invariant
            i <= v@.len(),
            vv == views(v@),
            views(r@) == headers_of(vv.take(i as int)),
        decreases v.len() - i,
    {
        assert(vv.take(i + 1).drop_last() =~= vv.take(i as int));
        assert(vv.take(i + 1).last() == v@[i as int]@);
        let ghost before = views(r@);
        let sv = string_of(v[i].as_slice());
        if !crate::headers::is_translation_unit(sv.as_str()) && crate::headers::is_header_file(sv.as_str()) {
            r.push(v[i].clone());
            assert(views(r@) =~= before + seq![v@[i as int]@]);
        } else {
            assert(before =~= before + Seq::<Seq<char>>::empty());
        }
        i += 1;
    }
    assert(vv.take(i as int) =~= vv);
    r
}

fn installed_exec(v: &Vec<Vec<char>>, installed: &Vec<String>) -> (r: Vec<Vec<char>>)
    ensures
        views(r@) == held_in(views(v@), strs(installed@)),
{
    let ghost vv = views(v@);
    let mut r: Vec<Vec<char>> = Vec::new();
    let mut i: usize = 0;
    while i < v.len()
        invariant
            i <= v@.len(),
            vv == views(v@),
            views(r@) == held_in(vv.take(i as int), strs(installed@)),
        decreases v.len() - i,
    {
        assert(vv.take(i + 1).drop_last() =~= vv.take(i as int));
        assert(vv.take(i + 1).last() == v@[i as int]@);
        let ghost before = views(r@);
        let sv = string_of(v[i].as_slice());
        if crate::text::contains_string(installed, &sv) {
            r.push(v[i].clone());
            assert(views(r@) =~= before + seq![v@[i as int]@]);
        } else {
            assert(before =~= before + Seq::<Seq<char>>::empty());
        }
        i += 1;
    }
    assert(vv.take(i as int) =~= vv);
    r
}

fn search_dirs_exec(args: &Vec<String>, dir: &[char]) -> (r: Vec<String>)
    ensures
        strs(r@) == search_dirs(strs(args@), dir@),
{
    let ls = flag_values_exec(args, "-L");
    let ghost lv = strs(ls@);
    let mut r: Vec<String> = Vec::new();
    let mut i: usize = 0;
    while i < ls.len()
        invariant
            i <= ls@.len(),
            lv == strs(ls@),
            strs(r@) =~= lv.take(i as int).map_values(|d: Seq<char>| join_path(dir@, d)),
        decreases ls.len() - i,
    {
        let ghost before = strs(r@);
        r.push(string_of(join_paths(dir, chars(&ls[i]).as_slice()).as_slice()));
        assert(strs(r@) =~= before.push(join_path(dir@, lv[i as int])));
        assert(lv.take(i + 1).map_values(|d: Seq<char>| join_path(dir@, d)) =~= lv.take(i as int).map_values(
            |d: Seq<char>| join_path(dir@, d),
        ).push(join_path(dir@, lv[i as int])));
        i += 1;
    }
    assert(lv.take(i as int) =~= lv);
    r
}

/// Builds the target for a built declaration `d` in module root `mr`,
/// with the sources that escaped the module and the libraries nothing
/// converted builds.
fn build_target(
    cmds: &Vec<BuildCommand>,
    db: &VariableDatabase,
    src: &[char],
    deliv: &[char],
    rows: &Vec<ObjectRow>,
    decls: &Vec<DeclaredTarget>,
    installed: &Vec<String>,
    deps: &crate::dependencies::Dependencies,
    la_texts: &Vec<(String, String)>,
    mr: &[char],
    d: &DeclaredTarget,
) -> (r: (crate::model::Target, Vec<String>, Vec<String>))
    requires
        deps.wf(),
        rows_view(rows@) == object_table(commands_view(cmds@)),
        decls_view(decls@) == graph_decls(graph_inputs(cmds@, *db, src@, deliv@)),
        strs(installed@) == installed_raw(graph_inputs(cmds@, *db, src@, deliv@)),
        built_index(commands_view(cmds@), base_name(d.name@)) is Some,
    ensures
        matches_plan(r.0, plan_of(graph_inputs(cmds@, *db, src@, deliv@), *deps, pairs(la_texts@), decl_view(*d), mr@)),
        strs(r.1@) == plan_of(graph_inputs(cmds@, *db, src@, deliv@), *deps, pairs(la_texts@), decl_view(*d), mr@).escaped,
        strs(r.2@) == plan_of(graph_inputs(cmds@, *db, src@, deliv@), *deps, pairs(la_texts@), decl_view(*d), mr@).unresolved,
{
    let ghost g = graph_inputs(cmds@, *db, src@, deliv@);
    let ghost p = plan_of(g, *deps, pairs(la_texts@), decl_view(*d), mr@);
    let name = chars(&d.name);
    let br = chars(db.build_root());
    let dir = declaring_dir_exec(cmds, br.as_slice(), src, name.as_slice());
    let all = decl_sources_exec(cmds, db, src, deliv, rows, d, dir.as_slice());
    let compiled = compiled_exec(&all);
    let headers = headers_exec(&all);
    let unsorted = rebased_all_exec(&compiled, dir.as_slice(), mr, br.as_slice());
    let fl = flag_acc_exec(rows, &unsorted, mr, br.as_slice());
    let k = match built_index_exec(cmds, basename(name.as_slice()).as_slice()) {
        Some(k) => k,
        None => {
            proof {
                assert(false);
            }
            0
        },
    };
    let link = &cmds[k];
    assert(command_view(*link) == g.cmds[k as int]);
    let ldir = chars(&link.dir);
    let artifact: Vec<char> = match produced_artifact(link) {
        Some(out) => match strip_prefix_path(
            normalize_path(join_paths(ldir.as_slice(), chars(&out).as_slice()).as_slice()).as_slice(),
            br.as_slice(),
        ) {
            Some(rel) => rel,
            None => subvec(name.as_slice(), 0, name.len()),
        },
        None => subvec(name.as_slice(), 0, name.len()),
    };
    assert(artifact@ == p.artifact);
    let dirs = search_dirs_exec(&link.args, ldir.as_slice());
    let lk = link_run_exec(&link.args, decls, deps, &dirs, ldir.as_slice(), name.as_slice());
    let rel_dir: Vec<char> = match strip_prefix_path(dir.as_slice(), mr) {
        Some(r) => r,
        None => Vec::new(),
    };
    let la = join_paths(join_paths(br.as_slice(), rel_dir.as_slice()).as_slice(), name.as_slice());
    let soname = libtool_dlname(la.as_slice(), la_texts);
    let public = installed_exec(&headers, installed);
    let public_headers = rebased_all_exec(&public, dir.as_slice(), mr, br.as_slice());
    let escaped_raw = escaped_all_exec(&compiled, dir.as_slice(), mr, br.as_slice(), deliv);
    let escaped = crate::text::sort_dedup_strings(&escaped_raw);
    let unresolved = crate::text::sort_dedup_strings(&lk.2);
    let external = dedup_ext_exec(&sort_ext_exec(&lk.1));
    let mut artifacts: Vec<String> = Vec::new();
    artifacts.push(string_of(artifact.as_slice()));
    assert(strs(artifacts@) =~= seq![p.artifact]);
    let kind = if crate::text::str_eq(d.primary.as_str(), "PROGRAMS") {
        crate::model::TargetKind::Executable
    } else {
        crate::model::TargetKind::Library
    };
    let is_shared = crate::text::str_eq(d.primary.as_str(), "LTLIBRARIES") && !crate::text::str_eq(
        d.destination.as_str(),
        "noinst",
    );
    let t = crate::model::Target {
        name: crate::autotools::target_label(d.name.as_str()),
        kind,
        sources: crate::text::sort_dedup_strings(&unsorted),
        public_headers,
        dependencies: crate::text::sort_dedup_strings(&lk.0),
        external_dependencies: external,
        includes: crate::text::sort_dedup_strings(&fl.0),
        local_defines: crate::text::sort_dedup_strings(&fl.1),
        artifacts,
        textual_sources: Vec::new(),
        is_shared,
        soname,
        strip_include_prefix: None,
        needs_root_include: fl.2,
    };
    assert(strs(t.textual_sources@) =~= Seq::<Seq<char>>::empty());
    (t, escaped, unresolved)
}

fn shipped_of_exec(ps: &Vec<Vec<char>>, dir: &[char], deliv: &[char], out: &mut Vec<Vec<char>>)
    ensures
        views(final(out)@) == views(old(out)@) + shipped_of(views(ps@), dir@, deliv@),
{
    let ghost start = views(out@);
    let ghost pv = views(ps@);
    let mut i: usize = 0;
    while i < ps.len()
        invariant
            i <= ps@.len(),
            pv == views(ps@),
            views(out@) == start + shipped_of(pv.take(i as int), dir@, deliv@),
        decreases ps.len() - i,
    {
        assert(pv.take(i + 1).drop_last() =~= pv.take(i as int));
        assert(pv.take(i + 1).last() == ps@[i as int]@);
        let ghost before = views(out@);
        let a = normalize_path(join_paths(dir, ps[i].as_slice()).as_slice());
        if crate::paths::starts_with_path(a.as_slice(), deliv) {
            out.push(a);
            assert(views(out@) =~= before + seq![a@]);
        } else {
            assert(before =~= before + Seq::<Seq<char>>::empty());
        }
        assert(start + shipped_of(pv.take(i + 1), dir@, deliv@) =~= start + shipped_of(pv.take(i as int), dir@, deliv@)
            + (shipped_of(pv.take(i + 1), dir@, deliv@).skip(shipped_of(pv.take(i as int), dir@, deliv@).len() as int)));
        i += 1;
    }
    assert(pv.take(i as int) =~= pv);
}

fn push_strings_as_chars(v: &Vec<String>, out: &mut Vec<Vec<char>>)
    ensures
        views(final(out)@) == views(old(out)@) + strs(v@),
{
    let ghost start = views(out@);
    let mut i: usize = 0;
    while i < v.len()
        invariant
            i <= v@.len(),
            views(out@) == start + strs(v@).take(i as int),
        decreases v.len() - i,
    {
        let ghost before = views(out@);
        out.push(chars(&v[i]));
        assert(views(out@) =~= before.push(v@[i as int]@));
        i += 1;
        assert(views(out@) =~= start + strs(v@).take(i as int));
    }
    assert(strs(v@).take(i as int) =~= strs(v@));
}

/// The module root of a graph: see `graph_module_root`.
fn module_root_exec(
    cmds: &Vec<BuildCommand>,
    db: &VariableDatabase,
    src: &[char],
    deliv: &[char],
    rows: &Vec<ObjectRow>,
    decls: &Vec<DeclaredTarget>,
    installed: &Vec<String>,
) -> (r: Vec<char>)
    requires
        rows_view(rows@) == object_table(commands_view(cmds@)),
        decls_view(decls@) == graph_decls(graph_inputs(cmds@, *db, src@, deliv@)),
        strs(installed@) == installed_raw(graph_inputs(cmds@, *db, src@, deliv@)),
    ensures
        r@ == graph_module_root(graph_inputs(cmds@, *db, src@, deliv@)),
{
    let ghost g = graph_inputs(cmds@, *db, src@, deliv@);
    let ghost dv = decls_view(decls@);
    let br = chars(db.build_root());
    let mut shipped: Vec<Vec<char>> = Vec::new();
    let mut i: usize = 0;
    assert(views(shipped@) =~= shipped_all(g, dv.take(0)));
    while i < decls.len()
        invariant
            i <= decls@.len(),
            dv == decls_view(decls@),
            g == graph_inputs(cmds@, *db, src@, deliv@),
            br@ == g.build_root,
            rows_view(rows@) == object_table(commands_view(cmds@)),
            strs(installed@) == installed_raw(g),
            views(shipped@) == shipped_all(g, dv.take(i as int)),
        decreases decls.len() - i,
    {
        assert(dv.take(i + 1).drop_last() =~= dv.take(i as int));
        assert(dv.take(i + 1).last() == decl_view(decls@[i as int]));
        let d = &decls[i];
        let name = chars(&d.name);
        let dir = declaring_dir_exec(cmds, br.as_slice(), src, name.as_slice());
        let mut ps = survey_exec(cmds, db, src, deliv, rows, d);
        let ghost sv = views(ps@);
        push_strings_as_chars(installed, &mut ps);
        let incs: Vec<String> = match built_index_exec(cmds, basename(name.as_slice()).as_slice()) {
            Some(k) => {
                assert(command_view(cmds@[k as int]) == g.cmds[k as int]);
                includes_of(&cmds[k].args)
            },
            None => Vec::new(),
        };
        assert(strs(incs@) == link_includes(g, d.name@));
        push_strings_as_chars(&incs, &mut ps);
        assert(views(ps@) == declared_sources_survey(g, decl_view(*d)) + installed_raw(g) + link_includes(g, d.name@));
        shipped_of_exec(&ps, dir.as_slice(), deliv, &mut shipped);
        i += 1;
    }
    assert(dv.take(i as int) =~= dv);
    crate::paths::common_ancestor_of(src, &shipped)
}

proof fn lemma_insert_plan_at(r: Seq<TargetPlan>, x: TargetPlan, k: int)
    requires
        0 <= k <= r.len(),
        forall|j: int| 0 <= j < k ==> !lex_lt(x.name, (#[trigger] r[j]).name),
        k == r.len() || lex_lt(x.name, r[k].name),
    ensures
        insert_plan(r, x) == r.take(k) + seq![x] + r.skip(k),
    decreases k,
{
    if k == 0 {
        assert(r.take(0) + seq![x] + r.skip(0) =~= seq![x] + r);
    } else {
        let t = r.drop_first();
        assert forall|j: int| 0 <= j < k - 1 implies !lex_lt(x.name, (#[trigger] t[j]).name) by {
            assert(t[j] == r[j + 1]);
        }
        lemma_insert_plan_at(t, x, k - 1);
        assert(seq![r[0]] + (t.take(k - 1) + seq![x] + t.skip(k - 1)) =~= r.take(k) + seq![x] + r.skip(k));
    }
}

proof fn lemma_insert_named_at(r: Seq<NamedList>, x: NamedList, k: int)
    requires
        0 <= k <= r.len(),
        forall|j: int| 0 <= j < k ==> !lex_lt(x.0, (#[trigger] r[j]).0),
        k == r.len() || lex_lt(x.0, r[k].0),
    ensures
        insert_named(r, x) == r.take(k) + seq![x] + r.skip(k),
    decreases k,
{
    if k == 0 {
        assert(r.take(0) + seq![x] + r.skip(0) =~= seq![x] + r);
    } else {
        let t = r.drop_first();
        assert forall|j: int| 0 <= j < k - 1 implies !lex_lt(x.0, (#[trigger] t[j]).0) by {
            assert(t[j] == r[j + 1]);
        }
        lemma_insert_named_at(t, x, k - 1);
        assert(seq![r[0]] + (t.take(k - 1) + seq![x] + t.skip(k - 1)) =~= r.take(k) + seq![x] + r.skip(k));
    }
}

/// Every target matches the plan at its position.
pub open spec fn all_match(ts: Seq<crate::model::Target>, ps: Seq<TargetPlan>) -> bool {
    &&& ts.len() == ps.len()
    &&& forall|j: int| 0 <= j < ts.len() ==> matches_plan(#[trigger] ts[j], ps[j])
}

fn insert_target(r: &mut Vec<crate::model::Target>, t: crate::model::Target, Ghost(rv): Ghost<Seq<TargetPlan>>, Ghost(p): Ghost<TargetPlan>)
    requires
        all_match(old(r)@, rv),
        matches_plan(t, p),
    ensures
        all_match(final(r)@, insert_plan(rv, p)),
{
    let mut k: usize = 0;
    while k < r.len() && !crate::text::lex_less(chars(&t.name).as_slice(), chars(&r[k].name).as_slice())
        invariant
            k <= r@.len(),
            all_match(r@, rv),
            matches_plan(t, p),
            forall|j: int| 0 <= j < k ==> !lex_lt(p.name, (#[trigger] rv[j]).name),
        decreases r.len() - k,
    {
        assert(matches_plan(r@[k as int], rv[k as int]));
        k += 1;
    }
    proof {
        if k < rv.len() {
            assert(matches_plan(r@[k as int], rv[k as int]));
        }
        lemma_insert_plan_at(rv, p, k as int);
    }
    let ghost before = r@;
    r.insert(k, t);
    let ghost nv = rv.take(k as int) + seq![p] + rv.skip(k as int);
    assert forall|j: int| 0 <= j < r@.len() implies matches_plan(#[trigger] r@[j], nv[j]) by {
        if j < k {
            assert(r@[j] == before[j]);
            assert(nv[j] == rv[j]);
        } else if j == k {
        } else {
            assert(r@[j] == before[j - 1]);
            assert(nv[j] == rv[j - 1]);
        }
    }
}

pub open spec fn named_view(e: (String, Vec<String>)) -> NamedList {
    (e.0@, strs(e.1@))
}

pub open spec fn nameds_view(s: Seq<(String, Vec<String>)>) -> Seq<NamedList> {
    s.map_values(|e: (String, Vec<String>)| named_view(e))
}

fn insert_named_exec(r: &mut Vec<(String, Vec<String>)>, x: (String, Vec<String>))
    ensures
        nameds_view(final(r)@) == insert_named(nameds_view(old(r)@), named_view(x)),
{
    let ghost rv = nameds_view(r@);
    let mut k: usize = 0;
    while k < r.len() && !crate::text::lex_less(chars(&x.0).as_slice(), chars(&r[k].0).as_slice())
        invariant
            k <= r@.len(),
            rv == nameds_view(r@),
            forall|j: int| 0 <= j < k ==> !lex_lt(x.0@, (#[trigger] rv[j]).0),
        decreases r.len() - k,
    {
        k += 1;
    }
    proof {
        lemma_insert_named_at(rv, named_view(x), k as int);
    }
    let ghost xv = named_view(x);
    r.insert(k, x);
    assert(nameds_view(r@) =~= rv.take(k as int) + seq![xv] + rv.skip(k as int));
}

fn has_target(ts: &Vec<crate::model::Target>, label: &String, Ghost(ps): Ghost<Seq<TargetPlan>>) -> (r: bool)
    requires
        all_match(ts@, ps),
    ensures
        r == plan_names(ps).contains(label@),
{
    let mut k: usize = 0;
    while k < ts.len()
        invariant
            k <= ts@.len(),
            all_match(ts@, ps),
            forall|j: int| 0 <= j < k ==> (#[trigger] ps[j]).name != label@,
        decreases ts.len() - k,
    {
        assert(matches_plan(ts@[k as int], ps[k as int]));
        if chars_eq(chars(&ts[k].name).as_slice(), chars(label).as_slice()) {
            assert(plan_names(ps)[k as int] == label@);
            return true;
        }
        k += 1;
    }
    proof {
        if plan_names(ps).contains(label@) {
            let j = choose|j: int| 0 <= j < plan_names(ps).len() && plan_names(ps)[j] == label@;
            assert(ps[j].name == label@);
        }
    }
    false
}

fn static_names_exec(ts: &Vec<crate::model::Target>, Ghost(ps): Ghost<Seq<TargetPlan>>) -> (r: Vec<String>)
    requires
        all_match(ts@, ps),
    ensures
        strs(r@) == static_names(ps),
{
    let mut r: Vec<String> = Vec::new();
    let mut k: usize = 0;
    while k < ts.len()
        invariant
            k <= ts@.len(),
            all_match(ts@, ps),
            strs(r@) == static_names(ps.take(k as int)),
        decreases ts.len() - k,
    {
        assert(matches_plan(ts@[k as int], ps[k as int]));
        assert(ps.take(k + 1).drop_last() =~= ps.take(k as int));
        assert(ps.take(k + 1).last() == ps[k as int]);
        let ghost before = strs(r@);
        let t = &ts[k];
        if t.kind == crate::model::TargetKind::Library && !t.is_shared {
            r.push(t.name.clone());
            assert(strs(r@) =~= before + seq![ps[k as int].name]);
        } else {
            assert(before =~= before + Seq::<Seq<char>>::empty());
        }
        k += 1;
    }
    assert(ps.take(k as int) =~= ps);
    r
}

fn held_strings(v: &Vec<String>, set: &Vec<String>) -> (r: Vec<String>)
    ensures
        strs(r@) == held_in(strs(v@), strs(set@)),
{
    let ghost vv = strs(v@);
    let mut r: Vec<String> = Vec::new();
    let mut i: usize = 0;
    while i < v.len()
        invariant
            i <= v@.len(),
            vv == strs(v@),
            strs(r@) == held_in(vv.take(i as int), strs(set@)),
        decreases v.len() - i,
    {
        assert(vv.take(i + 1).drop_last() =~= vv.take(i as int));
        assert(vv.take(i + 1).last() == v@[i as int]@);
        let ghost before = strs(r@);
        if crate::text::contains_string(set, &v[i]) {
            r.push(v[i].clone());
            assert(strs(r@) =~= before + seq![v@[i as int]@]);
        } else {
            assert(before =~= before + Seq::<Seq<char>>::empty());
        }
        i += 1;
    }
    assert(vv.take(i as int) =~= vv);
    r
}

fn strings_eq(a: &Vec<String>, b: &Vec<String>) -> (r: bool)
    ensures
        r == (strs(a@) == strs(b@)),
{
    if a.len() != b.len() {
        assert(strs(a@).len() != strs(b@).len());
        return false;
    }
    let mut i: usize = 0;
    while i < a.len()
        invariant
            i <= a@.len(),
            a@.len() == b@.len(),
            forall|j: int| 0 <= j < i ==> (#[trigger] strs(a@)[j]) == strs(b@)[j],
        decreases a.len() - i,
    {
        if !chars_eq(chars(&a[i]).as_slice(), chars(&b[i]).as_slice()) {
            assert(strs(a@)[i as int] != strs(b@)[i as int]);
            return false;
        }
        i += 1;
    }
    assert(strs(a@) =~= strs(b@));
    true
}

fn contains_named(s: &Vec<(String, Vec<String>)>, n: usize, x: &(String, Vec<String>)) -> (r: bool)
    requires
        n <= s@.len(),
    ensures
        r == nameds_view(s@).take(n as int).contains(named_view(*x)),
{
    let ghost sv = nameds_view(s@).take(n as int);
    let mut k: usize = 0;
    while k < n
        invariant
            k <= n <= s@.len(),
            sv == nameds_view(s@).take(n as int),
            forall|j: int| 0 <= j < k ==> (#[trigger] sv[j]) != named_view(*x),
        decreases n - k,
    {
        assert(sv[k as int] == named_view(s@[k as int]));
        if chars_eq(chars(&s[k].0).as_slice(), chars(&x.0).as_slice()) && strings_eq(&s[k].1, &x.1) {
            return true;
        }
        k += 1;
    }
    false
}

fn first_links_exec(s: &Vec<(String, Vec<String>)>) -> (r: Vec<(String, Vec<String>)>)
    ensures
        nameds_view(r@) == first_links(nameds_view(s@)),
{
    let ghost sv = nameds_view(s@);
    let mut r: Vec<(String, Vec<String>)> = Vec::new();
    let mut i: usize = 0;
    while i < s.len()
        invariant
            i <= s@.len(),
            sv == nameds_view(s@),
            nameds_view(r@) == first_links(sv.take(i as int)),
        decreases s.len() - i,
    {
        assert(sv.take(i + 1).drop_last() =~= sv.take(i as int));
        assert(sv.take(i + 1).last() == named_view(s@[i as int]));
        assert(sv.take(i as int) =~= nameds_view(s@).take(i as int));
        let ghost before = nameds_view(r@);
        if !contains_named(s, i, &s[i]) {
            let x = (s[i].0.clone(), crate::text::copy_strings(&s[i].1));
            r.push(x);
            assert(nameds_view(r@) =~= before + seq![named_view(s@[i as int])]);
        } else {
            assert(before =~= before + Seq::<NamedList>::empty());
        }
        i += 1;
    }
    assert(sv.take(i as int) =~= sv);
    r
}

fn all_libraries_exec(s: &Vec<(String, Vec<String>)>) -> (r: Vec<String>)
    ensures
        strs(r@) == all_libraries(nameds_view(s@)),
{
    let ghost sv = nameds_view(s@);
    let mut r: Vec<String> = Vec::new();
    let mut i: usize = 0;
    while i < s.len()
        invariant
            i <= s@.len(),
            sv == nameds_view(s@),
            strs(r@) == all_libraries(sv.take(i as int)),
        decreases s.len() - i,
    {
        assert(sv.take(i + 1).drop_last() =~= sv.take(i as int));
        assert(sv.take(i + 1).last() == named_view(s@[i as int]));
        let ghost start = strs(r@);
        let libs = &s[i].1;
        let mut q: usize = 0;
        while q < libs.len()
            invariant
                q <= libs@.len(),
                strs(r@) == start + strs(libs@).take(q as int),
            decreases libs.len() - q,
        {
            let ghost before = strs(r@);
            r.push(libs[q].clone());
            assert(strs(r@) =~= before.push(libs@[q as int]@));
            q += 1;
            assert(strs(r@) =~= start + strs(libs@).take(q as int));
        }
        assert(strs(libs@).take(q as int) =~= strs(libs@));
        i += 1;
    }
    assert(sv.take(i as int) =~= sv);
    r
}

fn linking_exec(s: &Vec<(String, Vec<String>)>, lib: &String) -> (r: Vec<String>)
    ensures
        strs(r@) == linking(nameds_view(s@), lib@),
{
    let ghost sv = nameds_view(s@);
    let mut r: Vec<String> = Vec::new();
    let mut i: usize = 0;
    while i < s.len()
        invariant
            i <= s@.len(),
            sv == nameds_view(s@),
            strs(r@) == linking(sv.take(i as int), lib@),
        decreases s.len() - i,
    {
        assert(sv.take(i + 1).drop_last() =~= sv.take(i as int));
        assert(sv.take(i + 1).last() == named_view(s@[i as int]));
        let ghost before = strs(r@);
        if crate::text::contains_string(&s[i].1, lib) {
            r.push(s[i].0.clone());
            assert(strs(r@) =~= before + seq![s@[i as int].0@]);
        } else {
            assert(before =~= before + Seq::<Seq<char>>::empty());
        }
        i += 1;
    }
    assert(sv.take(i as int) =~= sv);
    r
}

/// The targets of every built declaration, sorted by name; the sources
/// that escaped the module, sorted by declared name; the libraries nothing
/// converted builds, by target.
fn plan_targets(
    cmds: &Vec<BuildCommand>,
    db: &VariableDatabase,
    src: &[char],
    deliv: &[char],
    rows: &Vec<ObjectRow>,
    decls: &Vec<DeclaredTarget>,
    installed: &Vec<String>,
    deps: &crate::dependencies::Dependencies,
    la_texts: &Vec<(String, String)>,
    mr: &[char],
) -> (r: (Vec<crate::model::Target>, Vec<(String, Vec<String>)>, Vec<(String, Vec<String>)>))
    requires
        deps.wf(),
        rows_view(rows@) == object_table(commands_view(cmds@)),
        decls_view(decls@) == graph_decls(graph_inputs(cmds@, *db, src@, deliv@)),
        strs(installed@) == installed_raw(graph_inputs(cmds@, *db, src@, deliv@)),
    ensures
        all_match(
            r.0@,
            sort_plans(built_plans(graph_inputs(cmds@, *db, src@, deliv@), *deps, pairs(la_texts@), decls_view(decls@), mr@)),
        ),
        nameds_view(r.1@) == sort_named(
            escapes_of(built_plans(graph_inputs(cmds@, *db, src@, deliv@), *deps, pairs(la_texts@), decls_view(decls@), mr@)),
        ),
        nameds_view(r.2@) == links_of(
            built_plans(graph_inputs(cmds@, *db, src@, deliv@), *deps, pairs(la_texts@), decls_view(decls@), mr@),
        ),
{
    let ghost g = graph_inputs(cmds@, *db, src@, deliv@);
    let ghost lt = pairs(la_texts@);
    let ghost dv = decls_view(decls@);
    let mut targets: Vec<crate::model::Target> = Vec::new();
    let mut escapes: Vec<(String, Vec<String>)> = Vec::new();
    let mut links: Vec<(String, Vec<String>)> = Vec::new();
    let mut i: usize = 0;
    assert(nameds_view(escapes@) =~= Seq::<NamedList>::empty());
    assert(nameds_view(links@) =~= Seq::<NamedList>::empty());
    while i < decls.len()
        invariant
            i <= decls@.len(),
            g == graph_inputs(cmds@, *db, src@, deliv@),
            lt == pairs(la_texts@),
            dv == decls_view(decls@),
            deps.wf(),
            rows_view(rows@) == object_table(commands_view(cmds@)),
            dv == graph_decls(g),
            strs(installed@) == installed_raw(g),
            all_match(targets@, sort_plans(built_plans(g, *deps, lt, dv.take(i as int), mr@))),
            nameds_view(escapes@) == sort_named(escapes_of(built_plans(g, *deps, lt, dv.take(i as int), mr@))),
            nameds_view(links@) == links_of(built_plans(g, *deps, lt, dv.take(i as int), mr@)),
        decreases decls.len() - i,
    {
        assert(dv.take(i + 1).drop_last() =~= dv.take(i as int));
        assert(dv.take(i + 1).last() == decl_view(decls@[i as int]));
        let ghost prev = built_plans(g, *deps, lt, dv.take(i as int), mr@);
        let d = &decls[i];
        if built_index_exec(cmds, basename(chars(&d.name).as_slice()).as_slice()).is_some() {
            let ghost p = plan_of(g, *deps, lt, decl_view(*d), mr@);
            assert(built_plans(g, *deps, lt, dv.take(i + 1), mr@) == prev + seq![p]);
            assert(prev + seq![p] =~= prev.push(p));
            assert((prev + seq![p]).drop_last() =~= prev);
            let (t, esc, unr) = build_target(cmds, db, src, deliv, rows, decls, installed, deps, la_texts, mr, d);
            let ghost lv = nameds_view(links@);
            if unr.len() > 0 {
                links.push((t.name.clone(), unr));
                assert(nameds_view(links@) =~= lv + seq![(p.name, p.unresolved)]);
            } else {
                assert(lv =~= lv + Seq::<NamedList>::empty());
            }
            if esc.len() > 0 {
                assert(escapes_of(prev + seq![p]) =~= escapes_of(prev).push((p.declared, p.escaped)));
                assert(escapes_of(prev).push((p.declared, p.escaped)).drop_last() =~= escapes_of(prev));
                insert_named_exec(&mut escapes, (d.name.clone(), esc));
            } else {
                assert(escapes_of(prev + seq![p]) =~= escapes_of(prev));
                assert(escapes_of(prev) =~= escapes_of(prev) + Seq::<NamedList>::empty());
            }
            insert_target(&mut targets, t, Ghost(sort_plans(prev)), Ghost(p));
        } else {
            assert(built_plans(g, *deps, lt, dv.take(i + 1), mr@) =~= prev + Seq::<TargetPlan>::empty());
        }
        i += 1;
    }
    assert(dv.take(i as int) =~= dv);
    (targets, escapes, links)
}

fn plain_test(name: &String, target: String) -> (r: crate::model::Test)
    ensures
        test_view(r) == (name@, target@, name@, Seq::<char>::empty(), None::<Seq<char>>),
{
    let r = crate::model::Test {
        name: name.clone(),
        target,
        command: name.clone(),
        working_directory: String::new(),
        pass_regex: None,
    };
    assert(r.working_directory@ =~= Seq::<char>::empty());
    r
}

/// The `TESTS` entries split into tests of the module's targets and
/// tests no rule can express.
fn split_tests(
    entries: &Vec<crate::autotools::TestEntry>,
    targets: &Vec<crate::model::Target>,
    Ghost(ps): Ghost<Seq<TargetPlan>>,
) -> (r: (Vec<crate::model::Test>, Vec<crate::model::Test>))
    requires
        all_match(targets@, ps),
    ensures
        tests_view(r.0@) == bound_tests(crate::autotools::entries_view(entries@), plan_names(ps)),
        tests_view(r.1@) == unbound_tests(crate::autotools::entries_view(entries@), plan_names(ps)),
{
    let ghost ev = crate::autotools::entries_view(entries@);
    let ghost names = plan_names(ps);
    let mut tests: Vec<crate::model::Test> = Vec::new();
    let mut other: Vec<crate::model::Test> = Vec::new();
    let mut q: usize = 0;
    while q < entries.len()
        invariant
            q <= entries@.len(),
            ev == crate::autotools::entries_view(entries@),
            names == plan_names(ps),
            all_match(targets@, ps),
            tests_view(tests@) == bound_tests(ev.take(q as int), names),
            tests_view(other@) == unbound_tests(ev.take(q as int), names),
        decreases entries.len() - q,
    {
        assert(ev.take(q + 1).drop_last() =~= ev.take(q as int));
        assert(ev.take(q + 1).last() == crate::autotools::entry_view(entries@[q as int]));
        let ghost tb = tests_view(tests@);
        let ghost ob = tests_view(other@);
        match &entries[q] {
            crate::autotools::TestEntry::Binary(n) => {
                let label = crate::autotools::target_label(n.as_str());
                if has_target(targets, &label, Ghost(ps)) {
                    let t = plain_test(n, label);
                    tests.push(t);
                    assert(tests_view(tests@) =~= tb + seq![test_view(t)]);
                    assert(ob =~= ob + Seq::<TestView>::empty());
                } else {
                    let t = plain_test(n, String::new());
                    other.push(t);
                    assert(tests_view(other@) =~= ob + seq![test_view(t)]);
                    assert(tb =~= tb + Seq::<TestView>::empty());
                }
            },
            crate::autotools::TestEntry::Script(n) => {
                let t = plain_test(n, String::new());
                other.push(t);
                assert(tests_view(other@) =~= ob + seq![test_view(t)]);
                assert(tb =~= tb + Seq::<TestView>::empty());
            },
            crate::autotools::TestEntry::Unresolved(n) => {
                let t = plain_test(n, String::new());
                other.push(t);
                assert(tests_view(other@) =~= ob + seq![test_view(t)]);
                assert(tb =~= tb + Seq::<TestView>::empty());
            },
        }
        q += 1;
    }
    assert(ev.take(q as int) =~= ev);
    (tests, other)
}

fn outside_items_exec(escapes: &Vec<(String, Vec<String>)>, items: &mut Vec<crate::needs_attention::NeedsAttention>)
    ensures
        crate::needs_attention::items_view(final(items)@) == crate::needs_attention::items_view(old(items)@)
            + outside_items(nameds_view(escapes@)),
{
    let ghost start = crate::needs_attention::items_view(items@);
    let ghost ev = nameds_view(escapes@);
    let mut j: usize = 0;
    while j < escapes.len()
        invariant
            j <= escapes@.len(),
            ev == nameds_view(escapes@),
            crate::needs_attention::items_view(items@) == start + outside_items(ev.take(j as int)),
        decreases escapes.len() - j,
    {
        assert(ev.take(j + 1).drop_last() =~= ev.take(j as int));
        assert(ev.take(j + 1).last() == named_view(escapes@[j as int]));
        let ghost before = crate::needs_attention::items_view(items@);
        let it = crate::needs_attention::sources_outside_deliverable_needs_attention(
            escapes[j].0.as_str(),
            escapes[j].1.as_slice(),
        );
        items.push(it);
        assert(crate::needs_attention::items_view(items@) =~= before.push(crate::needs_attention::item_view(it)));
        j += 1;
    }
    assert(ev.take(j as int) =~= ev);
}

fn absorbs_items_exec(
    targets: &Vec<crate::model::Target>,
    statics: &Vec<String>,
    items: &mut Vec<crate::needs_attention::NeedsAttention>,
    Ghost(ps): Ghost<Seq<TargetPlan>>,
)
    requires
        all_match(targets@, ps),
    ensures
        crate::needs_attention::items_view(final(items)@) == crate::needs_attention::items_view(old(items)@)
            + absorbs_items(ps, strs(statics@)),
{
    let ghost start = crate::needs_attention::items_view(items@);
    let mut k: usize = 0;
    while k < targets.len()
        invariant
            k <= targets@.len(),
            all_match(targets@, ps),
            crate::needs_attention::items_view(items@) == start + absorbs_items(ps.take(k as int), strs(statics@)),
        decreases targets.len() - k,
    {
        assert(matches_plan(targets@[k as int], ps[k as int]));
        assert(ps.take(k + 1).drop_last() =~= ps.take(k as int));
        assert(ps.take(k + 1).last() == ps[k as int]);
        let ghost before = crate::needs_attention::items_view(items@);
        let t = &targets[k];
        let mut pushed = false;
        if t.is_shared {
            let absorbed = held_strings(&t.dependencies, statics);
            if absorbed.len() > 0 {
                let it = crate::needs_attention::shared_library_absorbs_static_needs_attention(
                    t.name.as_str(),
                    absorbed.as_slice(),
                );
                items.push(it);
                assert(crate::needs_attention::items_view(items@) =~= before + seq![crate::needs_attention::item_view(it)]);
                pushed = true;
            }
        }
        if !pushed {
            assert(before =~= before + Seq::<ItemView>::empty());
        }
        k += 1;
    }
    assert(ps.take(k as int) =~= ps);
}

fn unconverted_items_exec(
    libs: &Vec<String>,
    links: &Vec<(String, Vec<String>)>,
    items: &mut Vec<crate::needs_attention::NeedsAttention>,
)
    ensures
        crate::needs_attention::items_view(final(items)@) == crate::needs_attention::items_view(old(items)@)
            + unconverted_items(strs(libs@), nameds_view(links@)),
{
    let ghost start = crate::needs_attention::items_view(items@);
    let ghost lv = strs(libs@);
    let mut j: usize = 0;
    while j < libs.len()
        invariant
            j <= libs@.len(),
            lv == strs(libs@),
            crate::needs_attention::items_view(items@) == start + unconverted_items(lv.take(j as int), nameds_view(links@)),
        decreases libs.len() - j,
    {
        assert(lv.take(j + 1).drop_last() =~= lv.take(j as int));
        assert(lv.take(j + 1).last() == libs@[j as int]@);
        let ghost before = crate::needs_attention::items_view(items@);
        let ts = sort_keep_strings(&linking_exec(links, &libs[j]));
        let it = crate::needs_attention::unconverted_dependency_needs_attention(libs[j].as_str(), ts.as_slice());
        items.push(it);
        assert(crate::needs_attention::items_view(items@) =~= before.push(crate::needs_attention::item_view(it)));
        j += 1;
    }
    assert(lv.take(j as int) =~= lv);
}

fn firsts(v: &Vec<(String, String)>) -> (r: Vec<String>)
    ensures
        strs(r@) == pairs(v@).map_values(|h: (Seq<char>, Seq<char>)| h.0),
{
    let mut r: Vec<String> = Vec::new();
    let mut i: usize = 0;
    while i < v.len()
        invariant
            i <= v@.len(),
            strs(r@) =~= pairs(v@).take(i as int).map_values(|h: (Seq<char>, Seq<char>)| h.0),
        decreases v.len() - i,
    {
        let ghost before = strs(r@);
        r.push(v[i].0.clone());
        assert(strs(r@) =~= before.push(v@[i as int].0@));
        assert(pairs(v@).take(i + 1).map_values(|h: (Seq<char>, Seq<char>)| h.0) =~= pairs(v@).take(i as int).map_values(
            |h: (Seq<char>, Seq<char>)| h.0,
        ).push(v@[i as int].0@));
        i += 1;
    }
    assert(pairs(v@).take(i as int) =~= pairs(v@));
    r
}

fn test_names(ts: &Vec<crate::model::Test>) -> (r: (Vec<String>, Vec<String>))
    ensures
        strs(r.0@) == tests_view(ts@).map_values(|t: TestView| t.0),
        strs(r.1@) == tests_view(ts@).map_values(|t: TestView| t.2),
{
    let mut names: Vec<String> = Vec::new();
    let mut commands: Vec<String> = Vec::new();
    let mut i: usize = 0;
    while i < ts.len()
        invariant
            i <= ts@.len(),
            strs(names@) =~= tests_view(ts@).take(i as int).map_values(|t: TestView| t.0),
            strs(commands@) =~= tests_view(ts@).take(i as int).map_values(|t: TestView| t.2),
        decreases ts.len() - i,
    {
        let ghost nb = strs(names@);
        let ghost cb = strs(commands@);
        names.push(ts[i].name.clone());
        commands.push(ts[i].command.clone());
        assert(strs(names@) =~= nb.push(ts@[i as int].name@));
        assert(strs(commands@) =~= cb.push(ts@[i as int].command@));
        assert(tests_view(ts@).take(i + 1).map_values(|t: TestView| t.0) =~= tests_view(ts@).take(i as int).map_values(
            |t: TestView| t.0,
        ).push(ts@[i as int].name@));
        assert(tests_view(ts@).take(i + 1).map_values(|t: TestView| t.2) =~= tests_view(ts@).take(i as int).map_values(
            |t: TestView| t.2,
        ).push(ts@[i as int].command@));
        i += 1;
    }
    assert(tests_view(ts@).take(i as int) =~= tests_view(ts@));
    (names, commands)
}

/// `r` is the graph of the given inputs: its targets (each built
/// declaration, by name), its tests, what it escalates, and the module root.
pub open spec fn graph_of(
    r: (crate::model::BuildGraph, Vec<crate::needs_attention::NeedsAttention>, String),
    commands: Seq<BuildCommand>,
    db: VariableDatabase,
    project_name: Seq<char>,
    source_dir: Seq<char>,
    deliverable_root: Seq<char>,
    deps: crate::dependencies::Dependencies,
    la_texts: Seq<(Seq<char>, Seq<char>)>,
) -> bool {
    let g = graph_inputs(commands, db, source_dir, deliverable_root);
    let ps = graph_plans(g, deps, la_texts);
    let es = crate::autotools::per_directory(db.scopes_view(), db.root_view());
    &&& r.2@ == graph_module_root(g)
    &&& r.0.module.name@ == project_name
    &&& crate::model::opt_view(r.0.module.version) == crate::configure_file::lookup(db.scopes_view()[0].1, "VERSION"@)
    &&& all_match(r.0.targets@, ps)
    &&& tests_view(r.0.tests@) == bound_tests(es, plan_names(ps))
    &&& tests_view(r.0.unexpressed_tests@) == unbound_tests(es, plan_names(ps))
    &&& r.0.config_headers@.len() == 0
    &&& r.0.dependencies@.len() == 0
    &&& crate::needs_attention::items_view(r.1@) == graph_attention(g, deps, la_texts)
}

/// The build graph of an Autotools project (see `graph_of`). The module
/// root widens to cover what the build references from inside the
/// deliverable. `deps` answers for libraries of converted dependencies;
/// `la_texts` holds the text of each libtool `.la` the build wrote.
pub fn to_graph_with_dependencies(
    commands: &Vec<BuildCommand>,
    db: &VariableDatabase,
    project_name: &str,
    source_dir: &str,
    deliverable_root: &str,
    deps: &crate::dependencies::Dependencies,
    la_texts: &Vec<(String, String)>,
) -> (r: (crate::model::BuildGraph, Vec<crate::needs_attention::NeedsAttention>, String))
    requires
        deps.wf(),
        db.wf(),
    ensures
        graph_of(r, commands@, *db, project_name@, source_dir@, deliverable_root@, *deps, pairs(la_texts@)),
{
    let ghost g = graph_inputs(commands@, *db, source_dir@, deliverable_root@);
    let ghost lt = pairs(la_texts@);
    let src = chars_of(source_dir);
    let deliv = chars_of(deliverable_root);
    let decls = db.declared_targets();
    let rows = object_table_exec(commands);
    let installed = firsts(&installed_headers(db));
    let mr = module_root_exec(commands, db, src.as_slice(), deliv.as_slice(), &rows, &decls, &installed);
    let (targets, escapes, links) = plan_targets(
        commands,
        db,
        src.as_slice(),
        deliv.as_slice(),
        &rows,
        &decls,
        &installed,
        deps,
        la_texts,
        mr.as_slice(),
    );
    let ghost ps = graph_plans(g, *deps, lt);
    let ghost bp = built_plans(g, *deps, lt, graph_decls(g), graph_module_root(g));
    let mut items: Vec<crate::needs_attention::NeedsAttention> = Vec::new();
    assert(crate::needs_attention::items_view(items@) =~= Seq::<ItemView>::empty());
    outside_items_exec(&escapes, &mut items);
    let entries = crate::autotools::classify_tests_per_directory(db);
    let (tests, unexpressed) = split_tests(&entries, &targets, Ghost(ps));
    let statics = static_names_exec(&targets, Ghost(ps));
    absorbs_items_exec(&targets, &statics, &mut items, Ghost(ps));
    let ghost mid = crate::needs_attention::items_view(items@);
    let ghost unbound = unbound_tests(crate::autotools::per_directory(g.scopes, g.build_root), plan_names(ps));
    if unexpressed.len() > 0 {
        let (names, cmds) = test_names(&unexpressed);
        let it = crate::needs_attention::ctest_command_not_a_target_needs_attention(names.as_slice(), cmds.as_slice());
        items.push(it);
        assert(crate::needs_attention::items_view(items@) =~= mid + seq![crate::needs_attention::item_view(it)]);
    } else {
        assert(mid =~= mid + Seq::<ItemView>::empty());
    }
    let uniq = first_links_exec(&links);
    let libs = crate::text::sort_dedup_strings(&all_libraries_exec(&uniq));
    unconverted_items_exec(&libs, &uniq, &mut items);
    let version = crate::configure_file::lookup_value(db.root(), "VERSION");
    let mut name = String::new();
    crate::text::push_str(&mut name, project_name);
    let graph = crate::model::BuildGraph {
        module: crate::model::ModuleInfo { name, version },
        targets,
        tests,
        unexpressed_tests: unexpressed,
        config_headers: Vec::new(),
        dependencies: Vec::new(),
    };
    assert(crate::needs_attention::items_view(items@) =~= graph_attention(g, *deps, lt));
    (graph, items, string_of(mr.as_slice()))
}

/// The graph of a project converted on its own: no converted dependency
/// answers for any library it links.
pub fn to_graph(
    commands: &Vec<BuildCommand>,
    db: &VariableDatabase,
    project_name: &str,
    source_dir: &str,
    deliverable_root: &str,
    la_texts: &Vec<(String, String)>,
) -> (r: (crate::model::BuildGraph, Vec<crate::needs_attention::NeedsAttention>, String))
    requires
        db.wf(),
    ensures
        exists|deps: crate::dependencies::Dependencies|
            deps.wf() && deps.entries().len() == 0 && deps.root() is None && deps.origins().len() == 0
                && #[trigger] graph_of(r, commands@, *db, project_name@, source_dir@, deliverable_root@, deps, pairs(la_texts@)),
{
    let deps = crate::dependencies::Dependencies::new();
    let r = to_graph_with_dependencies(commands, db, project_name, source_dir, deliverable_root, &deps, la_texts);
    assert(graph_of(r, commands@, *db, project_name@, source_dir@, deliverable_root@, deps, pairs(la_texts@)));
    r
}

/// The directories in the build tree, and not in the source tree, that
/// the compiles put on the include path (`br` and `sd` normalized).
pub open spec fn build_include_dirs(
    cmds: Seq<(Seq<char>, Seq<Seq<char>>, Seq<char>)>,
    br: Seq<char>,
    sd: Seq<char>,
) -> Seq<Seq<char>>
    decreases cmds.len(),
{
    if cmds.len() == 0 {
        seq![]
    } else {
        let c = cmds.last();
        build_include_dirs(cmds.drop_last(), br, sd) + in_build_tree(
            flag_values(c.1, "-I"@).map_values(|d: Seq<char>| normalize(join_path(c.2, d))),
            br,
            sd,
        )
    }
}

/// The paths of `ds` under `br` and not under `sd`.
pub open spec fn in_build_tree(ds: Seq<Seq<char>>, br: Seq<char>, sd: Seq<char>) -> Seq<Seq<char>>
    decreases ds.len(),
{
    if ds.len() == 0 {
        seq![]
    } else {
        in_build_tree(ds.drop_last(), br, sd) + if crate::paths::path_starts_with(ds.last(), br)
            && !crate::paths::path_starts_with(ds.last(), sd) {
            seq![ds.last()]
        } else {
            seq![]
        }
    }
}

/// Whether `f` lies under one of `dirs`.
pub open spec fn under_some(f: Seq<char>, dirs: Seq<Seq<char>>) -> bool {
    exists|i: int| 0 <= i < dirs.len() && crate::paths::path_starts_with(f, #[trigger] dirs[i])
}

/// The build-relative paths of the headers among `files` that lie under
/// one of `dirs` and that no config header reproduces.
pub open spec fn unreproduced(
    files: Seq<Seq<char>>,
    dirs: Seq<Seq<char>>,
    br: Seq<char>,
    reproduced: Seq<Seq<char>>,
) -> Seq<Seq<char>>
    decreases files.len(),
{
    if files.len() == 0 {
        seq![]
    } else {
        let f = files.last();
        unreproduced(files.drop_last(), dirs, br, reproduced) + if under_some(f, dirs) && is_hdr(f) {
            match strip_path_prefix(f, br) {
                Some(rel) => if !reproduced.contains(rel) {
                    seq![rel]
                } else {
                    seq![]
                },
                None => seq![],
            }
        } else {
            seq![]
        }
    }
}

/// The lines of the stream that mention `name` and are not a compile,
/// trimmed.
pub open spec fn recipe_of(ls: Seq<Seq<char>>, name: Seq<char>) -> Seq<Seq<char>>
    decreases ls.len(),
{
    if ls.len() == 0 {
        seq![]
    } else {
        let l = ls.last();
        recipe_of(ls.drop_last(), name) + if contains(l, name) && !contains(l, " -c "@) && !contains(l, " -o "@) {
            seq![crate::text::trim(l)]
        } else {
            seq![]
        }
    }
}

/// Each header the build wrote into its own tree that nothing reproduces,
/// sorted, with the stream lines that made it.
pub open spec fn generated_spec(
    cmds: Seq<(Seq<char>, Seq<Seq<char>>, Seq<char>)>,
    build_root: Seq<char>,
    source_dir: Seq<char>,
    reproduced: Seq<Seq<char>>,
    stream: Seq<char>,
    files: Seq<Seq<char>>,
) -> Seq<NamedList> {
    let br = normalize(build_root);
    let found = crate::text::sort_dedup(
        unreproduced(files, build_include_dirs(cmds, br, normalize(source_dir)), br, reproduced),
    );
    found.map_values(|rel: Seq<char>| (rel, recipe_of(crate::text::lines(stream), base_name(rel))))
}

fn build_include_dirs_exec(cmds: &Vec<BuildCommand>, br: &[char], sd: &[char]) -> (r: Vec<Vec<char>>)
    ensures
        views(r@) == build_include_dirs(commands_view(cmds@), br@, sd@),
{
    let ghost cv = commands_view(cmds@);
    let mut r: Vec<Vec<char>> = Vec::new();
    let mut k: usize = 0;
    while k < cmds.len()
        invariant
            k <= cmds@.len(),
            cv == commands_view(cmds@),
            views(r@) == build_include_dirs(cv.take(k as int), br@, sd@),
        decreases cmds.len() - k,
    {
        assert(cv.take(k + 1).drop_last() =~= cv.take(k as int));
        assert(cv.take(k + 1).last() == command_view(cmds@[k as int]));
        let c = &cmds[k];
        let incs = includes_of(&c.args);
        let ghost iv = strs(incs@).map_values(|d: Seq<char>| normalize(join_path(c.dir@, d)));
        let ghost start = views(r@);
        let mut q: usize = 0;
        while q < incs.len()
            invariant
                q <= incs@.len(),
                iv == strs(incs@).map_values(|d: Seq<char>| normalize(join_path(c.dir@, d))),
                views(r@) == start + in_build_tree(iv.take(q as int), br@, sd@),
            decreases incs.len() - q,
        {
            assert(iv.take(q + 1).drop_last() =~= iv.take(q as int));
            let a = normalize_path(join_paths(chars(&c.dir).as_slice(), chars(&incs[q]).as_slice()).as_slice());
            assert(iv.take(q + 1).last() == a@);
            let ghost before = views(r@);
            if crate::paths::starts_with_path(a.as_slice(), br) && !crate::paths::starts_with_path(a.as_slice(), sd) {
                r.push(a);
                assert(views(r@) =~= before + seq![a@]);
            } else {
                assert(before =~= before + Seq::<Seq<char>>::empty());
            }
            q += 1;
        }
        assert(iv.take(q as int) =~= iv);
        k += 1;
    }
    assert(cv.take(k as int) =~= cv);
    r
}

fn under_some_exec(f: &[char], dirs: &Vec<Vec<char>>) -> (r: bool)
    ensures
        r == under_some(f@, views(dirs@)),
{
    let mut i: usize = 0;
    while i < dirs.len()
        invariant
            i <= dirs@.len(),
            forall|j: int| 0 <= j < i ==> !crate::paths::path_starts_with(f@, #[trigger] views(dirs@)[j]),
        decreases dirs.len() - i,
    {
        if crate::paths::starts_with_path(f, dirs[i].as_slice()) {
            assert(crate::paths::path_starts_with(f@, views(dirs@)[i as int]));
            return true;
        }
        i += 1;
    }
    false
}

fn recipe_exec(ls: &Vec<Vec<char>>, name: &[char]) -> (r: Vec<String>)
    ensures
        strs(r@) == recipe_of(views(ls@), name@),
{
    let ghost lv = views(ls@);
    let mut r: Vec<String> = Vec::new();
    let mut i: usize = 0;
    let c = chars_of(" -c ");
    let o = chars_of(" -o ");
    while i < ls.len()
        invariant
            i <= ls@.len(),
            lv == views(ls@),
            c@ == " -c "@,
            o@ == " -o "@,
            strs(r@) == recipe_of(lv.take(i as int), name@),
        decreases ls.len() - i,
    {
        assert(lv.take(i + 1).drop_last() =~= lv.take(i as int));
        assert(lv.take(i + 1).last() == ls@[i as int]@);
        let ghost before = strs(r@);
        let l = ls[i].as_slice();
        if contains_str(l, name) && !contains_str(l, c.as_slice()) && !contains_str(l, o.as_slice()) {
            let t = crate::text::trim_ws(l);
            r.push(string_of(t.as_slice()));
            assert(strs(r@) =~= before + seq![t@]);
        } else {
            assert(before =~= before + Seq::<Seq<char>>::empty());
        }
        i += 1;
    }
    assert(lv.take(i as int) =~= lv);
    r
}

/// Headers the build wrote into its own tree, under a build-tree `-I`
/// directory, that no config header reproduces (see `generated_spec`).
/// `build_files` lists every file under the build tree.
pub fn generated_headers_in_build_tree(
    commands: &Vec<BuildCommand>,
    build_root: &str,
    source_dir: &str,
    config_headers: &Vec<crate::model::ConfigHeader>,
    stream: &str,
    build_files: &Vec<String>,
) -> (r: Vec<(String, Vec<String>)>)
    ensures
        nameds_view(r@) == generated_spec(
            commands_view(commands@),
            build_root@,
            source_dir@,
            config_headers@.map_values(|h: crate::model::ConfigHeader| h.output_path_spec()),
            stream@,
            strs(build_files@),
        ),
{
    let br = normalize_path(chars_of(build_root).as_slice());
    let sd = normalize_path(chars_of(source_dir).as_slice());
    let dirs = build_include_dirs_exec(commands, br.as_slice(), sd.as_slice());
    let ghost rv = config_headers@.map_values(|h: crate::model::ConfigHeader| h.output_path_spec());
    let mut reproduced: Vec<String> = Vec::new();
    let mut j: usize = 0;
    while j < config_headers.len()
        invariant
            j <= config_headers@.len(),
            rv == config_headers@.map_values(|h: crate::model::ConfigHeader| h.output_path_spec()),
            strs(reproduced@) == rv.take(j as int),
        decreases config_headers.len() - j,
    {
        let ghost before = strs(reproduced@);
        reproduced.push(config_headers[j].output_path());
        assert(strs(reproduced@) =~= before.push(rv[j as int]));
        assert(rv.take(j + 1) =~= rv.take(j as int).push(rv[j as int]));
        j += 1;
    }
    assert(rv.take(j as int) =~= rv);
    let ghost fv = strs(build_files@);
    let mut found: Vec<String> = Vec::new();
    let mut i: usize = 0;
    while i < build_files.len()
        invariant
            i <= build_files@.len(),
            fv == strs(build_files@),
            strs(reproduced@) == rv,
            strs(found@) == unreproduced(fv.take(i as int), views(dirs@), br@, rv),
        decreases build_files.len() - i,
    {
        assert(fv.take(i + 1).drop_last() =~= fv.take(i as int));
        assert(fv.take(i + 1).last() == build_files@[i as int]@);
        let ghost before = strs(found@);
        let f = chars(&build_files[i]);
        let mut pushed = false;
        if under_some_exec(f.as_slice(), &dirs) && crate::headers::is_header_file(build_files[i].as_str()) {
            match strip_prefix_path(f.as_slice(), br.as_slice()) {
                Some(rel) => {
                    let rs = string_of(rel.as_slice());
                    if !crate::text::contains_string(&reproduced, &rs) {
                        found.push(rs);
                        assert(strs(found@) =~= before + seq![rel@]);
                        pushed = true;
                    }
                },
                None => {},
            }
        }
        if !pushed {
            assert(before =~= before + Seq::<Seq<char>>::empty());
        }
        i += 1;
    }
    assert(fv.take(i as int) =~= fv);
    let sorted = crate::text::sort_dedup_strings(&found);
    let ls = crate::text::lines_of(chars_of(stream).as_slice());
    let ghost lv = views(ls@);
    assert(lv =~= crate::text::lines(stream@));
    let ghost sv = strs(sorted@);
    let mut r: Vec<(String, Vec<String>)> = Vec::new();
    let mut k: usize = 0;
    while k < sorted.len()
        invariant
            k <= sorted@.len(),
            sv == strs(sorted@),
            lv == views(ls@),
            lv == crate::text::lines(stream@),
            nameds_view(r@) =~= sv.take(k as int).map_values(
                |rel: Seq<char>| (rel, recipe_of(lv, base_name(rel))),
            ),
        decreases sorted.len() - k,
    {
        let ghost before = nameds_view(r@);
        let name = basename(chars(&sorted[k]).as_slice());
        let recipe = recipe_exec(&ls, name.as_slice());
        r.push((sorted[k].clone(), recipe));
        assert(nameds_view(r@) =~= before.push((sv[k as int], recipe_of(lv, base_name(sv[k as int])))));
        assert(sv.take(k + 1).map_values(|rel: Seq<char>| (rel, recipe_of(lv, base_name(rel)))) =~= sv.take(
            k as int,
        ).map_values(|rel: Seq<char>| (rel, recipe_of(lv, base_name(rel)))).push(
            (sv[k as int], recipe_of(lv, base_name(sv[k as int]))),
        ));
        k += 1;
    }
    assert(sv.take(k as int) =~= sv);
    r
}

/// Every element not below any earlier one: ascending by name, repeats
/// allowed.
pub open spec fn names_ascending(ps: Seq<TargetPlan>) -> bool {
    forall|i: int, j: int| 0 <= i < j < ps.len() ==> !lex_lt(#[trigger] ps[j].name, #[trigger] ps[i].name)
}

proof fn lemma_insert_plan_members(r: Seq<TargetPlan>, x: TargetPlan)
    ensures
        insert_plan(r, x).len() == r.len() + 1,
        forall|k: int|
            0 <= k < insert_plan(r, x).len() ==> (#[trigger] insert_plan(r, x)[k] == x || r.contains(insert_plan(r, x)[k])),
    decreases r.len(),
{
    if r.len() > 0 && !lex_lt(x.name, r[0].name) {
        lemma_insert_plan_members(r.drop_first(), x);
        let t = insert_plan(r.drop_first(), x);
        assert forall|k: int| 0 <= k < insert_plan(r, x).len() implies (#[trigger] insert_plan(r, x)[k] == x || r.contains(
            insert_plan(r, x)[k],
        )) by {
            if k == 0 {
                assert(r[0] == insert_plan(r, x)[0]);
            } else {
                assert(insert_plan(r, x)[k] == t[k - 1]);
                if t[k - 1] != x {
                    let m = choose|m: int| 0 <= m < r.drop_first().len() && r.drop_first()[m] == t[k - 1];
                    assert(r[m + 1] == t[k - 1]);
                }
            }
        }
    } else if r.len() > 0 {
        assert forall|k: int| 0 <= k < insert_plan(r, x).len() implies (#[trigger] insert_plan(r, x)[k] == x || r.contains(
            insert_plan(r, x)[k],
        )) by {
            if k > 0 {
                assert(insert_plan(r, x)[k] == r[k - 1]);
            }
        }
    }
}

proof fn lemma_insert_plan_ascending(r: Seq<TargetPlan>, x: TargetPlan)
    requires
        names_ascending(r),
    ensures
        names_ascending(insert_plan(r, x)),
    decreases r.len(),
{
    if r.len() == 0 {
    } else if lex_lt(x.name, r[0].name) {
        let s = seq![x] + r;
        assert forall|i: int, j: int| 0 <= i < j < s.len() implies !lex_lt(#[trigger] s[j].name, #[trigger] s[i].name) by {
            if i == 0 {
                assert(s[j] == r[j - 1]);
                if j > 1 {
                    crate::text::lemma_lex_total(r[j - 1].name, r[0].name);
                    if r[j - 1].name != r[0].name {
                        crate::text::lemma_lex_transitive(x.name, r[0].name, r[j - 1].name);
                    }
                }
                crate::text::lemma_lex_total(x.name, r[j - 1].name);
            } else {
                assert(s[i] == r[i - 1] && s[j] == r[j - 1]);
            }
        }
    } else {
        let t = r.drop_first();
        assert(names_ascending(t)) by {
            assert forall|i: int, j: int| 0 <= i < j < t.len() implies !lex_lt(#[trigger] t[j].name, #[trigger] t[i].name) by {
                assert(t[i] == r[i + 1] && t[j] == r[j + 1]);
            }
        }
        lemma_insert_plan_ascending(t, x);
        lemma_insert_plan_members(t, x);
        let u = insert_plan(t, x);
        let s = seq![r[0]] + u;
        assert forall|i: int, j: int| 0 <= i < j < s.len() implies !lex_lt(#[trigger] s[j].name, #[trigger] s[i].name) by {
            if i == 0 {
                assert(s[j] == u[j - 1]);
                if u[j - 1] != x {
                    let m = choose|m: int| 0 <= m < t.len() && t[m] == u[j - 1];
                    assert(r[m + 1] == u[j - 1]);
                }
            } else {
                assert(s[i] == u[i - 1] && s[j] == u[j - 1]);
            }
        }
    }
}

proof fn lemma_sort_plans_ascending(s: Seq<TargetPlan>)
    ensures
        names_ascending(sort_plans(s)),
        sort_plans(s).len() == s.len(),
    decreases s.len(),
{
    if s.len() > 0 {
        lemma_sort_plans_ascending(s.drop_last());
        lemma_insert_plan_ascending(sort_plans(s.drop_last()), s.last());
        lemma_insert_plan_members(sort_plans(s.drop_last()), s.last());
    }
}

/// A graph lists its targets in ascending order of name, one for each
/// declaration the build produced.
pub proof fn law_targets_by_name(
    g: GraphInputs,
    deps: crate::dependencies::Dependencies,
    la_texts: Seq<(Seq<char>, Seq<char>)>,
)
    ensures
        names_ascending(graph_plans(g, deps, la_texts)),
        graph_plans(g, deps, la_texts).len() == built_plans(
            g,
            deps,
            la_texts,
            graph_decls(g),
            graph_module_root(g),
        ).len(),
{
    lemma_sort_plans_ascending(built_plans(g, deps, la_texts, graph_decls(g), graph_module_root(g)));
}

/// Every `TESTS` entry becomes exactly one test: a rule around a target
/// of the module when it names a binary the module builds, else an
/// escalated one. A test that runs a target names it, and runs it by the
/// entry's own name.
pub proof fn law_every_test_entry_is_kept(
    es: Seq<(crate::autotools::EntryKind, Seq<char>)>,
    names: Seq<Seq<char>>,
)
    ensures
        bound_tests(es, names).len() + unbound_tests(es, names).len() == es.len(),
        forall|k: int|
            0 <= k < bound_tests(es, names).len() ==> names.contains((#[trigger] bound_tests(es, names)[k]).1)
                && bound_tests(es, names)[k].0 == bound_tests(es, names)[k].2,
    decreases es.len(),
{
    if es.len() > 0 {
        law_every_test_entry_is_kept(es.drop_last(), names);
        let b = bound_tests(es.drop_last(), names);
        assert forall|k: int| 0 <= k < bound_tests(es, names).len() implies names.contains(
            (#[trigger] bound_tests(es, names)[k]).1,
        ) && bound_tests(es, names)[k].0 == bound_tests(es, names)[k].2 by {
            if k < b.len() {
                assert(bound_tests(es, names)[k] == b[k]);
            }
        }
    }
}

/// Every path of `s` is module-relative.
pub open spec fn all_module_relative(s: Seq<Seq<char>>) -> bool {
    forall|k: int| 0 <= k < s.len() ==> crate::model::module_relative(#[trigger] s[k])
}

/// A path a command reported is, once rebased, relative to the module
/// (or build) root and never reaches above it, whenever the command ran
/// in an absolute directory.
pub proof fn law_rebased_paths_are_module_relative(path: Seq<char>, dir: Seq<char>, mr: Seq<char>, br: Seq<char>)
    requires
        crate::paths::is_absolute(dir),
    ensures
        rebase_spec(path, dir, mr, br) matches Some(r) ==> crate::model::module_relative(r),
{
    let a = join_path(dir, path);
    crate::paths::lemma_join_absolute(dir, path);
    crate::paths::lemma_strip_normalized(a, mr);
    crate::paths::lemma_strip_normalized(a, br);
}

proof fn lemma_rebased_all_relative(ps: Seq<Seq<char>>, dir: Seq<char>, mr: Seq<char>, br: Seq<char>)
    requires
        crate::paths::is_absolute(dir),
    ensures
        all_module_relative(rebased_all(ps, dir, mr, br)),
    decreases ps.len(),
{
    if ps.len() > 0 {
        lemma_rebased_all_relative(ps.drop_last(), dir, mr, br);
        law_rebased_paths_are_module_relative(ps.last(), dir, mr, br);
        let prev = rebased_all(ps.drop_last(), dir, mr, br);
        let r = rebased_all(ps, dir, mr, br);
        assert forall|k: int| 0 <= k < r.len() implies crate::model::module_relative(#[trigger] r[k]) by {
            if k < prev.len() {
                assert(r[k] == prev[k]);
            }
        }
    }
}

proof fn lemma_inc_contrib_relative(incs: Seq<Seq<char>>, dir: Seq<char>, mr: Seq<char>, br: Seq<char>)
    requires
        crate::paths::is_absolute(dir),
    ensures
        all_module_relative(inc_contrib(incs, dir, mr, br).0),
    decreases incs.len(),
{
    if incs.len() > 0 {
        lemma_inc_contrib_relative(incs.drop_last(), dir, mr, br);
        law_rebased_paths_are_module_relative(incs.last(), dir, mr, br);
        let prev = inc_contrib(incs.drop_last(), dir, mr, br).0;
        let r = inc_contrib(incs, dir, mr, br).0;
        assert forall|k: int| 0 <= k < r.len() implies crate::model::module_relative(#[trigger] r[k]) by {
            if k < prev.len() {
                assert(r[k] == prev[k]);
            }
        }
    }
}

/// Every object was compiled in an absolute directory.
pub open spec fn table_dirs_absolute(table: Seq<ObjectEntry>) -> bool {
    forall|k: int| 0 <= k < table.len() ==> crate::paths::is_absolute((#[trigger] table[k]).2)
}

/// Every command ran in an absolute directory.
pub open spec fn commands_absolute(cmds: Seq<(Seq<char>, Seq<Seq<char>>, Seq<char>)>) -> bool {
    forall|k: int| 0 <= k < cmds.len() ==> crate::paths::is_absolute((#[trigger] cmds[k]).2)
}

proof fn lemma_object_index_bounds(table: Seq<ObjectEntry>, obj: Seq<char>)
    ensures
        object_index(table, obj) matches Some(i) ==> 0 <= i < table.len(),
    decreases table.len(),
{
    if table.len() > 0 {
        lemma_object_index_bounds(table.drop_last(), obj);
    }
}

proof fn lemma_object_table_dirs(cmds: Seq<(Seq<char>, Seq<Seq<char>>, Seq<char>)>)
    requires
        commands_absolute(cmds),
    ensures
        table_dirs_absolute(object_table(cmds)),
    decreases cmds.len(),
{
    if cmds.len() > 0 {
        let t = cmds.drop_last();
        assert(commands_absolute(t)) by {
            assert forall|k: int| 0 <= k < t.len() implies crate::paths::is_absolute((#[trigger] t[k]).2) by {
                assert(t[k] == cmds[k]);
            }
        }
        lemma_object_table_dirs(t);
        let c = cmds.last();
        assert(crate::paths::is_absolute(c.2));
        let prev = object_table(t);
        let r = object_table(cmds);
        assert forall|k: int| 0 <= k < r.len() implies crate::paths::is_absolute((#[trigger] r[k]).2) by {
            match compile_info(c) {
                None => {
                    assert(r[k] == prev[k]);
                },
                Some((obj, src, incs, defs)) => match object_index(prev, obj) {
                    Some(i) => {
                        lemma_object_index_bounds(prev, obj);
                        if k != i {
                            assert(r[k] == prev[k]);
                        }
                    },
                    None => {
                        if k < prev.len() {
                            assert(r[k] == prev[k]);
                        }
                    },
                },
            }
        }
    }
}

proof fn lemma_flag_acc_relative(table: Seq<ObjectEntry>, sources: Seq<Seq<char>>, mr: Seq<char>, br: Seq<char>)
    requires
        table_dirs_absolute(table),
    ensures
        all_module_relative(flag_acc(table, sources, mr, br).0),
    decreases table.len(),
{
    if table.len() > 0 {
        let t = table.drop_last();
        assert(table_dirs_absolute(t)) by {
            assert forall|k: int| 0 <= k < t.len() implies crate::paths::is_absolute((#[trigger] t[k]).2) by {
                assert(t[k] == table[k]);
            }
        }
        lemma_flag_acc_relative(t, sources, mr, br);
        let e = table.last();
        assert(crate::paths::is_absolute(e.2));
        lemma_inc_contrib_relative(e.3, e.2, mr, br);
        let prev = flag_acc(t, sources, mr, br).0;
        let ic = inc_contrib(e.3, e.2, mr, br).0;
        let r = flag_acc(table, sources, mr, br).0;
        assert forall|k: int| 0 <= k < r.len() implies crate::model::module_relative(#[trigger] r[k]) by {
            if r != prev {
                assert(r == prev + ic);
                if k < prev.len() {
                    assert(r[k] == prev[k]);
                } else {
                    assert(r[k] == ic[k - prev.len()]);
                }
            }
        }
    }
}

proof fn lemma_sort_dedup_relative(s: Seq<Seq<char>>)
    requires
        all_module_relative(s),
    ensures
        all_module_relative(crate::text::sort_dedup(s)),
{
    crate::text::law_sort_dedup(s);
    let r = crate::text::sort_dedup(s);
    assert forall|k: int| 0 <= k < r.len() implies crate::model::module_relative(#[trigger] r[k]) by {
        assert(r.contains(r[k]));
        assert(s.contains(r[k]));
        let j = choose|j: int| 0 <= j < s.len() && s[j] == r[k];
    }
}

/// A plan's path lists are module-relative.
pub open spec fn plan_paths_relative(p: TargetPlan) -> bool {
    &&& all_module_relative(p.sources)
    &&& all_module_relative(p.public_headers)
    &&& all_module_relative(p.includes)
}

proof fn lemma_plan_paths_relative(
    g: GraphInputs,
    deps: crate::dependencies::Dependencies,
    la_texts: Seq<(Seq<char>, Seq<char>)>,
    d: DeclView,
    mr: Seq<char>,
)
    requires
        crate::paths::is_absolute(g.source_dir),
        commands_absolute(g.cmds),
    ensures
        plan_paths_relative(plan_of(g, deps, la_texts, d, mr)),
{
    let dir = declaring_dir(g, d.0);
    assert(crate::paths::is_absolute(dir)) by {
        match built_index(g.cmds, base_name(d.0)) {
            Some(k) => match strip_path_prefix(g.cmds[k].2, g.build_root) {
                Some(rel) => crate::paths::lemma_join_absolute(g.source_dir, rel),
                None => {},
            },
            None => {},
        }
    }
    let all = decl_sources(g, d);
    let compiled = compiled_of(all);
    let unsorted = rebased_all(compiled, dir, mr, g.build_root);
    lemma_rebased_all_relative(compiled, dir, mr, g.build_root);
    lemma_sort_dedup_relative(unsorted);
    lemma_rebased_all_relative(held_in(headers_of(all), installed_raw(g)), dir, mr, g.build_root);
    lemma_object_table_dirs(g.cmds);
    lemma_flag_acc_relative(object_table(g.cmds), unsorted, mr, g.build_root);
    lemma_sort_dedup_relative(flag_acc(object_table(g.cmds), unsorted, mr, g.build_root).0);
}

proof fn lemma_built_plans_relative(
    g: GraphInputs,
    deps: crate::dependencies::Dependencies,
    la_texts: Seq<(Seq<char>, Seq<char>)>,
    ds: Seq<DeclView>,
    mr: Seq<char>,
)
    requires
        crate::paths::is_absolute(g.source_dir),
        commands_absolute(g.cmds),
    ensures
        forall|k: int|
            0 <= k < built_plans(g, deps, la_texts, ds, mr).len() ==> plan_paths_relative(
                #[trigger] built_plans(g, deps, la_texts, ds, mr)[k],
            ),
    decreases ds.len(),
{
    if ds.len() > 0 {
        lemma_built_plans_relative(g, deps, la_texts, ds.drop_last(), mr);
        lemma_plan_paths_relative(g, deps, la_texts, ds.last(), mr);
        let prev = built_plans(g, deps, la_texts, ds.drop_last(), mr);
        let r = built_plans(g, deps, la_texts, ds, mr);
        assert forall|k: int| 0 <= k < r.len() implies plan_paths_relative(#[trigger] r[k]) by {
            if k < prev.len() {
                assert(r[k] == prev[k]);
            }
        }
    }
}

proof fn lemma_sort_plans_members(s: Seq<TargetPlan>)
    ensures
        forall|k: int| 0 <= k < sort_plans(s).len() ==> s.contains(#[trigger] sort_plans(s)[k]),
    decreases s.len(),
{
    if s.len() > 0 {
        lemma_sort_plans_members(s.drop_last());
        lemma_insert_plan_members(sort_plans(s.drop_last()), s.last());
        let r = sort_plans(s);
        let prev = sort_plans(s.drop_last());
        assert forall|k: int| 0 <= k < r.len() implies s.contains(#[trigger] r[k]) by {
            if r[k] == s.last() {
                assert(s[s.len() - 1] == r[k]);
            } else {
                assert(prev.contains(r[k]));
                let m = choose|m: int| 0 <= m < prev.len() && prev[m] == r[k];
                assert(s.drop_last().contains(r[k]));
                let j = choose|j: int| 0 <= j < s.drop_last().len() && s.drop_last()[j] == r[k];
                assert(s[j] == r[k]);
            }
        }
    }
}

/// Every source, public header and include directory of every target a
/// graph holds is relative to the module root and never reaches above it
/// (what the generated BUILD file can name), whenever the project
/// directory and the directories the commands ran in are absolute.
pub proof fn law_target_paths_are_module_relative(
    g: GraphInputs,
    deps: crate::dependencies::Dependencies,
    la_texts: Seq<(Seq<char>, Seq<char>)>,
)
    requires
        crate::paths::is_absolute(g.source_dir),
        commands_absolute(g.cmds),
    ensures
        forall|k: int|
            0 <= k < graph_plans(g, deps, la_texts).len() ==> plan_paths_relative(
                #[trigger] graph_plans(g, deps, la_texts)[k],
            ),
{
    let bp = built_plans(g, deps, la_texts, graph_decls(g), graph_module_root(g));
    lemma_built_plans_relative(g, deps, la_texts, graph_decls(g), graph_module_root(g));
    lemma_sort_plans_members(bp);
    let r = graph_plans(g, deps, la_texts);
    assert forall|k: int| 0 <= k < r.len() implies plan_paths_relative(#[trigger] r[k]) by {
        assert(bp.contains(r[k]));
        let j = choose|j: int| 0 <= j < bp.len() && bp[j] == r[k];
    }
}

/// The sources the file `src` textually includes, by its scan: the last
/// entry for it.
pub open spec fn scanned_includes(scans: Seq<(Seq<char>, Seq<Seq<char>>)>, src: Seq<char>) -> Option<Seq<Seq<char>>>
    decreases scans.len(),
{
    if scans.len() == 0 {
        None
    } else if scans.last().0 == src {
        Some(scans.last().1)
    } else {
        scanned_includes(scans.drop_last(), src)
    }
}

/// The directory an including file sits in, `""` for one at the root.
pub open spec fn includer_dir(src: Seq<char>) -> Seq<char> {
    match crate::paths::parent(src) {
        Some(d) => d,
        None => seq![],
    }
}

/// Each included name resolved against the including file's directory,
/// unless it escapes the module root.
pub open spec fn resolved_includes(dir: Seq<char>, names: Seq<Seq<char>>) -> Seq<Seq<char>>
    decreases names.len(),
{
    if names.len() == 0 {
        seq![]
    } else {
        let r = normalize(join_path(dir, names.last()));
        resolved_includes(dir, names.drop_last()) + if crate::text::has_prefix(r, ".."@) {
            seq![]
        } else {
            seq![r]
        }
    }
}

/// What the sources of a target textually include, resolved.
pub open spec fn included_by_sources(srcs: Seq<Seq<char>>, scans: Seq<(Seq<char>, Seq<Seq<char>>)>) -> Seq<Seq<char>>
    decreases srcs.len(),
{
    if srcs.len() == 0 {
        seq![]
    } else {
        included_by_sources(srcs.drop_last(), scans) + match scanned_includes(scans, srcs.last()) {
            Some(names) => resolved_includes(includer_dir(srcs.last()), names),
            None => seq![],
        }
    }
}

/// The entries of `s` that `set` does not hold.
pub open spec fn not_in(s: Seq<Seq<char>>, set: Seq<Seq<char>>) -> Seq<Seq<char>>
    decreases s.len(),
{
    if s.len() == 0 {
        seq![]
    } else {
        not_in(s.drop_last(), set) + if set.contains(s.last()) {
            seq![]
        } else {
            seq![s.last()]
        }
    }
}

/// A target's textual sources once the files its sources textually
/// include, and that it does not compile itself, are added.
pub open spec fn with_textual(t: crate::model::Target, scans: Seq<(Seq<char>, Seq<Seq<char>>)>) -> Seq<Seq<char>> {
    let found = crate::text::sort_dedup(included_by_sources(strs(t.sources@), scans));
    crate::text::sort_dedup(strs(t.textual_sources@) + not_in(found, strs(t.sources@)))
}

fn scanned_exec(scans: &Vec<(String, Vec<String>)>, src: &String) -> (r: Option<usize>)
    ensures
        r matches Some(k) ==> k < scans@.len() && scanned_includes(crate::headers::opened_view(scans@), src@) == Some(
            strs(scans@[k as int].1@),
        ),
        r is None ==> scanned_includes(crate::headers::opened_view(scans@), src@) is None,
{
    let ghost sv = crate::headers::opened_view(scans@);
    let mut k = scans.len();
    assert(sv.take(k as int) =~= sv);
    while k > 0
        invariant
            k <= scans@.len(),
            sv == crate::headers::opened_view(scans@),
            scanned_includes(sv, src@) == scanned_includes(sv.take(k as int), src@),
        decreases k,
    {
        assert(sv.take(k as int).drop_last() =~= sv.take(k - 1));
        assert(sv.take(k as int).last() == (scans@[k - 1].0@, strs(scans@[k - 1].1@)));
        if chars_eq(chars(&scans[k - 1].0).as_slice(), chars(src).as_slice()) {
            return Some(k - 1);
        }
        k -= 1;
    }
    None
}

fn resolved_includes_exec(dir: &[char], names: &Vec<String>, out: &mut Vec<String>)
    ensures
        strs(final(out)@) == strs(old(out)@) + resolved_includes(dir@, strs(names@)),
{
    let ghost start = strs(out@);
    let ghost nv = strs(names@);
    let dots = chars_of("..");
    let mut i: usize = 0;
    while i < names.len()
        invariant
            i <= names@.len(),
            nv == strs(names@),
            dots@ == ".."@,
            strs(out@) == start + resolved_includes(dir@, nv.take(i as int)),
        decreases names.len() - i,
    {
        assert(nv.take(i + 1).drop_last() =~= nv.take(i as int));
        assert(nv.take(i + 1).last() == names@[i as int]@);
        let ghost before = strs(out@);
        let r = normalize_path(join_paths(dir, chars(&names[i]).as_slice()).as_slice());
        if !starts_with(r.as_slice(), dots.as_slice()) {
            out.push(string_of(r.as_slice()));
            assert(strs(out@) =~= before + seq![r@]);
        } else {
            assert(before =~= before + Seq::<Seq<char>>::empty());
        }
        i += 1;
    }
    assert(nv.take(i as int) =~= nv);
}

fn textual_for(t: &crate::model::Target, scans: &Vec<(String, Vec<String>)>) -> (r: Vec<String>)
    ensures
        strs(r@) == with_textual(*t, crate::headers::opened_view(scans@)),
{
    let ghost sv = crate::headers::opened_view(scans@);
    let ghost srcs = strs(t.sources@);
    let mut found: Vec<String> = Vec::new();
    let mut i: usize = 0;
    while i < t.sources.len()
        invariant
            i <= t.sources@.len(),
            sv == crate::headers::opened_view(scans@),
            srcs == strs(t.sources@),
            strs(found@) == included_by_sources(srcs.take(i as int), sv),
        decreases t.sources.len() - i,
    {
        assert(srcs.take(i + 1).drop_last() =~= srcs.take(i as int));
        assert(srcs.take(i + 1).last() == t.sources@[i as int]@);
        let ghost before = strs(found@);
        match scanned_exec(scans, &t.sources[i]) {
            Some(k) => {
                let dir: Vec<char> = match crate::paths::parent_of(chars(&t.sources[i]).as_slice()) {
                    Some(d) => d,
                    None => Vec::new(),
                };
                resolved_includes_exec(dir.as_slice(), &scans[k].1, &mut found);
            },
            None => {
                assert(before =~= before + Seq::<Seq<char>>::empty());
            },
        }
        i += 1;
    }
    assert(srcs.take(i as int) =~= srcs);
    let sorted = crate::text::sort_dedup_strings(&found);
    let mut all = crate::text::copy_strings(&t.textual_sources);
    let ghost sorted_v = strs(sorted@);
    let ghost start = strs(all@);
    let mut j: usize = 0;
    while j < sorted.len()
        invariant
            j <= sorted@.len(),
            sorted_v == strs(sorted@),
            srcs == strs(t.sources@),
            strs(all@) == start + not_in(sorted_v.take(j as int), srcs),
        decreases sorted.len() - j,
    {
        assert(sorted_v.take(j + 1).drop_last() =~= sorted_v.take(j as int));
        assert(sorted_v.take(j + 1).last() == sorted@[j as int]@);
        let ghost before = strs(all@);
        if !crate::text::contains_string(&t.sources, &sorted[j]) {
            all.push(sorted[j].clone());
            assert(strs(all@) =~= before + seq![sorted@[j as int]@]);
        } else {
            assert(before =~= before + Seq::<Seq<char>>::empty());
        }
        j += 1;
    }
    assert(sorted_v.take(j as int) =~= sorted_v);
    crate::text::sort_dedup_strings(&all)
}

/// `after` is `before` with each target's textual sources extended as
/// `with_textual` says, and nothing else changed.
pub open spec fn textual_added(
    after: Seq<crate::model::Target>,
    before: Seq<crate::model::Target>,
    scans: Seq<(Seq<char>, Seq<Seq<char>>)>,
) -> bool {
    &&& after.len() == before.len()
    &&& forall|i: int|
        0 <= i < after.len() ==> {
            let t = #[trigger] after[i];
            let o = before[i];
            &&& crate::model::same_but_paths_and_textual(t, o)
            &&& t.sources@ == o.sources@
            &&& t.public_headers@ == o.public_headers@
            &&& t.includes@ == o.includes@
            &&& strs(t.textual_sources@) == with_textual(o, scans)
        }
}

/// Records, for each target, the sources its own sources textually
/// `#include` and that it does not compile itself (see `with_textual`).
/// `scans` gives, for each source file (module-relative) whose text could
/// be read, the names its `#include`s of sources spell. A file that is
/// both included and compiled stays compiled.
pub fn inject_textual_includes(targets: &mut Vec<crate::model::Target>, scans: &Vec<(String, Vec<String>)>)
    ensures
        textual_added(final(targets)@, old(targets)@, crate::headers::opened_view(scans@)),
{
    let ghost orig = targets@;
    let mut i: usize = 0;
    while i < targets.len()
        invariant
            i <= targets@.len(),
            targets@.len() == orig.len(),
            orig == old(targets)@,
            forall|j: int|
                0 <= j < i ==> {
                    let t = #[trigger] targets@[j];
                    let o = orig[j];
                    &&& crate::model::same_but_paths_and_textual(t, o)
                    &&& t.sources@ == o.sources@
                    &&& t.public_headers@ == o.public_headers@
                    &&& t.includes@ == o.includes@
                    &&& strs(t.textual_sources@) == with_textual(o, crate::headers::opened_view(scans@))
                },
            forall|j: int| i <= j < targets@.len() ==> #[trigger] targets@[j] == orig[j],
        decreases targets.len() - i,
    {
        let textual = textual_for(&targets[i], scans);
        let mut t = targets[i].copied();
        assert(with_textual(t, crate::headers::opened_view(scans@)) == with_textual(orig[i as int], crate::headers::opened_view(scans@)));
        t.textual_sources = textual;
        targets.set(i, t);
        i += 1;
    }
}

} // verus!
