//! Lexical path geometry: paths are strings of `/`-separated components,
//! compared and rewritten without touching the filesystem.
//!
//! Under a Bazel sandbox the source tree is a web of symlinks, so resolving
//! them would yield paths correct on this machine and meaningless as a
//! description of the module's layout; everything here is textual.

use vstd::prelude::*;
use crate::text::{
    chars_eq, find, find_from, has_prefix, split_from, lemma_find_from, lemma_rfind_before, occurs_at, push_all, rfind, rfind_str, split, split_by, subvec, views,
};

verus! {

pub open spec fn slash() -> Seq<char> {
    seq!['/']
}

pub open spec fn dot() -> Seq<char> {
    seq!['.']
}

pub open spec fn dotdot() -> Seq<char> {
    seq!['.', '.']
}

pub open spec fn is_absolute(p: Seq<char>) -> bool {
    p.len() > 0 && p[0] == '/'
}

/// The pieces between separators that name something: empty pieces (from
/// doubled or trailing separators) and `.` are dropped.
pub open spec fn named(parts: Seq<Seq<char>>) -> Seq<Seq<char>>
    decreases parts.len(),
{
    if parts.len() == 0 {
        seq![]
    } else if parts[0].len() == 0 || parts[0] == dot() {
        named(parts.drop_first())
    } else {
        seq![parts[0]] + named(parts.drop_first())
    }
}

/// The components of a path, without its root.
pub open spec fn components(p: Seq<char>) -> Seq<Seq<char>> {
    named(split(p, slash()))
}

/// `comps` joined with `/`.
pub open spec fn join_all(comps: Seq<Seq<char>>) -> Seq<char>
    decreases comps.len(),
{
    if comps.len() == 0 {
        seq![]
    } else if comps.len() == 1 {
        comps[0]
    } else {
        comps[0] + slash() + join_all(comps.drop_first())
    }
}

/// The path with root `abs` and components `comps`, written out.
pub open spec fn render(abs: bool, comps: Seq<Seq<char>>) -> Seq<char> {
    if abs {
        slash() + join_all(comps)
    } else {
        join_all(comps)
    }
}

/// `Path::starts_with`: the same root, and `base`'s components a prefix of
/// `p`'s.
pub open spec fn path_starts_with(p: Seq<char>, base: Seq<char>) -> bool {
    &&& is_absolute(p) == is_absolute(base)
    &&& components(base).len() <= components(p).len()
    &&& components(p).take(components(base).len() as int) == components(base)
}

/// `Path::strip_prefix`, written out: what remains of `p` below `base`.
pub open spec fn strip_path_prefix(p: Seq<char>, base: Seq<char>) -> Option<Seq<char>> {
    if path_starts_with(p, base) {
        Some(join_all(components(p).skip(components(base).len() as int)))
    } else {
        None
    }
}

/// `Path::join`: an absolute `rel` replaces `base`.
pub open spec fn join_path(base: Seq<char>, rel: Seq<char>) -> Seq<char> {
    if is_absolute(rel) || base.len() == 0 {
        rel
    } else if base.last() == '/' {
        base + rel
    } else {
        base + slash() + rel
    }
}

/// `Path::file_name`: the last component, unless the path has none or
/// ends in `..`.
pub open spec fn file_name(p: Seq<char>) -> Option<Seq<char>> {
    let c = components(p);
    if c.len() == 0 || c.last() == dotdot() {
        None
    } else {
        Some(c.last())
    }
}

/// `Path::extension`: what follows the last `.` of the file name, unless
/// that `.` begins it.
pub open spec fn extension(p: Seq<char>) -> Option<Seq<char>> {
    match file_name(p) {
        None => None,
        Some(n) => match rfind(n, dot()) {
            Some(i) => if i > 0 {
                Some(n.skip(i + 1))
            } else {
                None
            },
            None => None,
        },
    }
}

/// `Path::parent`, written out: `None` for a path with no components.
pub open spec fn parent(p: Seq<char>) -> Option<Seq<char>> {
    let c = components(p);
    if c.len() == 0 {
        None
    } else {
        Some(render(is_absolute(p), c.drop_last()))
    }
}

/// One step of lexical normalization: `..` cancels the component before
/// it, is absorbed at the root, and is kept at the start of a relative path.
pub open spec fn push_component(stack: Seq<Seq<char>>, abs: bool, c: Seq<char>) -> Seq<Seq<char>> {
    if c == dotdot() {
        if stack.len() > 0 && stack.last() != dotdot() {
            stack.drop_last()
        } else if abs {
            stack
        } else {
            stack.push(c)
        }
    } else {
        stack.push(c)
    }
}

pub open spec fn normalized_components(comps: Seq<Seq<char>>, abs: bool) -> Seq<Seq<char>>
    decreases comps.len(),
{
    if comps.len() == 0 {
        seq![]
    } else {
        push_component(normalized_components(comps.drop_last(), abs), abs, comps.last())
    }
}

/// `p` with `.` and `..` resolved textually, without the filesystem.
pub open spec fn normalize(p: Seq<char>) -> Seq<char> {
    render(is_absolute(p), normalized_components(components(p), is_absolute(p)))
}

/// `path` made absolute against `base` and normalized.
pub open spec fn resolve_against(path: Seq<char>, base: Seq<char>) -> Seq<char> {
    normalize(join_path(base, path))
}

/// The longest common prefix of two component lists.
pub open spec fn common_prefix(a: Seq<Seq<char>>, b: Seq<Seq<char>>) -> Seq<Seq<char>>
    decreases a.len(),
{
    if a.len() == 0 || b.len() == 0 || a[0] != b[0] {
        seq![]
    } else {
        seq![a[0]] + common_prefix(a.drop_first(), b.drop_first())
    }
}

} // verus!

verus! {

pub proof fn lemma_named_step(parts: Seq<Seq<char>>, i: int)
    requires
        0 <= i < parts.len(),
    ensures
        named(parts.skip(i)) == (if parts[i].len() == 0 || parts[i] == dot() {
            named(parts.skip(i + 1))
        } else {
            seq![parts[i]] + named(parts.skip(i + 1))
        }),
{
    assert(parts.skip(i).drop_first() =~= parts.skip(i + 1));
    assert(parts.skip(i)[0] == parts[i]);
}

pub fn components_of(p: &[char]) -> (r: Vec<Vec<char>>)
    ensures
        views(r@) == components(p@),
{
    let sep: [char; 1] = ['/'];
    assert(sep@ =~= slash());
    let parts = split_by(p, &sep);
    let mut r: Vec<Vec<char>> = Vec::new();
    let mut i: usize = 0;
    assert(views(parts@).skip(0) =~= views(parts@));
    while i < parts.len()
        invariant
            i <= parts@.len(),
            views(parts@) == split(p@, slash()),
            views(r@) + named(views(parts@).skip(i as int)) == components(p@),
        decreases parts.len() - i,
    {
        proof {
            lemma_named_step(views(parts@), i as int);
        }
        let ghost before = views(r@);
        let piece = &parts[i];
        if piece.len() == 0 || (piece.len() == 1 && piece[0] == '.') {
            proof {
                if piece@.len() == 1 {
                    assert(piece@ =~= dot());
                }
            }
        } else {
            proof {
                if piece@ == dot() {
                    assert(piece@[0] == '.');
                }
            }
            r.push(subvec(piece.as_slice(), 0, piece.len()));
            assert(piece@.subrange(0, piece@.len() as int) =~= piece@);
            assert(views(r@) =~= before.push(piece@));
        }
        i += 1;
    }
    assert(views(parts@).skip(i as int) =~= Seq::<Seq<char>>::empty());
    assert(views(r@) =~= components(p@));
    r
}

pub proof fn lemma_join_all_push(s: Seq<Seq<char>>, c: Seq<char>)
    ensures
        join_all(s.push(c)) == (if s.len() == 0 {
            c
        } else {
            join_all(s) + slash() + c
        }),
    decreases s.len(),
{
    if s.len() == 0 {
        assert(s.push(c) =~= seq![c]);
        assert(join_all(seq![c]) == c);
    } else if s.len() == 1 {
        assert(s.push(c).drop_first() =~= seq![c]);
        assert(join_all(seq![c]) == c);
        assert(s.push(c)[0] == s[0]);
    } else {
        lemma_join_all_push(s.drop_first(), c);
        assert(s.push(c).drop_first() =~= s.drop_first().push(c));
        assert(join_all(s.push(c)) =~= s[0] + slash() + (join_all(s.drop_first()) + slash() + c));
    }
}

/// `comps` joined with `/`.
pub fn join_components(comps: &[Vec<char>]) -> (r: Vec<char>)
    ensures
        r@ == join_all(views(comps@)),
{
    let mut r: Vec<char> = Vec::new();
    let mut i: usize = 0;
    while i < comps.len()
        invariant
            i <= comps@.len(),
            r@ == join_all(views(comps@).take(i as int)),
        decreases comps.len() - i,
    {
        let ghost before = views(comps@).take(i as int);
        proof {
            lemma_join_all_push(before, comps@[i as int]@);
            assert(views(comps@).take(i + 1) =~= before.push(comps@[i as int]@));
        }
        if i > 0 {
            r.push('/');
        }
        push_all(&mut r, comps[i].as_slice());
        proof {
            if i > 0 {
                assert(r@ =~= join_all(before) + slash() + comps@[i as int]@);
            }
        }
        i += 1;
    }
    assert(views(comps@).take(comps@.len() as int) =~= views(comps@));
    r
}

pub fn render_path(abs: bool, comps: &[Vec<char>]) -> (r: Vec<char>)
    ensures
        r@ == render(abs, views(comps@)),
{
    let body = join_components(comps);
    if abs {
        let mut r: Vec<char> = Vec::new();
        r.push('/');
        push_all(&mut r, body.as_slice());
        assert(r@ =~= slash() + body@);
        r
    } else {
        body
    }
}

pub fn absolute(p: &[char]) -> (r: bool)
    ensures
        r == is_absolute(p@),
{
    p.len() > 0 && p[0] == '/'
}

/// Whether the components of `a` begin with those of `b`.
fn comps_prefix(a: &Vec<Vec<char>>, b: &Vec<Vec<char>>) -> (r: bool)
    ensures
        r == (views(b@).len() <= views(a@).len() && views(a@).take(views(b@).len() as int) == views(b@)),
{
    if b.len() > a.len() {
        return false;
    }
    let mut i: usize = 0;
    while i < b.len()
        invariant
            b@.len() <= a@.len(),
            i <= b@.len(),
            forall|k: int| 0 <= k < i ==> a@[k]@ == b@[k]@,
        decreases b.len() - i,
    {
        if !chars_eq(a[i].as_slice(), b[i].as_slice()) {
            assert(views(a@).take(views(b@).len() as int)[i as int] != views(b@)[i as int]);
            return false;
        }
        i += 1;
    }
    assert(views(a@).take(views(b@).len() as int) =~= views(b@));
    true
}

pub fn starts_with_path(p: &[char], base: &[char]) -> (r: bool)
    ensures
        r == path_starts_with(p@, base@),
{
    if absolute(p) != absolute(base) {
        return false;
    }
    let pc = components_of(p);
    let bc = components_of(base);
    comps_prefix(&pc, &bc)
}

pub fn strip_prefix_path(p: &[char], base: &[char]) -> (r: Option<Vec<char>>)
    ensures
        r matches Some(v) ==> strip_path_prefix(p@, base@) == Some(v@),
        r is None ==> strip_path_prefix(p@, base@) is None,
{
    if absolute(p) != absolute(base) {
        return None;
    }
    let pc = components_of(p);
    let bc = components_of(base);
    if !comps_prefix(&pc, &bc) {
        return None;
    }
    let rest = pc.as_slice().split_at(bc.len()).1;
    assert(views(rest@) =~= views(pc@).skip(views(bc@).len() as int));
    Some(join_components(rest))
}

pub fn join_paths(base: &[char], rel: &[char]) -> (r: Vec<char>)
    ensures
        r@ == join_path(base@, rel@),
{
    if absolute(rel) || base.len() == 0 {
        return subvec(rel, 0, rel.len());
    }
    let mut r = subvec(base, 0, base.len());
    if base[base.len() - 1] != '/' {
        r.push('/');
    }
    push_all(&mut r, rel);
    proof {
        assert(rel@.subrange(0, rel@.len() as int) =~= rel@);
        assert(base@.subrange(0, base@.len() as int) =~= base@);
    }
    r
}

pub fn file_name_of(p: &[char]) -> (r: Option<Vec<char>>)
    ensures
        r matches Some(v) ==> file_name(p@) == Some(v@),
        r is None ==> file_name(p@) is None,
{
    let c = components_of(p);
    if c.len() == 0 {
        return None;
    }
    let last = &c[c.len() - 1];
    assert(views(c@).last() == last@);
    if last.len() == 2 && last[0] == '.' && last[1] == '.' {
        assert(last@ =~= dotdot());
        return None;
    }
    proof {
        if last@ == dotdot() {
            assert(last@[0] == '.');
        }
    }
    Some(subvec(last.as_slice(), 0, last.len()))
}

pub fn extension_of(p: &[char]) -> (r: Option<Vec<char>>)
    ensures
        r matches Some(v) ==> extension(p@) == Some(v@),
        r is None ==> extension(p@) is None,
{
    match file_name_of(p) {
        None => None,
        Some(n) => {
            let d: [char; 1] = ['.'];
            assert(d@ =~= dot());
            match rfind_str(n.as_slice(), &d) {
                Some(i) => {
                    if i > 0 {
                        proof {
                            lemma_rfind_before(n@, dot(), n@.len() + 1int);
                            assert(occurs_at(n@, dot(), i as int));
                        }
                        let nl = n.len();
                        assert(i < nl);
                        Some(subvec(n.as_slice(), i + 1, nl))
                    } else {
                        None
                    }
                },
                None => None,
            }
        },
    }
}

pub fn parent_of(p: &[char]) -> (r: Option<Vec<char>>)
    ensures
        r matches Some(v) ==> parent(p@) == Some(v@),
        r is None ==> parent(p@) is None,
{
    let c = components_of(p);
    if c.len() == 0 {
        return None;
    }
    let front = c.as_slice().split_at(c.len() - 1).0;
    assert(views(front@) =~= views(c@).drop_last());
    Some(render_path(absolute(p), front))
}

fn is_dotdot(c: &[char]) -> (r: bool)
    ensures
        r == (c@ == dotdot()),
{
    if c.len() == 2 && c[0] == '.' && c[1] == '.' {
        assert(c@ =~= dotdot());
        true
    } else {
        proof {
            if c@ == dotdot() {
                assert(c@[0] == '.' && c@[1] == '.');
            }
        }
        false
    }
}

pub fn normalize_path(p: &[char]) -> (r: Vec<char>)
    ensures
        r@ == normalize(p@),
{
    let abs = absolute(p);
    let comps = components_of(p);
    let mut stack: Vec<Vec<char>> = Vec::new();
    let mut i: usize = 0;
    while i < comps.len()
        invariant
            i <= comps@.len(),
            views(comps@) == components(p@),
            abs == is_absolute(p@),
            views(stack@) == normalized_components(views(comps@).take(i as int), abs),
        decreases comps.len() - i,
    {
        let ghost before = views(stack@);
        proof {
            assert(views(comps@).take(i + 1).drop_last() =~= views(comps@).take(i as int));
            assert(views(comps@).take(i + 1).last() == comps@[i as int]@);
        }
        let c = &comps[i];
        if is_dotdot(c.as_slice()) {
            if stack.len() > 0 && !is_dotdot(stack[stack.len() - 1].as_slice()) {
                assert(before.last() == stack@[stack@.len() - 1]@);
                stack.pop();
                assert(views(stack@) =~= before.drop_last());
            } else if abs {
                proof {
                    if before.len() > 0 {
                        assert(before.last() == stack@[stack@.len() - 1]@);
                    }
                }
            } else {
                proof {
                    if before.len() > 0 {
                        assert(before.last() == stack@[stack@.len() - 1]@);
                    }
                }
                stack.push(subvec(c.as_slice(), 0, c.len()));
                assert(c@.subrange(0, c@.len() as int) =~= c@);
                assert(views(stack@) =~= before.push(c@));
            }
        } else {
            stack.push(subvec(c.as_slice(), 0, c.len()));
            assert(c@.subrange(0, c@.len() as int) =~= c@);
            assert(views(stack@) =~= before.push(c@));
        }
        i += 1;
    }
    assert(views(comps@).take(comps@.len() as int) =~= views(comps@));
    render_path(abs, stack.as_slice())
}

pub fn resolve_path(path: &[char], base: &[char]) -> (r: Vec<char>)
    ensures
        r@ == resolve_against(path@, base@),
{
    let joined = join_paths(base, path);
    normalize_path(joined.as_slice())
}

} // verus!

verus! {

/// The common ancestor of `base` and every path in `paths`, by components.
pub open spec fn common_ancestor_components(base: Seq<Seq<char>>, paths: Seq<Seq<char>>) -> Seq<Seq<char>>
    decreases paths.len(),
{
    if paths.len() == 0 {
        base
    } else {
        common_ancestor_components(common_prefix(base, components(paths[0])), paths.drop_first())
    }
}

/// The deepest directory containing `base` and every path in `paths`.
pub open spec fn common_ancestor(base: Seq<char>, paths: Seq<Seq<char>>) -> Seq<char> {
    render(is_absolute(base), common_ancestor_components(components(base), paths))
}

proof fn lemma_common_prefix_step(a: Seq<Seq<char>>, b: Seq<Seq<char>>, i: int)
    requires
        0 <= i <= a.len(),
        i <= b.len(),
        forall|k: int| 0 <= k < i ==> a[k] == b[k],
    ensures
        common_prefix(a, b) == a.take(i) + common_prefix(a.skip(i), b.skip(i)),
    decreases i,
{
    if i == 0 {
        assert(a.skip(0) =~= a);
        assert(b.skip(0) =~= b);
        assert(a.take(0) =~= Seq::<Seq<char>>::empty());
    } else {
        lemma_common_prefix_step(a.drop_first(), b.drop_first(), i - 1);
        assert(a.drop_first().skip(i - 1) =~= a.skip(i));
        assert(b.drop_first().skip(i - 1) =~= b.skip(i));
        assert(a.take(i) =~= seq![a[0]] + a.drop_first().take(i - 1));
    }
}

fn common_prefix_of(a: &Vec<Vec<char>>, b: &Vec<Vec<char>>) -> (r: Vec<Vec<char>>)
    ensures
        views(r@) == common_prefix(views(a@), views(b@)),
{
    let mut i: usize = 0;
    while i < a.len() && i < b.len() && chars_eq(a[i].as_slice(), b[i].as_slice())
        invariant
            i <= a@.len(),
            i <= b@.len(),
            forall|k: int| 0 <= k < i ==> a@[k]@ == b@[k]@,
        decreases a.len() - i,
    {
        i += 1;
    }
    proof {
        lemma_common_prefix_step(views(a@), views(b@), i as int);
        assert(common_prefix(views(a@).skip(i as int), views(b@).skip(i as int)) =~= Seq::<Seq<char>>::empty());
    }
    let mut r: Vec<Vec<char>> = Vec::new();
    let mut j: usize = 0;
    while j < i
        invariant
            j <= i <= a@.len(),
            views(r@) == views(a@).take(j as int),
        decreases i - j,
    {
        let ghost before = views(r@);
        r.push(subvec(a[j].as_slice(), 0, a[j].len()));
        assert(a@[j as int]@.subrange(0, a@[j as int]@.len() as int) =~= a@[j as int]@);
        assert(views(r@) =~= before.push(a@[j as int]@));
        j += 1;
        assert(views(r@) =~= views(a@).take(j as int));
    }
    assert(views(r@) =~= views(a@).take(i as int) + Seq::<Seq<char>>::empty());
    r
}

/// The deepest directory containing `base` and every path in `paths`.
pub fn common_ancestor_of(base: &[char], paths: &Vec<Vec<char>>) -> (r: Vec<char>)
    ensures
        r@ == common_ancestor(base@, views(paths@)),
{
    let mut acc = components_of(base);
    let mut i: usize = 0;
    assert(views(paths@).skip(0) =~= views(paths@));
    while i < paths.len()
        invariant
            i <= paths@.len(),
            common_ancestor_components(views(acc@), views(paths@).skip(i as int))
                == common_ancestor_components(components(base@), views(paths@)),
        decreases paths.len() - i,
    {
        let c = components_of(paths[i].as_slice());
        let next = common_prefix_of(&acc, &c);
        assert(views(paths@).skip(i as int).drop_first() =~= views(paths@).skip(i + 1));
        acc = next;
        i += 1;
    }
    assert(views(paths@).skip(i as int) =~= Seq::<Seq<char>>::empty());
    render_path(absolute(base), acc.as_slice())
}

/// A path as an escalation shows it: below the build root as `<build>/…`,
/// below the deliverable root as `.../…`, elsewhere as
/// `<outside the deliverable>/…`, never as this machine's absolute path.
pub open spec fn anchored(p: Seq<char>, build_root: Seq<char>, deliverable_root: Seq<char>) -> Seq<char> {
    match strip_path_prefix(p, build_root) {
        Some(rel) => "<build>/"@ + rel,
        None => match strip_path_prefix(p, deliverable_root) {
            Some(rel) => ".../"@ + rel,
            None => "<outside the deliverable>/"@ + join_all(components(p)),
        },
    }
}

/// An escalation never shows this machine's absolute path: a path reads
/// `<build>/…`, `.../…` or `<outside the deliverable>/…`.
pub proof fn law_anchored_paths_are_not_absolute(p: Seq<char>, build_root: Seq<char>, deliverable_root: Seq<char>)
    ensures
        !is_absolute(anchored(p, build_root, deliverable_root)),
        has_prefix(anchored(p, build_root, deliverable_root), "<build>/"@) || has_prefix(
            anchored(p, build_root, deliverable_root),
            ".../"@,
        ) || has_prefix(anchored(p, build_root, deliverable_root), "<outside the deliverable>/"@),
{
    let a = anchored(p, build_root, deliverable_root);
    reveal_strlit("<build>/");
    reveal_strlit(".../");
    reveal_strlit("<outside the deliverable>/");
    match strip_path_prefix(p, build_root) {
        Some(rel) => {
            assert(a[0] == '<');
            assert(a.subrange(0, 8) =~= "<build>/"@);
        },
        None => match strip_path_prefix(p, deliverable_root) {
            Some(rel) => {
                assert(a[0] == '.');
                assert(a.subrange(0, 4) =~= ".../"@);
            },
            None => {
                assert(a[0] == '<');
                assert(a.subrange(0, 26) =~= "<outside the deliverable>/"@);
            },
        },
    }
}

pub fn anchor_for_display(p: &[char], build_root: &[char], deliverable_root: &[char]) -> (r: Vec<char>)
    ensures
        r@ == anchored(p@, build_root@, deliverable_root@),
{
    match strip_prefix_path(p, build_root) {
        Some(rel) => {
            let mut r = crate::text::chars_of("<build>/");
            crate::text::push_all(&mut r, rel.as_slice());
            r
        },
        None => match strip_prefix_path(p, deliverable_root) {
            Some(rel) => {
                let mut r = crate::text::chars_of(".../");
                crate::text::push_all(&mut r, rel.as_slice());
                r
            },
            None => {
                let mut r = crate::text::chars_of("<outside the deliverable>/");
                let c = components_of(p);
                let j = join_components(c.as_slice());
                crate::text::push_all(&mut r, j.as_slice());
                r
            },
        },
    }
}

/// `s` split at each `c`, read character by character.
pub open spec fn split_char(s: Seq<char>, c: char) -> Seq<Seq<char>>
    decreases s.len(),
{
    if s.len() == 0 {
        seq![seq![]]
    } else {
        let rest = split_char(s.drop_first(), c);
        if s[0] == c {
            seq![seq![]] + rest
        } else {
            seq![seq![s[0]] + rest[0]] + rest.drop_first()
        }
    }
}

proof fn lemma_split_char_nonempty(s: Seq<char>, c: char)
    ensures
        split_char(s, c).len() >= 1,
    decreases s.len(),
{
    if s.len() > 0 {
        lemma_split_char_nonempty(s.drop_first(), c);
    }
}

proof fn lemma_split_char_absent(s: Seq<char>, c: char)
    requires
        !s.contains(c),
    ensures
        split_char(s, c) == seq![s],
    decreases s.len(),
{
    if s.len() > 0 {
        assert(!s.drop_first().contains(c)) by {
            if s.drop_first().contains(c) {
                let k = choose|k: int| 0 <= k < s.drop_first().len() && s.drop_first()[k] == c;
                assert(s[k + 1] == c);
            }
        }
        lemma_split_char_absent(s.drop_first(), c);
        assert(s[0] != c);
        let rest = split_char(s.drop_first(), c);
        assert(rest[0] == s.drop_first());
        assert(rest.drop_first() =~= Seq::<Seq<char>>::empty());
        assert(seq![s[0]] + s.drop_first() =~= s);
        assert(split_char(s, c) =~= seq![s]);
    } else {
        assert(s =~= Seq::<char>::empty());
    }
}

proof fn lemma_split_char_at(pre: Seq<char>, c: char, t: Seq<char>)
    requires
        !pre.contains(c),
    ensures
        split_char(pre + seq![c] + t, c) == seq![pre] + split_char(t, c),
    decreases pre.len(),
{
    let s = pre + seq![c] + t;
    if pre.len() == 0 {
        assert(s.drop_first() =~= t);
        assert(s[0] == c);
        assert(pre =~= Seq::<char>::empty());
    } else {
        let p2 = pre.drop_first();
        assert(!p2.contains(c)) by {
            if p2.contains(c) {
                let k = choose|k: int| 0 <= k < p2.len() && p2[k] == c;
                assert(pre[k + 1] == c);
            }
        }
        lemma_split_char_at(p2, c, t);
        assert(s.drop_first() =~= p2 + seq![c] + t);
        assert(s[0] == pre[0]);
        assert(pre[0] != c);
        let rest = split_char(s.drop_first(), c);
        assert(rest == seq![p2] + split_char(t, c));
        assert(rest[0] == p2);
        assert(rest.drop_first() =~= split_char(t, c));
        assert(seq![pre[0]] + p2 =~= pre);
        assert(split_char(s, c) =~= seq![pre] + split_char(t, c));
    }
}

proof fn lemma_split_single(s: Seq<char>, c: char, start: int)
    requires
        0 <= start <= s.len(),
    ensures
        split_from(s, seq![c], start) == split_char(s.skip(start), c),
    decreases s.len() - start,
{
    lemma_find_from(s, seq![c], start);
    match find_from(s, seq![c], start) {
        None => {
            let x = s.skip(start);
            assert(!x.contains(c)) by {
                if x.contains(c) {
                    let k = choose|k: int| 0 <= k < x.len() && x[k] == c;
                    assert(s.subrange(start + k, start + k + 1) =~= seq![c]);
                    assert(occurs_at(s, seq![c], start + k));
                }
            }
            lemma_split_char_absent(x, c);
            assert(s.subrange(start, s.len() as int) =~= x);
        },
        Some(i) => {
            assert(s.subrange(i, i + 1) =~= seq![c]);
            assert(s[i] == c) by {
                assert(s.subrange(i, i + 1)[0] == s[i]);
            }
            lemma_split_single(s, c, i + 1);
            let pre = s.subrange(start, i);
            assert(!pre.contains(c)) by {
                if pre.contains(c) {
                    let k = choose|k: int| 0 <= k < pre.len() && pre[k] == c;
                    assert(s.subrange(start + k, start + k + 1) =~= seq![c]);
                    assert(occurs_at(s, seq![c], start + k));
                }
            }
            assert(s.skip(start) =~= pre + seq![c] + s.skip(i + 1));
            lemma_split_char_at(pre, c, s.skip(i + 1));
        },
    }
}

proof fn lemma_split_char_pieces(s: Seq<char>, c: char)
    ensures
        forall|k: int| 0 <= k < split_char(s, c).len() ==> !(#[trigger] split_char(s, c)[k]).contains(c),
    decreases s.len(),
{
    if s.len() > 0 {
        lemma_split_char_pieces(s.drop_first(), c);
        lemma_split_char_nonempty(s.drop_first(), c);
        let rest = split_char(s.drop_first(), c);
        let r = split_char(s, c);
        assert forall|k: int| 0 <= k < r.len() implies !(#[trigger] r[k]).contains(c) by {
            if s[0] == c {
                if k > 0 {
                    assert(r[k] == rest[k - 1]);
                } else {
                    assert(r[0] =~= Seq::<char>::empty());
                }
            } else {
                if k > 0 {
                    assert(r[k] == rest[k]);
                } else {
                    let h = seq![s[0]] + rest[0];
                    assert(r[0] == h);
                    assert(!rest[0].contains(c));
                    if h.contains(c) {
                        let m = choose|m: int| 0 <= m < h.len() && h[m] == c;
                        if m > 0 {
                            assert(rest[0][m - 1] == c);
                        }
                    }
                }
            }
        }
    }
}

/// A component: non-empty, not `.`, and without a separator.
pub open spec fn is_component(c: Seq<char>) -> bool {
    c.len() > 0 && c != dot() && !c.contains('/')
}

proof fn lemma_named_parts(parts: Seq<Seq<char>>)
    requires
        forall|k: int| 0 <= k < parts.len() ==> !(#[trigger] parts[k]).contains('/'),
    ensures
        forall|k: int| 0 <= k < named(parts).len() ==> is_component(#[trigger] named(parts)[k]),
    decreases parts.len(),
{
    if parts.len() > 0 {
        let t = parts.drop_first();
        assert forall|k: int| 0 <= k < t.len() implies !(#[trigger] t[k]).contains('/') by {
            assert(t[k] == parts[k + 1]);
        }
        lemma_named_parts(t);
        if parts[0].len() == 0 || parts[0] == dot() {
            assert(named(parts) == named(t));
        } else {
            assert(named(parts) == seq![parts[0]] + named(t));
            let r = named(parts);
            assert forall|k: int| 0 <= k < r.len() implies is_component(#[trigger] r[k]) by {
                if k > 0 {
                    assert(r[k] == named(t)[k - 1]);
                } else {
                    assert(r[0] == parts[0]);
                    assert(!parts[0].contains('/'));
                }
            }
        }
    }
}

/// Every component of a path is a component.
pub proof fn lemma_components_are_components(p: Seq<char>)
    ensures
        forall|k: int| 0 <= k < components(p).len() ==> is_component(#[trigger] components(p)[k]),
{
    lemma_split_single(p, '/', 0);
    assert(p.skip(0) =~= p);
    assert(slash() =~= seq!['/']);
    lemma_split_char_pieces(p, '/');
    lemma_named_parts(split(p, slash()));
}

proof fn lemma_named_of_components(cs: Seq<Seq<char>>)
    requires
        forall|k: int| 0 <= k < cs.len() ==> is_component(#[trigger] cs[k]),
    ensures
        named(cs) == cs,
    decreases cs.len(),
{
    if cs.len() > 0 {
        let t = cs.drop_first();
        assert forall|k: int| 0 <= k < t.len() implies is_component(#[trigger] t[k]) by {
            assert(t[k] == cs[k + 1]);
        }
        lemma_named_of_components(t);
        assert(is_component(cs[0]));
        assert(seq![cs[0]] + t =~= cs);
    }
}

proof fn lemma_split_join(cs: Seq<Seq<char>>)
    requires
        cs.len() >= 1,
        forall|k: int| 0 <= k < cs.len() ==> !(#[trigger] cs[k]).contains('/'),
    ensures
        split_char(join_all(cs), '/') == cs,
    decreases cs.len(),
{
    if cs.len() == 1 {
        lemma_split_char_absent(cs[0], '/');
        assert(seq![cs[0]] =~= cs);
    } else {
        let t = cs.drop_first();
        assert forall|k: int| 0 <= k < t.len() implies !(#[trigger] t[k]).contains('/') by {
            assert(t[k] == cs[k + 1]);
        }
        lemma_split_join(t);
        assert(join_all(cs) == cs[0] + slash() + join_all(t));
        assert(slash() =~= seq!['/']);
        lemma_split_char_at(cs[0], '/', join_all(t));
        assert(seq![cs[0]] + t =~= cs);
    }
}

/// Components written out read back as the same components.
pub proof fn lemma_components_of_join(cs: Seq<Seq<char>>)
    requires
        forall|k: int| 0 <= k < cs.len() ==> is_component(#[trigger] cs[k]),
    ensures
        components(join_all(cs)) == cs,
        components(render(true, cs)) == cs,
        cs.len() > 0 ==> !is_absolute(join_all(cs)),
        is_absolute(render(true, cs)),
{
    let j = join_all(cs);
    assert(slash() =~= seq!['/']);
    lemma_split_single(j, '/', 0);
    assert(j.skip(0) =~= j);
    let r = render(true, cs);
    lemma_split_single(r, '/', 0);
    assert(r.skip(0) =~= r);
    assert(r == slash() + j);
    assert(r =~= Seq::<char>::empty() + seq!['/'] + j);
    lemma_split_char_at(Seq::<char>::empty(), '/', j);
    assert(r[0] == '/');
    if cs.len() == 0 {
        assert(j =~= Seq::<char>::empty());
        assert(split_char(j, '/') =~= seq![Seq::<char>::empty()]);
        assert(named(seq![Seq::<char>::empty()]) == named(seq![Seq::<char>::empty()].drop_first()));
        assert(seq![Seq::<char>::empty()].drop_first() =~= Seq::<Seq<char>>::empty());
        let two = seq![Seq::<char>::empty()] + seq![Seq::<char>::empty()];
        assert(two.drop_first() =~= seq![Seq::<char>::empty()]);
        assert(named(two) == named(two.drop_first()));
    } else {
        assert forall|k: int| 0 <= k < cs.len() implies !(#[trigger] cs[k]).contains('/') by {
            assert(is_component(cs[k]));
        }
        lemma_split_join(cs);
        lemma_named_of_components(cs);
        let w = seq![Seq::<char>::empty()] + cs;
        assert(w.drop_first() =~= cs);
        assert(named(w) == named(w.drop_first()));
        lemma_join_first(cs);
    }
}

proof fn lemma_join_first(cs: Seq<Seq<char>>)
    requires
        cs.len() > 0,
        cs[0].len() > 0,
    ensures
        join_all(cs).len() > 0,
        join_all(cs)[0] == cs[0][0],
{
    if cs.len() > 1 {
        assert(join_all(cs) == cs[0] + slash() + join_all(cs.drop_first()));
    }
}

proof fn lemma_normalized_abs(comps: Seq<Seq<char>>)
    requires
        forall|k: int| 0 <= k < comps.len() ==> is_component(#[trigger] comps[k]),
    ensures
        forall|k: int|
            0 <= k < normalized_components(comps, true).len() ==> is_component(
                #[trigger] normalized_components(comps, true)[k],
            ) && normalized_components(comps, true)[k] != dotdot(),
    decreases comps.len(),
{
    if comps.len() > 0 {
        let t = comps.drop_last();
        assert forall|k: int| 0 <= k < t.len() implies is_component(#[trigger] t[k]) by {
            assert(t[k] == comps[k]);
        }
        lemma_normalized_abs(t);
        let st = normalized_components(t, true);
        let r = normalized_components(comps, true);
        assert(r == push_component(st, true, comps.last()));
        assert forall|k: int| 0 <= k < r.len() implies is_component(#[trigger] r[k]) && r[k] != dotdot() by {
            if comps.last() == dotdot() {
                if st.len() > 0 && st.last() != dotdot() {
                    assert(r[k] == st[k]);
                } else {
                    assert(r[k] == st[k]);
                }
            } else {
                if k < st.len() {
                    assert(r[k] == st[k]);
                } else {
                    assert(r[k] == comps.last());
                    assert(is_component(comps[comps.len() - 1]));
                }
            }
        }
    }
}

/// What remains of a normalized absolute path below a base is written
/// from components, none of them `..`.
pub proof fn lemma_strip_normalized(p: Seq<char>, base: Seq<char>)
    requires
        is_absolute(p),
    ensures
        strip_path_prefix(normalize(p), base) matches Some(r) ==> !is_absolute(r) && !components(r).contains(
            dotdot(),
        ),
{
    lemma_components_are_components(p);
    lemma_normalized_abs(components(p));
    let nc = normalized_components(components(p), true);
    lemma_components_of_join(nc);
    let n = normalize(p);
    assert(n == render(true, nc));
    assert(components(n) == nc);
    match strip_path_prefix(n, base) {
        None => {},
        Some(r) => {
            let tail = nc.skip(components(base).len() as int);
            assert(r == join_all(tail));
            assert forall|k: int| 0 <= k < tail.len() implies is_component(#[trigger] tail[k]) by {
                assert(tail[k] == nc[k + components(base).len()]);
            }
            lemma_components_of_join(tail);
            if tail.len() == 0 {
                assert(join_all(tail) =~= Seq::<char>::empty());
            }
            if tail.contains(dotdot()) {
                let k = choose|k: int| 0 <= k < tail.len() && tail[k] == dotdot();
                assert(tail[k] == nc[k + components(base).len()]);
            }
        },
    }
}

/// A path joined onto an absolute one is absolute.
pub proof fn lemma_join_absolute(base: Seq<char>, rel: Seq<char>)
    requires
        is_absolute(base),
    ensures
        is_absolute(join_path(base, rel)),
{
    let a = join_path(base, rel);
    if !is_absolute(rel) {
        if base.last() == '/' {
            assert(a == base + rel);
            assert(a[0] == base[0]);
        } else {
            assert(a == base + slash() + rel);
            assert(a[0] == base[0]);
        }
    }
}

} // verus!
