//! The Autotools frontend: a build graph recovered from the build's own
//! output.
//!
//! Where `cmake_api` reads a structured reply, this reads the build
//! system's resolved command stream: make echoes every command it runs,
//! fully expanded (`V=1`), so the stdout of the real build is the input.
//! Target names come from a second source, make's variable database
//! (`make -p -n`), because the stream shows only `-o greeter` while
//! `bin_PROGRAMS = greeter` is the name automake uses.
//!
//! Running `configure` and `make` is I/O and stays with the caller, which
//! hands the captured text in; everything decided from it is here.

use vstd::prelude::*;
use crate::model::pairs;
pub use crate::autotools_discover::{discover, AutotoolsError};
use crate::paths::{
    file_name, file_name_of, is_absolute, parent, parent_of, strip_path_prefix, strip_prefix_path,
};
use crate::text::{
    chars, chars_eq, chars_of, contains, contains_str, ends_with, find, find_from, find_str, has_prefix,
    has_suffix, is_ascii_digit, is_ascii_upper, is_whitespace, is_ws, lex_less, lex_lt, lines,
    lines_of, one_of, rsplit_once, rsplit_once_at, split, split_by, split_once, split_once_at,
    split_whitespace, split_ws, starts_with, string_of, strip_prefix, strip_prefix_of, strs,
    subvec, trim, trim_end_by, trim_end_set, trim_start_by, trim_start_set, trim_ws, views,
};

verus! {

/// One resolved command from the build stream: the program, its arguments
/// with shell noise removed, and the directory it ran in. Recursive make
/// runs each subdirectory's commands from there, so a relative path in
/// `args` is relative to `dir`, not to the build root.
#[derive(Debug, Clone, PartialEq, Eq)]
pub struct BuildCommand {
    pub program: String,
    pub args: Vec<String>,
    pub dir: String,
}

/// A command as plain values: program, arguments, directory.
pub open spec fn command_view(c: BuildCommand) -> (Seq<char>, Seq<Seq<char>>, Seq<char>) {
    (c.program@, strs(c.args@), c.dir@)
}

pub open spec fn commands_view(cs: Seq<BuildCommand>) -> Seq<(Seq<char>, Seq<Seq<char>>, Seq<char>)> {
    cs.map_values(|c: BuildCommand| command_view(c))
}

/// The tokenizer's state: tokens so far, the token being read, the open
/// quote, and whether the previous character was a backslash.
pub open spec fn tok_step(
    st: (Seq<Seq<char>>, Seq<char>, Option<char>, bool),
    c: char,
) -> (Seq<Seq<char>>, Seq<char>, Option<char>, bool) {
    let (tokens, cur, quote, escaped) = st;
    if escaped {
        (tokens, cur.push(c), quote, false)
    } else if c == '\\' {
        (tokens, cur, quote, true)
    } else if (c == '"' || c == '\'') && quote is None {
        (tokens, cur, Some(c), escaped)
    } else if quote == Some(c) {
        (tokens, cur, None, escaped)
    } else if is_ws(c) && quote is None {
        if cur.len() > 0 {
            (tokens.push(cur), seq![], quote, escaped)
        } else {
            st
        }
    } else {
        (tokens, cur.push(c), quote, escaped)
    }
}

pub open spec fn tok_run(s: Seq<char>) -> (Seq<Seq<char>>, Seq<char>, Option<char>, bool)
    decreases s.len(),
{
    if s.len() == 0 {
        (seq![], seq![], None, false)
    } else {
        tok_step(tok_run(s.drop_last()), s.last())
    }
}

/// The tokens of a command line: split on whitespace outside quotes, the
/// quotes themselves dropped, a backslash keeping the next character.
pub open spec fn tokens_of(s: Seq<char>) -> Seq<Seq<char>> {
    let st = tok_run(s);
    if st.1.len() > 0 {
        st.0.push(st.1)
    } else {
        st.0
    }
}

/// Splits a command into tokens, honouring quotes but expanding nothing:
/// make's output is already expanded, so the only job is to keep a quoted
/// `-DPACKAGE_STRING="greeter 1.0"` in one piece.
pub fn tokenize(line: &[char]) -> (r: Vec<String>)
    ensures
        strs(r@) == tokens_of(line@),
{
    let mut tokens: Vec<String> = Vec::new();
    let mut current: Vec<char> = Vec::new();
    let mut quote: Option<char> = None;
    let mut escaped = false;
    let mut i: usize = 0;
    while i < line.len()
        invariant
            i <= line@.len(),
            (strs(tokens@), current@, quote, escaped) == tok_run(line@.take(i as int)),
        decreases line.len() - i,
    {
        let c = line[i];
        proof {
            assert(line@.take(i + 1).drop_last() =~= line@.take(i as int));
            assert(line@.take(i + 1).last() == c);
        }
        let ghost before = strs(tokens@);
        if escaped {
            current.push(c);
            escaped = false;
        } else if c == '\\' {
            escaped = true;
        } else if (c == '"' || c == '\'') && quote.is_none() {
            quote = Some(c);
        } else if quote == Some(c) {
            quote = None;
        } else if is_whitespace(c) && quote.is_none() {
            if current.len() > 0 {
                let t = string_of(current.as_slice());
                tokens.push(t);
                assert(strs(tokens@) =~= before.push(current@));
                current = Vec::new();
            }
        } else {
            current.push(c);
        }
        i += 1;
    }
    assert(line@.take(line@.len() as int) =~= line@);
    if current.len() > 0 {
        let ghost before = strs(tokens@);
        tokens.push(string_of(current.as_slice()));
        assert(strs(tokens@) =~= before.push(current@));
    }
    tokens
}

/// The directory a `make[N]: Entering directory '...'` line announces.
pub open spec fn entering(line: Seq<char>) -> Option<Seq<char>> {
    match split_once(line, "Entering directory "@) {
        Some((_, rest)) => Some(
            trim_end_by(trim_start_by(trim(rest), one_of(seq!['\'', '`'])), one_of(seq!['\'', '`'])),
        ),
        None => None,
    }
}

pub fn entering_directory(line: &[char]) -> (r: Option<Vec<char>>)
    ensures
        r matches Some(d) ==> entering(line@) == Some(d@),
        r is None ==> entering(line@) is None,
{
    let pat = chars_of("Entering directory ");
    match split_once_at(line, pat.as_slice()) {
        Some((_, rest)) => {
            let q: [char; 2] = ['\'', '`'];
            assert(q@ =~= seq!['\'', '`']);
            let t = trim_ws(rest.as_slice());
            let a = trim_start_set(t.as_slice(), &q);
            Some(trim_end_set(a.as_slice(), &q))
        },
        None => None,
    }
}

/// Whether a line announces make leaving a directory.
pub open spec fn leaving(line: Seq<char>) -> bool {
    contains(line, "Leaving directory "@)
}

pub fn leaving_directory(line: &[char]) -> (r: bool)
    ensures
        r == leaving(line@),
{
    let pat = chars_of("Leaving directory ");
    let r = find_str(line, pat.as_slice());
    r.is_some()
}

/// One of libtool's own options, which sit between `libtool` and the
/// command it wraps.
pub open spec fn libtool_flag(t: Seq<char>) -> bool {
    ||| has_prefix(t, "--tag="@)
    ||| has_prefix(t, "--mode="@)
    ||| t == "--silent"@
    ||| t == "--quiet"@
    ||| t == "--verbose"@
}

pub fn is_libtool_flag(t: &[char]) -> (r: bool)
    ensures
        r == libtool_flag(t@),
{
    crate::text::starts_with(t, chars_of("--tag=").as_slice())
        || crate::text::starts_with(t, chars_of("--mode=").as_slice())
        || crate::text::chars_eq(t, chars_of("--silent").as_slice())
        || crate::text::chars_eq(t, chars_of("--quiet").as_slice())
        || crate::text::chars_eq(t, chars_of("--verbose").as_slice())
}

/// A shell the real command is run through: its file name is `bash`, `sh`
/// or `libtool`.
pub open spec fn shell_wrapper(t: Seq<char>) -> bool {
    match file_name(t) {
        Some(n) => n == "bash"@ || n == "sh"@ || n == "libtool"@,
        None => false,
    }
}

pub fn is_shell_wrapper(t: &[char]) -> (r: bool)
    ensures
        r == shell_wrapper(t@),
{
    match file_name_of(t) {
        Some(n) => crate::text::chars_eq(n.as_slice(), chars_of("bash").as_slice())
            || crate::text::chars_eq(n.as_slice(), chars_of("sh").as_slice())
            || crate::text::chars_eq(n.as_slice(), chars_of("libtool").as_slice()),
        None => false,
    }
}

/// The programs whose commands produce a build output worth modelling.
/// `ranlib` is absent: it indexes an archive `ar` already made.
pub open spec fn build_program(p: Seq<char>) -> bool {
    ||| p == "gcc"@
    ||| p == "g++"@
    ||| p == "cc"@
    ||| p == "c++"@
    ||| p == "clang"@
    ||| p == "clang++"@
    ||| p == "ar"@
}

pub fn is_build_program(p: &[char]) -> (r: bool)
    ensures
        r == build_program(p@),
{
    crate::text::chars_eq(p, chars_of("gcc").as_slice()) || crate::text::chars_eq(
        p,
        chars_of("g++").as_slice(),
    ) || crate::text::chars_eq(p, chars_of("cc").as_slice()) || crate::text::chars_eq(
        p,
        chars_of("c++").as_slice(),
    ) || crate::text::chars_eq(p, chars_of("clang").as_slice()) || crate::text::chars_eq(
        p,
        chars_of("clang++").as_slice(),
    ) || crate::text::chars_eq(p, chars_of("ar").as_slice())
}

/// A piece of a line, trimmed, with the trailing backslash of a continued
/// line dropped.
pub open spec fn clean_piece(p: Seq<char>) -> Seq<char> {
    trim(trim_end_by(trim(p), one_of(seq!['\\'])))
}

/// The tokens after the leading shell wrappers and libtool options.
pub open spec fn drop_wrappers(t: Seq<Seq<char>>) -> Seq<Seq<char>>
    decreases t.len(),
{
    if t.len() > 0 && (shell_wrapper(t[0]) || libtool_flag(t[0])) {
        drop_wrappers(t.drop_first())
    } else {
        t
    }
}

/// A program token as a name: its file name, where it has one.
pub open spec fn program_name(t: Seq<char>) -> Seq<char> {
    match file_name(t) {
        Some(n) => n,
        None => t,
    }
}

/// The build command one piece of a line holds: its program and
/// arguments, when the program builds something.
pub open spec fn piece_command(p: Seq<char>) -> Option<(Seq<char>, Seq<Seq<char>>)> {
    let q = clean_piece(p);
    let toks = drop_wrappers(tokens_of(q));
    if q.len() == 0 || tokens_of(q).len() == 0 || toks.len() == 0 {
        None
    } else if build_program(program_name(toks[0])) {
        Some((program_name(toks[0]), toks.drop_first()))
    } else {
        None
    }
}

/// A piece the parser can read: one whose tokens are not all wrappers.
pub open spec fn piece_ok(p: Seq<char>) -> bool {
    let q = clean_piece(p);
    q.len() == 0 || tokens_of(q).len() == 0 || drop_wrappers(tokens_of(q)).len() > 0
}

/// The `;`-separated pieces of each `&&`-separated part, in order.
pub open spec fn semicolon_pieces(parts: Seq<Seq<char>>) -> Seq<Seq<char>>
    decreases parts.len(),
{
    if parts.len() == 0 {
        seq![]
    } else {
        semicolon_pieces(parts.drop_last()) + split(parts.last(), seq![';'])
    }
}

/// The commands a line joins with `&&` and `;`.
pub open spec fn pieces(line: Seq<char>) -> Seq<Seq<char>> {
    semicolon_pieces(split(line, "&&"@))
}

pub open spec fn piece_commands(ps: Seq<Seq<char>>, dir: Seq<char>) -> Seq<
    (Seq<char>, Seq<Seq<char>>, Seq<char>),
>
    decreases ps.len(),
{
    if ps.len() == 0 {
        seq![]
    } else {
        piece_commands(ps.drop_last(), dir) + match piece_command(ps.last()) {
            Some((p, a)) => seq![(p, a, dir)],
            None => seq![],
        }
    }
}

/// One line read against the stack of directories make has entered.
pub open spec fn stream_step(
    st: (Seq<Seq<char>>, Seq<(Seq<char>, Seq<Seq<char>>, Seq<char>)>),
    line: Seq<char>,
) -> (Seq<Seq<char>>, Seq<(Seq<char>, Seq<Seq<char>>, Seq<char>)>) {
    match entering(line) {
        Some(d) => (st.0.push(d), st.1),
        None => if leaving(line) {
            (if st.0.len() > 1 { st.0.drop_last() } else { st.0 }, st.1)
        } else {
            (st.0, st.1 + piece_commands(pieces(line), st.0.last()))
        },
    }
}

pub open spec fn stream_run(ls: Seq<Seq<char>>, base: Seq<char>) -> (
    Seq<Seq<char>>,
    Seq<(Seq<char>, Seq<Seq<char>>, Seq<char>)>,
)
    decreases ls.len(),
{
    if ls.len() == 0 {
        (seq![base], seq![])
    } else {
        stream_step(stream_run(ls.drop_last(), base), ls.last())
    }
}

/// The build commands of a stream whose top-level make ran in `base`.
pub open spec fn parsed_commands(stdout: Seq<char>, base: Seq<char>) -> Seq<
    (Seq<char>, Seq<Seq<char>>, Seq<char>),
> {
    stream_run(lines(stdout), base).1
}

/// Every command line of the stream can be read: none consists of shell
/// wrappers and libtool options alone.
pub open spec fn stream_ok(stdout: Seq<char>) -> bool {
    forall|k: int, j: int|
        0 <= k < lines(stdout).len() && entering(lines(stdout)[k]) is None && !leaving(
            lines(stdout)[k],
        ) && 0 <= j < pieces(lines(stdout)[k]).len() ==> piece_ok(
            #[trigger] pieces(lines(stdout)[k])[j],
        )
}

proof fn lemma_piece_commands_append(a: Seq<Seq<char>>, b: Seq<Seq<char>>, dir: Seq<char>)
    ensures
        piece_commands(a + b, dir) == piece_commands(a, dir) + piece_commands(b, dir),
    decreases b.len(),
{
    if b.len() == 0 {
        assert(a + b =~= a);
        assert(piece_commands(a, dir) + piece_commands(b, dir) =~= piece_commands(a, dir));
    } else {
        lemma_piece_commands_append(a, b.drop_last(), dir);
        assert((a + b).drop_last() =~= a + b.drop_last());
        assert((a + b).last() == b.last());
    }
}

fn piece_ok_exec(piece: &[char]) -> (r: bool)
    ensures
        r == piece_ok(piece@),
{
    let bs: [char; 1] = ['\\'];
    assert(bs@ =~= seq!['\\']);
    let t = trim_ws(piece);
    let t2 = trim_end_set(t.as_slice(), &bs);
    let q = trim_ws(t2.as_slice());
    if q.len() == 0 {
        return true;
    }
    let toks = tokenize(q.as_slice());
    if toks.len() == 0 {
        return true;
    }
    let k = skip_wrappers(&toks);
    k < toks.len()
}

/// How many leading tokens are wrappers.
fn skip_wrappers(toks: &Vec<String>) -> (k: usize)
    ensures
        k <= toks@.len(),
        drop_wrappers(strs(toks@)) == strs(toks@).skip(k as int),
{
    let mut k: usize = 0;
    assert(strs(toks@).skip(0) =~= strs(toks@));
    while k < toks.len() && (is_shell_wrapper(chars(&toks[k]).as_slice()) || is_libtool_flag(
        chars(&toks[k]).as_slice(),
    ))
        invariant
            k <= toks@.len(),
            drop_wrappers(strs(toks@)) == drop_wrappers(strs(toks@).skip(k as int)),
        decreases toks.len() - k,
    {
        assert(strs(toks@).skip(k as int)[0] == toks@[k as int]@);
        assert(strs(toks@).skip(k as int).drop_first() =~= strs(toks@).skip(k + 1));
        k += 1;
    }
    proof {
        if k < toks@.len() {
            assert(strs(toks@).skip(k as int)[0] == toks@[k as int]@);
        }
    }
    k
}

fn push_piece_command(commands: &mut Vec<BuildCommand>, piece: &[char], dir: &[char])
    requires
        piece_ok(piece@),
    ensures
        commands_view(final(commands)@) == commands_view(old(commands)@) + match piece_command(
            piece@,
        ) {
            Some((p, a)) => seq![(p, a, dir@)],
            None => seq![],
        },
{
    let ghost start = commands_view(commands@);
    let bs: [char; 1] = ['\\'];
    assert(bs@ =~= seq!['\\']);
    let t = trim_ws(piece);
    let t2 = trim_end_set(t.as_slice(), &bs);
    let q = trim_ws(t2.as_slice());
    if q.len() == 0 {
        assert(start =~= start + Seq::empty());
        return;
    }
    let toks = tokenize(q.as_slice());
    if toks.len() == 0 {
        assert(start =~= start + Seq::empty());
        return;
    }
    let k = skip_wrappers(&toks);
    let tok = chars(&toks[k]);
    assert(strs(toks@).skip(k as int)[0] == tok@);
    let program = match file_name_of(tok.as_slice()) {
        Some(n) => n,
        None => tok,
    };
    if !is_build_program(program.as_slice()) {
        assert(start =~= start + Seq::empty());
        return;
    }
    let mut args: Vec<String> = Vec::new();
    let mut j = k + 1;
    while j < toks.len()
        invariant
            k < j <= toks@.len(),
            strs(args@) == strs(toks@).subrange(k + 1, j as int),
        decreases toks.len() - j,
    {
        let ghost before = strs(args@);
        let a = toks[j].clone();
        assert(a@ == toks@[j as int]@);
        args.push(a);
        j += 1;
        assert(strs(args@) =~= before.push(a@));
        assert(strs(args@) =~= strs(toks@).subrange(k + 1, j as int));
    }
    assert(strs(toks@).skip(k as int).drop_first() =~= strs(toks@).subrange(
        k + 1,
        toks@.len() as int,
    ));
    let c = BuildCommand { program: string_of(program.as_slice()), args, dir: string_of(dir) };
    commands.push(c);
    assert(commands_view(commands@) =~= start.push(command_view(c)));
}

fn push_line_commands(commands: &mut Vec<BuildCommand>, line: &[char], dir: &[char])
    requires
        forall|j: int| 0 <= j < pieces(line@).len() ==> piece_ok(#[trigger] pieces(line@)[j]),
    ensures
        commands_view(final(commands)@) == commands_view(old(commands)@) + piece_commands(
            pieces(line@),
            dir@,
        ),
{
    let ghost start = commands_view(commands@);
    proof {
        reveal_strlit("&&");
    }
    let amp = chars_of("&&");
    let parts = split_by(line, amp.as_slice());
    let ghost ps = views(parts@);
    let semi: [char; 1] = [';'];
    assert(semi@ =~= seq![';']);
    let mut i: usize = 0;
    assert(ps.take(0) =~= Seq::<Seq<char>>::empty());
    while i < parts.len()
        invariant
            i <= parts@.len(),
            ps == views(parts@),
            ps == split(line@, "&&"@),
            semi@ == seq![';'],
            forall|j: int| 0 <= j < pieces(line@).len() ==> piece_ok(#[trigger] pieces(line@)[j]),
            commands_view(commands@) == start + piece_commands(semicolon_pieces(ps.take(i as int)), dir@),
        decreases parts.len() - i,
    {
        proof {
            assert(ps.take(i + 1).drop_last() =~= ps.take(i as int));
            assert(ps.take(i + 1).last() == parts@[i as int]@);
            lemma_semicolon_prefix(ps, i as int);
        }
        let subs = split_by(parts[i].as_slice(), &semi);
        let ghost ss = views(subs@);
        let ghost mid = commands_view(commands@);
        let mut j: usize = 0;
        assert(ss.take(0) =~= Seq::<Seq<char>>::empty());
        while j < subs.len()
            invariant
                j <= subs@.len(),
                ss == views(subs@),
                ss == split(parts@[i as int]@, seq![';']),
                semicolon_pieces(ps.take(i + 1)) == semicolon_pieces(ps.take(i as int)) + ss,
                semicolon_pieces(ps.take(i + 1)).len() <= pieces(line@).len(),
                forall|m: int| 0 <= m < semicolon_pieces(ps.take(i + 1)).len() ==>
                    semicolon_pieces(ps.take(i + 1))[m] == pieces(line@)[m],
                forall|j: int| 0 <= j < pieces(line@).len() ==> piece_ok(#[trigger] pieces(line@)[j]),
                commands_view(commands@) == mid + piece_commands(ss.take(j as int), dir@),
            decreases subs.len() - j,
        {
            proof {
                let m = semicolon_pieces(ps.take(i as int)).len() + j;
                assert(semicolon_pieces(ps.take(i + 1))[m] == ss[j as int]);
                assert(pieces(line@)[m] == ss[j as int]);
                assert(ss.take(j + 1).drop_last() =~= ss.take(j as int));
                assert(ss.take(j + 1).last() == subs@[j as int]@);
            }
            push_piece_command(commands, subs[j].as_slice(), dir);
            j += 1;
        }
        proof {
            assert(ss.take(ss.len() as int) =~= ss);
            lemma_piece_commands_append(semicolon_pieces(ps.take(i as int)), ss, dir@);
        }
        i += 1;
    }
    assert(ps.take(ps.len() as int) =~= ps);
}

/// `semicolon_pieces` of a longer prefix extends that of a shorter one.
proof fn lemma_semicolon_prefix(ps: Seq<Seq<char>>, i: int)
    requires
        0 <= i < ps.len(),
    ensures
        semicolon_pieces(ps.take(i + 1)) == semicolon_pieces(ps.take(i)) + split(ps[i], seq![';']),
        forall|m: int| 0 <= m < semicolon_pieces(ps.take(i + 1)).len() ==>
            semicolon_pieces(ps.take(i + 1))[m] == #[trigger] semicolon_pieces(ps)[m],
        semicolon_pieces(ps.take(i + 1)).len() <= semicolon_pieces(ps).len(),
    decreases ps.len() - i,
{
    assert(ps.take(i + 1).drop_last() =~= ps.take(i));
    if i + 1 == ps.len() {
        assert(ps.take(i + 1) =~= ps);
    } else {
        lemma_semicolon_prefix(ps, i + 1);
        assert(ps.take(i + 2).drop_last() =~= ps.take(i + 1));
    }
}

/// Splits make's output into the commands that build something: the
/// compilers and `ar`, each with the directory make was in when it ran
/// it. Everything else (shell bookkeeping, make's chatter, `ranlib`) is
/// ignored, so an unrecognised line is skipped rather than misread.
pub fn parse_commands(stdout: &str, build_dir: &str) -> (r: Vec<BuildCommand>)
    requires
        stream_ok(stdout@),
    ensures
        commands_view(r@) == parsed_commands(stdout@, build_dir@),
{
    let text = chars_of(stdout);
    let ls = lines_of(text.as_slice());
    let ghost lv = views(ls@);
    assert(lv =~= lines(stdout@));
    let mut dirs: Vec<Vec<char>> = Vec::new();
    dirs.push(chars_of(build_dir));
    let mut commands: Vec<BuildCommand> = Vec::new();
    let mut i: usize = 0;
    assert(views(dirs@) =~= seq![build_dir@]);
    assert(commands_view(commands@) =~= Seq::<(Seq<char>, Seq<Seq<char>>, Seq<char>)>::empty());
    while i < ls.len()
        invariant
            i <= ls@.len(),
            lv == views(ls@),
            lv == lines(stdout@),
            stream_ok(stdout@),
            dirs@.len() >= 1,
            (views(dirs@), commands_view(commands@)) == stream_run(lv.take(i as int), build_dir@),
        decreases ls.len() - i,
    {
        proof {
            assert(lv.take(i + 1).drop_last() =~= lv.take(i as int));
            assert(lv.take(i + 1).last() == ls@[i as int]@);
        }
        let line = &ls[i];
        match entering_directory(line.as_slice()) {
            Some(d) => {
                let ghost before = views(dirs@);
                dirs.push(d);
                assert(views(dirs@) =~= before.push(d@));
            },
            None => {
                if leaving_directory(line.as_slice()) {
                    if dirs.len() > 1 {
                        let ghost before = views(dirs@);
                        dirs.pop();
                        assert(views(dirs@) =~= before.drop_last());
                    }
                } else {
                    let cur = &dirs[dirs.len() - 1];
                    assert(views(dirs@).last() == cur@);
                    assert forall|j: int| 0 <= j < pieces(line@).len() implies piece_ok(
                        #[trigger] pieces(line@)[j],
                    ) by {
                        assert(lines(stdout@)[i as int] == line@);
                    }
                    push_line_commands(&mut commands, line.as_slice(), cur.as_slice());
                }
            },
        }
        i += 1;
    }
    assert(lv.take(lv.len() as int) =~= lv);
    commands
}

/// Whether every command line of a stream can be read (see `stream_ok`).
pub fn stream_is_parseable(stdout: &str) -> (r: bool)
    ensures
        r == stream_ok(stdout@),
{
    let text = chars_of(stdout);
    let ls = lines_of(text.as_slice());
    let ghost lv = views(ls@);
    assert(lv =~= lines(stdout@));
    proof {
        reveal_strlit("&&");
    }
    let amp = chars_of("&&");
    let semi: [char; 1] = [';'];
    assert(semi@ =~= seq![';']);
    let mut i: usize = 0;
    while i < ls.len()
        invariant
            i <= ls@.len(),
            lv == views(ls@),
            lv == lines(stdout@),
            amp@ == "&&"@,
            amp@.len() > 0,
            semi@ == seq![';'],
            forall|k: int, j: int|
                0 <= k < i && entering(lv[k]) is None && !leaving(lv[k]) && 0 <= j < pieces(
                    lv[k],
                ).len() ==> piece_ok(#[trigger] pieces(lv[k])[j]),
        decreases ls.len() - i,
    {
        let line = &ls[i];
        assert(lv[i as int] == line@);
        if entering_directory(line.as_slice()).is_none() && !leaving_directory(line.as_slice()) {
            let parts = split_by(line.as_slice(), amp.as_slice());
            let ghost ps = views(parts@);
            let mut p: usize = 0;
            while p < parts.len()
                invariant
                    p <= parts@.len(),
                    ps == views(parts@),
                    ps == split(line@, "&&"@),
                    semi@ == seq![';'],
                    lv == lines(stdout@),
                    i < lv.len(),
                    line@ == lv[i as int],
                    entering(line@) is None,
                    !leaving(line@),
                    forall|m: int| 0 <= m < semicolon_pieces(ps.take(p as int)).len() ==> piece_ok(
                        #[trigger] semicolon_pieces(ps.take(p as int))[m],
                    ),
                decreases parts.len() - p,
            {
                proof {
                    assert(ps.take(p + 1).drop_last() =~= ps.take(p as int));
                    assert(ps.take(p + 1).last() == parts@[p as int]@);
                }
                let subs = split_by(parts[p].as_slice(), &semi);
                let mut q: usize = 0;
                while q < subs.len()
                    invariant
                        q <= subs@.len(),
                        views(subs@) == split(parts@[p as int]@, seq![';']),
                        p < parts@.len(),
                        ps == views(parts@),
                        ps == split(line@, "&&"@),
                        lv == lines(stdout@),
                        i < lv.len(),
                        line@ == lv[i as int],
                        entering(line@) is None,
                        !leaving(line@),
                        forall|m: int| 0 <= m < q ==> piece_ok(#[trigger] subs@[m]@),
                    decreases subs.len() - q,
                {
                    if !piece_ok_exec(subs[q].as_slice()) {
                        proof {
                            let m = semicolon_pieces(ps.take(p as int)).len() + q;
                            lemma_semicolon_prefix(ps, p as int);
                            assert(semicolon_pieces(ps.take(p + 1)) == semicolon_pieces(ps.take(p as int)) + views(subs@));
                            assert(views(subs@)[q as int] == subs@[q as int]@);
                            assert(semicolon_pieces(ps)[m] == subs@[q as int]@);
                            assert(ps.take(ps.len() as int) =~= ps);
                            assert(pieces(lv[i as int])[m] == subs@[q as int]@);
                        }
                        return false;
                    }
                    q += 1;
                }
                proof {
                    assert forall|m: int| 0 <= m < semicolon_pieces(ps.take(p + 1)).len() implies piece_ok(
                        #[trigger] semicolon_pieces(ps.take(p + 1))[m],
                    ) by {
                        let base = semicolon_pieces(ps.take(p as int));
                        lemma_semicolon_prefix(ps, p as int);
                        assert(semicolon_pieces(ps.take(p + 1)) == base + views(subs@));
                        if m >= base.len() {
                            assert(views(subs@)[m - base.len()] == subs@[m - base.len()]@);
                        }
                    }
                }
                p += 1;
            }
            assert(ps.take(ps.len() as int) =~= ps);
        }
        i += 1;
    }
    true
}

/// A pair order: by the first string, then the second.
pub open spec fn pair_lt(x: (Seq<char>, Seq<char>), y: (Seq<char>, Seq<char>)) -> bool {
    lex_lt(x.0, y.0) || (x.0 == y.0 && lex_lt(x.1, y.1))
}

pub open spec fn insert_sorted_pair(r: Seq<(Seq<char>, Seq<char>)>, x: (Seq<char>, Seq<char>)) -> Seq<
    (Seq<char>, Seq<char>),
>
    decreases r.len(),
{
    if r.len() == 0 {
        seq![x]
    } else if x == r[0] {
        r
    } else if pair_lt(x, r[0]) {
        seq![x] + r
    } else {
        seq![r[0]] + insert_sorted_pair(r.drop_first(), x)
    }
}

/// The distinct pairs of `s` in ascending order (`sort` then `dedup`).
pub open spec fn sort_dedup_pairs(s: Seq<(Seq<char>, Seq<char>)>) -> Seq<(Seq<char>, Seq<char>)>
    decreases s.len(),
{
    if s.len() == 0 {
        seq![]
    } else {
        insert_sorted_pair(sort_dedup_pairs(s.drop_last()), s.last())
    }
}

proof fn lemma_insert_sorted_pair_at(r: Seq<(Seq<char>, Seq<char>)>, x: (Seq<char>, Seq<char>), k: int)
    requires
        0 <= k <= r.len(),
        forall|j: int| 0 <= j < k ==> r[j] != x && !pair_lt(x, r[j]),
        k == r.len() || r[k] == x || pair_lt(x, r[k]),
    ensures
        insert_sorted_pair(r, x) == (if k < r.len() && r[k] == x {
            r
        } else {
            r.take(k) + seq![x] + r.skip(k)
        }),
    decreases k,
{
    if k == 0 {
        assert(r.take(0) + seq![x] + r.skip(0) =~= seq![x] + r);
    } else {
        let t = r.drop_first();
        assert forall|j: int| 0 <= j < k - 1 implies t[j] != x && !pair_lt(x, t[j]) by {
            assert(t[j] == r[j + 1]);
        }
        lemma_insert_sorted_pair_at(t, x, k - 1);
        if k < r.len() && r[k] == x {
            assert(seq![r[0]] + t =~= r);
        } else {
            assert(seq![r[0]] + (t.take(k - 1) + seq![x] + t.skip(k - 1)) =~= r.take(k) + seq![x]
                + r.skip(k));
        }
    }
}

fn pair_not_before(p: &(String, String), x: &(String, String)) -> (r: bool)
    ensures
        r == ((p.0@, p.1@) == (x.0@, x.1@) || pair_lt((x.0@, x.1@), (p.0@, p.1@))),
{
    let a0 = chars(&p.0);
    let a1 = chars(&p.1);
    let b0 = chars(&x.0);
    let b1 = chars(&x.1);
    let same0 = chars_eq(a0.as_slice(), b0.as_slice());
    (same0 && chars_eq(a1.as_slice(), b1.as_slice())) || lex_less(b0.as_slice(), a0.as_slice()) || (
    same0 && lex_less(b1.as_slice(), a1.as_slice()))
}

fn insert_sorted_pair_exec(r: &mut Vec<(String, String)>, x: (String, String))
    ensures
        pairs(final(r)@) == insert_sorted_pair(pairs(old(r)@), (x.0@, x.1@)),
{
    let mut k: usize = 0;
    while k < r.len() && !pair_not_before(&r[k], &x)
        invariant
            k <= r@.len(),
            r@ == old(r)@,
            forall|j: int| 0 <= j < k ==> pairs(r@)[j] != (x.0@, x.1@) && !pair_lt((x.0@, x.1@), pairs(r@)[j]),
        decreases r.len() - k,
    {
        k += 1;
    }
    proof {
        lemma_insert_sorted_pair_at(pairs(r@), (x.0@, x.1@), k as int);
    }
    if k < r.len() && chars_eq(chars(&r[k].0).as_slice(), chars(&x.0).as_slice()) && chars_eq(
        chars(&r[k].1).as_slice(),
        chars(&x.1).as_slice(),
    ) {
        assert(pairs(r@)[k as int] == (x.0@, x.1@));
        return;
    }
    let ghost before = r@;
    let ghost xv = (x.0@, x.1@);
    r.insert(k, x);
    assert(pairs(r@) =~= pairs(before).take(k as int) + seq![xv] + pairs(before).skip(k as int));
}

/// The distinct pairs of `v`, sorted.
pub fn sort_dedup_pair_strings(v: &Vec<(String, String)>) -> (r: Vec<(String, String)>)
    ensures
        pairs(r@) == sort_dedup_pairs(pairs(v@)),
{
    let mut r: Vec<(String, String)> = Vec::new();
    let mut i: usize = 0;
    while i < v.len()
        invariant
            i <= v@.len(),
            pairs(r@) == sort_dedup_pairs(pairs(v@).take(i as int)),
        decreases v.len() - i,
    {
        proof {
            assert(pairs(v@).take(i + 1).drop_last() =~= pairs(v@).take(i as int));
            assert(pairs(v@).take(i + 1).last() == pairs(v@)[i as int]);
        }
        let x = (v[i].0.clone(), v[i].1.clone());
        insert_sorted_pair_exec(&mut r, x);
        i += 1;
    }
    assert(pairs(v@).take(v@.len() as int) =~= pairs(v@));
    r
}

/// A sed placeholder name: capitals, digits and `_`.
pub open spec fn placeholder_name(n: Seq<char>) -> bool {
    forall|k: int| 0 <= k < n.len() ==> is_ascii_upper(#[trigger] n[k]) || n[k] == '_' || is_ascii_digit(n[k])
}

pub proof fn lemma_split_once_shorter(s: Seq<char>, pat: Seq<char>)
    requires
        pat.len() > 0,
    ensures
        split_once(s, pat) matches Some((a, b)) ==> a.len() < s.len() && b.len() < s.len(),
{
    crate::text::lemma_find_from(s, pat, 0);
}

/// The `s<open>@''NAME''@<close>VALUE<close>` substitutions of `rest`, in
/// order, for one delimiter.
pub open spec fn subs_from(rest: Seq<char>, open: char) -> Seq<(Seq<char>, Seq<char>)>
    decreases rest.len(),
{
    let marker = seq!['s', open, '@', '\'', '\''];
    match split_once(rest, marker) {
        None => seq![],
        Some((_, after)) => {
            proof {
                lemma_split_once_shorter(rest, marker);
            }
            match split_once(after, "''@"@) {
                None => seq![],
                Some((name, tail)) => if tail.len() > 0 && tail[0] == open {
                    match split_once(tail.drop_first(), seq![open]) {
                        None => seq![],
                        Some((value, remainder)) => {
                            proof {
                                reveal_strlit("''@");
                                lemma_split_once_shorter(after, "''@"@);
                                lemma_split_once_shorter(tail.drop_first(), seq![open]);
                            }
                            (if placeholder_name(name) {
                                seq![(name, value)]
                            } else {
                                seq![]
                            }) + subs_from(remainder, open)
                        },
                    }
                } else {
                    subs_from(after, open)
                },
            }
        },
    }
}

/// Every `s|@''NAME''@|value|` and `s/@''NAME''@/value/` on one line: the
/// `|` form first, then the `/` form. The doubled quotes are automake's
/// escaping, so `configure` does not substitute the placeholder itself.
pub open spec fn sed_subs(line: Seq<char>) -> Seq<(Seq<char>, Seq<char>)> {
    subs_from(line, '|') + subs_from(line, '/')
}

fn subs_exec(line: &[char], open: char, out: &mut Vec<(String, String)>)
    ensures
        pairs(final(out)@) == pairs(old(out)@) + subs_from(line@, open),
{
    let marker: [char; 5] = ['s', open, '@', '\'', '\''];
    let q: [char; 3] = ['\'', '\'', '@'];
    let o: [char; 1] = [open];
    proof {
        reveal_strlit("''@");
    }
    assert(q@ =~= "''@"@);
    assert(o@ =~= seq![open]);
    assert(marker@ =~= seq!['s', open, '@', '\'', '\'']);
    let ghost start = pairs(out@);
    let mut rest: Vec<char> = subvec(line, 0, line.len());
    assert(rest@ =~= line@);
    loop
        invariant
            marker@ == seq!['s', open, '@', '\'', '\''],
            q@ == "''@"@,
            o@ == seq![open],
            start == pairs(old(out)@),
            start + subs_from(line@, open) == pairs(out@) + subs_from(rest@, open),
        decreases rest@.len(),
    {
        let ghost before = pairs(out@);
        match split_once_at(rest.as_slice(), &marker) {
            None => {
                assert(before =~= before + subs_from(rest@, open));
                return;
            },
            Some((_, after)) => {
                proof {
                    lemma_split_once_shorter(rest@, marker@);
                }
                match split_once_at(after.as_slice(), &q) {
                    None => {
                        assert(before =~= before + subs_from(rest@, open));
                        return;
                    },
                    Some((name, tail)) => {
                        if tail.len() > 0 && tail[0] == open {
                            let t = subvec(tail.as_slice(), 1, tail.len());
                            assert(t@ =~= tail@.drop_first());
                            match split_once_at(t.as_slice(), &o) {
                                None => {
                                    assert(before =~= before + subs_from(rest@, open));
                                    return;
                                },
                                Some((value, remainder)) => {
                                    proof {
                                        lemma_split_once_shorter(after@, q@);
                                        lemma_split_once_shorter(t@, o@);
                                    }
                                    if is_placeholder(name.as_slice()) {
                                        out.push((string_of(name.as_slice()), string_of(value.as_slice())));
                                        assert(pairs(out@) =~= before.push((name@, value@)));
                                    }
                                    rest = remainder;
                                },
                            }
                        } else {
                            rest = after;
                        }
                    },
                }
            },
        }
    }
}

fn is_placeholder(n: &[char]) -> (r: bool)
    ensures
        r == placeholder_name(n@),
{
    let mut i: usize = 0;
    while i < n.len()
        invariant
            i <= n@.len(),
            forall|k: int| 0 <= k < i ==> is_ascii_upper(#[trigger] n@[k]) || n@[k] == '_' || is_ascii_digit(n@[k]),
        decreases n.len() - i,
    {
        let c = n[i];
        if !(crate::text::ascii_upper(c) || c == '_' || crate::text::ascii_digit(c)) {
            return false;
        }
        i += 1;
    }
    true
}

pub fn sed_substitutions(line: &[char]) -> (r: Vec<(String, String)>)
    ensures
        pairs(r@) == sed_subs(line@),
{
    let mut r: Vec<(String, String)> = Vec::new();
    subs_exec(line, '|', &mut r);
    subs_exec(line, '/', &mut r);
    assert(pairs(r@) =~= sed_subs(line@));
    r
}

/// The `-e '/PATTERN/r FILE'` splices of `rest`, in order.
pub open spec fn splices_from(rest: Seq<char>) -> Seq<(Seq<char>, Seq<char>)>
    decreases rest.len(),
{
    match split_once(rest, "-e '/"@) {
        None => seq![],
        Some((_, after)) => match split_once(after, seq!['\'']) {
            None => seq![],
            Some((quoted, remainder)) => {
                proof {
                    reveal_strlit("-e '/");
                    lemma_split_once_shorter(rest, "-e '/"@);
                    lemma_split_once_shorter(after, seq!['\'']);
                }
                (match rsplit_once(quoted, "/r "@) {
                    Some((pattern, file)) => if pattern.len() > 0 && trim(file).len() > 0 {
                        seq![(pattern, trim(file))]
                    } else {
                        seq![]
                    },
                    None => seq![],
                }) + splices_from(remainder)
            },
        },
    }
}

/// Every `-e '/PATTERN/r FILE'` on one line, as `(pattern, file)`, in
/// order: sed's `r` splices a whole file in after the matching line.
pub fn sed_file_splices(line: &[char]) -> (r: Vec<(String, String)>)
    ensures
        pairs(r@) == splices_from(line@),
{
    proof {
        reveal_strlit("-e '/");
    }
    let marker = chars_of("-e '/");
    let rpat = chars_of("/r ");
    let quote: [char; 1] = ['\''];
    assert(quote@ =~= seq!['\'']);
    let mut r: Vec<(String, String)> = Vec::new();
    let mut rest: Vec<char> = subvec(line, 0, line.len());
    assert(rest@ =~= line@);
    loop
        invariant
            marker@ == "-e '/"@,
            marker@.len() == 5,
            rpat@ == "/r "@,
            quote@ == seq!['\''],
            splices_from(line@) == pairs(r@) + splices_from(rest@),
        decreases rest@.len(),
    {
        let ghost before = pairs(r@);
        match split_once_at(rest.as_slice(), marker.as_slice()) {
            None => {
                assert(before =~= before + splices_from(rest@));
                return r;
            },
            Some((_, after)) => match split_once_at(after.as_slice(), &quote) {
                None => {
                    assert(before =~= before + splices_from(rest@));
                    return r;
                },
                Some((quoted, remainder)) => {
                    proof {
                        lemma_split_once_shorter(rest@, marker@);
                        lemma_split_once_shorter(after@, quote@);
                    }
                    match rsplit_once_at(quoted.as_slice(), rpat.as_slice()) {
                        Some((pattern, file)) => {
                            let f = trim_ws(file.as_slice());
                            if pattern.len() > 0 && f.len() > 0 {
                                r.push((string_of(pattern.as_slice()), string_of(f.as_slice())));
                                assert(pairs(r@) =~= before.push((pattern@, f@)));
                            }
                        },
                        None => {},
                    }
                    rest = remainder;
                },
            },
        }
    }
}

/// The file name a gnulib atomic `mv <name>.h-t <name>.h` renames to.
pub open spec fn atomic_rename_spec(line: Seq<char>) -> Option<Seq<char>> {
    match strip_prefix(trim(line), "mv "@) {
        None => None,
        Some(rest) => {
            let rest = match strip_prefix(rest, "-f "@) {
                Some(r) => r,
                None => rest,
            };
            match split_once(rest, seq![' ']) {
                None => None,
                Some((from, to)) => {
                    let to = trim(to);
                    if !contains(from, ".h-t"@) || !has_suffix(to, ".h"@) {
                        None
                    } else {
                        file_name(to)
                    }
                },
            }
        },
    }
}

pub fn atomic_rename(line: &[char]) -> (r: Option<Vec<char>>)
    ensures
        r matches Some(n) ==> atomic_rename_spec(line@) == Some(n@),
        r is None ==> atomic_rename_spec(line@) is None,
{
    let t = trim_ws(line);
    let rest = match strip_prefix_of(t.as_slice(), chars_of("mv ").as_slice()) {
        None => return None,
        Some(r) => r,
    };
    let rest = match strip_prefix_of(rest.as_slice(), chars_of("-f ").as_slice()) {
        Some(r) => r,
        None => rest,
    };
    let sp: [char; 1] = [' '];
    assert(sp@ =~= seq![' ']);
    match split_once_at(rest.as_slice(), &sp) {
        None => None,
        Some((from, to)) => {
            let to = trim_ws(to.as_slice());
            if !contains_str(from.as_slice(), chars_of(".h-t").as_slice()) || !ends_with(
                to.as_slice(),
                chars_of(".h").as_slice(),
            ) {
                None
            } else {
                file_name_of(to.as_slice())
            }
        },
    }
}

/// A system header a project generates a replacement for (gnulib's
/// mechanism), recovered from the build's own generation recipe.
#[derive(Debug, Clone, PartialEq, Eq)]
pub struct ReplacementHeader {
    /// The generated header, as it will be included (`string.h`).
    pub output: String,
    /// The `.in.h` template, as the recipe named it.
    pub template: String,
    /// Every `@VAR@` the recipe substitutes, sorted.
    pub values: Vec<(String, String)>,
    /// Every whole file the recipe splices in, as `(marker, path)`, in
    /// recipe order.
    pub splices: Vec<(String, String)>,
    /// The directory the recipe ran in.
    pub dir: String,
}

pub open spec fn replacement_view(h: ReplacementHeader) -> (
    Seq<char>,
    Seq<char>,
    Seq<(Seq<char>, Seq<char>)>,
    Seq<(Seq<char>, Seq<char>)>,
    Seq<char>,
) {
    (h.output@, h.template@, pairs(h.values@), pairs(h.splices@), h.dir@)
}

/// The last whitespace-separated token naming an `.in.h` template.
pub open spec fn last_template(toks: Seq<Seq<char>>) -> Option<Seq<char>>
    decreases toks.len(),
{
    if toks.len() == 0 {
        None
    } else if has_suffix(toks.last(), ".in.h"@) {
        Some(toks.last())
    } else {
        last_template(toks.drop_last())
    }
}

/// Whether a recipe line writes its output: a redirect, or sed's `w`.
pub open spec fn names_output(line: Seq<char>) -> bool {
    contains(line, seq!['>']) || contains(line, "-e 'w "@)
}

/// Reading a recipe: the directory, the substitutions and splices
/// gathered so far, the template named, and the headers completed.
pub open spec fn recipe_step(
    st: (
        Seq<char>,
        Seq<(Seq<char>, Seq<char>)>,
        Seq<(Seq<char>, Seq<char>)>,
        Option<Seq<char>>,
        Seq<(Seq<char>, Seq<char>, Seq<(Seq<char>, Seq<char>)>, Seq<(Seq<char>, Seq<char>)>, Seq<char>)>,
    ),
    line: Seq<char>,
) -> (
    Seq<char>,
    Seq<(Seq<char>, Seq<char>)>,
    Seq<(Seq<char>, Seq<char>)>,
    Option<Seq<char>>,
    Seq<(Seq<char>, Seq<char>, Seq<(Seq<char>, Seq<char>)>, Seq<(Seq<char>, Seq<char>)>, Seq<char>)>,
) {
    match entering(line) {
        Some(d) => (d, st.1, st.2, st.3, st.4),
        None => {
            let values = st.1 + sed_subs(line);
            let splices = st.2 + splices_from(line);
            let template = if names_output(line) && last_template(split_ws(line)) is Some {
                last_template(split_ws(line))
            } else {
                st.3
            };
            match atomic_rename_spec(line) {
                Some(renamed) => match template {
                    Some(t) => (
                        st.0,
                        seq![],
                        seq![],
                        None,
                        st.4.push((renamed, t, sort_dedup_pairs(values), splices, st.0)),
                    ),
                    None => (st.0, values, splices, template, st.4),
                },
                None => (st.0, values, splices, template, st.4),
            }
        },
    }
}

pub open spec fn recipe_run(ls: Seq<Seq<char>>, base: Seq<char>) -> (
    Seq<char>,
    Seq<(Seq<char>, Seq<char>)>,
    Seq<(Seq<char>, Seq<char>)>,
    Option<Seq<char>>,
    Seq<(Seq<char>, Seq<char>, Seq<(Seq<char>, Seq<char>)>, Seq<(Seq<char>, Seq<char>)>, Seq<char>)>,
)
    decreases ls.len(),
{
    if ls.len() == 0 {
        (base, seq![], seq![], None, seq![])
    } else {
        recipe_step(recipe_run(ls.drop_last(), base), ls.last())
    }
}

/// The replacement headers a build's `V=1` output generated: each is
/// completed by gnulib's atomic rename, after a recipe that named its
/// template (on stdin, positionally, or with sed's `w`).
pub open spec fn replacement_headers_spec(stdout: Seq<char>, build_dir: Seq<char>) -> Seq<
    (Seq<char>, Seq<char>, Seq<(Seq<char>, Seq<char>)>, Seq<(Seq<char>, Seq<char>)>, Seq<char>),
> {
    recipe_run(lines(stdout), build_dir).4
}

fn find_last_template(toks: &Vec<Vec<char>>) -> (r: Option<Vec<char>>)
    ensures
        r matches Some(t) ==> last_template(views(toks@)) == Some(t@),
        r is None ==> last_template(views(toks@)) is None,
{
    let suffix = chars_of(".in.h");
    let mut i = toks.len();
    assert(views(toks@).take(i as int) =~= views(toks@));
    while i > 0
        invariant
            i <= toks@.len(),
            suffix@ == ".in.h"@,
            last_template(views(toks@)) == last_template(views(toks@).take(i as int)),
        decreases i,
    {
        assert(views(toks@).take(i as int).drop_last() =~= views(toks@).take(i - 1));
        assert(views(toks@).take(i as int).last() == toks@[i - 1]@);
        if ends_with(toks[i - 1].as_slice(), suffix.as_slice()) {
            return Some(subvec(toks[i - 1].as_slice(), 0, toks[i - 1].len()));
        }
        i -= 1;
    }
    None
}

/// Recovers every replacement header from the build's `V=1` output.
pub fn parse_replacement_headers(stdout: &str, build_dir: &str) -> (r: Vec<ReplacementHeader>)
    ensures
        r@.map_values(|h: ReplacementHeader| replacement_view(h)) == replacement_headers_spec(
            stdout@,
            build_dir@,
        ),
{
    let text = chars_of(stdout);
    let ls = lines_of(text.as_slice());
    let ghost lv = views(ls@);
    assert(lv =~= lines(stdout@));
    let gt: [char; 1] = ['>'];
    assert(gt@ =~= seq!['>']);
    let w = chars_of("-e 'w ");
    let mut dir: Vec<char> = chars_of(build_dir);
    let mut values: Vec<(String, String)> = Vec::new();
    let mut splices: Vec<(String, String)> = Vec::new();
    let mut template: Option<Vec<char>> = None;
    let mut found: Vec<ReplacementHeader> = Vec::new();
    let mut i: usize = 0;
    proof {
        assert(found@.map_values(|h: ReplacementHeader| replacement_view(h)) =~= Seq::<
            (Seq<char>, Seq<char>, Seq<(Seq<char>, Seq<char>)>, Seq<(Seq<char>, Seq<char>)>, Seq<char>),
        >::empty());
        assert(pairs(values@) =~= Seq::<(Seq<char>, Seq<char>)>::empty());
        assert(pairs(splices@) =~= Seq::<(Seq<char>, Seq<char>)>::empty());
    }
    while i < ls.len()
        invariant
            i <= ls@.len(),
            lv == views(ls@),
            lv == lines(stdout@),
            gt@ == seq!['>'],
            w@ == "-e 'w "@,
            (
                dir@,
                pairs(values@),
                pairs(splices@),
                match template {
                    Some(t) => Some(t@),
                    None => None,
                },
                found@.map_values(|h: ReplacementHeader| replacement_view(h)),
            ) == recipe_run(lv.take(i as int), build_dir@),
        decreases ls.len() - i,
    {
        proof {
            assert(lv.take(i + 1).drop_last() =~= lv.take(i as int));
            assert(lv.take(i + 1).last() == ls@[i as int]@);
        }
        let line = &ls[i];
        match entering_directory(line.as_slice()) {
            Some(d) => {
                dir = d;
            },
            None => {
                let ghost v0 = pairs(values@);
                let ghost s0 = pairs(splices@);
                let subs = sed_substitutions(line.as_slice());
                let mut k: usize = 0;
                while k < subs.len()
                    invariant
                        k <= subs@.len(),
                        pairs(values@) == v0 + pairs(subs@).take(k as int),
                    decreases subs.len() - k,
                {
                    let ghost before = pairs(values@);
                    let a = subs[k].0.clone();
                    let b = subs[k].1.clone();
                    assert((a@, b@) == pairs(subs@)[k as int]);
                    values.push((a, b));
                    assert(pairs(values@) =~= before.push((a@, b@)));
                    k += 1;
                    assert(pairs(values@) =~= v0 + pairs(subs@).take(k as int));
                }
                assert(pairs(subs@).take(k as int) =~= pairs(subs@));
                let sp = sed_file_splices(line.as_slice());
                let mut k: usize = 0;
                while k < sp.len()
                    invariant
                        k <= sp@.len(),
                        pairs(splices@) == s0 + pairs(sp@).take(k as int),
                    decreases sp.len() - k,
                {
                    let ghost before = pairs(splices@);
                    let a = sp[k].0.clone();
                    let b = sp[k].1.clone();
                    assert((a@, b@) == pairs(sp@)[k as int]);
                    splices.push((a, b));
                    assert(pairs(splices@) =~= before.push((a@, b@)));
                    k += 1;
                    assert(pairs(splices@) =~= s0 + pairs(sp@).take(k as int));
                }
                assert(pairs(sp@).take(k as int) =~= pairs(sp@));
                if contains_str(line.as_slice(), &gt) || contains_str(line.as_slice(), w.as_slice()) {
                    let toks = split_whitespace(line.as_slice());
                    match find_last_template(&toks) {
                        Some(t) => {
                            template = Some(t);
                        },
                        None => {},
                    }
                }
                match atomic_rename(line.as_slice()) {
                    Some(renamed) => {
                        match template {
                            Some(t) => {
                                let sorted = sort_dedup_pair_strings(&values);
                                let ghost fb = found@.map_values(|h: ReplacementHeader| replacement_view(h));
                                let h = ReplacementHeader {
                                    output: string_of(renamed.as_slice()),
                                    template: string_of(t.as_slice()),
                                    values: sorted,
                                    splices: splices,
                                    dir: string_of(dir.as_slice()),
                                };
                                found.push(h);
                                assert(found@.map_values(|h: ReplacementHeader| replacement_view(h)) =~= fb.push(replacement_view(h)));
                                values = Vec::new();
                                splices = Vec::new();
                                template = None;
                                assert(pairs(values@) =~= Seq::<(Seq<char>, Seq<char>)>::empty());
                                assert(pairs(splices@) =~= Seq::<(Seq<char>, Seq<char>)>::empty());
                            },
                            None => {
                                template = None;
                            },
                        }
                    },
                    None => {},
                }
            },
        }
        i += 1;
    }
    assert(lv.take(lv.len() as int) =~= lv);
    found
}

/// The module-relative template and directory of a replacement header:
/// where the template lies below the module root, and its directory.
/// `None` when it lies outside the module or directly at its root.
pub open spec fn shadow_dir_spec(template: Seq<char>, module_root: Seq<char>) -> Option<(Seq<char>, Seq<char>)> {
    match strip_path_prefix(template, module_root) {
        None => None,
        Some(rel) => match parent(rel) {
            None => None,
            Some(d) => if d.len() > 0 {
                Some((rel, d))
            } else {
                None
            },
        },
    }
}

pub fn rebase_shadow_dir(header: &ReplacementHeader, module_root: &str) -> (r: Option<(String, String)>)
    ensures
        r matches Some((t, d)) ==> shadow_dir_spec(header.template@, module_root@) == Some((t@, d@)),
        r is None ==> shadow_dir_spec(header.template@, module_root@) is None,
{
    let t = chars(&header.template);
    let root = chars_of(module_root);
    match strip_prefix_path(t.as_slice(), root.as_slice()) {
        None => None,
        Some(rel) => match parent_of(rel.as_slice()) {
            None => None,
            Some(d) => if d.len() > 0 {
                Some((string_of(rel.as_slice()), string_of(d.as_slice())))
            } else {
                None
            },
        },
    }
}

/// A splice path made module-relative: an absolute one by where it lies
/// below the module root (dropped when it lies elsewhere), a relative one
/// joined onto the shadow directory without its leading `./`.
pub open spec fn rebased_splice(file: Seq<char>, shadow_dir: Seq<char>, module_root: Seq<char>) -> Option<Seq<char>> {
    if is_absolute(file) {
        strip_path_prefix(file, module_root)
    } else {
        let bare = match strip_prefix(file, "./"@) {
            Some(b) => b,
            None => file,
        };
        Some(shadow_dir + seq!['/'] + bare)
    }
}

pub open spec fn rebased_splices(
    splices: Seq<(Seq<char>, Seq<char>)>,
    shadow_dir: Seq<char>,
    module_root: Seq<char>,
) -> Seq<(Seq<char>, Seq<char>)>
    decreases splices.len(),
{
    if splices.len() == 0 {
        seq![]
    } else {
        rebased_splices(splices.drop_last(), shadow_dir, module_root) + match rebased_splice(
            splices.last().1,
            shadow_dir,
            module_root,
        ) {
            Some(f) => seq![(splices.last().0, f)],
            None => seq![],
        }
    }
}

pub fn rebase_splices(splices: &[(String, String)], shadow_dir: &str, module_root: &str) -> (r: Vec<
    (String, String),
>)
    ensures
        pairs(r@) == rebased_splices(pairs(splices@), shadow_dir@, module_root@),
{
    let root = chars_of(module_root);
    let dot = chars_of("./");
    let mut r: Vec<(String, String)> = Vec::new();
    let mut i: usize = 0;
    while i < splices.len()
        invariant
            i <= splices@.len(),
            root@ == module_root@,
            dot@ == "./"@,
            pairs(r@) == rebased_splices(pairs(splices@).take(i as int), shadow_dir@, module_root@),
        decreases splices.len() - i,
    {
        proof {
            assert(pairs(splices@).take(i + 1).drop_last() =~= pairs(splices@).take(i as int));
            assert(pairs(splices@).take(i + 1).last() == pairs(splices@)[i as int]);
        }
        let ghost before = pairs(r@);
        let (marker, file) = &splices[i];
        let f = chars(file);
        if crate::paths::absolute(f.as_slice()) {
            match strip_prefix_path(f.as_slice(), root.as_slice()) {
                Some(rel) => {
                    r.push((marker.clone(), string_of(rel.as_slice())));
                    assert(pairs(r@) =~= before.push((marker@, rel@)));
                },
                None => {
                    assert(before =~= before + Seq::<(Seq<char>, Seq<char>)>::empty());
                },
            }
        } else {
            let bare = match strip_prefix_of(f.as_slice(), dot.as_slice()) {
                Some(b) => b,
                None => f,
            };
            let mut joined = chars_of(shadow_dir);
            joined.push('/');
            crate::text::push_all(&mut joined, bare.as_slice());
            r.push((marker.clone(), string_of(joined.as_slice())));
            assert(joined@ =~= shadow_dir@ + seq!['/'] + bare@);
            assert(pairs(r@) =~= before.push((marker@, joined@)));
        }
        i += 1;
    }
    assert(pairs(splices@).take(splices@.len() as int) =~= pairs(splices@));
    r
}

/// The `name|value` records of an `autoconf --trace=AC_DEFINE:$1|$2`
/// output that name something.
pub open spec fn trace_entries(ls: Seq<Seq<char>>) -> Seq<(Seq<char>, Seq<char>)>
    decreases ls.len(),
{
    if ls.len() == 0 {
        seq![]
    } else {
        trace_entries(ls.drop_last()) + match split_once(ls.last(), seq!['|']) {
            Some((n, v)) => if n.len() > 0 {
                seq![(n, v)]
            } else {
                seq![]
            },
            None => seq![],
        }
    }
}

/// Whether `n` is among the names of `es`.
pub open spec fn has_name(es: Seq<(Seq<char>, Seq<char>)>, n: Seq<char>) -> bool {
    exists|k: int| 0 <= k < es.len() && (#[trigger] es[k]).0 == n
}

/// A traced macro's single, non-empty value: `None` when the trace gives
/// it several different values (a per-platform definition) or an empty one
/// (a probe supplies it).
pub open spec fn single_value(es: Seq<(Seq<char>, Seq<char>)>, n: Seq<char>) -> Option<Seq<char>> {
    if has_name(es, n) {
        let v = crate::configure_file::lookup(es, n).unwrap();
        if v.len() > 0 && forall|k: int| 0 <= k < es.len() && (#[trigger] es[k]).0 == n ==> es[k].1 == v {
            Some(v)
        } else {
            None
        }
    } else {
        None
    }
}

/// The macros of `names` that have a single value, in order.
pub open spec fn with_single_value(es: Seq<(Seq<char>, Seq<char>)>, names: Seq<Seq<char>>) -> Seq<
    (Seq<char>, Seq<char>),
>
    decreases names.len(),
{
    if names.len() == 0 {
        seq![]
    } else {
        with_single_value(es, names.drop_last()) + match single_value(es, names.last()) {
            Some(v) => seq![(names.last(), v)],
            None => seq![],
        }
    }
}

pub open spec fn names_of(es: Seq<(Seq<char>, Seq<char>)>) -> Seq<Seq<char>> {
    es.map_values(|e: (Seq<char>, Seq<char>)| e.0)
}

/// Every macro the trace defines with one literal value, in first-seen
/// order.
pub open spec fn traced_defines(trace: Seq<char>) -> Seq<(Seq<char>, Seq<char>)> {
    let es = trace_entries(lines(trace));
    with_single_value(es, crate::text::dedup_first(names_of(es)))
}

proof fn lemma_lookup_has_name(es: Seq<(Seq<char>, Seq<char>)>, n: Seq<char>)
    ensures
        crate::configure_file::lookup(es, n) is Some <==> has_name(es, n),
    decreases es.len(),
{
    if es.len() > 0 {
        lemma_lookup_has_name(es.drop_last(), n);
        if has_name(es, n) && es.last().0 != n {
            let k = choose|k: int| 0 <= k < es.len() && (#[trigger] es[k]).0 == n;
            assert(es.drop_last()[k].0 == n);
        }
        if has_name(es.drop_last(), n) {
            let k = choose|k: int| 0 <= k < es.len() - 1 && (#[trigger] es.drop_last()[k]).0 == n;
            assert(es[k].0 == n);
        }
        if es.last().0 == n {
            assert(es[es.len() - 1].0 == n);
        }
    }
}

fn single_value_exec(es: &Vec<(String, String)>, n: &String) -> (r: Option<String>)
    ensures
        crate::model::opt_view(r) == single_value(pairs(es@), n@),
{
    let v = match crate::configure_file::lookup_value(es, n.as_str()) {
        None => {
            proof {
                lemma_lookup_has_name(pairs(es@), n@);
            }
            return None;
        },
        Some(v) => v,
    };
    proof {
        lemma_lookup_has_name(pairs(es@), n@);
    }
    let vv = chars(&v);
    if vv.len() == 0 {
        return None;
    }
    let nv = chars(n);
    let mut k: usize = 0;
    while k < es.len()
        invariant
            k <= es@.len(),
            vv@ == v@,
            nv@ == n@,
            v@.len() > 0,
            has_name(pairs(es@), n@),
            crate::configure_file::lookup(pairs(es@), n@) == Some(v@),
            forall|j: int| 0 <= j < k && (#[trigger] pairs(es@)[j]).0 == n@ ==> pairs(es@)[j].1 == v@,
        decreases es.len() - k,
    {
        if chars_eq(chars(&es[k].0).as_slice(), nv.as_slice()) && !chars_eq(
            chars(&es[k].1).as_slice(),
            vv.as_slice(),
        ) {
            assert(pairs(es@)[k as int].0 == n@);
            return None;
        }
        k += 1;
    }
    Some(v)
}

/// The `name -> value` map of `autoconf --trace=AC_DEFINE:$1|$2` output:
/// every macro defined with exactly one, non-empty, value.
pub fn parse_traced_defines(trace: &str) -> (r: Vec<(String, String)>)
    ensures
        pairs(r@) == traced_defines(trace@),
{
    let t = chars_of(trace);
    let ls = lines_of(t.as_slice());
    let ghost lv = views(ls@);
    assert(lv =~= lines(trace@));
    let bar: [char; 1] = ['|'];
    assert(bar@ =~= seq!['|']);
    let mut es: Vec<(String, String)> = Vec::new();
    let mut i: usize = 0;
    while i < ls.len()
        invariant
            i <= ls@.len(),
            lv == views(ls@),
            bar@ == seq!['|'],
            pairs(es@) == trace_entries(lv.take(i as int)),
        decreases ls.len() - i,
    {
        proof {
            assert(lv.take(i + 1).drop_last() =~= lv.take(i as int));
            assert(lv.take(i + 1).last() == ls@[i as int]@);
        }
        let ghost before = pairs(es@);
        match split_once_at(ls[i].as_slice(), &bar) {
            Some((n, v)) => {
                if n.len() > 0 {
                    es.push((string_of(n.as_slice()), string_of(v.as_slice())));
                    assert(pairs(es@) =~= before.push((n@, v@)));
                } else {
                    assert(before =~= before + Seq::<(Seq<char>, Seq<char>)>::empty());
                }
            },
            None => {
                assert(before =~= before + Seq::<(Seq<char>, Seq<char>)>::empty());
            },
        }
        i += 1;
    }
    assert(lv.take(lv.len() as int) =~= lv);
    let mut names: Vec<String> = Vec::new();
    let mut k: usize = 0;
    while k < es.len()
        invariant
            k <= es@.len(),
            strs(names@) == names_of(pairs(es@)).take(k as int),
        decreases es.len() - k,
    {
        let ghost before = strs(names@);
        let nm = es[k].0.clone();
        assert(nm@ == names_of(pairs(es@))[k as int]);
        names.push(nm);
        assert(strs(names@) =~= before.push(nm@));
        k += 1;
        assert(strs(names@) =~= names_of(pairs(es@)).take(k as int));
    }
    assert(names_of(pairs(es@)).take(k as int) =~= names_of(pairs(es@)));
    let distinct = crate::text::dedup_strings(&names);
    let mut r: Vec<(String, String)> = Vec::new();
    let mut j: usize = 0;
    while j < distinct.len()
        invariant
            j <= distinct@.len(),
            pairs(r@) == with_single_value(pairs(es@), strs(distinct@).take(j as int)),
        decreases distinct.len() - j,
    {
        proof {
            assert(strs(distinct@).take(j + 1).drop_last() =~= strs(distinct@).take(j as int));
            assert(strs(distinct@).take(j + 1).last() == distinct@[j as int]@);
        }
        let ghost before = pairs(r@);
        match single_value_exec(&es, &distinct[j]) {
            Some(v) => {
                r.push((distinct[j].clone(), v));
                assert(pairs(r@) =~= before.push((distinct@[j as int]@, v@)));
            },
            None => {
                assert(before =~= before + Seq::<(Seq<char>, Seq<char>)>::empty());
            },
        }
        j += 1;
    }
    assert(strs(distinct@).take(j as int) =~= strs(distinct@));
    r
}

/// The traced macros a configure run actually selected: those it defined.
pub open spec fn selected_defines(
    traced: Seq<(Seq<char>, Seq<char>)>,
    resolved: Seq<(Seq<char>, Seq<char>)>,
) -> Seq<(Seq<char>, Seq<char>)>
    decreases traced.len(),
{
    if traced.len() == 0 {
        seq![]
    } else {
        selected_defines(traced.drop_last(), resolved) + if has_name(resolved, traced.last().0) {
            seq![traced.last()]
        } else {
            seq![]
        }
    }
}

fn has_name_exec(es: &Vec<(String, String)>, n: &String) -> (r: bool)
    ensures
        r == has_name(pairs(es@), n@),
{
    let nv = chars(n);
    let mut k: usize = 0;
    while k < es.len()
        invariant
            k <= es@.len(),
            nv@ == n@,
            forall|j: int| 0 <= j < k ==> (#[trigger] pairs(es@)[j]).0 != n@,
        decreases es.len() - k,
    {
        if chars_eq(chars(&es[k].0).as_slice(), nv.as_slice()) {
            assert(pairs(es@)[k as int].0 == n@);
            return true;
        }
        k += 1;
    }
    false
}

/// Keeps only the traced macros `config.status` actually defined: a name
/// the trace knows but the run did not define belongs to a branch this
/// build did not take.
pub fn intersect_traced_with_selected(
    traced: Vec<(String, String)>,
    resolved: &Vec<(String, String)>,
) -> (r: Vec<(String, String)>)
    ensures
        pairs(r@) == selected_defines(pairs(traced@), pairs(resolved@)),
{
    let mut r: Vec<(String, String)> = Vec::new();
    let mut i: usize = 0;
    while i < traced.len()
        invariant
            i <= traced@.len(),
            pairs(r@) == selected_defines(pairs(traced@).take(i as int), pairs(resolved@)),
        decreases traced.len() - i,
    {
        proof {
            assert(pairs(traced@).take(i + 1).drop_last() =~= pairs(traced@).take(i as int));
            assert(pairs(traced@).take(i + 1).last() == pairs(traced@)[i as int]);
        }
        let ghost before = pairs(r@);
        if has_name_exec(resolved, &traced[i].0) {
            let a = traced[i].0.clone();
            let b = traced[i].1.clone();
            r.push((a, b));
            assert(pairs(r@) =~= before.push(pairs(traced@)[i as int]));
        } else {
            assert(before =~= before + Seq::<(Seq<char>, Seq<char>)>::empty());
        }
        i += 1;
    }
    assert(pairs(traced@).take(i as int) =~= pairs(traced@));
    r
}

/// A build option the project exposes, as `configure --help` lists it,
/// always in its `--enable-`/`--with-` spelling.
#[derive(Debug, Clone, PartialEq, Eq)]
pub struct ConfigureFlag {
    pub name: String,
    /// Whether it takes a value (`--enable-decoders=LIST`) rather than
    /// being an on/off switch.
    pub valued: bool,
}

/// The switches every generated `configure` carries: autoconf's, not the
/// project's.
pub open spec fn autoconf_own(n: Seq<char>) -> bool {
    ||| n == "--enable-option-checking"@
    ||| n == "--enable-dependency-tracking"@
    ||| n == "--enable-silent-rules"@
    ||| n == "--enable-shared"@
    ||| n == "--enable-static"@
    ||| n == "--enable-fast-install"@
    ||| n == "--with-pic"@
    ||| n == "--with-gnu-ld"@
    ||| n == "--with-sysroot"@
    ||| n == "--enable-libtool-lock"@
}

/// The positive spelling of a flag: `--disable-X` is `--enable-X`, and
/// `--without-X` is `--with-X`; `None` for anything else.
pub open spec fn positive_flag(flag: Seq<char>) -> Option<Seq<char>> {
    match strip_prefix(flag, "--disable-"@) {
        Some(rest) => Some("--enable-"@ + rest),
        None => match strip_prefix(flag, "--without-"@) {
            Some(rest) => Some("--with-"@ + rest),
            None => if has_prefix(flag, "--enable-"@) || has_prefix(flag, "--with-"@) {
                Some(flag)
            } else {
                None
            },
        },
    }
}

/// The first word of a `--help` line, without the brackets that mark an
/// optional value, and whether it takes a value.
pub open spec fn flag_token(trimmed: Seq<char>) -> (Seq<char>, bool) {
    let first = if split_ws(trimmed).len() > 0 {
        split_ws(trimmed)[0]
    } else {
        seq![]
    };
    let token = trim_end_by(first, one_of(seq![']']));
    match split_once(token, seq!['=']) {
        Some((f, _)) => (trim_end_by(f, one_of(seq!['['])), true),
        None => (token, false),
    }
}

/// The option an indented `--help` line lists, with whether it takes a
/// value; `None` for prose, autoconf's placeholders and its own switches.
pub open spec fn flag_of_line(line: Seq<char>) -> Option<(Seq<char>, bool)> {
    let trimmed = crate::text::trim_start(line);
    if line.len() == trimmed.len() || !has_prefix(trimmed, "--"@) {
        None
    } else {
        let fv = flag_token(trimmed);
        match positive_flag(fv.0) {
            None => None,
            Some(name) => if has_suffix(name, "-FEATURE"@) || has_suffix(name, "-PACKAGE"@)
                || autoconf_own(name) {
                None
            } else {
                Some((name, fv.1))
            },
        }
    }
}

/// The project's options from `configure --help` text, each once, in the
/// order listed.
pub open spec fn configure_flags(ls: Seq<Seq<char>>) -> Seq<(Seq<char>, bool)>
    decreases ls.len(),
{
    if ls.len() == 0 {
        seq![]
    } else {
        let prev = configure_flags(ls.drop_last());
        match flag_of_line(ls.last()) {
            Some((n, v)) => if prev.map_values(|f: (Seq<char>, bool)| f.0).contains(n) {
                prev
            } else {
                prev.push((n, v))
            },
            None => prev,
        }
    }
}

pub open spec fn flag_view(f: ConfigureFlag) -> (Seq<char>, bool) {
    (f.name@, f.valued)
}

fn flag_line(line: &[char]) -> (r: Option<(Vec<char>, bool)>)
    ensures
        r matches Some((n, v)) ==> flag_of_line(line@) == Some((n@, v)),
        r is None ==> flag_of_line(line@) is None,
{
    let trimmed = crate::text::trim_start_ws(line);
    if line.len() == trimmed.len() || !starts_with(trimmed.as_slice(), chars_of("--").as_slice()) {
        return None;
    }
    let words = split_whitespace(trimmed.as_slice());
    let first = if words.len() > 0 {
        assert(views(words@)[0] == words@[0]@);
        subvec(words[0].as_slice(), 0, words[0].len())
    } else {
        Vec::new()
    };
    assert(first@ =~= (if split_ws(trimmed@).len() > 0 {
        split_ws(trimmed@)[0]
    } else {
        seq![]
    }));
    let close: [char; 1] = [']'];
    assert(close@ =~= seq![']']);
    let open: [char; 1] = ['['];
    assert(open@ =~= seq!['[']);
    let eq: [char; 1] = ['='];
    assert(eq@ =~= seq!['=']);
    let token = trim_end_set(first.as_slice(), &close);
    let (flag, valued) = match split_once_at(token.as_slice(), &eq) {
        Some((f, _)) => (trim_end_set(f.as_slice(), &open), true),
        None => (token, false),
    };
    assert(token@ == trim_end_by(first@, one_of(seq![']'])));
    assert(flag_token(trimmed@) == (flag@, valued));
    let name = match strip_prefix_of(flag.as_slice(), chars_of("--disable-").as_slice()) {
        Some(rest) => {
            let mut n = chars_of("--enable-");
            crate::text::push_all(&mut n, rest.as_slice());
            n
        },
        None => match strip_prefix_of(flag.as_slice(), chars_of("--without-").as_slice()) {
            Some(rest) => {
                let mut n = chars_of("--with-");
                crate::text::push_all(&mut n, rest.as_slice());
                n
            },
            None => if starts_with(flag.as_slice(), chars_of("--enable-").as_slice()) || starts_with(
                flag.as_slice(),
                chars_of("--with-").as_slice(),
            ) {
                flag
            } else {
                return None;
            },
        },
    };
    if ends_with(name.as_slice(), chars_of("-FEATURE").as_slice()) || ends_with(
        name.as_slice(),
        chars_of("-PACKAGE").as_slice(),
    ) || is_autoconf_own(name.as_slice()) {
        return None;
    }
    Some((name, valued))
}

fn is_autoconf_own(n: &[char]) -> (r: bool)
    ensures
        r == autoconf_own(n@),
{
    chars_eq(n, chars_of("--enable-option-checking").as_slice()) || chars_eq(
        n,
        chars_of("--enable-dependency-tracking").as_slice(),
    ) || chars_eq(n, chars_of("--enable-silent-rules").as_slice()) || chars_eq(
        n,
        chars_of("--enable-shared").as_slice(),
    ) || chars_eq(n, chars_of("--enable-static").as_slice()) || chars_eq(
        n,
        chars_of("--enable-fast-install").as_slice(),
    ) || chars_eq(n, chars_of("--with-pic").as_slice()) || chars_eq(
        n,
        chars_of("--with-gnu-ld").as_slice(),
    ) || chars_eq(n, chars_of("--with-sysroot").as_slice()) || chars_eq(
        n,
        chars_of("--enable-libtool-lock").as_slice(),
    )
}

/// The build options `configure --help` text lists, each once, in its
/// `--enable-`/`--with-` spelling, without autoconf's own placeholders and
/// switches.
pub fn parse_configure_flags(help: &str) -> (r: Vec<ConfigureFlag>)
    ensures
        r@.map_values(|f: ConfigureFlag| flag_view(f)) == configure_flags(lines(help@)),
{
    let t = chars_of(help);
    let ls = lines_of(t.as_slice());
    let ghost lv = views(ls@);
    assert(lv =~= lines(help@));
    let mut flags: Vec<ConfigureFlag> = Vec::new();
    let mut i: usize = 0;
    while i < ls.len()
        invariant
            i <= ls@.len(),
            lv == views(ls@),
            flags@.map_values(|f: ConfigureFlag| flag_view(f)) == configure_flags(lv.take(i as int)),
        decreases ls.len() - i,
    {
        proof {
            assert(lv.take(i + 1).drop_last() =~= lv.take(i as int));
            assert(lv.take(i + 1).last() == ls@[i as int]@);
        }
        let ghost prev = flags@.map_values(|f: ConfigureFlag| flag_view(f));
        match flag_line(ls[i].as_slice()) {
            Some((n, valued)) => {
                let mut k: usize = 0;
                while k < flags.len() && !chars_eq(chars(&flags[k].name).as_slice(), n.as_slice())
                    invariant
                        k <= flags@.len(),
                        prev == flags@.map_values(|f: ConfigureFlag| flag_view(f)),
                        forall|j: int| 0 <= j < k ==> (#[trigger] flags@[j]).name@ != n@,
                    decreases flags.len() - k,
                {
                    k += 1;
                }
                let seen = k < flags.len();
                proof {
                    let names = prev.map_values(|f: (Seq<char>, bool)| f.0);
                    if seen {
                        assert(names[k as int] == n@);
                        assert(names.contains(n@));
                    } else {
                        assert forall|j: int| 0 <= j < names.len() implies names[j] != n@ by {
                            assert(names[j] == flags@[j].name@);
                        }
                        assert(!names.contains(n@));
                    }
                }
                if !seen {
                    let f = ConfigureFlag { name: string_of(n.as_slice()), valued };
                    flags.push(f);
                    assert(flags@.map_values(|f: ConfigureFlag| flag_view(f)) =~= prev.push((n@, valued)));
                }
            },
            None => {},
        }
        i += 1;
    }
    assert(lv.take(lv.len() as int) =~= lv);
    flags
}

/// The `(macro, flag)` options of a header: each of its values that a
/// build option controls, with that option (the last one recorded for the
/// macro).
pub open spec fn flag_options_spec(
    values: Seq<(Seq<char>, Seq<char>)>,
    flag_macros: Seq<(Seq<char>, Seq<char>)>,
) -> Seq<(Seq<char>, Seq<char>)>
    decreases values.len(),
{
    if values.len() == 0 {
        seq![]
    } else {
        flag_options_spec(values.drop_last(), flag_macros) + match crate::configure_file::lookup(
            flag_macros,
            values.last().0,
        ) {
            Some(flag) => seq![(values.last().0, flag)],
            None => seq![],
        }
    }
}

/// The macro a `config.log` cache line under prefix `p` records a probe
/// for: `ac_cv_func_poll=yes` under `ac_cv_func_` is `HAVE_POLL`.
pub open spec fn probed_by(l: Seq<char>, p: Seq<char>) -> Seq<Seq<char>> {
    match strip_prefix(l, p) {
        Some(rest) => match split_once(rest, "="@) {
            Some((var, _)) => seq!["HAVE_"@ + crate::text::upper(var)],
            None => seq![],
        },
        None => seq![],
    }
}

/// The macros `configure` answered with a probe, line by line.
pub open spec fn probed_list(ls: Seq<Seq<char>>) -> Seq<Seq<char>>
    decreases ls.len(),
{
    if ls.len() == 0 {
        seq![]
    } else {
        let t = trim(ls.last());
        probed_list(ls.drop_last()) + probed_by(t, "ac_cv_header_"@) + probed_by(t, "ac_cv_func_"@)
            + probed_by(t, "ac_cv_type_"@) + probed_by(t, "ac_cv_have_decl_"@)
    }
}

fn probed_by_exec(l: &[char], p: &str, out: &mut Vec<String>)
    ensures
        strs(final(out)@) == strs(old(out)@) + probed_by(l@, p@),
{
    let ghost before = strs(out@);
    match strip_prefix_of(l, chars_of(p).as_slice()) {
        Some(rest) => match split_once_at(rest.as_slice(), chars_of("=").as_slice()) {
            Some((var, _)) => {
                let mut name = String::new();
                crate::text::push_str(&mut name, "HAVE_");
                let up = crate::text::upper_of(var.as_slice());
                let mut i: usize = 0;
                while i < up.len()
                    invariant
                        i <= up@.len(),
                        name@ == "HAVE_"@ + up@.take(i as int),
                    decreases up.len() - i,
                {
                    crate::text::push_char(&mut name, up[i]);
                    i += 1;
                    assert(name@ =~= "HAVE_"@ + up@.take(i as int));
                }
                assert(up@.take(i as int) =~= up@);
                out.push(name);
                assert(strs(out@) =~= before + seq![name@]);
            },
            None => {
                assert(before =~= before + Seq::<Seq<char>>::empty());
            },
        },
        None => {
            assert(before =~= before + Seq::<Seq<char>>::empty());
        },
    }
}

/// The macros `config.log` records a probe for (its `ac_cv_header_`,
/// `ac_cv_func_`, `ac_cv_type_` and `ac_cv_have_decl_` cache lines): what
/// separates a macro a flag defines from one it only skips probing for.
pub fn probed_names(config_log: &str) -> (r: Vec<String>)
    ensures
        strs(r@) == probed_list(lines(config_log@)),
{
    let ls = lines_of(chars_of(config_log).as_slice());
    let ghost lv = views(ls@);
    assert(lv =~= lines(config_log@));
    let mut r: Vec<String> = Vec::new();
    let mut i: usize = 0;
    while i < ls.len()
        invariant
            i <= ls@.len(),
            lv == views(ls@),
            strs(r@) == probed_list(lv.take(i as int)),
        decreases ls.len() - i,
    {
        assert(lv.take(i + 1).drop_last() =~= lv.take(i as int));
        assert(lv.take(i + 1).last() == ls@[i as int]@);
        let t = trim_ws(ls[i].as_slice());
        probed_by_exec(t.as_slice(), "ac_cv_header_", &mut r);
        probed_by_exec(t.as_slice(), "ac_cv_func_", &mut r);
        probed_by_exec(t.as_slice(), "ac_cv_type_", &mut r);
        probed_by_exec(t.as_slice(), "ac_cv_have_decl_", &mut r);
        i += 1;
    }
    assert(lv.take(i as int) =~= lv);
    r
}

/// `s` with the first occurrence of `from` replaced by `to`.
pub open spec fn replace_first(s: Seq<char>, from: Seq<char>, to: Seq<char>) -> Seq<char> {
    match find(s, from) {
        Some(i) => s.take(i) + to + s.skip(i + from.len()),
        None => s,
    }
}

fn replace_first_exec(s: &[char], from: &str, to: &str) -> (r: Vec<char>)
    ensures
        r@ == replace_first(s@, from@, to@),
{
    let f = chars_of(from);
    match find_str(s, f.as_slice()) {
        Some(i) => {
            proof {
                crate::text::lemma_find_from(s@, f@, 0);
                assert(crate::text::find_from(s@, f@, 0) == Some(i as int));
                assert(crate::text::occurs_at(s@, f@, i as int));
            }
            let fl: usize = f.len();
            let sl: usize = s.len();
            assert(i + fl <= sl);
            let mut r = subvec(s, 0, i);
            crate::text::push_all(&mut r, chars_of(to).as_slice());
            let rest = subvec(s, i + fl, sl);
            crate::text::push_all(&mut r, rest.as_slice());
            assert(r@ =~= s@.take(i as int) + to@ + s@.skip(i + f@.len()));
            r
        },
        None => subvec(s, 0, s.len()),
    }
}

/// The spelling that turns a boolean flag off: `--enable-x` as
/// `--disable-x`, `--with-x` as `--without-x`.
pub open spec fn disabled_spec(flag: Seq<char>) -> Seq<char> {
    replace_first(replace_first(flag, "--enable-"@, "--disable-"@), "--with-"@, "--without-"@)
}

/// The spelling that turns a boolean flag off (see `disabled_spec`).
pub fn disabled_spelling(flag: &str) -> (r: String)
    ensures
        r@ == disabled_spec(flag@),
{
    let a = replace_first_exec(chars_of(flag).as_slice(), "--enable-", "--disable-");
    let b = replace_first_exec(a.as_slice(), "--with-", "--without-");
    string_of(b.as_slice())
}

/// `owned` after reading one flag's run: every macro of `baseline` that
/// `without` (configure with the flag off) no longer defines, and that no
/// probe answered, is owned by `flag`.
pub open spec fn owned_after(
    owned: Seq<(Seq<char>, Seq<char>)>,
    baseline: Seq<(Seq<char>, Seq<char>)>,
    without: Seq<(Seq<char>, Seq<char>)>,
    probed: Seq<Seq<char>>,
    flag: Seq<char>,
) -> Seq<(Seq<char>, Seq<char>)>
    decreases baseline.len(),
{
    if baseline.len() == 0 {
        owned
    } else {
        let acc = owned_after(owned, baseline.drop_last(), without, probed, flag);
        let name = baseline.last().0;
        if crate::configure_file::lookup(without, name) is None && !probed.contains(name) {
            set_var(acc, name, flag)
        } else {
            acc
        }
    }
}

/// Records which macros a boolean flag owns, from a configure run with the
/// flag off (see `owned_after`).
pub fn record_flag_macros(
    owned: &mut Vec<(String, String)>,
    baseline: &Vec<(String, String)>,
    without: &Vec<(String, String)>,
    probed: &Vec<String>,
    flag: &str,
)
    ensures
        pairs(final(owned)@) == owned_after(pairs(old(owned)@), pairs(baseline@), pairs(without@), strs(probed@), flag@),
{
    let ghost start = pairs(owned@);
    let ghost bv = pairs(baseline@);
    let fl = chars_of(flag);
    let mut i: usize = 0;
    while i < baseline.len()
        invariant
            i <= baseline@.len(),
            bv == pairs(baseline@),
            fl@ == flag@,
            pairs(owned@) == owned_after(start, bv.take(i as int), pairs(without@), strs(probed@), flag@),
        decreases baseline.len() - i,
    {
        assert(bv.take(i + 1).drop_last() =~= bv.take(i as int));
        assert(bv.take(i + 1).last() == (baseline@[i as int].0@, baseline@[i as int].1@));
        let name = &baseline[i].0;
        if crate::configure_file::lookup_value(without, name.as_str()).is_none()
            && !crate::text::contains_string(probed, name) {
            set_var_pub(owned, chars(name).as_slice(), fl.as_slice());
        }
        i += 1;
    }
    assert(bv.take(i as int) =~= bv);
}

/// The `(macro, flag)` pairs for the values on this header that a build
/// option controls.
pub fn flag_options(header: &crate::model::ConfigHeader, flag_macros: &Vec<(String, String)>) -> (r: Vec<
    (String, String),
>)
    ensures
        pairs(r@) == flag_options_spec(pairs(header.values@), pairs(flag_macros@)),
{
    let mut r: Vec<(String, String)> = Vec::new();
    let mut i: usize = 0;
    while i < header.values.len()
        invariant
            i <= header.values@.len(),
            pairs(r@) == flag_options_spec(pairs(header.values@).take(i as int), pairs(flag_macros@)),
        decreases header.values.len() - i,
    {
        proof {
            assert(pairs(header.values@).take(i + 1).drop_last() =~= pairs(header.values@).take(i as int));
            assert(pairs(header.values@).take(i + 1).last() == pairs(header.values@)[i as int]);
        }
        let ghost before = pairs(r@);
        match crate::configure_file::lookup_value(flag_macros, header.values[i].0.as_str()) {
            Some(flag) => {
                let name = header.values[i].0.clone();
                r.push((name, flag));
                assert(pairs(r@) =~= before.push((header.values@[i as int].0@, flag@)));
            },
            None => {
                assert(before =~= before + Seq::<(Seq<char>, Seq<char>)>::empty());
            },
        }
        i += 1;
    }
    assert(pairs(header.values@).take(i as int) =~= pairs(header.values@));
    r
}

/// What `char::is_alphanumeric` answers for `c` (Unicode's Alphabetic or
/// Numeric property).
pub uninterp spec fn alphanumeric(c: char) -> bool;

/// `char::is_alphanumeric`. Its result is named `alphanumeric`; the one
/// fact stated of it is the ASCII case, where Unicode's Alphabetic and
/// Numeric characters are exactly the letters and digits. Beyond ASCII
/// nothing is claimed.
#[verifier::external_body]
fn is_alphanumeric(c: char) -> (r: bool)
    ensures
        r == alphanumeric(c),
        (c as u32) < 128 ==> (r <==> crate::text::is_ascii_alnum(c)),
{
    c.is_alphanumeric()
}

/// A make variable name: non-empty, alphanumerics and `_` only.
pub open spec fn var_name(n: Seq<char>) -> bool {
    n.len() > 0 && forall|k: int| 0 <= k < n.len() ==> alphanumeric(#[trigger] n[k]) || n[k] == '_'
}

fn is_var_name(n: &[char]) -> (r: bool)
    ensures
        r == var_name(n@),
{
    if n.len() == 0 {
        return false;
    }
    let mut i: usize = 0;
    while i < n.len()
        invariant
            i <= n@.len(),
            forall|k: int| 0 <= k < i ==> alphanumeric(#[trigger] n@[k]) || n@[k] == '_',
        decreases n.len() - i,
    {
        if !(is_alphanumeric(n[i]) || n[i] == '_') {
            return false;
        }
        i += 1;
    }
    true
}

/// Two paths name the same place: the same root and the same components.
pub open spec fn same_path(a: Seq<char>, b: Seq<char>) -> bool {
    is_absolute(a) == is_absolute(b) && crate::paths::components(a) == crate::paths::components(b)
}

/// Whether two paths name the same place (see `same_path`).
pub fn same_path_pub(a: &[char], b: &[char]) -> (r: bool)
    ensures
        r == same_path(a@, b@),
{
    same_path_exec(a, b)
}

fn same_path_exec(a: &[char], b: &[char]) -> (r: bool)
    ensures
        r == same_path(a@, b@),
{
    if crate::paths::absolute(a) != crate::paths::absolute(b) {
        return false;
    }
    let ca = crate::paths::components_of(a);
    let cb = crate::paths::components_of(b);
    if ca.len() != cb.len() {
        assert(views(ca@).len() == ca@.len() && views(cb@).len() == cb@.len());
        return false;
    }
    let mut i: usize = 0;
    while i < ca.len()
        invariant
            i <= ca@.len(),
            ca@.len() == cb@.len(),
            views(ca@) == crate::paths::components(a@),
            views(cb@) == crate::paths::components(b@),
            forall|k: int| 0 <= k < i ==> ca@[k]@ == cb@[k]@,
        decreases ca.len() - i,
    {
        if !chars_eq(ca[i].as_slice(), cb[i].as_slice()) {
            assert(views(ca@)[i as int] != views(cb@)[i as int]);
            return false;
        }
        i += 1;
    }
    assert(views(ca@) =~= views(cb@));
    true
}

/// `s` with every leading `# ` removed.
pub open spec fn strip_hashes(s: Seq<char>) -> Seq<char>
    decreases s.len(),
{
    if s.len() >= 2 && s[0] == '#' && s[1] == ' ' {
        strip_hashes(s.skip(2))
    } else {
        s
    }
}

/// The index of the first entry named `n`.
pub open spec fn var_index(vars: Seq<(Seq<char>, Seq<char>)>, n: Seq<char>) -> Option<int>
    decreases vars.len(),
{
    if vars.len() == 0 {
        None
    } else {
        match var_index(vars.drop_last(), n) {
            Some(i) => Some(i),
            None => if vars.last().0 == n {
                Some(vars.len() - 1)
            } else {
                None
            },
        }
    }
}

/// `vars` with `n` set to `v`: its entry replaced, or a new one appended.
pub open spec fn set_var(vars: Seq<(Seq<char>, Seq<char>)>, n: Seq<char>, v: Seq<char>) -> Seq<
    (Seq<char>, Seq<char>),
> {
    match var_index(vars, n) {
        Some(i) => vars.update(i, (n, v)),
        None => vars.push((n, v)),
    }
}

/// The index of the first scope for directory `d`.
pub open spec fn scope_index(scopes: Seq<(Seq<char>, Seq<(Seq<char>, Seq<char>)>)>, d: Seq<char>) -> Option<
    int,
>
    decreases scopes.len(),
{
    if scopes.len() == 0 {
        None
    } else {
        match scope_index(scopes.drop_last(), d) {
            Some(i) => Some(i),
            None => if same_path(scopes.last().0, d) {
                Some(scopes.len() - 1)
            } else {
                None
            },
        }
    }
}

/// One line of `make -p` output read against the stack of directories the
/// sub-makes announced and the scopes gathered so far.
pub open spec fn db_step(
    st: (Seq<Seq<char>>, Seq<(Seq<char>, Seq<(Seq<char>, Seq<char>)>)>),
    line: Seq<char>,
) -> (Seq<Seq<char>>, Seq<(Seq<char>, Seq<(Seq<char>, Seq<char>)>)>) {
    if has_prefix(strip_hashes(line), "make["@) {
        match entering(line) {
            Some(d) => (st.0.push(d), st.1),
            None => if leaving(line) && st.0.len() > 1 {
                (st.0.drop_last(), st.1)
            } else {
                st
            },
        }
    } else if line.len() > 0 && (line[0] == '\t' || line[0] == '#') {
        st
    } else {
        match split_once(line, " = "@) {
            None => st,
            Some((name, value)) => if !var_name(name) {
                st
            } else {
                let cur = st.0.last();
                match scope_index(st.1, cur) {
                    Some(i) => (st.0, st.1.update(i, (st.1[i].0, set_var(st.1[i].1, name, trim(value))))),
                    None => (st.0, st.1.push((cur, set_var(seq![], name, trim(value))))),
                }
            },
        }
    }
}

pub open spec fn db_run(ls: Seq<Seq<char>>, root: Seq<char>) -> (
    Seq<Seq<char>>,
    Seq<(Seq<char>, Seq<(Seq<char>, Seq<char>)>)>,
)
    decreases ls.len(),
{
    if ls.len() == 0 {
        (seq![root], seq![(root, seq![])])
    } else {
        db_step(db_run(ls.drop_last(), root), ls.last())
    }
}

/// No name is set twice.
pub open spec fn distinct_names(vars: Seq<(Seq<char>, Seq<char>)>) -> bool {
    forall|i: int, j: int| 0 <= i < j < vars.len() ==> (#[trigger] vars[i]).0 != (#[trigger] vars[j]).0
}

proof fn lemma_var_index_facts(vars: Seq<(Seq<char>, Seq<char>)>, n: Seq<char>)
    ensures
        var_index(vars, n) matches Some(i) ==> 0 <= i < vars.len() && vars[i].0 == n,
        var_index(vars, n) is None ==> forall|k: int| 0 <= k < vars.len() ==> (#[trigger] vars[k]).0 != n,
    decreases vars.len(),
{
    if vars.len() > 0 {
        lemma_var_index_facts(vars.drop_last(), n);
        if var_index(vars, n) is None {
            assert forall|k: int| 0 <= k < vars.len() implies (#[trigger] vars[k]).0 != n by {
                if k < vars.len() - 1 {
                    assert(vars.drop_last()[k] == vars[k]);
                }
            }
        }
    }
}

proof fn lemma_set_var_distinct(vars: Seq<(Seq<char>, Seq<char>)>, n: Seq<char>, v: Seq<char>)
    requires
        distinct_names(vars),
    ensures
        distinct_names(set_var(vars, n, v)),
{
    lemma_var_index_facts(vars, n);
    let r = set_var(vars, n, v);
    assert forall|i: int, j: int| 0 <= i < j < r.len() implies (#[trigger] r[i]).0 != (#[trigger] r[j]).0 by {
        match var_index(vars, n) {
            Some(x) => {
                assert(r[i].0 == vars[i].0);
                assert(r[j].0 == vars[j].0);
            },
            None => {
                if j == vars.len() {
                    assert(r[i] == vars[i]);
                } else {
                    assert(r[i] == vars[i] && r[j] == vars[j]);
                }
            },
        }
    }
}

proof fn lemma_scope_index_bound(scopes: Seq<(Seq<char>, Seq<(Seq<char>, Seq<char>)>)>, d: Seq<char>)
    ensures
        scope_index(scopes, d) matches Some(i) ==> 0 <= i < scopes.len(),
    decreases scopes.len(),
{
    if scopes.len() > 0 {
        lemma_scope_index_bound(scopes.drop_last(), d);
    }
}

proof fn lemma_db_run_distinct(ls: Seq<Seq<char>>, root: Seq<char>)
    ensures
        forall|k: int| 0 <= k < db_run(ls, root).1.len() ==> distinct_names(#[trigger] db_run(ls, root).1[k].1),
    decreases ls.len(),
{
    if ls.len() > 0 {
        lemma_db_run_distinct(ls.drop_last(), root);
        let st = db_run(ls.drop_last(), root);
        let r = db_run(ls, root);
        let line = ls.last();
        assert(r == db_step(st, line));
        if !has_prefix(strip_hashes(line), "make["@) && !(line.len() > 0 && (line[0] == '\t' || line[0] == '#')) {
            match split_once(line, " = "@) {
                None => {},
                Some((name, value)) => if var_name(name) {
                    let cur = st.0.last();
                    lemma_scope_index_bound(st.1, cur);
                    match scope_index(st.1, cur) {
                        Some(i) => {
                            lemma_set_var_distinct(st.1[i].1, name, trim(value));
                            assert forall|k: int| 0 <= k < r.1.len() implies distinct_names(#[trigger] r.1[k].1) by {
                                if k != i {
                                    assert(r.1[k] == st.1[k]);
                                }
                            }
                        },
                        None => {
                            lemma_set_var_distinct(seq![], name, trim(value));
                            assert forall|k: int| 0 <= k < r.1.len() implies distinct_names(#[trigger] r.1[k].1) by {
                                if k < st.1.len() {
                                    assert(r.1[k] == st.1[k]);
                                }
                            }
                        },
                    }
                },
            }
        }
    } else {
        assert(db_run(ls, root).1[0].1 =~= Seq::<(Seq<char>, Seq<char>)>::empty());
    }
}

/// make's variable database: one scope per directory whose make printed
/// one, the build root's first, each holding its `NAME = value` lines with
/// the last definition of a name winning. Nothing merges across scopes:
/// automake scopes every name it emits to its Makefile.
pub struct VariableDatabase {
    build_root: String,
    scopes: Vec<(String, Vec<(String, String)>)>,
}

pub open spec fn scope_views(scopes: Seq<(String, Vec<(String, String)>)>) -> Seq<
    (Seq<char>, Seq<(Seq<char>, Seq<char>)>),
> {
    scopes.map_values(|sc: (String, Vec<(String, String)>)| (sc.0@, pairs(sc.1@)))
}

impl VariableDatabase {
    /// The scopes, as plain values.
    pub closed spec fn scopes_view(&self) -> Seq<(Seq<char>, Seq<(Seq<char>, Seq<char>)>)> {
        scope_views(self.scopes@)
    }

    pub closed spec fn root_view(&self) -> Seq<char> {
        self.build_root@
    }

    /// There is always a scope, the first is the build root's, and no
    /// name occurs twice in a scope.
    pub closed spec fn wf(&self) -> bool {
        &&& self.scopes@.len() >= 1
        &&& self.scopes@[0].0@ == self.build_root@
        &&& forall|k: int| 0 <= k < self.scopes_view().len() ==> distinct_names(#[trigger] self.scopes_view()[k].1)
    }

    /// Parses `make -p` output. Directory announcements are `# make[N]:`
    /// comment lines and nest, so they are read as a stack before the
    /// comment filter; a database printed after a `Leaving` line belongs to
    /// the enclosing make. Only `NAME = value` lines are kept.
    pub fn parse(database: &str, build_root: &str) -> (r: Self)
        ensures
            r.wf(),
            r.root_view() == build_root@,
            r.scopes_view() == db_run(lines(database@), build_root@).1,
    {
        let text = chars_of(database);
        let ls = lines_of(text.as_slice());
        let ghost lv = views(ls@);
        assert(lv =~= lines(database@));
        let root = chars_of(build_root);
        let mut stack: Vec<Vec<char>> = Vec::new();
        stack.push(chars_of(build_root));
        let mut scopes: Vec<(String, Vec<(String, String)>)> = Vec::new();
        scopes.push((string_of(root.as_slice()), Vec::new()));
        proof {
            reveal_strlit("make[");
            reveal_strlit(" = ");
        }
        let make = chars_of("make[");
        let eq = chars_of(" = ");
        assert(views(stack@) =~= seq![build_root@]);
        assert(pairs(scopes@[0].1@) =~= Seq::<(Seq<char>, Seq<char>)>::empty());
        assert(scope_views(scopes@) =~= seq![(build_root@, Seq::<(Seq<char>, Seq<char>)>::empty())]);
        let mut i: usize = 0;
        while i < ls.len()
            invariant
                i <= ls@.len(),
                lv == views(ls@),
                make@ == "make["@,
                eq@ == " = "@,
                eq@.len() == 3,
                stack@.len() >= 1,
                scopes@.len() >= 1,
                scopes@[0].0@ == build_root@,
                (views(stack@), scope_views(scopes@)) == db_run(lv.take(i as int), build_root@),
            decreases ls.len() - i,
        {
            proof {
                assert(lv.take(i + 1).drop_last() =~= lv.take(i as int));
                assert(lv.take(i + 1).last() == ls@[i as int]@);
            }
            let line = &ls[i];
            let stripped = strip_hash_prefix(line.as_slice());
            if starts_with(stripped.as_slice(), make.as_slice()) {
                match entering_directory(line.as_slice()) {
                    Some(d) => {
                        let ghost before = views(stack@);
                        stack.push(d);
                        assert(views(stack@) =~= before.push(d@));
                    },
                    None => {
                        if leaving_directory(line.as_slice()) && stack.len() > 1 {
                            let ghost before = views(stack@);
                            stack.pop();
                            assert(views(stack@) =~= before.drop_last());
                        }
                    },
                }
            } else if line.len() > 0 && (line[0] == '\t' || line[0] == '#') {
            } else {
                match split_once_at(line.as_slice(), eq.as_slice()) {
                    None => {},
                    Some((name, value)) => {
                        if is_var_name(name.as_slice()) {
                            let cur = &stack[stack.len() - 1];
                            assert(views(stack@).last() == cur@);
                            let v = trim_ws(value.as_slice());
                            let ghost sv = scope_views(scopes@);
                            match find_scope(&scopes, cur.as_slice()) {
                                Some(k) => {
                                    let mut vars = copy_pairs(&scopes[k].1);
                                    let dir = scopes[k].0.clone();
                                    assert(dir@ == sv[k as int].0);
                                    assert(pairs(vars@) == sv[k as int].1);
                                    set_var_exec(&mut vars, name.as_slice(), v.as_slice());
                                    scopes.set(k, (dir, vars));
                                    assert(scope_views(scopes@) =~= sv.update(
                                        k as int,
                                        (sv[k as int].0, set_var(sv[k as int].1, name@, v@)),
                                    ));
                                },
                                None => {
                                    let mut vars: Vec<(String, String)> = Vec::new();
                                    assert(pairs(vars@) =~= Seq::<(Seq<char>, Seq<char>)>::empty());
                                    set_var_exec(&mut vars, name.as_slice(), v.as_slice());
                                    scopes.push((string_of(cur.as_slice()), vars));
                                    assert(scope_views(scopes@) =~= sv.push(
                                        (cur@, set_var(Seq::empty(), name@, v@)),
                                    ));
                                },
                            }
                        }
                    },
                }
            }
            i += 1;
        }
        assert(lv.take(lv.len() as int) =~= lv);
        let r = VariableDatabase { build_root: string_of(root.as_slice()), scopes };
        proof {
            lemma_db_run_distinct(lv, build_root@);
            assert(r.scopes_view() == db_run(lv, build_root@).1);
            assert forall|k: int| 0 <= k < r.scopes_view().len() implies distinct_names(#[trigger] r.scopes_view()[k].1) by {
                assert(r.scopes_view()[k] == db_run(lv, build_root@).1[k]);
            }
        }
        r
    }

    /// Within a scope the last definition of a name wins: no scope holds a
    /// name twice, and the build root's scope comes first.
    pub proof fn law_one_value_per_name(&self)
        requires
            self.wf(),
        ensures
            self.scopes_view().len() >= 1,
            self.scopes_view()[0].0 == self.root_view(),
            forall|k: int| 0 <= k < self.scopes_view().len() ==> distinct_names(#[trigger] self.scopes_view()[k].1),
    {
    }

    /// The variables of the make that ran in `dir`, if one did.
    pub fn scope(&self, dir: &str) -> (r: Option<&Vec<(String, String)>>)
        ensures
            r matches Some(v) ==> scope_index(self.scopes_view(), dir@) matches Some(k) && pairs(v@)
                == self.scopes_view()[k].1,
            r is None ==> scope_index(self.scopes_view(), dir@) is None,
    {
        match find_scope(&self.scopes, chars_of(dir).as_slice()) {
            Some(k) => Some(&self.scopes[k].1),
            None => None,
        }
    }

    /// The top-level make's scope, where a value `configure` substituted
    /// into every Makefile is read.
    pub fn root(&self) -> (r: &Vec<(String, String)>)
        requires
            self.wf(),
        ensures
            pairs(r@) == self.scopes_view()[0].1,
    {
        &self.scopes[0].1
    }

    pub fn build_root(&self) -> (r: &String)
        ensures
            r@ == self.root_view(),
    {
        &self.build_root
    }

    /// The variables of the scope a build-tree file belongs to (see
    /// `scope_for_index`): a template in a directory with no Makefile of
    /// its own reads its nearest ancestor's.
    pub fn scope_for(&self, path_in_build_tree: &str) -> (r: &Vec<(String, String)>)
        requires
            self.wf(),
        ensures
            pairs(r@) == self.scopes_view()[scope_for_index(self.scopes_view(), self.root_view(), path_in_build_tree@)].1,
    {
        let ghost sv = self.scopes_view();
        let br = chars(&self.build_root);
        let full = crate::paths::join_paths(br.as_slice(), chars_of(path_in_build_tree).as_slice());
        let abs = crate::paths::absolute(full.as_slice());
        let comps = crate::paths::components_of(full.as_slice());
        let ghost cv = views(comps@);
        let ghost top = scope_up(sv, br@, abs, cv, cv.len() - 1);
        assert(full@ == crate::paths::join_path(self.root_view(), path_in_build_tree@));
        let mut k = comps.len();
        let mut stopped = false;
        while k > 0 && !stopped
            invariant
                k <= comps@.len(),
                sv == self.scopes_view(),
                sv == scope_views(self.scopes@),
                cv == views(comps@),
                br@ == self.root_view(),
                full@ == crate::paths::join_path(self.root_view(), path_in_build_tree@),
                abs == is_absolute(full@),
                cv == crate::paths::components(full@),
                top == scope_up(sv, br@, abs, cv, cv.len() - 1),
                !stopped ==> top == scope_up(sv, br@, abs, cv, k - 1),
                stopped ==> top is None,
            decreases k,
        {
            let d = crate::paths::render_path(abs, crate::autotools_graph::subvec_vecs(&comps, 0, k - 1).as_slice());
            assert(cv.subrange(0, k - 1) =~= cv.take(k - 1));
            match find_scope(&self.scopes, d.as_slice()) {
                Some(i) => {
                    assert(scope_up(sv, br@, abs, cv, k - 1) == Some(i as int));
                    assert(top == Some(i as int));
                    assert(scope_for_index(sv, br@, path_in_build_tree@) == i as int);
                    assert(sv[i as int] == (self.scopes@[i as int].0@, pairs(self.scopes@[i as int].1@)));
                    return &self.scopes[i].1;
                },
                None => {},
            }
            if same_path_exec(d.as_slice(), br.as_slice()) {
                stopped = true;
                k = 0;
            } else {
                k -= 1;
            }
        }
        assert(sv[0] == (self.scopes@[0].0@, pairs(self.scopes@[0].1@)));
        &self.scopes[0].1
    }

    /// The number of scopes.
    pub fn scope_count(&self) -> (r: usize)
        ensures
            r == self.scopes_view().len(),
    {
        self.scopes.len()
    }

    /// The directory and variables of scope `k`.
    pub fn scope_at(&self, k: usize) -> (r: (&String, &Vec<(String, String)>))
        requires
            k < self.scopes_view().len(),
        ensures
            (r.0@, pairs(r.1@)) == self.scopes_view()[k as int],
    {
        (&self.scopes[k].0, &self.scopes[k].1)
    }
}

/// The scope of the nearest directory whose make printed a database,
/// among the ancestors `comps.take(k)`, `comps.take(k - 1)`, ... of a
/// path, stopping after the build root.
pub open spec fn scope_up(
    scopes: Seq<(Seq<char>, Seq<(Seq<char>, Seq<char>)>)>,
    build_root: Seq<char>,
    abs: bool,
    comps: Seq<Seq<char>>,
    k: int,
) -> Option<int>
    decreases k + 1,
{
    if k < 0 {
        None
    } else {
        let d = crate::paths::render(abs, comps.take(k));
        match scope_index(scopes, d) {
            Some(i) => Some(i),
            None => if same_path(d, build_root) {
                None
            } else {
                scope_up(scopes, build_root, abs, comps, k - 1)
            },
        }
    }
}

/// The scope a build-tree file belongs to: the nearest directory at or
/// above it whose make printed a database, else the root's (index 0).
pub open spec fn scope_for_index(
    scopes: Seq<(Seq<char>, Seq<(Seq<char>, Seq<char>)>)>,
    build_root: Seq<char>,
    path: Seq<char>,
) -> int {
    let full = crate::paths::join_path(build_root, path);
    let comps = crate::paths::components(full);
    match scope_up(scopes, build_root, is_absolute(full), comps, comps.len() - 1) {
        Some(i) => i,
        None => 0,
    }
}

/// A copy of a list of pairs.
pub fn copy_pairs(v: &Vec<(String, String)>) -> (r: Vec<(String, String)>)
    ensures
        pairs(r@) == pairs(v@),
{
    let mut r: Vec<(String, String)> = Vec::new();
    let mut i: usize = 0;
    while i < v.len()
        invariant
            i <= v@.len(),
            pairs(r@) == pairs(v@).take(i as int),
        decreases v.len() - i,
    {
        let ghost before = pairs(r@);
        let a = v[i].0.clone();
        let b = v[i].1.clone();
        assert((a@, b@) == pairs(v@)[i as int]);
        r.push((a, b));
        assert(pairs(r@) =~= before.push((a@, b@)));
        i += 1;
        assert(pairs(r@) =~= pairs(v@).take(i as int));
    }
    assert(pairs(v@).take(i as int) =~= pairs(v@));
    r
}

fn strip_hash_prefix(s: &[char]) -> (r: Vec<char>)
    ensures
        r@ == strip_hashes(s@),
{
    let mut i: usize = 0;
    assert(s@.skip(0) =~= s@);
    while s.len() - i >= 2 && s[i] == '#' && s[i + 1] == ' '
        invariant
            i <= s@.len(),
            strip_hashes(s@) == strip_hashes(s@.skip(i as int)),
        decreases s.len() - i,
    {
        assert(s@.skip(i as int).skip(2) =~= s@.skip(i + 2));
        i += 2;
    }
    subvec(s, i, s.len())
}

fn find_scope(scopes: &Vec<(String, Vec<(String, String)>)>, d: &[char]) -> (r: Option<usize>)
    ensures
        r matches Some(k) ==> k < scopes@.len() && scope_index(scope_views(scopes@), d@) == Some(k as int),
        r is None ==> scope_index(scope_views(scopes@), d@) is None,
{
    let ghost sv = scope_views(scopes@);
    let mut k: usize = 0;
    while k < scopes.len()
        invariant
            k <= scopes@.len(),
            sv == scope_views(scopes@),
            scope_index(sv.take(k as int), d@) is None,
        decreases scopes.len() - k,
    {
        assert(sv.take(k + 1).drop_last() =~= sv.take(k as int));
        assert(sv.take(k + 1).last() == sv[k as int]);
        if same_path_exec(chars(&scopes[k].0).as_slice(), d) {
            proof {
                lemma_scope_index_prefix(sv, d@, k as int + 1, k as int);
            }
            return Some(k);
        }
        k += 1;
    }
    assert(sv.take(k as int) =~= sv);
    None
}

proof fn lemma_scope_index_prefix(
    sv: Seq<(Seq<char>, Seq<(Seq<char>, Seq<char>)>)>,
    d: Seq<char>,
    m: int,
    i: int,
)
    requires
        0 <= i < m <= sv.len(),
        scope_index(sv.take(m), d) == Some(i),
    ensures
        scope_index(sv, d) == Some(i),
    decreases sv.len() - m,
{
    if m < sv.len() {
        assert(sv.take(m + 1).drop_last() =~= sv.take(m));
        lemma_scope_index_prefix(sv, d, m + 1, i);
    } else {
        assert(sv.take(m) =~= sv);
    }
}

proof fn lemma_var_index_prefix(vs: Seq<(Seq<char>, Seq<char>)>, n: Seq<char>, m: int, i: int)
    requires
        0 <= i < m <= vs.len(),
        var_index(vs.take(m), n) == Some(i),
    ensures
        var_index(vs, n) == Some(i),
    decreases vs.len() - m,
{
    if m < vs.len() {
        assert(vs.take(m + 1).drop_last() =~= vs.take(m));
        lemma_var_index_prefix(vs, n, m + 1, i);
    } else {
        assert(vs.take(m) =~= vs);
    }
}

/// Sets `name` to `value` among the variables (see `set_var`).
pub fn set_var_pub(vars: &mut Vec<(String, String)>, name: &[char], value: &[char])
    ensures
        pairs(final(vars)@) == set_var(pairs(old(vars)@), name@, value@),
{
    set_var_exec(vars, name, value)
}

fn set_var_exec(vars: &mut Vec<(String, String)>, name: &[char], value: &[char])
    ensures
        pairs(final(vars)@) == set_var(pairs(old(vars)@), name@, value@),
{
    let ghost pv = pairs(vars@);
    let mut k: usize = 0;
    while k < vars.len()
        invariant
            k <= vars@.len(),
            pv == pairs(vars@),
            vars@ == old(vars)@,
            var_index(pv.take(k as int), name@) is None,
        decreases vars.len() - k,
    {
        assert(pv.take(k + 1).drop_last() =~= pv.take(k as int));
        assert(pv.take(k + 1).last() == pv[k as int]);
        if chars_eq(chars(&vars[k].0).as_slice(), name) {
            proof {
                lemma_var_index_prefix(pv, name@, k as int + 1, k as int);
            }
            let entry = (string_of(name), string_of(value));
            vars.set(k, entry);
            assert(pairs(vars@) =~= pv.update(k as int, (name@, value@)));
            return;
        }
        k += 1;
    }
    assert(pv.take(k as int) =~= pv);
    vars.push((string_of(name), string_of(value)));
    assert(pairs(vars@) =~= pv.push((name@, value@)));
}

/// Expands `$(NAME)` / `${NAME}` references the way make would, from the
/// variables, recursively, at most `depth` levels deep. A reference the
/// variables do not define, or whose name is not a plain variable name, is
/// kept as written.
pub open spec fn expand_go(value: Seq<char>, vars: Seq<(Seq<char>, Seq<char>)>, depth: nat) -> Seq<char>
    decreases depth, value.len(), 1nat,
{
    if depth == 0 || !value.contains('$') {
        value
    } else {
        expand_rest(value, vars, depth)
    }
}

pub open spec fn expand_rest(rest: Seq<char>, vars: Seq<(Seq<char>, Seq<char>)>, depth: nat) -> Seq<char>
    decreases depth, rest.len(), 0nat,
{
    if depth == 0 {
        rest
    } else {
        match find(rest, seq!['$']) {
            None => rest,
            Some(start) => {
                proof {
                    crate::text::lemma_find_from(rest, seq!['$'], 0);
                }
                let prefix = rest.take(start);
                let after = rest.skip(start + 1);
                if after.len() > 0 && (after[0] == '(' || after[0] == '{') {
                    let close = if after[0] == '(' {
                        ')'
                    } else {
                        '}'
                    };
                    match find(after, seq![close]) {
                        None => prefix + rest,
                        Some(end) => {
                            proof {
                                crate::text::lemma_find_from(after, seq![close], 0);
                            }
                            let name = after.subrange(1, end);
                            let literal = rest.subrange(start, start + end + 2);
                            let repl = match crate::configure_file::lookup(vars, name) {
                                Some(r) => if var_name(name) {
                                    expand_go(r, vars, (depth - 1) as nat)
                                } else {
                                    literal
                                },
                                None => literal,
                            };
                            prefix + repl + expand_rest(after.skip(end + 1), vars, depth)
                        },
                    }
                } else {
                    prefix + seq!['$'] + expand_rest(after, vars, depth)
                }
            },
        }
    }
}

/// A value with its references expanded, eight levels deep at most.
pub open spec fn expanded(value: Seq<char>, vars: Seq<(Seq<char>, Seq<char>)>) -> Seq<char> {
    expand_go(value, vars, 8)
}

fn char_in_slice(s: &[char], c: char) -> (r: bool)
    ensures
        r == s@.contains(c),
{
    let mut i: usize = 0;
    while i < s.len()
        invariant
            i <= s@.len(),
            forall|k: int| 0 <= k < i ==> s@[k] != c,
        decreases s.len() - i,
    {
        if s[i] == c {
            assert(s@[i as int] == c);
            return true;
        }
        i += 1;
    }
    false
}

fn find_dollar(rest: &Vec<char>) -> (r: Option<usize>)
    ensures
        r matches Some(i) ==> i < rest@.len() && find(rest@, seq!['$']) == Some(i as int),
        r is None ==> find(rest@, seq!['$']) is None,
{
    let dollar: [char; 1] = ['$'];
    assert(dollar@ =~= seq!['$']);
    let r = find_str(rest.as_slice(), &dollar);
    proof {
        crate::text::lemma_find_from(rest@, seq!['$'], 0);
    }
    r
}

#[verifier::rlimit(40)]
fn expand_go_exec(value: &[char], vars: &Vec<(String, String)>, depth: u8) -> (r: Vec<char>)
    ensures
        r@ == expand_go(value@, pairs(vars@), depth as nat),
    decreases depth,
{
    if depth == 0 || !char_in_slice(value, '$') {
        return subvec(value, 0, value.len());
    }
    let dollar: [char; 1] = ['$'];
    assert(dollar@ =~= seq!['$']);
    let mut out: Vec<char> = Vec::new();
    let mut rest: Vec<char> = subvec(value, 0, value.len());
    assert(rest@ =~= value@);
    assert(expand_go(value@, pairs(vars@), depth as nat) == expand_rest(value@, pairs(vars@), depth as nat));
    loop
        invariant
            depth > 0,
            dollar@ == seq!['$'],
            expand_go(value@, pairs(vars@), depth as nat) == expand_rest(value@, pairs(vars@), depth as nat),
            out@ + expand_rest(rest@, pairs(vars@), depth as nat) == expand_rest(value@, pairs(vars@), depth as nat),
        decreases rest@.len(),
    {
        match find_dollar(&rest) {
            None => {
                crate::text::push_all(&mut out, rest.as_slice());
                return out;
            },
            Some(start) => {
                let prefix = subvec(rest.as_slice(), 0, start);
                let rl = rest.len();
                assert(start < rl);
                let after = subvec(rest.as_slice(), start + 1, rl);
                if after.len() > 0 && (after[0] == '(' || after[0] == '{') {
                    let close = if after[0] == '(' {
                        ')'
                    } else {
                        '}'
                    };
                    let cl: [char; 1] = [close];
                    assert(cl@ =~= seq![close]);
                    match find_str(after.as_slice(), &cl) {
                        None => {
                            crate::text::push_all(&mut out, prefix.as_slice());
                            crate::text::push_all(&mut out, rest.as_slice());
                            assert(out@ =~= out@ + Seq::<char>::empty());
                            return out;
                        },
                        Some(end) => {
                            proof {
                                crate::text::lemma_find_from(after@, seq![close], 0);
                            }
                            let name = subvec(after.as_slice(), 1, end);
                            let literal = subvec(rest.as_slice(), start, start + end + 2);
                            let repl = match crate::configure_file::lookup_value(vars, string_of(name.as_slice()).as_str()) {
                                Some(r) => if is_var_name(name.as_slice()) {
                                    expand_go_exec(chars(&r).as_slice(), vars, depth - 1)
                                } else {
                                    literal
                                },
                                None => literal,
                            };
                            let ghost before = out@;
                            crate::text::push_all(&mut out, prefix.as_slice());
                            crate::text::push_all(&mut out, repl.as_slice());
                            let next = subvec(after.as_slice(), end + 1, after.len());
                            assert(out@ + expand_rest(next@, pairs(vars@), depth as nat) =~= before + (prefix@ + repl@ + expand_rest(next@, pairs(vars@), depth as nat)));
                            rest = next;
                        },
                    }
                } else {
                    let ghost before = out@;
                    crate::text::push_all(&mut out, prefix.as_slice());
                    out.push('$');
                    assert(out@ + expand_rest(after@, pairs(vars@), depth as nat) =~= before + (prefix@ + seq!['$'] + expand_rest(after@, pairs(vars@), depth as nat)));
                    rest = after;
                }
            },
        }
    }
}

/// Expands `$(NAME)` / `${NAME}` references in a value from the
/// variables, the way make would, recursively and at most eight levels
/// deep (a self-referencing definition must not loop). An undefined
/// reference is kept as written, for the caller to drop.
pub fn expand_references(value: &str, vars: &Vec<(String, String)>) -> (r: String)
    ensures
        r@ == expanded(value@, pairs(vars@)),
{
    string_of(expand_go_exec(chars_of(value).as_slice(), vars, 8).as_slice())
}

/// The value of `EXEEXT`, empty where the variables do not define it.
pub open spec fn exeext(vars: Seq<(Seq<char>, Seq<char>)>) -> Seq<char> {
    match crate::configure_file::lookup(vars, "EXEEXT"@) {
        Some(e) => e,
        None => seq![],
    }
}

/// `$(EXEEXT)` and `${EXEEXT}` replaced by its value.
pub open spec fn expand_exeext_spec(token: Seq<char>, vars: Seq<(Seq<char>, Seq<char>)>) -> Seq<char> {
    crate::text::replace(crate::text::replace(token, "$(EXEEXT)"@, exeext(vars)), "${EXEEXT}"@, exeext(vars))
}

/// Expands automake's `$(EXEEXT)`, in either bracket form, from the
/// variables rather than assuming it empty.
pub fn expand_exeext(token: &[char], vars: &Vec<(String, String)>) -> (r: Vec<char>)
    ensures
        r@ == expand_exeext_spec(token@, pairs(vars@)),
{
    let e = match crate::configure_file::lookup_value(vars, "EXEEXT") {
        Some(e) => chars(&e),
        None => Vec::new(),
    };
    proof {
        reveal_strlit("$(EXEEXT)");
        reveal_strlit("${EXEEXT}");
    }
    let a = crate::text::replace_all(token, chars_of("$(EXEEXT)").as_slice(), e.as_slice());
    crate::text::replace_all(a.as_slice(), chars_of("${EXEEXT}").as_slice(), e.as_slice())
}

/// The variable a `$(NAME)` or `${NAME}` token refers to.
pub open spec fn reference_name(tok: Seq<char>) -> Option<Seq<char>> {
    let paren = match strip_prefix(tok, "$("@) {
        Some(t) => crate::text::strip_suffix(t, seq![')']),
        None => None,
    };
    match paren {
        Some(n) => Some(n),
        None => match strip_prefix(tok, "${"@) {
            Some(t) => crate::text::strip_suffix(t, seq!['}']),
            None => None,
        },
    }
}

fn reference_of(tok: &[char]) -> (r: Option<Vec<char>>)
    ensures
        r matches Some(n) ==> reference_name(tok@) == Some(n@),
        r is None ==> reference_name(tok@) is None,
{
    let cp: [char; 1] = [')'];
    assert(cp@ =~= seq![')']);
    let cb: [char; 1] = ['}'];
    assert(cb@ =~= seq!['}']);
    match strip_prefix_of(tok, chars_of("$(").as_slice()) {
        Some(t) => match crate::text::strip_suffix_of(t.as_slice(), &cp) {
            Some(n) => return Some(n),
            None => {},
        },
        None => {},
    }
    match strip_prefix_of(tok, chars_of("${").as_slice()) {
        Some(t) => crate::text::strip_suffix_of(t.as_slice(), &cb),
        None => None,
    }
}

/// What an automake `TESTS` entry turns out to be.
#[derive(Debug, Clone, Copy, PartialEq, Eq, Structural, Hash)]
pub enum EntryKind {
    /// A `check_PROGRAMS` binary, run directly.
    Binary,
    /// A script that runs the tests itself.
    Script,
    /// A reference the variable database does not answer.
    Unresolved,
}

/// A `TESTS` entry: a binary this module builds, a script to run, or a
/// reference nothing resolves (escalated, never guessed).
#[derive(Debug, Clone, PartialEq, Eq, Hash)]
pub enum TestEntry {
    Binary(String),
    Script(String),
    Unresolved(String),
}

pub open spec fn entry_view(e: TestEntry) -> (EntryKind, Seq<char>) {
    match e {
        TestEntry::Binary(n) => (EntryKind::Binary, n@),
        TestEntry::Script(n) => (EntryKind::Script, n@),
        TestEntry::Unresolved(n) => (EntryKind::Unresolved, n@),
    }
}

pub open spec fn entries_view(es: Seq<TestEntry>) -> Seq<(EntryKind, Seq<char>)> {
    es.map_values(|e: TestEntry| entry_view(e))
}

/// `r` with each of `new` appended unless already present.
pub open spec fn add_new(r: Seq<Seq<char>>, new: Seq<Seq<char>>) -> Seq<Seq<char>>
    decreases new.len(),
{
    if new.len() == 0 {
        r
    } else {
        let r2 = add_new(r, new.drop_last());
        if r2.contains(new.last()) {
            r2
        } else {
            r2.push(new.last())
        }
    }
}

/// The tokens a reference token expands to, one level.
pub open spec fn ref_expansion(tok: Seq<char>, vars: Seq<(Seq<char>, Seq<char>)>) -> Seq<Seq<char>> {
    match reference_name(tok) {
        Some(v) => match crate::configure_file::lookup(vars, v) {
            Some(e) => split_ws(e),
            None => seq![],
        },
        None => seq![],
    }
}

pub open spec fn grow_upto(r: Seq<Seq<char>>, vars: Seq<(Seq<char>, Seq<char>)>, k: nat) -> Seq<Seq<char>>
    decreases k,
{
    if k == 0 || k > r.len() {
        r
    } else {
        add_new(grow_upto(r, vars, (k - 1) as nat), ref_expansion(r[k - 1], vars))
    }
}

/// `r` with every reference in it expanded one more level.
pub open spec fn grow(r: Seq<Seq<char>>, vars: Seq<(Seq<char>, Seq<char>)>) -> Seq<Seq<char>> {
    grow_upto(r, vars, r.len())
}

/// The tokens reachable from `init` through `n` levels of expansion.
pub open spec fn reach(init: Seq<Seq<char>>, vars: Seq<(Seq<char>, Seq<char>)>, n: nat) -> Seq<Seq<char>>
    decreases n,
{
    if n == 0 {
        init
    } else {
        grow(reach(init, vars, (n - 1) as nat), vars)
    }
}

/// Whether `name` is one of the project's `check_PROGRAMS`, seeing
/// through the same indirections the tests do: a plain token reachable
/// from `check_PROGRAMS` (no chain of variables is longer than there are
/// variables) whose `$(EXEEXT)` expands to `name`.
pub open spec fn declared_check(vars: Seq<(Seq<char>, Seq<char>)>, name: Seq<char>) -> bool {
    match crate::configure_file::lookup(vars, "check_PROGRAMS"@) {
        None => false,
        Some(raw) => {
            let r = reach(split_ws(raw), vars, vars.len() + 1);
            exists|k: int|
                0 <= k < r.len() && reference_name(#[trigger] r[k]) is None && expand_exeext_spec(
                    r[k],
                    vars,
                ) == name
        },
    }
}

proof fn lemma_add_new_prefix(r: Seq<Seq<char>>, new: Seq<Seq<char>>)
    ensures
        add_new(r, new).len() >= r.len(),
        add_new(r, new).take(r.len() as int) == r,
    decreases new.len(),
{
    if new.len() > 0 {
        lemma_add_new_prefix(r, new.drop_last());
        let r2 = add_new(r, new.drop_last());
        assert(r2.push(new.last()).take(r.len() as int) =~= r2.take(r.len() as int));
    }
}

proof fn lemma_grow_upto_prefix(r: Seq<Seq<char>>, vars: Seq<(Seq<char>, Seq<char>)>, k: nat)
    ensures
        grow_upto(r, vars, k).len() >= r.len(),
        grow_upto(r, vars, k).take(r.len() as int) == r,
    decreases k,
{
    if k == 0 || k > r.len() {
        assert(r.take(r.len() as int) =~= r);
    } else {
        lemma_grow_upto_prefix(r, vars, (k - 1) as nat);
        let g = grow_upto(r, vars, (k - 1) as nat);
        lemma_add_new_prefix(g, ref_expansion(r[k - 1], vars));
        let a = add_new(g, ref_expansion(r[k - 1], vars));
        assert(a.take(r.len() as int) =~= a.take(g.len() as int).take(r.len() as int));
    }
}

proof fn lemma_reach_fixed(init: Seq<Seq<char>>, vars: Seq<(Seq<char>, Seq<char>)>, k: nat, n: nat)
    requires
        k <= n,
        grow(reach(init, vars, k), vars) == reach(init, vars, k),
    ensures
        reach(init, vars, n) == reach(init, vars, k),
    decreases n - k,
{
    if k < n {
        lemma_reach_fixed(init, vars, k, (n - 1) as nat);
    }
}

fn add_new_exec(r: &mut Vec<Vec<char>>, new: &Vec<Vec<char>>)
    ensures
        views(final(r)@) == add_new(views(old(r)@), views(new@)),
{
    let ghost start = views(r@);
    let mut i: usize = 0;
    assert(views(new@).take(0) =~= Seq::<Seq<char>>::empty());
    while i < new.len()
        invariant
            i <= new@.len(),
            views(r@) == add_new(start, views(new@).take(i as int)),
        decreases new.len() - i,
    {
        proof {
            assert(views(new@).take(i + 1).drop_last() =~= views(new@).take(i as int));
            assert(views(new@).take(i + 1).last() == new@[i as int]@);
        }
        let ghost before = views(r@);
        let mut k: usize = 0;
        while k < r.len() && !chars_eq(r[k].as_slice(), new[i].as_slice())
            invariant
                k <= r@.len(),
                i < new@.len(),
                forall|j: int| 0 <= j < k ==> r@[j]@ != new@[i as int]@,
            decreases r.len() - k,
        {
            k += 1;
        }
        if k == r.len() {
            assert(!before.contains(new@[i as int]@)) by {
                if before.contains(new@[i as int]@) {
                    let j = choose|j: int| 0 <= j < before.len() && before[j] == new@[i as int]@;
                    assert(r@[j]@ == before[j]);
                }
            }
            let c = subvec(new[i].as_slice(), 0, new[i].len());
            assert(c@ =~= new@[i as int]@);
            r.push(c);
            assert(views(r@) =~= before.push(c@));
        } else {
            assert(before[k as int] == new@[i as int]@);
            assert(before.contains(new@[i as int]@));
        }
        i += 1;
    }
    assert(views(new@).take(i as int) =~= views(new@));
}

fn ref_expansion_exec(tok: &[char], vars: &Vec<(String, String)>) -> (r: Vec<Vec<char>>)
    ensures
        views(r@) == ref_expansion(tok@, pairs(vars@)),
{
    match reference_of(tok) {
        Some(v) => match crate::configure_file::lookup_value(vars, string_of(v.as_slice()).as_str()) {
            Some(e) => split_whitespace(chars(&e).as_slice()),
            None => Vec::new(),
        },
        None => Vec::new(),
    }
}

fn grow_exec(r: &Vec<Vec<char>>, vars: &Vec<(String, String)>) -> (g: Vec<Vec<char>>)
    ensures
        views(g@) == grow(views(r@), pairs(vars@)),
{
    let mut g: Vec<Vec<char>> = Vec::new();
    let mut k: usize = 0;
    while k < r.len()
        invariant
            k <= r@.len(),
            views(g@) == views(r@).take(k as int),
        decreases r.len() - k,
    {
        let c = subvec(r[k].as_slice(), 0, r[k].len());
        assert(c@ =~= r@[k as int]@);
        let ghost before = views(g@);
        g.push(c);
        assert(views(g@) =~= before.push(c@));
        assert(views(r@)[k as int] == r@[k as int]@);
        assert(views(r@).take(k + 1) =~= views(r@).take(k as int).push(views(r@)[k as int]));
        k += 1;
        assert(views(g@) =~= views(r@).take(k as int));
    }
    assert(views(g@) =~= views(r@));
    let mut i: usize = 0;
    while i < r.len()
        invariant
            i <= r@.len(),
            views(g@) == grow_upto(views(r@), pairs(vars@), i as nat),
        decreases r.len() - i,
    {
        let e = ref_expansion_exec(r[i].as_slice(), vars);
        assert(views(r@)[i as int] == r@[i as int]@);
        add_new_exec(&mut g, &e);
        i += 1;
    }
    g
}

/// The tokens reachable from `check_PROGRAMS`, computed to the fixpoint.
fn check_reach(vars: &Vec<(String, String)>) -> (r: Option<Vec<Vec<char>>>)
    ensures
        match crate::configure_file::lookup(pairs(vars@), "check_PROGRAMS"@) {
            None => r is None,
            Some(raw) => r matches Some(v) && views(v@) == reach(split_ws(raw), pairs(vars@), vars@.len() + 1),
        },
{
    let raw = match crate::configure_file::lookup_value(vars, "check_PROGRAMS") {
        None => return None,
        Some(raw) => raw,
    };
    let ghost init = split_ws(raw@);
    let mut r = split_whitespace(chars(&raw).as_slice());
    let mut n: usize = 0;
    assert(views(r@) == init);
    while n < vars.len()
        invariant
            n <= vars@.len(),
            init == split_ws(raw@),
            crate::configure_file::lookup(pairs(vars@), "check_PROGRAMS"@) == Some(raw@),
            views(r@) == reach(init, pairs(vars@), n as nat),
        decreases vars.len() - n,
    {
        let g = grow_exec(&r, vars);
        proof {
            lemma_grow_upto_prefix(views(r@), pairs(vars@), views(r@).len());
        }
        if g.len() == r.len() {
            proof {
                assert(views(g@).len() == g@.len());
                assert(views(g@) =~= views(g@).take(views(r@).len() as int));
                assert(views(g@) == views(r@));
                lemma_reach_fixed(init, pairs(vars@), n as nat, (vars@.len() + 1) as nat);
            }
            return Some(r);
        }
        r = g;
        n += 1;
    }
    let g = grow_exec(&r, vars);
    Some(g)
}

fn declared_check_in(reach_toks: &Option<Vec<Vec<char>>>, vars: &Vec<(String, String)>, name: &[char]) -> (r: bool)
    requires
        match crate::configure_file::lookup(pairs(vars@), "check_PROGRAMS"@) {
            None => reach_toks is None,
            Some(raw) => reach_toks matches Some(v) && views(v@) == reach(split_ws(raw), pairs(vars@), vars@.len() + 1),
        },
    ensures
        r == declared_check(pairs(vars@), name@),
{
    let toks = match reach_toks {
        None => return false,
        Some(t) => t,
    };
    let ghost rv = views(toks@);
    let mut k: usize = 0;
    while k < toks.len()
        invariant
            k <= toks@.len(),
            rv == views(toks@),
            crate::configure_file::lookup(pairs(vars@), "check_PROGRAMS"@) matches Some(raw) && rv
                == reach(split_ws(raw), pairs(vars@), vars@.len() + 1),
            forall|j: int| 0 <= j < k ==> !(reference_name(#[trigger] rv[j]) is None && expand_exeext_spec(rv[j], pairs(vars@)) == name@),
        decreases toks.len() - k,
    {
        assert(rv[k as int] == toks@[k as int]@);
        if reference_of(toks[k].as_slice()).is_none() && chars_eq(
            expand_exeext(toks[k].as_slice(), vars).as_slice(),
            name,
        ) {
            assert(reference_name(rv[k as int]) is None && expand_exeext_spec(rv[k as int], pairs(vars@)) == name@);
            return true;
        }
        k += 1;
    }
    false
}

/// A bare `TESTS` entry that is something to run: a path, or a known
/// script extension.
pub open spec fn script_like(bare: Seq<char>) -> bool {
    contains(bare, seq!['/']) || match crate::paths::extension(bare) {
        Some(e) => e == "sh"@ || e == "py"@ || e == "pl"@ || e == "test"@,
        None => false,
    }
}

/// A bare `TESTS` entry: a script when it looks like one, a binary when
/// the project builds a check program by that name, a script otherwise.
pub open spec fn classify_bare(tok: Seq<char>, vars: Seq<(Seq<char>, Seq<char>)>) -> (EntryKind, Seq<char>) {
    let bare = expand_exeext_spec(tok, vars);
    if script_like(bare) {
        (EntryKind::Script, bare)
    } else if declared_check(vars, bare) {
        (EntryKind::Binary, bare)
    } else {
        (EntryKind::Script, bare)
    }
}

/// The entries `toks` stand for, references expanded in order with a
/// budget of `depth` levels: an undefined `am__*` reference is a false
/// automake conditional and stands for nothing; any other unresolvable
/// reference, or one met with the budget spent, is `Unresolved`.
pub open spec fn classify_tokens(toks: Seq<Seq<char>>, vars: Seq<(Seq<char>, Seq<char>)>, depth: nat) -> Seq<
    (EntryKind, Seq<char>),
>
    decreases depth, toks.len(),
{
    if toks.len() == 0 {
        seq![]
    } else {
        let tok = toks.last();
        classify_tokens(toks.drop_last(), vars, depth) + match reference_name(tok) {
            Some(name) => match crate::configure_file::lookup(vars, name) {
                Some(exp) => if depth > 0 {
                    classify_tokens(split_ws(exp), vars, (depth - 1) as nat)
                } else {
                    seq![(EntryKind::Unresolved, tok)]
                },
                None => if has_prefix(name, "am__"@) {
                    seq![]
                } else {
                    seq![(EntryKind::Unresolved, tok)]
                },
            },
            None => seq![classify_bare(tok, vars)],
        }
    }
}

/// `r` with each of `new` appended unless already present.
pub open spec fn add_new_entries(r: Seq<(EntryKind, Seq<char>)>, new: Seq<(EntryKind, Seq<char>)>) -> Seq<
    (EntryKind, Seq<char>),
>
    decreases new.len(),
{
    if new.len() == 0 {
        r
    } else {
        let r2 = add_new_entries(r, new.drop_last());
        if r2.contains(new.last()) {
            r2
        } else {
            r2.push(new.last())
        }
    }
}

/// One scope's `TESTS`, classified against its own variables, each entry
/// once, in declaration order.
pub open spec fn classify_tests_spec(vars: Seq<(Seq<char>, Seq<char>)>) -> Seq<(EntryKind, Seq<char>)> {
    add_new_entries(
        seq![],
        match crate::configure_file::lookup(vars, "TESTS"@) {
            None => seq![],
            Some(raw) => classify_tokens(split_ws(raw), vars, 16),
        },
    )
}

fn entry_of(kind: EntryKind, name: Vec<char>) -> (e: TestEntry)
    ensures
        entry_view(e) == (kind, name@),
{
    match kind {
        EntryKind::Binary => TestEntry::Binary(string_of(name.as_slice())),
        EntryKind::Script => TestEntry::Script(string_of(name.as_slice())),
        EntryKind::Unresolved => TestEntry::Unresolved(string_of(name.as_slice())),
    }
}

fn entry_parts(e: &TestEntry) -> (r: (EntryKind, Vec<char>))
    ensures
        (r.0, r.1@) == entry_view(*e),
{
    match e {
        TestEntry::Binary(n) => (EntryKind::Binary, chars(n)),
        TestEntry::Script(n) => (EntryKind::Script, chars(n)),
        TestEntry::Unresolved(n) => (EntryKind::Unresolved, chars(n)),
    }
}

fn is_script_like(bare: &[char]) -> (r: bool)
    ensures
        r == script_like(bare@),
{
    let sl: [char; 1] = ['/'];
    assert(sl@ =~= seq!['/']);
    if contains_str(bare, &sl) {
        return true;
    }
    match crate::paths::extension_of(bare) {
        Some(e) => chars_eq(e.as_slice(), chars_of("sh").as_slice()) || chars_eq(
            e.as_slice(),
            chars_of("py").as_slice(),
        ) || chars_eq(e.as_slice(), chars_of("pl").as_slice()) || chars_eq(
            e.as_slice(),
            chars_of("test").as_slice(),
        ),
        None => false,
    }
}

fn classify_into(
    toks: &Vec<Vec<char>>,
    vars: &Vec<(String, String)>,
    depth: u32,
    checks: &Option<Vec<Vec<char>>>,
    out: &mut Vec<TestEntry>,
)
    requires
        match crate::configure_file::lookup(pairs(vars@), "check_PROGRAMS"@) {
            None => *checks is None,
            Some(raw) => *checks matches Some(v) && views(v@) == reach(split_ws(raw), pairs(vars@), vars@.len() + 1),
        },
    ensures
        entries_view(final(out)@) == entries_view(old(out)@) + classify_tokens(views(toks@), pairs(vars@), depth as nat),
    decreases depth,
{
    let ghost start = entries_view(out@);
    let ghost tv = views(toks@);
    let mut i: usize = 0;
    assert(tv.take(0) =~= Seq::<Seq<char>>::empty());
    while i < toks.len()
        invariant
            i <= toks@.len(),
            tv == views(toks@),
            match crate::configure_file::lookup(pairs(vars@), "check_PROGRAMS"@) {
                None => *checks is None,
                Some(raw) => *checks matches Some(v) && views(v@) == reach(split_ws(raw), pairs(vars@), vars@.len() + 1),
            },
            start == entries_view(old(out)@),
            entries_view(out@) == start + classify_tokens(tv.take(i as int), pairs(vars@), depth as nat),
        decreases toks.len() - i,
    {
        proof {
            assert(tv.take(i + 1).drop_last() =~= tv.take(i as int));
            assert(tv.take(i + 1).last() == toks@[i as int]@);
        }
        let ghost before = entries_view(out@);
        let ghost piece = match reference_name(tv[i as int]) {
            Some(name) => match crate::configure_file::lookup(pairs(vars@), name) {
                Some(exp) => if depth > 0 {
                    classify_tokens(split_ws(exp), pairs(vars@), (depth - 1) as nat)
                } else {
                    seq![(EntryKind::Unresolved, tv[i as int])]
                },
                None => if has_prefix(name, "am__"@) {
                    seq![]
                } else {
                    seq![(EntryKind::Unresolved, tv[i as int])]
                },
            },
            None => seq![classify_bare(tv[i as int], pairs(vars@))],
        };
        let tok = &toks[i];
        assert(tv[i as int] == tok@);
        match reference_of(tok.as_slice()) {
            Some(name) => match crate::configure_file::lookup_value(vars, string_of(name.as_slice()).as_str()) {
                Some(exp) => {
                    if depth > 0 {
                        let parts = split_whitespace(chars(&exp).as_slice());
                        classify_into(&parts, vars, depth - 1, checks, out);
                        assert(entries_view(out@) =~= before + piece);
                    } else {
                        let c = subvec(tok.as_slice(), 0, tok.len());
                        assert(c@ =~= tok@);
                        let e = entry_of(EntryKind::Unresolved, c);
                        out.push(e);
                        assert(entries_view(out@) =~= before.push(entry_view(e)));
                        assert(entries_view(out@) =~= before + piece);
                    }
                },
                None => {
                    if starts_with(name.as_slice(), chars_of("am__").as_slice()) {
                        assert(before =~= before + Seq::<(EntryKind, Seq<char>)>::empty());
                    } else {
                        let c = subvec(tok.as_slice(), 0, tok.len());
                        assert(c@ =~= tok@);
                        let e = entry_of(EntryKind::Unresolved, c);
                        out.push(e);
                        assert(entries_view(out@) =~= before.push(entry_view(e)));
                    }
                    assert(entries_view(out@) =~= before + piece);
                },
            },
            None => {
                let bare = expand_exeext(tok.as_slice(), vars);
                let kind = if is_script_like(bare.as_slice()) {
                    EntryKind::Script
                } else if declared_check_in(checks, vars, bare.as_slice()) {
                    EntryKind::Binary
                } else {
                    EntryKind::Script
                };
                let e = entry_of(kind, bare);
                assert(entry_view(e) == classify_bare(tv[i as int], pairs(vars@)));
                out.push(e);
                assert(entries_view(out@) =~= before.push(entry_view(e)));
                assert(entries_view(out@) =~= before + piece);
            },
        }
        assert(entries_view(out@) =~= before + piece);
        proof {
            assert(classify_tokens(tv.take(i + 1), pairs(vars@), depth as nat) == classify_tokens(
                tv.take(i as int),
                pairs(vars@),
                depth as nat,
            ) + piece);
            assert(start + classify_tokens(tv.take(i + 1), pairs(vars@), depth as nat) =~= before + piece);
        }
        i += 1;
    }
    assert(tv.take(i as int) =~= tv);
}

fn entry_eq(a: &TestEntry, b: &TestEntry) -> (r: bool)
    ensures
        r == (entry_view(*a) == entry_view(*b)),
{
    let (ak, an) = entry_parts(a);
    let (bk, bn) = entry_parts(b);
    ak == bk && chars_eq(an.as_slice(), bn.as_slice())
}

fn add_new_entries_exec(r: &mut Vec<TestEntry>, new: &Vec<TestEntry>)
    ensures
        entries_view(final(r)@) == add_new_entries(entries_view(old(r)@), entries_view(new@)),
{
    let ghost start = entries_view(r@);
    let mut i: usize = 0;
    assert(entries_view(new@).take(0) =~= Seq::<(EntryKind, Seq<char>)>::empty());
    while i < new.len()
        invariant
            i <= new@.len(),
            entries_view(r@) == add_new_entries(start, entries_view(new@).take(i as int)),
        decreases new.len() - i,
    {
        proof {
            assert(entries_view(new@).take(i + 1).drop_last() =~= entries_view(new@).take(i as int));
            assert(entries_view(new@).take(i + 1).last() == entry_view(new@[i as int]));
        }
        let ghost before = entries_view(r@);
        let mut k: usize = 0;
        while k < r.len() && !entry_eq(&r[k], &new[i])
            invariant
                k <= r@.len(),
                i < new@.len(),
                before == entries_view(r@),
                forall|j: int| 0 <= j < k ==> before[j] != entry_view(new@[i as int]),
            decreases r.len() - k,
        {
            k += 1;
        }
        if k == r.len() {
            assert(!before.contains(entry_view(new@[i as int]))) by {
                if before.contains(entry_view(new@[i as int])) {
                    let j = choose|j: int| 0 <= j < before.len() && before[j] == entry_view(new@[i as int]);
                }
            }
            let (nk, nn) = entry_parts(&new[i]);
            let e = entry_of(nk, nn);
            r.push(e);
            assert(entries_view(r@) =~= before.push(entry_view(e)));
        } else {
            assert(before[k as int] == entry_view(new@[i as int]));
        }
        i += 1;
    }
    assert(entries_view(new@).take(i as int) =~= entries_view(new@));
}

/// Classifies every entry of one scope's `TESTS`: a `check_PROGRAMS`
/// binary, a script, or an unresolved reference; each once, in the order
/// the project declared them. Expansion is transitive and bounded, so a
/// self-referencing variable ends as `Unresolved`.
pub fn classify_tests(vars: &Vec<(String, String)>) -> (r: Vec<TestEntry>)
    ensures
        entries_view(r@) == classify_tests_spec(pairs(vars@)),
{
    let mut raw_entries: Vec<TestEntry> = Vec::new();
    match crate::configure_file::lookup_value(vars, "TESTS") {
        None => {},
        Some(raw) => {
            let toks = split_whitespace(chars(&raw).as_slice());
            let checks = check_reach(vars);
            classify_into(&toks, vars, 16, &checks, &mut raw_entries);
        },
    }
    assert(entries_view(raw_entries@) =~= match crate::configure_file::lookup(pairs(vars@), "TESTS"@) {
        None => Seq::<(EntryKind, Seq<char>)>::empty(),
        Some(raw) => classify_tokens(split_ws(raw), pairs(vars@), 16),
    });
    let mut r: Vec<TestEntry> = Vec::new();
    assert(entries_view(r@) =~= Seq::<(EntryKind, Seq<char>)>::empty());
    add_new_entries_exec(&mut r, &raw_entries);
    r
}

/// Where a scope's directory lies below the build root, unless it is the
/// root itself (or not below it).
pub open spec fn scope_prefix(dir: Seq<char>, root: Seq<char>) -> Option<Seq<char>> {
    match strip_path_prefix(dir, root) {
        Some(rel) => if rel.len() > 0 {
            Some(rel)
        } else {
            None
        },
        None => None,
    }
}

/// A script entry named by a bare file name, qualified by the directory
/// that declared it.
pub open spec fn qualify(e: (EntryKind, Seq<char>), prefix: Option<Seq<char>>) -> (EntryKind, Seq<char>) {
    match prefix {
        Some(rel) => if e.0 == EntryKind::Script && !contains(e.1, seq!['/']) {
            (EntryKind::Script, crate::paths::join_path(rel, e.1))
        } else {
            e
        },
        None => e,
    }
}

pub open spec fn qualify_all(es: Seq<(EntryKind, Seq<char>)>, prefix: Option<Seq<char>>) -> Seq<
    (EntryKind, Seq<char>),
> {
    es.map_values(|e: (EntryKind, Seq<char>)| qualify(e, prefix))
}

/// Every scope's `TESTS`, each classified against its own variables and
/// qualified by its directory, each entry once, in scope order.
pub open spec fn per_directory(scopes: Seq<(Seq<char>, Seq<(Seq<char>, Seq<char>)>)>, root: Seq<char>) -> Seq<
    (EntryKind, Seq<char>),
>
    decreases scopes.len(),
{
    if scopes.len() == 0 {
        seq![]
    } else {
        add_new_entries(
            per_directory(scopes.drop_last(), root),
            qualify_all(classify_tests_spec(scopes.last().1), scope_prefix(scopes.last().0, root)),
        )
    }
}

/// Every directory's `TESTS`, each resolved against its own variables:
/// automake's `am__*` indirection is directory-scoped, so resolving one
/// directory's tests against another's variables invents tests. A script
/// named by a bare file name is qualified by its directory.
pub fn classify_tests_per_directory(db: &VariableDatabase) -> (r: Vec<TestEntry>)
    ensures
        entries_view(r@) == per_directory(db.scopes_view(), db.root_view()),
{
    let root = chars(db.build_root());
    let mut r: Vec<TestEntry> = Vec::new();
    let mut k: usize = 0;
    let n = db.scope_count();
    let ghost sv = db.scopes_view();
    assert(entries_view(r@) =~= Seq::<(EntryKind, Seq<char>)>::empty());
    while k < n
        invariant
            k <= n,
            n == sv.len(),
            sv == db.scopes_view(),
            root@ == db.root_view(),
            entries_view(r@) == per_directory(sv.take(k as int), db.root_view()),
        decreases n - k,
    {
        proof {
            assert(sv.take(k + 1).drop_last() =~= sv.take(k as int));
            assert(sv.take(k + 1).last() == sv[k as int]);
        }
        let (dir, vars) = db.scope_at(k);
        let prefix = match strip_prefix_path(chars(dir).as_slice(), root.as_slice()) {
            Some(rel) => if rel.len() > 0 {
                Some(rel)
            } else {
                None
            },
            None => None,
        };
        let ghost pv = match &prefix {
            Some(p) => Some(p@),
            None => None,
        };
        assert(pv == scope_prefix(dir@, root@));
        let entries = classify_tests(vars);
        let mut q: Vec<TestEntry> = Vec::new();
        let mut j: usize = 0;
        while j < entries.len()
            invariant
                j <= entries@.len(),
                pv == match &prefix {
                    Some(p) => Some(p@),
                    None => None::<Seq<char>>,
                },
                entries_view(q@) == qualify_all(entries_view(entries@), pv).take(j as int),
            decreases entries.len() - j,
        {
            let ghost before = entries_view(q@);
            let (ek, en) = entry_parts(&entries[j]);
            let e = match &prefix {
                Some(rel) => {
                    let sl: [char; 1] = ['/'];
                    assert(sl@ =~= seq!['/']);
                    if ek == EntryKind::Script && !contains_str(en.as_slice(), &sl) {
                        entry_of(EntryKind::Script, crate::paths::join_paths(rel.as_slice(), en.as_slice()))
                    } else {
                        entry_of(ek, en)
                    }
                },
                None => entry_of(ek, en),
            };
            assert(entry_view(e) == qualify(entries_view(entries@)[j as int], pv));
            q.push(e);
            assert(entries_view(q@) =~= before.push(entry_view(e)));
            j += 1;
            assert(entries_view(q@) =~= qualify_all(entries_view(entries@), pv).take(j as int));
        }
        assert(qualify_all(entries_view(entries@), pv).take(j as int) =~= qualify_all(entries_view(entries@), pv));
        add_new_entries_exec(&mut r, &q);
        k += 1;
    }
    assert(sv.take(k as int) =~= sv);
    r
}

/// One target automake declared, recovered from a primary.
#[derive(Debug, Clone, PartialEq, Eq)]
pub struct DeclaredTarget {
    /// The name automake knows it by (`greeter`, `libshout.la`).
    pub name: String,
    /// The install-destination prefix of its primary (`bin`, `lib`,
    /// `noinst`, `check`).
    pub destination: String,
    /// The primary that declared it: `PROGRAMS`, `LIBRARIES` or
    /// `LTLIBRARIES`.
    pub primary: String,
    /// The build directory whose make declared it: the scope its
    /// per-target variables are read from.
    pub directory: String,
}

pub open spec fn decl_view(d: DeclaredTarget) -> (Seq<char>, Seq<char>, Seq<char>, Seq<char>) {
    (d.name@, d.destination@, d.primary@, d.directory@)
}

pub open spec fn decls_view(ds: Seq<DeclaredTarget>) -> Seq<(Seq<char>, Seq<char>, Seq<char>, Seq<char>)> {
    ds.map_values(|d: DeclaredTarget| decl_view(d))
}

/// The part after the last `_`, or all of it.
pub open spec fn last_segment(d: Seq<char>) -> Seq<char> {
    match rsplit_once(d, seq!['_']) {
        Some((_, l)) => l,
        None => d,
    }
}

/// The destination and primary a variable name declares targets under:
/// `<prefix>_PROGRAMS`, `_LIBRARIES` or `_LTLIBRARIES`, the destination
/// being the last segment of the prefix (`dist_`, `nodist_`, `nobase_`
/// are modifiers in front of it).
pub open spec fn primary_of(var: Seq<char>) -> Option<(Seq<char>, Seq<char>)> {
    match rsplit_once(var, seq!['_']) {
        Some((d, p)) => if p == "PROGRAMS"@ || p == "LIBRARIES"@ || p == "LTLIBRARIES"@ {
            Some((last_segment(d), p))
        } else {
            None
        },
        None => None,
    }
}

/// The declarations a primary's expanded tokens make: each name with its
/// `$(EXEEXT)` expanded, skipping empty ones and unexpanded references.
pub open spec fn names_decls(
    toks: Seq<Seq<char>>,
    dest: Seq<char>,
    prim: Seq<char>,
    dir: Seq<char>,
    vars: Seq<(Seq<char>, Seq<char>)>,
) -> Seq<(Seq<char>, Seq<char>, Seq<char>, Seq<char>)>
    decreases toks.len(),
{
    if toks.len() == 0 {
        seq![]
    } else {
        let n = expand_exeext_spec(toks.last(), vars);
        names_decls(toks.drop_last(), dest, prim, dir, vars) + if n.len() == 0 || contains(n, "$("@) {
            seq![]
        } else {
            seq![(n, dest, prim, dir)]
        }
    }
}

/// Every declaration of the variables `entries`, in order, each primary
/// expanded in the scope `vars`.
pub open spec fn raw_declared(
    dir: Seq<char>,
    entries: Seq<(Seq<char>, Seq<char>)>,
    vars: Seq<(Seq<char>, Seq<char>)>,
) -> Seq<(Seq<char>, Seq<char>, Seq<char>, Seq<char>)>
    decreases entries.len(),
{
    if entries.len() == 0 {
        seq![]
    } else {
        raw_declared(dir, entries.drop_last(), vars) + match primary_of(entries.last().0) {
            Some((dest, prim)) => names_decls(split_ws(expanded(entries.last().1, vars)), dest, prim, dir, vars),
            None => seq![],
        }
    }
}

/// How much a destination says about a target, lowest first: an install
/// directory, `noinst`, `check`, `EXTRA`.
pub open spec fn destination_rank(d: Seq<char>) -> int {
    if d == "EXTRA"@ {
        3
    } else if d == "check"@ {
        2
    } else if d == "noinst"@ {
        1
    } else {
        0
    }
}

/// The index among the first `k` declarations of the one named `n` whose
/// destination says most, the earliest of equals.
pub open spec fn best_upto(ds: Seq<(Seq<char>, Seq<char>, Seq<char>, Seq<char>)>, n: Seq<char>, k: nat) -> Option<int>
    decreases k,
{
    if k == 0 || k > ds.len() {
        None
    } else {
        let b = best_upto(ds, n, (k - 1) as nat);
        if ds[k - 1].0 == n && (b is None || destination_rank(ds[k - 1].1) < destination_rank(
            ds[b.unwrap()].1,
        )) {
            Some(k - 1)
        } else {
            b
        }
    }
}

pub open spec fn decl_names(ds: Seq<(Seq<char>, Seq<char>, Seq<char>, Seq<char>)>) -> Seq<Seq<char>> {
    ds.map_values(|d: (Seq<char>, Seq<char>, Seq<char>, Seq<char>)| d.0)
}

/// One declaration per name, sorted by name: a name under two primaries
/// is one target, declared under the destination that says most.
pub open spec fn dedup_decls(ds: Seq<(Seq<char>, Seq<char>, Seq<char>, Seq<char>)>) -> Seq<
    (Seq<char>, Seq<char>, Seq<char>, Seq<char>),
> {
    crate::text::sort_dedup(decl_names(ds)).map_values(
        |n: Seq<char>|
            match best_upto(ds, n, ds.len()) {
                Some(i) => ds[i],
                None => (n, seq![], seq![], seq![]),
            },
    )
}

/// The targets one scope declares.
pub open spec fn declared_in(dir: Seq<char>, vars: Seq<(Seq<char>, Seq<char>)>) -> Seq<
    (Seq<char>, Seq<char>, Seq<char>, Seq<char>),
> {
    dedup_decls(raw_declared(dir, vars, vars))
}

fn rank_of(d: &String) -> (r: u8)
    ensures
        r as int == destination_rank(d@),
{
    let v = chars(d);
    if chars_eq(v.as_slice(), chars_of("EXTRA").as_slice()) {
        3
    } else if chars_eq(v.as_slice(), chars_of("check").as_slice()) {
        2
    } else if chars_eq(v.as_slice(), chars_of("noinst").as_slice()) {
        1
    } else {
        0
    }
}

fn copy_decl(d: &DeclaredTarget) -> (r: DeclaredTarget)
    ensures
        decl_view(r) == decl_view(*d),
{
    DeclaredTarget {
        name: d.name.clone(),
        destination: d.destination.clone(),
        primary: d.primary.clone(),
        directory: d.directory.clone(),
    }
}

proof fn lemma_best_upto_some(ds: Seq<(Seq<char>, Seq<char>, Seq<char>, Seq<char>)>, n: Seq<char>, k: nat, j: int)
    requires
        0 <= j < k <= ds.len(),
        ds[j].0 == n,
    ensures
        best_upto(ds, n, k) matches Some(i) && 0 <= i < k && ds[i].0 == n,
    decreases k,
{
    if j < k - 1 {
        lemma_best_upto_some(ds, n, (k - 1) as nat, j);
    } else {
        lemma_best_upto_inv(ds, n, (k - 1) as nat);
    }
}

proof fn lemma_best_upto_inv(ds: Seq<(Seq<char>, Seq<char>, Seq<char>, Seq<char>)>, n: Seq<char>, k: nat)
    ensures
        best_upto(ds, n, k) matches Some(i) ==> 0 <= i < k && i < ds.len() && ds[i].0 == n,
    decreases k,
{
    if k > 0 {
        lemma_best_upto_inv(ds, n, (k - 1) as nat);
    }
}

/// One declaration per name, sorted by name, the destination that says
/// most winning (an install directory over `noinst` over `check` over
/// `EXTRA`): automake lets a program appear under two primaries, and it
/// is one target either way.
pub fn dedup_declarations(targets: &Vec<DeclaredTarget>) -> (r: Vec<DeclaredTarget>)
    ensures
        decls_view(r@) == dedup_decls(decls_view(targets@)),
{
    let ghost dv = decls_view(targets@);
    let mut names: Vec<String> = Vec::new();
    let mut k: usize = 0;
    while k < targets.len()
        invariant
            k <= targets@.len(),
            dv == decls_view(targets@),
            strs(names@) == decl_names(dv).take(k as int),
        decreases targets.len() - k,
    {
        let ghost before = strs(names@);
        let n = targets[k].name.clone();
        names.push(n);
        assert(strs(names@) =~= before.push(dv[k as int].0));
        k += 1;
        assert(strs(names@) =~= decl_names(dv).take(k as int));
    }
    assert(decl_names(dv).take(k as int) =~= decl_names(dv));
    let sorted = crate::text::sort_dedup_strings(&names);
    proof {
        crate::text::lemma_sort_dedup_members(decl_names(dv));
    }
    let mut r: Vec<DeclaredTarget> = Vec::new();
    let mut j: usize = 0;
    while j < sorted.len()
        invariant
            j <= sorted@.len(),
            dv == decls_view(targets@),
            strs(sorted@) == crate::text::sort_dedup(decl_names(dv)),
            forall|m: int| 0 <= m < strs(sorted@).len() ==> decl_names(dv).contains(#[trigger] strs(sorted@)[m]),
            decls_view(r@) == dedup_decls(dv).take(j as int),
        decreases sorted.len() - j,
    {
        let name = chars(&sorted[j]);
        let mut best: usize = targets.len();
        let mut i: usize = 0;
        while i < targets.len()
            invariant
                i <= targets@.len(),
                dv == decls_view(targets@),
                name@ == sorted@[j as int]@,
                best_upto(dv, name@, i as nat) matches Some(b) ==> best == b,
                best_upto(dv, name@, i as nat) is None ==> best == targets@.len(),
                best == targets@.len() || best < i,
            decreases targets.len() - i,
        {
            if chars_eq(chars(&targets[i].name).as_slice(), name.as_slice()) && (best == targets.len()
                || rank_of(&targets[i].destination) < rank_of(&targets[best].destination)) {
                proof {
                    lemma_best_upto_inv(dv, name@, i as nat);
                }
                best = i;
            }
            proof {
                lemma_best_upto_inv(dv, name@, i as nat);
            }
            i += 1;
        }
        proof {
            assert(decl_names(dv).contains(strs(sorted@)[j as int]));
            let w = choose|w: int| 0 <= w < decl_names(dv).len() && decl_names(dv)[w] == strs(sorted@)[j as int];
            lemma_best_upto_some(dv, name@, dv.len() as nat, w);
            assert(dv.len() == targets@.len());
        }
        let d = copy_decl(&targets[best]);
        let ghost before = decls_view(r@);
        r.push(d);
        assert(decls_view(r@) =~= before.push(decl_view(d)));
        j += 1;
        assert(decls_view(r@) =~= dedup_decls(dv).take(j as int));
    }
    assert(dedup_decls(dv).take(j as int) =~= dedup_decls(dv));
    r
}

fn primary_of_exec(var: &[char]) -> (r: Option<(Vec<char>, Vec<char>)>)
    ensures
        r matches Some((d, p)) ==> primary_of(var@) == Some((d@, p@)),
        r is None ==> primary_of(var@) is None,
{
    let us: [char; 1] = ['_'];
    assert(us@ =~= seq!['_']);
    match rsplit_once_at(var, &us) {
        Some((d, p)) => {
            if chars_eq(p.as_slice(), chars_of("PROGRAMS").as_slice()) || chars_eq(
                p.as_slice(),
                chars_of("LIBRARIES").as_slice(),
            ) || chars_eq(p.as_slice(), chars_of("LTLIBRARIES").as_slice()) {
                let dest = match rsplit_once_at(d.as_slice(), &us) {
                    Some((_, l)) => l,
                    None => d,
                };
                Some((dest, p))
            } else {
                None
            }
        },
        None => None,
    }
}

/// The targets one scope declares, from its primaries: each primary's
/// value expanded in this scope, every name in it with `$(EXEEXT)`
/// expanded, an unexpanded reference (a false conditional) skipped; one
/// declaration per name.
pub fn declared_targets_in(directory: &str, vars: &Vec<(String, String)>) -> (r: Vec<DeclaredTarget>)
    ensures
        decls_view(r@) == declared_in(directory@, pairs(vars@)),
{
    let ghost pv = pairs(vars@);
    proof {
        reveal_strlit("$(");
    }
    let refpat = chars_of("$(");
    let mut raw: Vec<DeclaredTarget> = Vec::new();
    let mut k: usize = 0;
    assert(decls_view(raw@) =~= Seq::<(Seq<char>, Seq<char>, Seq<char>, Seq<char>)>::empty());
    while k < vars.len()
        invariant
            k <= vars@.len(),
            pv == pairs(vars@),
            refpat@ == "$("@,
            decls_view(raw@) == raw_declared(directory@, pv.take(k as int), pv),
        decreases vars.len() - k,
    {
        proof {
            assert(pv.take(k + 1).drop_last() =~= pv.take(k as int));
            assert(pv.take(k + 1).last() == pv[k as int]);
        }
        let ghost before = decls_view(raw@);
        match primary_of_exec(chars(&vars[k].0).as_slice()) {
            Some((dest, prim)) => {
                let value = expand_references(vars[k].1.as_str(), vars);
                let toks = split_whitespace(chars(&value).as_slice());
                let ghost tv = views(toks@);
                let mut t: usize = 0;
                assert(tv.take(0) =~= Seq::<Seq<char>>::empty());
                while t < toks.len()
                    invariant
                        t <= toks@.len(),
                        tv == views(toks@),
                        pv == pairs(vars@),
                        refpat@ == "$("@,
                        decls_view(raw@) == before + names_decls(tv.take(t as int), dest@, prim@, directory@, pv),
                    decreases toks.len() - t,
                {
                    proof {
                        assert(tv.take(t + 1).drop_last() =~= tv.take(t as int));
                        assert(tv.take(t + 1).last() == toks@[t as int]@);
                    }
                    let ghost mid = decls_view(raw@);
                    let n = expand_exeext(toks[t].as_slice(), vars);
                    let ghost piece = if n@.len() == 0 || contains(n@, "$("@) {
                        Seq::<(Seq<char>, Seq<char>, Seq<char>, Seq<char>)>::empty()
                    } else {
                        seq![(n@, dest@, prim@, directory@)]
                    };
                    assert(n@ == expand_exeext_spec(toks@[t as int]@, pairs(vars@)));
                    assert(tv.take(t + 1).last() == toks@[t as int]@);
                    assert(expand_exeext_spec(tv.take(t + 1).last(), pv) == n@);
                    assert(tv.take(t + 1).drop_last() == tv.take(t as int));
                    assert(names_decls(tv.take(t + 1), dest@, prim@, directory@, pv) == names_decls(
                        tv.take(t as int),
                        dest@,
                        prim@,
                        directory@,
                        pv,
                    ) + piece);
                    if n.len() == 0 || contains_str(n.as_slice(), refpat.as_slice()) {
                        assert(mid =~= mid + Seq::<(Seq<char>, Seq<char>, Seq<char>, Seq<char>)>::empty());
                    } else {
                        let d = DeclaredTarget {
                            name: string_of(n.as_slice()),
                            destination: string_of(dest.as_slice()),
                            primary: string_of(prim.as_slice()),
                            directory: string_of(chars_of(directory).as_slice()),
                        };
                        raw.push(d);
                        assert(decls_view(raw@) =~= mid.push(decl_view(d)));
                    }
                    assert(decls_view(raw@) =~= before + names_decls(tv.take(t + 1), dest@, prim@, directory@, pv));
                    t += 1;
                }
                assert(tv.take(t as int) =~= tv);
            },
            None => {
                assert(before =~= before + Seq::<(Seq<char>, Seq<char>, Seq<char>, Seq<char>)>::empty());
            },
        }
        k += 1;
    }
    assert(pv.take(k as int) =~= pv);
    dedup_declarations(&raw)
}

/// Every scope's declarations, scope by scope.
pub open spec fn all_declared(scopes: Seq<(Seq<char>, Seq<(Seq<char>, Seq<char>)>)>) -> Seq<
    (Seq<char>, Seq<char>, Seq<char>, Seq<char>),
>
    decreases scopes.len(),
{
    if scopes.len() == 0 {
        seq![]
    } else {
        all_declared(scopes.drop_last()) + declared_in(scopes.last().0, scopes.last().1)
    }
}

impl VariableDatabase {
    /// Every target automake declared, each primary expanded in the scope
    /// of the directory that declared it, merged by name across scopes.
    pub fn declared_targets(&self) -> (r: Vec<DeclaredTarget>)
        ensures
            decls_view(r@) == dedup_decls(all_declared(self.scopes_view())),
    {
        let ghost sv = self.scopes_view();
        let n = self.scope_count();
        let mut all: Vec<DeclaredTarget> = Vec::new();
        let mut k: usize = 0;
        assert(decls_view(all@) =~= Seq::<(Seq<char>, Seq<char>, Seq<char>, Seq<char>)>::empty());
        while k < n
            invariant
                k <= n,
                n == sv.len(),
                sv == self.scopes_view(),
                decls_view(all@) == all_declared(sv.take(k as int)),
            decreases n - k,
        {
            proof {
                assert(sv.take(k + 1).drop_last() =~= sv.take(k as int));
                assert(sv.take(k + 1).last() == sv[k as int]);
            }
            let (dir, vars) = self.scope_at(k);
            let ds = declared_targets_in(dir.as_str(), vars);
            let ghost before = decls_view(all@);
            let mut t: usize = 0;
            while t < ds.len()
                invariant
                    t <= ds@.len(),
                    decls_view(all@) == before + decls_view(ds@).take(t as int),
                decreases ds.len() - t,
            {
                let d = copy_decl(&ds[t]);
                let ghost mid = decls_view(all@);
                all.push(d);
                assert(decls_view(all@) =~= mid.push(decl_view(d)));
                assert(decls_view(ds@).take(t + 1) =~= decls_view(ds@).take(t as int).push(decl_view(ds@[t as int])));
                t += 1;
                assert(decls_view(all@) =~= before + decls_view(ds@).take(t as int));
            }
            assert(decls_view(ds@).take(t as int) =~= decls_view(ds@));
            k += 1;
        }
        assert(sv.take(k as int) =~= sv);
        dedup_declarations(&all)
    }
}

/// automake's variable prefix for a target name: every character that is
/// not alphanumeric becomes `_` (`libshout.la` owns `libshout_la_SOURCES`).
pub open spec fn canonical(name: Seq<char>) -> Seq<char> {
    name.map_values(|c: char| if alphanumeric(c) { c } else { '_' })
}

pub fn canonical_name(target_name: &str) -> (r: String)
    ensures
        r@ == canonical(target_name@),
        ascii_known(target_name@),
{
    let v = chars_of(target_name);
    let mut out: Vec<char> = Vec::new();
    let mut i: usize = 0;
    while i < v.len()
        invariant
            i <= v@.len(),
            out@ == canonical(v@).take(i as int),
            forall|k: int| 0 <= k < i ==> ascii_char_known(#[trigger] v@[k]),
        decreases v.len() - i,
    {
        let c = v[i];
        out.push(if is_alphanumeric(c) { c } else { '_' });
        i += 1;
        assert(out@ =~= canonical(v@).take(i as int));
    }
    assert(canonical(v@).take(i as int) =~= canonical(v@));
    string_of(out.as_slice())
}

/// On an ASCII character, `alphanumeric` is what Unicode says there:
/// letters and digits.
pub open spec fn ascii_char_known(c: char) -> bool {
    (c as u32) < 128 ==> (alphanumeric(c) <==> crate::text::is_ascii_alnum(c))
}

/// `ascii_char_known` of every character of `s`.
pub open spec fn ascii_known(s: Seq<char>) -> bool {
    forall|k: int| 0 <= k < s.len() ==> ascii_char_known(#[trigger] s[k])
}

/// The Bazel target name for an automake target name: every character
/// other than an alphanumeric, `_`, `-` or `.` becomes `_`. Sanitised, not
/// shortened: `hello` and `lib/libhello.a` stay different targets.
pub open spec fn label_of(name: Seq<char>) -> Seq<char> {
    name.map_values(
        |c: char|
            if alphanumeric(c) || c == '_' || c == '-' || c == '.' {
                c
            } else {
                '_'
            },
    )
}

pub fn target_label(name: &str) -> (r: String)
    ensures
        r@ == label_of(name@),
        ascii_known(name@),
{
    let v = chars_of(name);
    let mut out: Vec<char> = Vec::new();
    let mut i: usize = 0;
    while i < v.len()
        invariant
            i <= v@.len(),
            out@ == label_of(v@).take(i as int),
            forall|k: int| 0 <= k < i ==> ascii_char_known(#[trigger] v@[k]),
        decreases v.len() - i,
    {
        let c = v[i];
        out.push(if is_alphanumeric(c) || c == '_' || c == '-' || c == '.' { c } else { '_' });
        i += 1;
        assert(out@ =~= label_of(v@).take(i as int));
    }
    assert(label_of(v@).take(i as int) =~= label_of(v@));
    string_of(out.as_slice())
}

proof fn lemma_best_upto_name(ds: Seq<(Seq<char>, Seq<char>, Seq<char>, Seq<char>)>, n: Seq<char>, k: nat)
    requires
        k <= ds.len(),
    ensures
        best_upto(ds, n, k) matches Some(i) ==> 0 <= i < k && ds[i].0 == n && forall|j: int|
            0 <= j < k && (#[trigger] ds[j]).0 == n ==> destination_rank(ds[i].1) <= destination_rank(ds[j].1),
        best_upto(ds, n, k) is None ==> forall|j: int| 0 <= j < k ==> (#[trigger] ds[j]).0 != n,
    decreases k,
{
    if k > 0 {
        lemma_best_upto_name(ds, n, (k - 1) as nat);
    }
}

/// Declarations are merged by name: every declared name appears exactly
/// once among the merged declarations, which ascend by name, and each
/// merged declaration is one of that name's, under the destination that
/// says most (the lowest rank).
pub proof fn law_one_declaration_per_name(ds: Seq<(Seq<char>, Seq<char>, Seq<char>, Seq<char>)>)
    ensures
        forall|i: int, j: int|
            0 <= i < j < dedup_decls(ds).len() ==> lex_lt(#[trigger] dedup_decls(ds)[i].0, #[trigger] dedup_decls(ds)[j].0),
        forall|n: Seq<char>| decl_names(dedup_decls(ds)).contains(n) <==> decl_names(ds).contains(n),
        forall|k: int| 0 <= k < dedup_decls(ds).len() ==> ds.contains(#[trigger] dedup_decls(ds)[k]),
        forall|k: int, j: int|
            0 <= k < dedup_decls(ds).len() && 0 <= j < ds.len() && ds[j].0 == dedup_decls(ds)[k].0 ==> destination_rank(
                (#[trigger] dedup_decls(ds)[k]).1,
            ) <= destination_rank((#[trigger] ds[j]).1),
{
    let sd = crate::text::sort_dedup(decl_names(ds));
    crate::text::law_sort_dedup(decl_names(ds));
    let dd = dedup_decls(ds);
    assert forall|k: int| 0 <= k < dd.len() implies #[trigger] dd[k].0 == sd[k] && ds.contains(dd[k]) by {
        lemma_best_upto_name(ds, sd[k], ds.len());
        assert(sd.contains(sd[k]));
        assert(decl_names(ds).contains(sd[k]));
        let j = choose|j: int| 0 <= j < decl_names(ds).len() && decl_names(ds)[j] == sd[k];
        assert(ds[j].0 == sd[k]);
        let i = best_upto(ds, sd[k], ds.len()).unwrap();
        assert(dd[k] == ds[i]);
    }
    assert(decl_names(dd) =~= sd);
    assert forall|k: int, j: int|
        0 <= k < dd.len() && 0 <= j < ds.len() && ds[j].0 == dd[k].0 implies destination_rank(
            (#[trigger] dd[k]).1,
        ) <= destination_rank((#[trigger] ds[j]).1) by {
        lemma_best_upto_name(ds, sd[k], ds.len());
    }
}

/// Each `TESTS` entry is reported once, however many directories or
/// sub-makes declare it.
pub proof fn law_each_test_entry_once(
    scopes: Seq<(Seq<char>, Seq<(Seq<char>, Seq<char>)>)>,
    root: Seq<char>,
)
    ensures
        forall|i: int, j: int|
            0 <= i < j < per_directory(scopes, root).len() ==> #[trigger] per_directory(scopes, root)[i]
                != #[trigger] per_directory(scopes, root)[j],
    decreases scopes.len(),
{
    if scopes.len() > 0 {
        law_each_test_entry_once(scopes.drop_last(), root);
        lemma_add_new_entries_distinct(
            per_directory(scopes.drop_last(), root),
            qualify_all(classify_tests_spec(scopes.last().1), scope_prefix(scopes.last().0, root)),
        );
    }
}

proof fn lemma_add_new_entries_distinct(r: Seq<(EntryKind, Seq<char>)>, new: Seq<(EntryKind, Seq<char>)>)
    requires
        forall|i: int, j: int| 0 <= i < j < r.len() ==> #[trigger] r[i] != #[trigger] r[j],
    ensures
        forall|i: int, j: int|
            0 <= i < j < add_new_entries(r, new).len() ==> #[trigger] add_new_entries(r, new)[i]
                != #[trigger] add_new_entries(r, new)[j],
    decreases new.len(),
{
    if new.len() > 0 {
        lemma_add_new_entries_distinct(r, new.drop_last());
        let r2 = add_new_entries(r, new.drop_last());
        if !r2.contains(new.last()) {
            let r3 = r2.push(new.last());
            assert forall|i: int, j: int| 0 <= i < j < r3.len() implies #[trigger] r3[i] != #[trigger] r3[j] by {
                if j == r3.len() - 1 {
                    assert(r3[i] == r2[i]);
                    if r2[i] == new.last() {
                        assert(r2.contains(new.last()));
                    }
                } else {
                    assert(r3[i] == r2[i] && r3[j] == r2[j]);
                }
            }
        }
    }
}

/// A Bazel label holds only letters, digits, `_`, `-` and `.`: every
/// other character of an automake name becomes `_`, and the length is
/// kept.
pub proof fn law_labels_are_legal(name: Seq<char>)
    ensures
        label_of(name).len() == name.len(),
        forall|i: int|
            0 <= i < label_of(name).len() ==> {
                let c = #[trigger] label_of(name)[i];
                alphanumeric(c) || c == '_' || c == '-' || c == '.'
            },
        forall|i: int|
            0 <= i < name.len() && (alphanumeric(name[i]) || name[i] == '_' || name[i] == '-' || name[i] == '.')
                ==> #[trigger] label_of(name)[i] == name[i],
{
}

/// The directories a stream announces entering, in order.
pub open spec fn entered_dirs(ls: Seq<Seq<char>>) -> Seq<Seq<char>>
    decreases ls.len(),
{
    if ls.len() == 0 {
        seq![]
    } else {
        entered_dirs(ls.drop_last()) + match entering(ls.last()) {
            Some(d) => seq![d],
            None => seq![],
        }
    }
}

/// Where a command may run: the top-level make's directory, or one make
/// announced entering.
pub open spec fn known_dir(d: Seq<char>, base: Seq<char>, ls: Seq<Seq<char>>) -> bool {
    d == base || entered_dirs(ls).contains(d)
}

proof fn lemma_piece_commands_shape(ps: Seq<Seq<char>>, dir: Seq<char>)
    ensures
        forall|k: int|
            0 <= k < piece_commands(ps, dir).len() ==> build_program((#[trigger] piece_commands(ps, dir)[k]).0)
                && piece_commands(ps, dir)[k].2 == dir,
    decreases ps.len(),
{
    if ps.len() > 0 {
        lemma_piece_commands_shape(ps.drop_last(), dir);
        let prev = piece_commands(ps.drop_last(), dir);
        let r = piece_commands(ps, dir);
        assert forall|k: int| 0 <= k < r.len() implies build_program((#[trigger] r[k]).0) && r[k].2 == dir by {
            if k < prev.len() {
                assert(r[k] == prev[k]);
            }
        }
    }
}

proof fn lemma_entered_grows(ls: Seq<Seq<char>>, d: Seq<char>)
    requires
        ls.len() > 0,
        entered_dirs(ls.drop_last()).contains(d),
    ensures
        entered_dirs(ls).contains(d),
{
    let prev = entered_dirs(ls.drop_last());
    let k = choose|k: int| 0 <= k < prev.len() && prev[k] == d;
    assert(entered_dirs(ls)[k] == d);
}

proof fn lemma_stream_run_shape(ls: Seq<Seq<char>>, base: Seq<char>)
    ensures
        stream_run(ls, base).0.len() >= 1,
        forall|k: int|
            0 <= k < stream_run(ls, base).0.len() ==> known_dir(#[trigger] stream_run(ls, base).0[k], base, ls),
        forall|k: int|
            0 <= k < stream_run(ls, base).1.len() ==> build_program((#[trigger] stream_run(ls, base).1[k]).0)
                && known_dir(stream_run(ls, base).1[k].2, base, ls),
    decreases ls.len(),
{
    if ls.len() > 0 {
        let t = ls.drop_last();
        lemma_stream_run_shape(t, base);
        let st = stream_run(t, base);
        let line = ls.last();
        let r = stream_run(ls, base);
        assert(r == stream_step(st, line));
        assert forall|d: Seq<char>| known_dir(d, base, t) implies known_dir(d, base, ls) by {
            if d != base {
                lemma_entered_grows(ls, d);
            }
        }
        match entering(line) {
            Some(d) => {
                assert(entered_dirs(ls)[entered_dirs(t).len() as int] == d);
                assert(known_dir(d, base, ls));
                assert forall|k: int| 0 <= k < r.0.len() implies known_dir(#[trigger] r.0[k], base, ls) by {
                    if k < st.0.len() {
                        assert(r.0[k] == st.0[k]);
                        assert(known_dir(st.0[k], base, t));
                    }
                }
                assert forall|k: int| 0 <= k < r.1.len() implies build_program((#[trigger] r.1[k]).0) && known_dir(
                    r.1[k].2,
                    base,
                    ls,
                ) by {
                    assert(known_dir(st.1[k].2, base, t));
                }
            },
            None => {
                assert(entered_dirs(ls) =~= entered_dirs(t));
                if leaving(line) {
                    assert forall|k: int| 0 <= k < r.0.len() implies known_dir(#[trigger] r.0[k], base, ls) by {
                        assert(r.0[k] == st.0[k]);
                    }
                } else {
                    lemma_piece_commands_shape(pieces(line), st.0.last());
                    assert(known_dir(st.0[st.0.len() - 1], base, t));
                    let pc = piece_commands(pieces(line), st.0.last());
                    assert forall|k: int| 0 <= k < r.1.len() implies build_program((#[trigger] r.1[k]).0) && known_dir(
                        r.1[k].2,
                        base,
                        ls,
                    ) by {
                        if k < st.1.len() {
                            assert(r.1[k] == st.1[k]);
                            assert(known_dir(st.1[k].2, base, t));
                        } else {
                            assert(r.1[k] == pc[k - st.1.len()]);
                        }
                    }
                }
            },
        }
    }
}

/// The commands read from make's output are compilers and archivers only,
/// each run either where the top-level make ran or in a directory make
/// announced entering; so when those are absolute, so is every command's
/// directory.
pub proof fn law_commands_are_build_steps_in_known_directories(stdout: Seq<char>, base: Seq<char>)
    ensures
        forall|k: int|
            0 <= k < parsed_commands(stdout, base).len() ==> build_program(
                (#[trigger] parsed_commands(stdout, base)[k]).0,
            ) && known_dir(parsed_commands(stdout, base)[k].2, base, lines(stdout)),
        (is_absolute(base) && forall|k: int|
            0 <= k < entered_dirs(lines(stdout)).len() ==> is_absolute(#[trigger] entered_dirs(lines(stdout))[k]))
            ==> crate::autotools_graph::commands_absolute(parsed_commands(stdout, base)),
{
    lemma_stream_run_shape(lines(stdout), base);
    let cs = parsed_commands(stdout, base);
    let es = entered_dirs(lines(stdout));
    if is_absolute(base) && forall|k: int| 0 <= k < es.len() ==> is_absolute(#[trigger] es[k]) {
        assert forall|k: int| 0 <= k < cs.len() implies is_absolute((#[trigger] cs[k]).2) by {
            assert(known_dir(cs[k].2, base, lines(stdout)));
            if cs[k].2 != base {
                let j = choose|j: int| 0 <= j < es.len() && es[j] == cs[k].2;
            }
        }
    }
}

proof fn lemma_drop_wrappers_len(t: Seq<Seq<char>>)
    ensures
        drop_wrappers(t).len() <= t.len(),
    decreases t.len(),
{
    if t.len() > 0 && (shell_wrapper(t[0]) || libtool_flag(t[0])) {
        lemma_drop_wrappers_len(t.drop_first());
    }
}

/// The compilers and the archiver a build step may run.
pub open spec fn known_build_tool(p: Seq<char>) -> bool {
    p == "gcc"@ || p == "g++"@ || p == "cc"@ || p == "c++"@ || p == "clang"@ || p == "clang++"@ || p == "ar"@
}

/// A piece of a command line becomes a build command exactly when, past
/// shell wrappers and libtool's options, its program's file name is one
/// of `gcc`, `g++`, `cc`, `c++`, `clang`, `clang++` or `ar`; the command
/// is that program with the tokens after it.
pub proof fn law_build_steps_are_exactly_the_known_tools(p: Seq<char>)
    ensures
        ({
            let toks = drop_wrappers(tokens_of(clean_piece(p)));
            &&& piece_command(p) is Some <==> (toks.len() > 0 && known_build_tool(program_name(toks[0])))
            &&& piece_command(p) is Some ==> piece_command(p) == Some((program_name(toks[0]), toks.drop_first()))
        }),
{
    let q = clean_piece(p);
    let toks = drop_wrappers(tokens_of(q));
    if toks.len() > 0 && (q.len() == 0 || tokens_of(q).len() == 0) {
        lemma_drop_wrappers_len(tokens_of(q));
    }
}

} // verus!
