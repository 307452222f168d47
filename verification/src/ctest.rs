//! Registered tests (`add_test`), as `ctest --show-only=json-v1` reports
//! them, and which of them the translation can express.
//!
//! The File API has no test model, so this reads a different source. The
//! steps run in order: the reply becomes the model's tests, their paths are
//! rebased onto the module root, and the tests whose command is not a
//! binary this module builds are split off into one escalation. Rebasing
//! comes first because the escalation quotes the command verbatim, for an
//! agent reading it where this machine's absolute paths name nothing.

use vstd::prelude::*;
use crate::model::{opt_view, Target, TargetKind, Test};
use crate::needs_attention::{bullets, ctest_command_not_a_target_needs_attention, NeedsAttention};
use crate::paths::{file_name, file_name_of, normalize, normalize_path, strip_path_prefix, strip_prefix_path};
use crate::text::{chars, chars_of, string_of, strs};

verus! {

/// A ctest property value as the parts of it that are read: a string, or
/// a list of which each element is kept when it is a string.
#[derive(Debug, Clone, PartialEq, Eq)]
pub enum PropertyValue {
    Text(String),
    List(Vec<Option<String>>),
    Other,
}

#[derive(Debug, Clone, PartialEq, Eq)]
pub struct CtestProperty {
    pub name: String,
    pub value: PropertyValue,
}

#[derive(Debug, Clone, PartialEq, Eq)]
pub struct CtestTest {
    pub name: String,
    /// The resolved command line: the executable, then its arguments.
    pub command: Vec<String>,
    pub properties: Vec<CtestProperty>,
}

/// `ctest --show-only=json-v1` output, as far as it is read.
#[derive(Debug, Clone, PartialEq, Eq)]
pub struct CtestReply {
    pub tests: Vec<CtestTest>,
}

/// A test as its five plain values.
pub open spec fn test_view(t: Test) -> (Seq<char>, Seq<char>, Seq<char>, Seq<char>, Option<Seq<char>>) {
    (t.name@, t.target@, t.command@, t.working_directory@, opt_view(t.pass_regex))
}

pub open spec fn tests_view(ts: Seq<Test>) -> Seq<(Seq<char>, Seq<char>, Seq<char>, Seq<char>, Option<Seq<char>>)> {
    ts.map_values(|t: Test| test_view(t))
}

/// The working directory: the last `WORKING_DIRECTORY` given as a string;
/// empty when there is none.
pub open spec fn working_directory_of(props: Seq<CtestProperty>) -> Seq<char>
    decreases props.len(),
{
    if props.len() == 0 {
        seq![]
    } else {
        let p = props.last();
        match p.value {
            PropertyValue::Text(s) => if p.name@ == "WORKING_DIRECTORY"@ {
                s@
            } else {
                working_directory_of(props.drop_last())
            },
            _ => working_directory_of(props.drop_last()),
        }
    }
}

/// The first string of a list value.
pub open spec fn first_text(v: PropertyValue) -> Option<Seq<char>> {
    match v {
        PropertyValue::List(l) => if l@.len() > 0 {
            opt_view(l@[0])
        } else {
            None
        },
        _ => None,
    }
}

/// The pass regex: the first entry of the last `PASS_REGULAR_EXPRESSION`.
pub open spec fn pass_regex_of(props: Seq<CtestProperty>) -> Option<Seq<char>>
    decreases props.len(),
{
    if props.len() == 0 {
        None
    } else if props.last().name@ == "PASS_REGULAR_EXPRESSION"@ {
        first_text(props.last().value)
    } else {
        pass_regex_of(props.drop_last())
    }
}

/// The target a command runs: its executable's file name, or the
/// executable itself when it has none.
pub open spec fn command_target(executable: Seq<char>) -> Seq<char> {
    match file_name(executable) {
        Some(n) => n,
        None => executable,
    }
}

/// The tests of a reply; a test with no command has nothing to wrap and
/// is skipped.
pub open spec fn reply_tests(ts: Seq<CtestTest>) -> Seq<(Seq<char>, Seq<char>, Seq<char>, Seq<char>, Option<Seq<char>>)>
    decreases ts.len(),
{
    if ts.len() == 0 {
        seq![]
    } else {
        let t = ts.last();
        reply_tests(ts.drop_last()) + if t.command@.len() == 0 {
            seq![]
        } else {
            seq![
                (
                    t.name@,
                    command_target(t.command@[0]@),
                    t.command@[0]@,
                    working_directory_of(t.properties@),
                    pass_regex_of(t.properties@),
                ),
            ]
        }
    }
}

fn working_directory_in(props: &Vec<CtestProperty>) -> (r: String)
    ensures
        r@ == working_directory_of(props@),
{
    let mut r = String::new();
    let mut i: usize = 0;
    while i < props.len()
        invariant
            i <= props@.len(),
            r@ == working_directory_of(props@.take(i as int)),
        decreases props.len() - i,
    {
        proof {
            assert(props@.take(i + 1).drop_last() =~= props@.take(i as int));
        }
        match &props[i].value {
            PropertyValue::Text(s) => {
                if crate::text::str_eq(props[i].name.as_str(), "WORKING_DIRECTORY") {
                    r = s.clone();
                }
            },
            _ => {},
        }
        i += 1;
    }
    assert(props@.take(props@.len() as int) =~= props@);
    r
}

fn pass_regex_in(props: &Vec<CtestProperty>) -> (r: Option<String>)
    ensures
        opt_view(r) == pass_regex_of(props@),
{
    let mut r: Option<String> = None;
    let mut i: usize = 0;
    while i < props.len()
        invariant
            i <= props@.len(),
            opt_view(r) == pass_regex_of(props@.take(i as int)),
        decreases props.len() - i,
    {
        proof {
            assert(props@.take(i + 1).drop_last() =~= props@.take(i as int));
        }
        if crate::text::str_eq(props[i].name.as_str(), "PASS_REGULAR_EXPRESSION") {
            r = match &props[i].value {
                PropertyValue::List(l) => {
                    if l.len() > 0 {
                        crate::text::copy_opt(&l[0])
                    } else {
                        None
                    }
                },
                _ => None,
            };
        }
        i += 1;
    }
    assert(props@.take(props@.len() as int) =~= props@);
    r
}

/// Translates a parsed ctest reply into the model's tests. Working
/// directories and commands are still absolute here.
pub fn ctest_reply_to_tests(reply: CtestReply) -> (r: Vec<Test>)
    ensures
        tests_view(r@) == reply_tests(reply.tests@),
{
    let ts = &reply.tests;
    let mut r: Vec<Test> = Vec::new();
    let mut i: usize = 0;
    while i < ts.len()
        invariant
            i <= ts@.len(),
            tests_view(r@) == reply_tests(ts@.take(i as int)),
        decreases ts.len() - i,
    {
        proof {
            assert(ts@.take(i + 1).drop_last() =~= ts@.take(i as int));
        }
        let t = &ts[i];
        let ghost before = tests_view(r@);
        if t.command.len() != 0 {
            let executable = &t.command[0];
            let e = chars(executable);
            let target = match file_name_of(e.as_slice()) {
                Some(n) => string_of(n.as_slice()),
                None => executable.clone(),
            };
            let test = Test {
                name: t.name.clone(),
                target,
                command: executable.clone(),
                working_directory: working_directory_in(&t.properties),
                pass_regex: pass_regex_in(&t.properties),
            };
            r.push(test);
            assert(tests_view(r@) =~= before + seq![test_view(test)]);
        } else {
            assert(tests_view(r@) =~= before + Seq::empty());
        }
        i += 1;
    }
    assert(ts@.take(ts@.len() as int) =~= ts@);
    r
}

/// Whether the module builds an executable named `name`.
pub open spec fn builds_executable(targets: Seq<Target>, name: Seq<char>) -> bool {
    exists|i: int|
        0 <= i < targets.len() && (#[trigger] targets[i]).kind == TargetKind::Executable
            && targets[i].name@ == name
}

/// The tests whose command is, or is not, an executable the module builds.
pub open spec fn tests_where(tests: Seq<Test>, targets: Seq<Target>, buildable: bool) -> Seq<Test>
    decreases tests.len(),
{
    if tests.len() == 0 {
        seq![]
    } else if builds_executable(targets, tests.last().target@) == buildable {
        tests_where(tests.drop_last(), targets, buildable).push(tests.last())
    } else {
        tests_where(tests.drop_last(), targets, buildable)
    }
}

fn is_built_executable(targets: &[Target], name: &String) -> (r: bool)
    ensures
        r == builds_executable(targets@, name@),
{
    let mut i: usize = 0;
    while i < targets.len()
        invariant
            i <= targets@.len(),
            forall|k: int|
                0 <= k < i ==> !((#[trigger] targets@[k]).kind == TargetKind::Executable
                    && targets@[k].name@ == name@),
        decreases targets.len() - i,
    {
        if targets[i].kind == TargetKind::Executable && targets[i].name == *name {
            return true;
        }
        i += 1;
    }
    false
}

/// Splits tests into those an `sh_test` can wrap (their command is an
/// executable this module builds) and one escalation naming the rest, with
/// their commands. The check is against the emitted targets, not the
/// command's path: only the target list tells a binary this module builds
/// from a file that happens to sit in the build tree.
pub fn partition_tests_by_buildable_command(tests: Vec<Test>, targets: &[Target]) -> (r: (
    Vec<Test>,
    Option<NeedsAttention>,
))
    ensures
        r.0@ == tests_where(tests@, targets@, true),
        r.1 is None <==> tests_where(tests@, targets@, false).len() == 0,
        r.1 matches Some(e) ==> e.gap@ == "Tests:\n"@ + bullets(
            tests_where(tests@, targets@, false).map_values(|t: Test| t.name@),
        ) + "Their commands:\n"@ + bullets(
            tests_where(tests@, targets@, false).map_values(|t: Test| t.command@),
        ) && e.kind@ == "test_command_not_a_target"@
            && e.title@ == "Tests run commands that are not targets of this module"@
            && e.subject@ == Seq::<char>::empty(),
{
    let mut kept: Vec<Test> = Vec::new();
    let mut names: Vec<String> = Vec::new();
    let mut commands: Vec<String> = Vec::new();
    let ghost rest = tests_where(tests@, targets@, false);
    let mut i: usize = 0;
    while i < tests.len()
        invariant
            i <= tests@.len(),
            kept@ == tests_where(tests@.take(i as int), targets@, true),
            strs(names@) == tests_where(tests@.take(i as int), targets@, false).map_values(
                |t: Test| t.name@,
            ),
            strs(commands@) == tests_where(tests@.take(i as int), targets@, false).map_values(
                |t: Test| t.command@,
            ),
        decreases tests.len() - i,
    {
        proof {
            assert(tests@.take(i + 1).drop_last() =~= tests@.take(i as int));
        }
        let t = &tests[i];
        if is_built_executable(targets, &t.target) {
            kept.push(t.copied());
        } else {
            let ghost w = tests_where(tests@.take(i as int), targets@, false);
            let ghost bn = strs(names@);
            let ghost bc = strs(commands@);
            names.push(t.name.clone());
            commands.push(t.command.clone());
            assert(strs(names@) =~= bn.push(t.name@));
            assert(strs(commands@) =~= bc.push(t.command@));
            assert(w.push(*t).map_values(|t: Test| t.name@) =~= w.map_values(|t: Test| t.name@).push(
                t.name@,
            ));
            assert(w.push(*t).map_values(|t: Test| t.command@) =~= w.map_values(
                |t: Test| t.command@,
            ).push(t.command@));
        }
        i += 1;
    }
    assert(tests@.take(tests@.len() as int) =~= tests@);
    if names.len() == 0 {
        return (kept, None);
    }
    let e = ctest_command_not_a_target_needs_attention(names.as_slice(), commands.as_slice());
    (kept, Some(e))
}

/// A test's working directory below the module root: empty at the root,
/// and empty (run at the root) when it lies outside.
pub open spec fn rebased_working_directory(wd: Seq<char>, root: Seq<char>) -> Seq<char> {
    match strip_path_prefix(normalize(wd), root) {
        Some(rel) => rel,
        None => seq![],
    }
}

/// A test's command below the module root; a command outside it is kept
/// as it was, so the escalation quoting it still names a command.
pub open spec fn rebased_command(command: Seq<char>, root: Seq<char>) -> Seq<char> {
    match strip_path_prefix(normalize(command), root) {
        Some(rel) => rel,
        None => command,
    }
}

/// Rewrites each test's working directory and command from the absolute
/// paths CTest reported to paths relative to `module_root`.
pub fn rebase_tests_to_module_root(tests: &mut Vec<Test>, module_root: &str)
    ensures
        final(tests)@.len() == old(tests)@.len(),
        forall|i: int|
            0 <= i < final(tests)@.len() ==> {
                let t = #[trigger] final(tests)@[i];
                let o = old(tests)@[i];
                &&& t.name == o.name
                &&& t.target == o.target
                &&& t.pass_regex == o.pass_regex
                &&& t.working_directory@ == rebased_working_directory(
                    o.working_directory@,
                    module_root@,
                )
                &&& t.command@ == rebased_command(o.command@, module_root@)
            },
{
    let root = chars_of(module_root);
    let mut i: usize = 0;
    while i < tests.len()
        invariant
            i <= tests@.len(),
            tests@.len() == old(tests)@.len(),
            root@ == module_root@,
            forall|k: int| i <= k < tests@.len() ==> tests@[k] == old(tests)@[k],
            forall|k: int|
                0 <= k < i ==> {
                    let t = #[trigger] tests@[k];
                    let o = old(tests)@[k];
                    &&& t.name == o.name
                    &&& t.target == o.target
                    &&& t.pass_regex == o.pass_regex
                    &&& t.working_directory@ == rebased_working_directory(
                        o.working_directory@,
                        module_root@,
                    )
                    &&& t.command@ == rebased_command(o.command@, module_root@)
                },
        decreases tests.len() - i,
    {
        let wd = chars(&tests[i].working_directory);
        let nwd = normalize_path(wd.as_slice());
        let new_wd = match strip_prefix_path(nwd.as_slice(), root.as_slice()) {
            Some(rel) => string_of(rel.as_slice()),
            None => String::new(),
        };
        let cmd = chars(&tests[i].command);
        let ncmd = normalize_path(cmd.as_slice());
        let new_cmd = match strip_prefix_path(ncmd.as_slice(), root.as_slice()) {
            Some(rel) => string_of(rel.as_slice()),
            None => tests[i].command.clone(),
        };
        let mut t = tests[i].copied();
        t.working_directory = new_wd;
        t.command = new_cmd;
        tests.set(i, t);
        i += 1;
    }
}

/// Every registered test is either wrapped or escalated, never both and
/// never neither; and a wrapped test's target is an executable this
/// module builds.
pub proof fn law_every_test_is_wrapped_or_escalated(tests: Seq<Test>, targets: Seq<Target>)
    ensures
        tests_where(tests, targets, true).len() + tests_where(tests, targets, false).len() == tests.len(),
        forall|k: int|
            0 <= k < tests_where(tests, targets, true).len() ==> builds_executable(
                targets,
                (#[trigger] tests_where(tests, targets, true)[k]).target@,
            ),
    decreases tests.len(),
{
    if tests.len() > 0 {
        law_every_test_is_wrapped_or_escalated(tests.drop_last(), targets);
        let prev = tests_where(tests.drop_last(), targets, true);
        let r = tests_where(tests, targets, true);
        assert forall|k: int| 0 <= k < r.len() implies builds_executable(targets, (#[trigger] r[k]).target@) by {
            if k < prev.len() {
                assert(r[k] == prev[k]);
            }
        }
    }
}

/// Adding a test to a reply adds exactly one wrapped test when it has a
/// command, however many arguments follow the executable: its name is the
/// test's, its command is the executable, `command[0]`, and its target is
/// that executable's file name. A test with no command adds nothing.
pub proof fn law_every_test_with_a_command_is_kept(ts: Seq<CtestTest>, t: CtestTest)
    ensures
        t.command@.len() > 0 ==> {
            let r = reply_tests(ts.push(t));
            &&& r.len() == reply_tests(ts).len() + 1
            &&& r.take(reply_tests(ts).len() as int) == reply_tests(ts)
            &&& r.last().0 == t.name@
            &&& r.last().2 == t.command@[0]@
            &&& r.last().1 == match file_name(t.command@[0]@) {
                Some(n) => n,
                None => t.command@[0]@,
            }
        },
        t.command@.len() == 0 ==> reply_tests(ts.push(t)) == reply_tests(ts),
{
    let s = ts.push(t);
    assert(s.drop_last() =~= ts);
    assert(s.last() == t);
    let prev = reply_tests(ts);
    if t.command@.len() > 0 {
        let r = reply_tests(s);
        assert(r.take(prev.len() as int) =~= prev);
    } else {
        assert(reply_tests(s) =~= prev);
    }
}

} // verus!
