use translator::ctest::{
    ctest_reply_to_tests, partition_tests_by_buildable_command, rebase_tests_to_module_root,
    CtestProperty, CtestReply, CtestTest, PropertyValue,
};
use translator::model::{Target, TargetKind, Test};


// Real `ctest --show-only=json-v1` output for tinyxml2's xmltest,
// captured verbatim. Pins the parse of the test model — command,
// WORKING_DIRECTORY, PASS_REGULAR_EXPRESSION — against what CTest
// actually emits, since the File API has no test model to cross-check
// against. See docs/lore/cmake-test-model-lives-in-ctest-not-file-api.md.
fn xmltest_reply() -> CtestReply {
    CtestReply {
        tests: vec![CtestTest {
            name: "xmltest".to_string(),
            command: vec!["/abs/build/xmltest".to_string()],
            properties: vec![
                CtestProperty {
                    name: "PASS_REGULAR_EXPRESSION".to_string(),
                    value: PropertyValue::List(vec![Some(", Fail 0".to_string())]),
                },
                CtestProperty {
                    name: "WORKING_DIRECTORY".to_string(),
                    value: PropertyValue::Text("/abs/src".to_string()),
                },
            ],
        }],
    }
}

#[test]
fn ctest_reply_parses_real_capture_into_a_test() {
    let reply = xmltest_reply();
    let tests = ctest_reply_to_tests(reply);
    assert_eq!(tests.len(), 1);
    let t = &tests[0];
    assert_eq!(t.name, "xmltest");
    assert_eq!(
        t.target, "xmltest",
        "the test target is the basename of the command's executable"
    );
    assert_eq!(
        t.working_directory, "/abs/src",
        "WORKING_DIRECTORY (a string property) must be read verbatim"
    );
    assert_eq!(
        t.pass_regex.as_deref(),
        Some(", Fail 0"),
        "PASS_REGULAR_EXPRESSION (a list property) must yield its first entry"
    );
}

// A test CTest reports with an EMPTY command has no binary to wrap and is
// skipped, rather than emitting a test that can't run. A command that
// resolved but names something we don't build is a different case, and is
// escalated — see the partition_tests_by_buildable_command tests.
#[test]
fn ctest_reply_skips_a_test_with_no_command() {
    let reply = CtestReply {
        tests: vec![CtestTest {
            name: "unbuilt".to_string(),
            command: vec![],
            properties: vec![],
        }],
    };
    assert!(ctest_reply_to_tests(reply).is_empty());
}

// Real `ctest --show-only=json-v1` output for json-c 0.19's `test1`,
// captured from a real configure. The mirror image of CTEST_XMLTEST_JSON
// above, and the pair is the point: json-c's command is a checked-in
// shell script in the SOURCE tree while its WORKING_DIRECTORY is in the
// BUILD tree, and tinyxml2's is the other way round. See bzl-fxa.16.
fn json_c_script_reply() -> CtestReply {
    CtestReply {
        tests: vec![CtestTest {
            name: "test1".to_string(),
            command: vec!["/abs/src/tests/test1.test".to_string()],
            properties: vec![CtestProperty {
                name: "WORKING_DIRECTORY".to_string(),
                value: PropertyValue::Text("/abs/build/tests".to_string()),
            }],
        }],
    }
}

#[test]
fn ctest_reply_carries_the_command_path_not_just_its_basename() {
    let reply = json_c_script_reply();
    let tests = ctest_reply_to_tests(reply);
    assert_eq!(tests.len(), 1);
    assert_eq!(
        tests[0].command, "/abs/src/tests/test1.test",
        "the full command path must survive: the basename alone cannot tell a \
         checked-in script from a binary the module builds"
    );
}

fn executable_target(name: &str) -> Target {
    Target {
        name: name.to_string(),
        kind: TargetKind::Executable,
        sources: Vec::new(),
        public_headers: Vec::new(),
        dependencies: Vec::new(),
        includes: Vec::new(),
        local_defines: Vec::new(),
        artifacts: Vec::new(),
        ..Default::default()
    }
}

fn test_running(name: &str, target: &str, command: &str) -> Test {
    Test {
        name: name.to_string(),
        target: target.to_string(),
        command: command.to_string(),
        working_directory: String::new(),
        pass_regex: None,
    }
}

// The direction that must NOT escalate: tinyxml2's shape, where the
// command is an executable the module emits. Without this, an escalation
// wired to fire on everything would look correct.
#[test]
fn a_test_running_a_built_binary_does_not_escalate() {
    let tests = vec![test_running("xmltest", "xmltest", "/abs/build/xmltest")];
    let targets = vec![executable_target("xmltest")];

    let (kept, escalation) = partition_tests_by_buildable_command(tests, &targets);

    assert_eq!(kept.len(), 1, "the test must still be emitted");
    assert!(
        escalation.is_none(),
        "a test wrapping a cc_binary this module emits is fully translated, so \
         nothing should escalate; got: {:?}",
        escalation.map(|e| e.title)
    );
}

// The direction that must escalate: json-c's shape.
#[test]
fn a_test_running_a_script_escalates_and_is_not_emitted() {
    let tests = vec![test_running("test1", "test1.test", "/abs/src/tests/test1.test")];
    // The module builds an executable, just not the one the test runs —
    // so an empty target list isn't what makes this fire.
    let targets = vec![executable_target("json_parse")];

    let (kept, escalation) = partition_tests_by_buildable_command(tests, &targets);

    assert!(
        kept.is_empty(),
        "a test whose command isn't a target we emit has no cc_binary to wrap, so \
         emitting an sh_test for it would produce a label that can't resolve"
    );
    let item = escalation.expect("a test that can't be translated must escalate");
    assert!(
        item.gap.contains("/abs/src/tests/test1.test"),
        "the escalation must name the actual command, which the agent can't \
         recover from the test name:\n{}",
        item.gap
    );
    assert!(
        item.gap.contains("test1"),
        "the escalation must name the test:\n{}",
        item.gap
    );
}

// A project mixing both shapes must keep the translatable half rather
// than escalating the whole suite.
#[test]
fn a_mixed_suite_keeps_the_buildable_tests_and_escalates_only_the_rest() {
    let tests = vec![
        test_running("xmltest", "xmltest", "/abs/build/xmltest"),
        test_running("test1", "test1.test", "/abs/src/tests/test1.test"),
    ];
    let targets = vec![executable_target("xmltest")];

    let (kept, escalation) = partition_tests_by_buildable_command(tests, &targets);

    assert_eq!(
        kept.iter().map(|t| t.name.as_str()).collect::<Vec<_>>(),
        vec!["xmltest"],
        "only the test whose command is a target we emit survives"
    );
    let item = escalation.expect("the untranslatable test must still escalate");
    assert!(
        !item.gap.contains("xmltest"),
        "the translated test must not appear in the escalation:\n{}",
        item.gap
    );
}

#[test]
fn rebase_tests_makes_working_directory_module_relative() {
    let mut tests = vec![
        Test {
            name: "at_root".to_string(),
            target: "t".to_string(),
            command: "/proj/build/t".to_string(),
            working_directory: "/proj".to_string(),
            pass_regex: None,
        },
        Test {
            name: "in_subdir".to_string(),
            target: "t".to_string(),
            command: "/proj/build/t".to_string(),
            working_directory: "/proj/tests/data".to_string(),
            pass_regex: None,
        },
    ];
    rebase_tests_to_module_root(&mut tests, "/proj");
    // The module root itself becomes empty; a subdir becomes relative.
    assert_eq!(tests[0].working_directory, "");
    assert_eq!(tests[1].working_directory, "tests/data");
}

#[test]
fn rebase_tests_makes_the_command_module_relative() {
    let mut tests = vec![
        test_running("inside", "t", "/proj/tests/run_case.sh"),
        test_running("outside", "t", "/elsewhere/run_case.sh"),
    ];
    rebase_tests_to_module_root(&mut tests, "/proj");

    assert_eq!(
        tests[0].command, "tests/run_case.sh",
        "a command under the module root must be rebased: the escalation quoting it \
         is read in the unpacked workspace, where this machine's absolute path names \
         nothing"
    );
    assert_eq!(
        tests[1].command, "/elsewhere/run_case.sh",
        "a command outside the module root stays absolute — unlike working_directory, \
         emptying it would leave the escalation naming no command at all"
    );
}
