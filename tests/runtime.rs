use clap_sort::{
    first_violation, is_sorted, violations, ArgumentSpec as Arg, CommandNode as Command,
    ViolationKind,
};

fn assert_sorted(cmd: &Command) {
    if let Err(msg) = is_sorted(cmd) {
        panic!("{}", msg);
    }
}

#[test]
fn test_sorted_subcommands() {
    let cmd = Command::new("test")
        .subcommand(Command::new("add"))
        .subcommand(Command::new("delete"))
        .subcommand(Command::new("list"));

    assert_sorted(&cmd);
}

#[test]
#[should_panic(expected = "are not sorted alphabetically")]
fn test_unsorted_subcommands() {
    let cmd = Command::new("test")
        .subcommand(Command::new("list"))
        .subcommand(Command::new("add"))
        .subcommand(Command::new("delete"));

    assert_sorted(&cmd);
}

#[test]
fn test_is_sorted_ok() {
    let cmd = Command::new("test")
        .subcommand(Command::new("add"))
        .subcommand(Command::new("delete"))
        .subcommand(Command::new("list"));

    assert!(is_sorted(&cmd).is_ok());
}

#[test]
fn test_is_sorted_err() {
    let cmd = Command::new("test")
        .subcommand(Command::new("list"))
        .subcommand(Command::new("add"));

    assert!(is_sorted(&cmd).is_err());
}

#[test]
fn test_no_subcommands() {
    let cmd = Command::new("test");
    assert_sorted(&cmd);
    assert!(is_sorted(&cmd).is_ok());
}

// The tree that a derived parser with subcommands `Add, Delete, List` builds.
#[test]
fn test_with_derive_sorted() {
    let cmd = Command::new("cli")
        .subcommand(Command::new("add"))
        .subcommand(Command::new("delete"))
        .subcommand(Command::new("list"));
    assert_sorted(&cmd);
}

#[test]
#[should_panic(expected = "are not sorted alphabetically")]
fn test_with_derive_unsorted() {
    let cmd = Command::new("cli")
        .subcommand(Command::new("list"))
        .subcommand(Command::new("add"))
        .subcommand(Command::new("delete"));
    assert_sorted(&cmd);
}

#[test]
fn test_arguments_correctly_sorted() {
    let cmd = Command::new("test")
        .arg(Arg::new("file")) // Positional
        .arg(Arg::new("debug").short('d').long("debug"))
        .arg(Arg::new("output").short('o').long("output"))
        .arg(Arg::new("verbose").short('v').long("verbose"))
        .arg(Arg::new("config").long("config"))
        .arg(Arg::new("no-color").long("no-color"));

    assert_sorted(&cmd);
}

#[test]
#[should_panic(expected = "Flags with short options")]
fn test_short_flags_unsorted() {
    let cmd = Command::new("test")
        .arg(Arg::new("verbose").short('v').long("verbose"))
        .arg(Arg::new("debug").short('d').long("debug"));

    assert_sorted(&cmd);
}

#[test]
#[should_panic(expected = "Long-only flags")]
fn test_long_only_unsorted() {
    let cmd = Command::new("test")
        .arg(Arg::new("zebra").long("zebra"))
        .arg(Arg::new("alpha").long("alpha"));

    assert_sorted(&cmd);
}

#[test]
#[should_panic(expected = "not in correct group order")]
fn test_wrong_group_order() {
    // Long-only flag before short flag
    let cmd = Command::new("test")
        .arg(Arg::new("config").long("config"))
        .arg(Arg::new("verbose").short('v').long("verbose"));

    assert_sorted(&cmd);
}

#[test]
fn test_positional_order_not_enforced() {
    let cmd = Command::new("test")
        .arg(Arg::new("second"))
        .arg(Arg::new("first"));

    assert_sorted(&cmd);
}

#[test]
fn test_is_sorted_ok_with_args() {
    let cmd = Command::new("test")
        .arg(Arg::new("file"))
        .arg(Arg::new("output").short('o').long("output"))
        .arg(Arg::new("config").long("config"))
        .subcommand(Command::new("add"))
        .subcommand(Command::new("delete"));

    assert!(is_sorted(&cmd).is_ok());
}

#[test]
fn test_is_sorted_err_args() {
    let cmd = Command::new("test")
        .arg(Arg::new("zebra").short('z').long("zebra"))
        .arg(Arg::new("alpha").short('a').long("alpha"));

    assert!(is_sorted(&cmd).is_err());
}

#[test]
fn test_recursive_subcommand_args() {
    let cmd = Command::new("test")
        .arg(Arg::new("verbose").short('v').long("verbose"))
        .subcommand(
            Command::new("sub")
                .arg(Arg::new("debug").short('d').long("debug"))
                .arg(Arg::new("output").short('o').long("output")),
        );

    assert_sorted(&cmd);
}

#[test]
#[should_panic(expected = "Flags with short options")]
fn test_recursive_subcommand_args_fails() {
    let cmd = Command::new("test").subcommand(
        Command::new("sub")
            .arg(Arg::new("output").short('o').long("output"))
            .arg(Arg::new("debug").short('d').long("debug")),
    );

    assert_sorted(&cmd);
}

// A global flag of the root is not among a subcommand's own arguments.
#[test]
fn test_global_flags_not_checked_in_subcommands() {
    let cmd = Command::new("test")
        .arg(Arg::new("verbose").short('v').long("verbose"))
        .subcommand(
            Command::new("sub")
                .arg(Arg::new("debug").short('d').long("debug"))
                .arg(Arg::new("output").short('o').long("output")),
        );

    assert_sorted(&cmd);
}

#[test]
fn test_global_flags_dont_appear_in_subcommand_args() {
    let cmd = Command::new("test")
        .arg(Arg::new("verbose").short('v').long("verbose"))
        .subcommand(
            Command::new("sub")
                .arg(Arg::new("debug").short('d').long("debug"))
                .arg(Arg::new("output").short('o').long("output")),
        );

    let subcmd = cmd.find_subcommand("sub").unwrap();
    let args = &subcmd.arguments;

    // Subcommand should only see its own 2 args, not the root's flag
    assert_eq!(args.len(), 2);
    for arg in args {
        assert!(arg.id != "verbose", "Subcommand arg {} should not be global", arg.id);
    }

    assert_sorted(&cmd);
}

#[test]
#[should_panic(expected = "Flags with short options")]
fn test_uppercase_before_lowercase_same_letter() {
    // Uppercase I before lowercase i - should fail
    let cmd = Command::new("test")
        .arg(Arg::new("index").short('I').long("index"))
        .arg(Arg::new("inject").short('i').long("inject"));

    assert_sorted(&cmd);
}

#[test]
fn test_lowercase_before_uppercase_same_letter() {
    // Lowercase i before uppercase I - should pass
    let cmd = Command::new("test")
        .arg(Arg::new("inject").short('i').long("inject"))
        .arg(Arg::new("index").short('I').long("index"));

    assert_sorted(&cmd);
}

#[test]
#[should_panic(expected = "Flags with short options")]
fn test_task_docs_flags_unsorted() {
    let cmd = Command::new("generate").subcommand(
        Command::new("task-docs")
            .arg(Arg::new("index").short('I').long("index"))
            .arg(Arg::new("inject").short('i').long("inject"))
            .arg(Arg::new("multi").short('m').long("multi"))
            .arg(Arg::new("output").short('o').long("output"))
            .arg(Arg::new("root").short('r').long("root"))
            .arg(Arg::new("style").short('s').long("style")),
    );

    assert_sorted(&cmd);
}

#[test]
fn test_error_message_shows_full_command_path() {
    let cmd = Command::new("parent-has-no-flags").subcommand(
        Command::new("child-has-unsorted-flags")
            .arg(Arg::new("zebra").short('z').long("zebra"))
            .arg(Arg::new("alpha").short('a').long("alpha")),
    );

    let result = is_sorted(&cmd);
    assert!(result.is_err());
    let err = result.unwrap_err();

    assert!(
        err.contains("parent-has-no-flags child-has-unsorted-flags"),
        "Error message should contain full path, got: {}",
        err
    );
}

// The tree that a derived parser builds for `Generate(TaskDocs { task, output })`.
#[test]
fn test_error_with_derive_api_nested_subcommands() {
    let cmd = Command::new("cli").subcommand(
        Command::new("generate").subcommand(
            Command::new("task-docs")
                .arg(Arg::new("task").short('t').long("task"))
                .arg(Arg::new("output").short('o').long("output")),
        ),
    );
    let result = is_sorted(&cmd);

    if let Err(e) = result {
        assert!(e.contains("task-docs"), "Error should mention 'task-docs'. Got: {}", e);
        assert!(
            e.contains("[\"-t\", \"-o\"]"),
            "Error should show the actual unsorted flags. Got: {}",
            e
        );
    } else {
        panic!("Expected error for unsorted flags");
    }
}

#[test]
fn full_message_for_unsorted_short_flags() {
    let cmd = Command::new("app").subcommand(
        Command::new("run")
            .arg(Arg::new("verbose").short('v').long("verbose"))
            .arg(Arg::new("debug").short('d').long("debug")),
    );
    assert_eq!(
        is_sorted(&cmd).unwrap_err(),
        "Flags with short options in 'app run' are not sorted!\nActual: [\"-v\", \"-d\"]\nExpected: [\"-d\", \"-v\"]"
    );
}

#[test]
fn full_message_for_unsorted_subcommands() {
    let cmd = Command::new("test")
        .subcommand(Command::new("list"))
        .subcommand(Command::new("add"));
    assert_eq!(
        is_sorted(&cmd).unwrap_err(),
        "Subcommands in 'test' are not sorted alphabetically!\nActual order: [\"list\", \"add\"]\nExpected order: [\"add\", \"list\"]"
    );
}

#[test]
fn full_message_for_long_only_flags() {
    let cmd = Command::new("test")
        .arg(Arg::new("zebra").long("zebra"))
        .arg(Arg::new("alpha").long("alpha"));
    assert_eq!(
        is_sorted(&cmd).unwrap_err(),
        "Long-only flags in 'test' are not sorted!\nActual: [\"--zebra\", \"--alpha\"]\nExpected: [\"--alpha\", \"--zebra\"]"
    );
}

#[test]
fn full_message_for_group_order() {
    let cmd = Command::new("test")
        .arg(Arg::new("config").long("config"))
        .arg(Arg::new("verbose").short('v').long("verbose"));
    assert_eq!(
        is_sorted(&cmd).unwrap_err(),
        "Arguments in 'test' are not in correct group order!\nExpected: [positional, short flags, long-only flags]\nActual: [\"config\", \"verbose\"]\nExpected: [\"verbose\", \"config\"]"
    );
}

#[test]
fn quoted_names_are_escaped() {
    let cmd = Command::new("test")
        .subcommand(Command::new("b\"x"))
        .subcommand(Command::new("a"));
    let err = is_sorted(&cmd).unwrap_err();
    assert!(err.contains("[\"b\\\"x\", \"a\"]"), "got: {}", err);
}

#[test]
fn tie_break_upper_before_lower_fails() {
    let bad = Command::new("test")
        .arg(Arg::new("index").short('I'))
        .arg(Arg::new("inject").short('i'));
    let vs = violations(&bad);
    assert_eq!(vs.len(), 1);
    assert_eq!(vs[0].kind, ViolationKind::ShortFlagOrder);
    assert_eq!(vs[0].actual, vec!["-I".to_string(), "-i".to_string()]);
    assert_eq!(vs[0].expected, vec!["-i".to_string(), "-I".to_string()]);

    let good = Command::new("test")
        .arg(Arg::new("inject").short('i'))
        .arg(Arg::new("index").short('I'));
    assert!(violations(&good).is_empty());
}

#[test]
fn tie_break_case_folds_across_letters() {
    // 'B' sorts as 'b', after 'a' and before 'c'.
    let cmd = Command::new("test")
        .arg(Arg::new("a").short('a'))
        .arg(Arg::new("b").short('B'))
        .arg(Arg::new("c").short('c'));
    assert!(violations(&cmd).is_empty());
    let cmd = Command::new("test")
        .arg(Arg::new("b").short('B'))
        .arg(Arg::new("a").short('a'));
    assert_eq!(violations(&cmd).len(), 1);
}

#[test]
fn positional_second_first_is_clean() {
    let cmd = Command::new("test")
        .arg(Arg::new("second"))
        .arg(Arg::new("first"));
    assert!(violations(&cmd).is_empty());
    assert!(first_violation(&cmd).is_none());
}

#[test]
fn long_only_before_short_flag_is_group_order() {
    let cmd = Command::new("test")
        .arg(Arg::new("config").long("config"))
        .arg(Arg::new("verbose").short('v').long("verbose"));
    let vs = violations(&cmd);
    assert_eq!(vs.len(), 1);
    assert_eq!(vs[0].kind, ViolationKind::ArgumentGroupOrder);
    assert_eq!(vs[0].path, vec!["test".to_string()]);
    assert_eq!(vs[0].actual, vec!["config".to_string(), "verbose".to_string()]);
    assert_eq!(vs[0].expected, vec!["verbose".to_string(), "config".to_string()]);
}

#[test]
fn unclassified_arguments_are_ignored() {
    let hidden = Arg::from_parts("internal".to_string(), false, None, None);
    let cmd = Command::new("test")
        .arg(Arg::new("verbose").short('v'))
        .arg(hidden)
        .arg(Arg::new("config").long("config"));
    assert!(violations(&cmd).is_empty());
}

#[test]
fn ordered_tree_has_no_violations() {
    let cmd = Command::new("root")
        .arg(Arg::new("input"))
        .arg(Arg::new("all").short('a'))
        .arg(Arg::new("quiet").short('q').long("quiet"))
        .arg(Arg::new("color").long("color"))
        .subcommand(
            Command::new("build")
                .arg(Arg::new("jobs").short('j'))
                .subcommand(Command::new("docs"))
                .subcommand(Command::new("lib")),
        )
        .subcommand(Command::new("test"));
    assert!(violations(&cmd).is_empty());
    assert!(is_sorted(&cmd).is_ok());
}

#[test]
fn single_unsorted_list_deep_in_tree() {
    let cmd = Command::new("root")
        .subcommand(Command::new("a"))
        .subcommand(
            Command::new("b").subcommand(
                Command::new("c")
                    .arg(Arg::new("zeta").long("zeta"))
                    .arg(Arg::new("beta").long("beta")),
            ),
        );
    let vs = violations(&cmd);
    assert_eq!(vs.len(), 1);
    assert_eq!(vs[0].kind, ViolationKind::LongFlagOrder);
    assert_eq!(
        vs[0].path,
        vec!["root".to_string(), "b".to_string(), "c".to_string()]
    );
}

#[test]
fn collect_all_reports_every_defect_in_walk_order() {
    let cmd = Command::new("root")
        .arg(Arg::new("z").short('z'))
        .arg(Arg::new("a").short('a'))
        .subcommand(Command::new("y").subcommand(Command::new("q")).subcommand(Command::new("p")))
        .subcommand(Command::new("x"));
    let vs = violations(&cmd);
    let kinds: Vec<ViolationKind> = vs.iter().map(|v| v.kind).collect();
    assert_eq!(
        kinds,
        vec![
            ViolationKind::SubcommandOrder,
            ViolationKind::ShortFlagOrder,
            ViolationKind::SubcommandOrder
        ]
    );
    assert_eq!(vs[2].path, vec!["root".to_string(), "y".to_string()]);
    let first = first_violation(&cmd).unwrap();
    assert_eq!(first.kind, vs[0].kind);
    assert_eq!(first.path, vs[0].path);
    assert_eq!(first.message(), vs[0].message());
}

#[test]
fn validation_is_repeatable() {
    let cmd = Command::new("root")
        .arg(Arg::new("b").long("b"))
        .arg(Arg::new("a").long("a"))
        .subcommand(Command::new("z"))
        .subcommand(Command::new("m"));
    let one = violations(&cmd);
    let two = violations(&cmd);
    assert_eq!(one.len(), two.len());
    for (x, y) in one.iter().zip(two.iter()) {
        assert_eq!(x.kind, y.kind);
        assert_eq!(x.path, y.path);
        assert_eq!(x.actual, y.actual);
        assert_eq!(x.expected, y.expected);
    }
    assert_eq!(is_sorted(&cmd), is_sorted(&cmd));
}

#[test]
fn empty_tree_is_sorted() {
    assert!(violations(&Command::new("")).is_empty());
}
