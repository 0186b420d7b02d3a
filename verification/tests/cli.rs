use clap::{Arg, ArgAction, Command};
use line_test::opts::{arguments, get, validate, ArgKind, Opts};

fn fixed(text: &str) -> &'static str {
    Box::leak(text.to_owned().into_boxed_str())
}

fn no_options() -> Opts {
    Opts {
        build: false,
        deny_warnings: false,
        diff: false,
        lines: vec![],
        missing_only: false,
        no_run: false,
        refresh: false,
        show_commands: false,
        verbose: false,
        zero_coverage: false,
        zzargs: vec![],
    }
}

fn command() -> Command {
    let mut command = Command::new("line-test").about("Run tests by the lines they exercise");
    for argument in arguments() {
        let mut arg = Arg::new(fixed(&argument.id)).help(fixed(&argument.help));
        arg = match argument.kind {
            ArgKind::Flag => arg.long(fixed(&argument.long)).action(ArgAction::SetTrue),
            ArgKind::Values => arg
                .long(fixed(&argument.long))
                .action(ArgAction::Append)
                .num_args(1)
                .value_name(fixed(&argument.value_name)),
            ArgKind::Trailing => arg
                .last(true)
                .num_args(0..)
                .value_name(fixed(&argument.value_name)),
        };
        for other in &argument.conflicts_with {
            arg = arg.conflicts_with(fixed(other));
        }
        for other in &argument.requires {
            arg = arg.requires(fixed(other));
        }
        command = command.arg(arg);
    }
    command
}

#[test]
fn verify_cli() {
    command().debug_assert();
}

#[test]
fn the_command_line_has_every_option_once() {
    let ids: Vec<String> = arguments().into_iter().map(|a| a.id).collect();
    assert_eq!(
        ids,
        vec![
            "build",
            "deny_warnings",
            "diff",
            "lines",
            "missing_only",
            "no_run",
            "refresh",
            "show_commands",
            "verbose",
            "zero_coverage",
            "zzargs"
        ]
    );
}

#[test]
fn the_parser_refuses_what_validate_refuses() {
    let cases: Vec<Vec<&str>> = vec![
        vec!["line-test", "--build", "--diff"],
        vec!["line-test", "--build", "--line", "a:1"],
        vec!["line-test", "--build", "--refresh"],
        vec!["line-test", "--refresh", "--zero-coverage"],
        vec!["line-test", "--missing-only"],
    ];
    for case in cases {
        assert!(command().try_get_matches_from(case.clone()).is_err(), "{:?}", case);
    }
    let matches = command()
        .try_get_matches_from(vec!["line-test", "--build", "--missing-only", "--", "--release"])
        .unwrap();
    assert!(matches.get_flag("build"));
    assert!(matches.get_flag("missing_only"));
}

#[test]
fn validate_accepts_options_that_go_together() {
    assert!(validate(&no_options()).is_ok());
    let mut opts = no_options();
    opts.build = true;
    opts.missing_only = true;
    assert!(validate(&opts).is_ok());
    let mut opts = no_options();
    opts.diff = true;
    opts.zero_coverage = true;
    opts.lines = vec!["a:1".to_owned()];
    assert!(validate(&opts).is_ok());
}

#[test]
fn validate_refuses_options_that_do_not_go_together() {
    let mut opts = no_options();
    opts.build = true;
    opts.diff = true;
    assert!(validate(&opts).is_err());
    let mut opts = no_options();
    opts.build = true;
    opts.refresh = true;
    assert!(validate(&opts).is_err());
    let mut opts = no_options();
    opts.refresh = true;
    opts.lines = vec!["a:1".to_owned()];
    assert!(validate(&opts).is_err());
    let mut opts = no_options();
    opts.missing_only = true;
    let failure = validate(&opts).unwrap_err();
    assert_eq!(failure.kind(), line_test::failure::FailureKind::Config);
}

#[test]
fn no_run_implies_show_commands() {
    let mut opts = no_options();
    opts.no_run = true;
    let opts = get(opts);
    assert!(opts.show_commands);
    assert!(opts.no_run);
    let opts = get(no_options());
    assert!(!opts.show_commands);
}
