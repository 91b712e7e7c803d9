use argmatch::{App, Arg, ArgMatches, ErrorKind, Outcome};

fn toks(ts: &[&str]) -> Vec<String> {
    ts.iter().map(|t| t.to_string()).collect()
}

fn run(app: App, ts: &[&str]) -> Outcome {
    app.get_matches_from(&toks(ts), 0)
}

fn matched(o: Outcome) -> ArgMatches {
    match o {
        Outcome::Matched(m) => m,
        Outcome::Help(_) => panic!("help was shown"),
        Outcome::Version(_) => panic!("the version was shown"),
        Outcome::Failed(d) => panic!("failed: {}", d.message),
    }
}

fn failed(o: Outcome) -> (ErrorKind, String, bool) {
    match o {
        Outcome::Failed(d) => (d.kind, d.message, d.usage.is_some()),
        _ => panic!("the run was expected to fail"),
    }
}

/// A flag `config` (`-c`, `--config`) and an option `name` (`-n`, `--name`).
fn config_and_name() -> App {
    App::new("prog")
        .arg(Arg::new("config").short('c').long("config"))
        .arg(Arg::new("name").short('n').long("name").takes_value(true))
}

#[test]
fn long_option_with_inline_value() {
    let m = matched(run(config_and_name(), &["--name=bob"]));
    assert!(m.is_present("name"));
    assert_eq!(m.occurrences_of("name"), 1);
    assert_eq!(m.values_of("name"), vec!["bob"]);
    assert_eq!(m.value_of("name"), Some("bob"));
    assert!(m.flags.is_empty());
    assert!(!m.is_present("config"));
    assert_eq!(m.occurrences_of("config"), 0);
}

#[test]
fn short_option_then_flag() {
    let m = matched(run(config_and_name(), &["-n", "bob", "-c"]));
    assert_eq!(m.occurrences_of("name"), 1);
    assert_eq!(m.values_of("name"), vec!["bob"]);
    assert_eq!(m.occurrences_of("config"), 1);
    assert_eq!(m.flags.len(), 1);
    assert_eq!(m.opts.len(), 1);
}

#[test]
fn option_without_value_at_the_end() {
    let (kind, message, hint) = failed(run(config_and_name(), &["--name"]));
    assert_eq!(kind, ErrorKind::MissingValue);
    assert_eq!(message, "Argument \"name\" requires a value but none was supplied");
    assert!(hint);
}

#[test]
fn cluster_with_an_unknown_character() {
    let app = App::new("prog").arg(Arg::new("a").short('a')).arg(Arg::new("b").short('b'));
    let (kind, message, hint) = failed(run(app, &["-abc"]));
    assert_eq!(kind, ErrorKind::UnknownArgument);
    assert_eq!(message, "Argument -abc isn't valid");
    assert!(hint);
}

#[test]
fn cluster_of_known_flags() {
    let app = App::new("prog")
        .arg(Arg::new("a").short('a'))
        .arg(Arg::new("b").short('b').multiple(true))
        .arg(Arg::new("c").short('c'));
    let m = matched(run(app, &["-bab", "-b"]));
    assert_eq!(m.occurrences_of("a"), 1);
    assert_eq!(m.occurrences_of("b"), 3);
    assert_eq!(m.occurrences_of("c"), 0);
    assert!(!m.is_present("c"));
}

#[test]
fn an_option_cannot_stand_in_a_cluster() {
    let app = config_and_name();
    let (kind, message, _) = failed(run(app, &["-cn", "bob"]));
    assert_eq!(kind, ErrorKind::UnknownArgument);
    assert_eq!(message, "Argument -cn isn't valid");
}

#[test]
fn flags_are_counted_as_often_as_they_appear() {
    let app = App::new("prog")
        .arg(Arg::new("verbose").short('V').long("verbose").multiple(true))
        .arg(Arg::new("quiet").short('q').long("quiet"))
        .arg(Arg::new("force").short('f'));
    let m = matched(run(app, &["-V", "--verbose", "-VqV", "--verbose"]));
    assert_eq!(m.occurrences_of("verbose"), 5);
    assert_eq!(m.occurrences_of("quiet"), 1);
    assert_eq!(m.occurrences_of("force"), 0);
}

#[test]
fn a_single_flag_cannot_repeat() {
    let app = App::new("prog").arg(Arg::new("quiet").short('q').long("quiet"));
    let (kind, message, hint) = failed(run(app, &["-q", "--quiet"]));
    assert_eq!(kind, ErrorKind::DuplicateNotAllowed);
    assert_eq!(message, "Argument --quiet was supplied more than once, but does not support multiple values");
    assert!(hint);
    let app = App::new("prog").arg(Arg::new("quiet").short('q').long("quiet"));
    let (kind, message, _) = failed(run(app, &["-qq"]));
    assert_eq!(kind, ErrorKind::DuplicateNotAllowed);
    assert_eq!(message, "Argument -q was supplied more than once, but does not support multiple values");
}

#[test]
fn a_single_option_cannot_repeat() {
    let (kind, message, _) = failed(run(config_and_name(), &["-n", "a", "-n", "b"]));
    assert_eq!(kind, ErrorKind::DuplicateNotAllowed);
    assert_eq!(message, "Argument -n was supplied more than once, but does not support multiple values");
    let (kind, message, _) = failed(run(config_and_name(), &["--name=a", "--name=b"]));
    assert_eq!(kind, ErrorKind::DuplicateNotAllowed);
    assert_eq!(message, "Argument --name was supplied more than once, but does not support multiple values");
}

#[test]
fn short_and_long_are_interchangeable() {
    let by_short = matched(run(config_and_name(), &["-n", "bob"]));
    let by_long = matched(run(config_and_name(), &["--name", "bob"]));
    assert_eq!(by_short.values_of("name"), by_long.values_of("name"));
    assert_eq!(by_short.occurrences_of("name"), by_long.occurrences_of("name"));
    assert_eq!(by_long.values_of("name"), vec!["bob"]);
    assert_eq!(by_long.occurrences_of("name"), 1);
}

#[test]
fn values_keep_the_order_of_the_tokens() {
    let app = App::new("prog").arg(Arg::new("inc").short('I').long("include").takes_value(true).multiple(true));
    let m = matched(run(app, &["-I", "a", "--include=b", "--include", "c", "-I", "d"]));
    assert_eq!(m.values_of("inc"), vec!["a", "b", "c", "d"]);
    assert_eq!(m.value_of("inc"), Some("a"));
}

#[test]
fn occurrences_of_a_repeatable_option() {
    // naming the option counts once, and each value that follows as a token of
    // its own counts again
    let app = App::new("prog").arg(Arg::new("inc").short('I').long("include").takes_value(true).multiple(true));
    let m = matched(run(app, &["--include=a"]));
    assert_eq!(m.occurrences_of("inc"), 1);
    let app = App::new("prog").arg(Arg::new("inc").short('I').long("include").takes_value(true).multiple(true));
    let m = matched(run(app, &["--include=a", "--include=b"]));
    assert_eq!(m.occurrences_of("inc"), 2);
    let app = App::new("prog").arg(Arg::new("inc").short('I').long("include").takes_value(true).multiple(true));
    let m = matched(run(app, &["-I", "a"]));
    assert_eq!(m.occurrences_of("inc"), 2);
    let app = App::new("prog").arg(Arg::new("inc").short('I').long("include").takes_value(true).multiple(true));
    let m = matched(run(app, &["-I", "a", "-I", "b"]));
    assert_eq!(m.occurrences_of("inc"), 3);
}

#[test]
fn a_value_may_look_like_a_switch() {
    let m = matched(run(config_and_name(), &["-n", "-c"]));
    assert_eq!(m.values_of("name"), vec!["-c"]);
    assert!(!m.is_present("config"));
    let m = matched(run(config_and_name(), &["--name", "--"]));
    assert_eq!(m.values_of("name"), vec!["--"]);
    let m = matched(run(config_and_name(), &["--name", ""]));
    assert_eq!(m.values_of("name"), vec![""]);
}

#[test]
fn inline_value_is_split_at_the_first_equals_sign() {
    let m = matched(run(config_and_name(), &["--name=a=b"]));
    assert_eq!(m.values_of("name"), vec!["a=b"]);
    let m = matched(run(config_and_name(), &["--name==b"]));
    assert_eq!(m.values_of("name"), vec!["=b"]);
}

#[test]
fn empty_inline_value_is_a_missing_value() {
    let (kind, message, hint) = failed(run(config_and_name(), &["--name="]));
    assert_eq!(kind, ErrorKind::MissingValue);
    assert_eq!(message, "Argument --name requires a value, but none was supplied");
    assert!(hint);
    // it is reported before the name is looked up
    let (kind, message, _) = failed(run(config_and_name(), &["--nothing="]));
    assert_eq!(kind, ErrorKind::MissingValue);
    assert_eq!(message, "Argument --nothing requires a value, but none was supplied");
}

#[test]
fn a_flag_ignores_an_inline_value() {
    let m = matched(run(config_and_name(), &["--config=yes"]));
    assert_eq!(m.occurrences_of("config"), 1);
    assert!(m.values_of("config").is_empty());
}

#[test]
fn unknown_switches() {
    let (kind, message, hint) = failed(run(config_and_name(), &["--nope"]));
    assert_eq!(kind, ErrorKind::UnknownArgument);
    assert_eq!(message, "Argument --nope isn't valid");
    assert!(hint);
    let (kind, message, _) = failed(run(config_and_name(), &["-x"]));
    assert_eq!(kind, ErrorKind::UnknownArgument);
    assert_eq!(message, "Argument -x isn't valid");
    let (kind, message, _) = failed(run(config_and_name(), &["--nope=1"]));
    assert_eq!(kind, ErrorKind::UnknownArgument);
    assert_eq!(message, "Argument --nope isn't valid");
    // only the two dashes of the prefix are stripped
    let (kind, message, _) = failed(run(config_and_name(), &["---config"]));
    assert_eq!(kind, ErrorKind::UnknownArgument);
    assert_eq!(message, "Argument ---config isn't valid");
}

#[test]
fn a_short_switch_may_be_any_character() {
    let app = App::new("prog").arg(Arg::new("eta").short('η').takes_value(true));
    let m = matched(run(app, &["-η", "1"]));
    assert_eq!(m.values_of("eta"), vec!["1"]);
}

#[test]
fn separator_makes_everything_positional() {
    let app = App::new("prog")
        .arg(Arg::new("config").short('c').long("config"))
        .arg(Arg::new("first").index(1))
        .arg(Arg::new("second").index(2))
        .arg(Arg::new("third").index(3));
    let m = matched(run(app, &["--", "-c", "--config", "--"]));
    assert!(!m.is_present("config"));
    assert_eq!(m.value_of("first"), Some("-c"));
    assert_eq!(m.value_of("second"), Some("--config"));
    assert_eq!(m.value_of("third"), Some("--"));
    assert!(m.flags.is_empty());
}

#[test]
fn separator_itself_is_discarded() {
    let app = App::new("prog").arg(Arg::new("config").short('c')).arg(Arg::new("first").index(1));
    let m = matched(run(app, &["-c", "--"]));
    assert_eq!(m.occurrences_of("config"), 1);
    assert!(!m.is_present("first"));
    assert!(m.positionals.is_empty());
}

#[test]
fn after_the_separator_switches_fail_as_positionals() {
    let app = App::new("prog").arg(Arg::new("config").short('c'));
    let (kind, message, hint) = failed(run(app, &["--", "-c"]));
    assert_eq!(kind, ErrorKind::UnexpectedPositional);
    assert_eq!(message, "Found positional argument -c, but prog doesn't accept any");
    assert!(hint);
}

#[test]
fn positionals_fill_by_ascending_index() {
    // declared out of order, and with a gap between the indices
    let app = App::new("prog")
        .arg(Arg::new("last").index(7))
        .arg(Arg::new("first").index(1))
        .arg(Arg::new("middle").index(4));
    let m = matched(run(app, &["a", "b", "c"]));
    assert_eq!(m.value_of("first"), Some("a"));
    assert_eq!(m.value_of("middle"), Some("b"));
    assert_eq!(m.value_of("last"), Some("c"));
    assert_eq!(m.occurrences_of("first"), 1);
    let app = App::new("prog").arg(Arg::new("last").index(7)).arg(Arg::new("first").index(1));
    let m = matched(run(app, &["a"]));
    assert_eq!(m.value_of("first"), Some("a"));
    assert_eq!(m.value_of("last"), None);
    assert!(!m.is_present("last"));
}

#[test]
fn a_later_positional_takes_the_index_of_an_earlier_one() {
    let app = App::new("prog").arg(Arg::new("old").index(1)).arg(Arg::new("new").index(1));
    let m = matched(run(app, &["a"]));
    assert_eq!(m.value_of("new"), Some("a"));
    assert!(!m.is_present("old"));
    let app = App::new("prog").arg(Arg::new("old").index(1)).arg(Arg::new("new").index(1));
    let (kind, _, _) = failed(run(app, &["a", "b"]));
    assert_eq!(kind, ErrorKind::UnexpectedPositional);
}

#[test]
fn too_many_positionals() {
    let app = App::new("prog").arg(Arg::new("first").index(1)).arg(Arg::new("second").index(2));
    let (kind, message, hint) = failed(run(app, &["a", "b", "c"]));
    assert_eq!(kind, ErrorKind::UnexpectedPositional);
    assert_eq!(message, "Positional argument \"c\" was found, but prog wasn't expecting any");
    assert!(hint);
}

#[test]
fn a_positional_where_none_is_declared() {
    let (kind, message, hint) = failed(run(config_and_name(), &["stray"]));
    assert_eq!(kind, ErrorKind::UnexpectedPositional);
    assert_eq!(message, "Found positional argument stray, but prog doesn't accept any");
    assert!(hint);
}

#[test]
fn a_lone_dash_is_a_positional() {
    let app = App::new("prog").arg(Arg::new("input").index(1));
    let m = matched(run(app, &["-"]));
    assert_eq!(m.value_of("input"), Some("-"));
}

#[test]
fn exclusion_holds_in_both_orders() {
    let build = || {
        App::new("prog")
            .arg(Arg::new("json").long("json").short('j').mutually_excludes("text"))
            .arg(Arg::new("text").long("text").short('t'))
    };
    // the excluding argument first: the other is refused when it is matched
    let (kind, message, hint) = failed(run(build(), &["--json", "--text"]));
    assert_eq!(kind, ErrorKind::MutuallyExclusive);
    assert_eq!(message, "The argument --text is mutually exclusive with one or more other arguments");
    assert!(hint);
    // the excluded argument first: the pair is refused at the end
    let (kind, message, hint) = failed(run(build(), &["--text", "--json"]));
    assert_eq!(kind, ErrorKind::MutuallyExclusive);
    assert_eq!(message, "The argument -t is mutually exclusive with one or more other arguments");
    assert!(hint);
    // each alone is fine
    assert!(matched(run(build(), &["--json"])).is_present("json"));
    assert!(matched(run(build(), &["-t"])).is_present("text"));
}

#[test]
fn exclusion_of_options_and_positionals() {
    let build = || {
        App::new("prog")
            .arg(Arg::new("stdin").long("stdin").mutually_excludes_all(vec!["file".to_string(), "out".to_string()]))
            .arg(Arg::new("out").long("out").short('o').takes_value(true))
            .arg(Arg::new("file").index(1))
    };
    let (kind, message, hint) = failed(run(build(), &["--stdin", "x.txt"]));
    assert_eq!(kind, ErrorKind::MutuallyExclusive);
    assert_eq!(message, "The argument \"x.txt\" is mutually exclusive with one or more other arguments");
    assert!(hint);
    // found at the end of the level, a positional is reported without the usage block
    let (kind, message, hint) = failed(run(build(), &["x.txt", "--stdin"]));
    assert_eq!(kind, ErrorKind::MutuallyExclusive);
    assert_eq!(message, "The argument \"file\" is mutually exclusive with one or more other arguments");
    assert!(!hint);
    let (kind, message, _) = failed(run(build(), &["--stdin", "--out=a"]));
    assert_eq!(kind, ErrorKind::MutuallyExclusive);
    assert_eq!(message, "The argument --out is mutually exclusive with one or more other arguments");
    let (kind, message, _) = failed(run(build(), &["--stdin", "-o", "a"]));
    assert_eq!(kind, ErrorKind::MutuallyExclusive);
    assert_eq!(message, "The argument --o is mutually exclusive with one or more other arguments");
    let (kind, message, hint) = failed(run(build(), &["--out", "a", "--stdin"]));
    assert_eq!(kind, ErrorKind::MutuallyExclusive);
    assert_eq!(message, "The argument -o is mutually exclusive with one or more other arguments");
    assert!(hint);
}

#[test]
fn an_unmet_dependency_is_a_missing_requirement() {
    let build = || {
        App::new("prog")
            .arg(Arg::new("user").long("user").takes_value(true).depends_on("password"))
            .arg(Arg::new("password").long("password").takes_value(true))
    };
    let (kind, message, hint) = failed(run(build(), &["--user=me"]));
    assert_eq!(kind, ErrorKind::MissingRequired);
    assert_eq!(message, "One or more required arguments were not supplied");
    assert!(hint);
    // the dependency alone is not required
    assert!(matched(run(build(), &["--password=x"])).is_present("password"));
    assert!(matched(run(build(), &[])).opts.is_empty());
    // met in either order
    assert!(matched(run(build(), &["--user=me", "--password=x"])).is_present("user"));
    assert!(matched(run(build(), &["--password=x", "--user=me"])).is_present("user"));
}

#[test]
fn dependencies_of_flags_and_positionals() {
    let build = || {
        App::new("prog")
            .arg(Arg::new("force").short('f').depends_on_all(vec!["target".to_string(), "yes".to_string()]))
            .arg(Arg::new("yes").short('y'))
            .arg(Arg::new("target").index(1).depends_on("yes"))
    };
    assert_eq!(failed(run(build(), &["-f"])).0, ErrorKind::MissingRequired);
    assert_eq!(failed(run(build(), &["-f", "-y"])).0, ErrorKind::MissingRequired);
    assert_eq!(failed(run(build(), &["x"])).0, ErrorKind::MissingRequired);
    assert!(matched(run(build(), &["-fy", "x"])).is_present("target"));
    assert!(matched(run(build(), &["x", "-y"])).is_present("target"));
}

#[test]
fn required_arguments() {
    let build = || {
        App::new("prog")
            .arg(Arg::new("name").long("name").takes_value(true).required(true))
            .arg(Arg::new("input").index(1).required(true))
    };
    assert_eq!(failed(run(build(), &[])).0, ErrorKind::MissingRequired);
    assert_eq!(failed(run(build(), &["--name=x"])).0, ErrorKind::MissingRequired);
    assert_eq!(failed(run(build(), &["file"])).0, ErrorKind::MissingRequired);
    let m = matched(run(build(), &["file", "--name=x"]));
    assert_eq!(m.value_of("input"), Some("file"));
    assert_eq!(m.value_of("name"), Some("x"));
}

#[test]
fn a_missing_value_is_reported_before_a_missing_requirement() {
    let app = App::new("prog")
        .arg(Arg::new("name").long("name").takes_value(true))
        .arg(Arg::new("input").index(1).required(true));
    let (kind, _, _) = failed(run(app, &["--name"]));
    assert_eq!(kind, ErrorKind::MissingValue);
}

#[test]
fn no_tokens_and_nothing_required() {
    let m = matched(run(config_and_name(), &[]));
    assert!(m.flags.is_empty() && m.opts.is_empty() && m.positionals.is_empty());
    assert!(m.subcommand.is_none());
    assert_eq!(m.subcommand_name(), None);
    assert_eq!(m.value_of("name"), None);
    assert!(m.values_of("name").is_empty());
}

#[test]
fn a_run_may_start_in_the_middle() {
    let app = config_and_name();
    let tokens = toks(&["--nope", "-c"]);
    let m = matched(app.get_matches_from(&tokens, 1));
    assert_eq!(m.occurrences_of("config"), 1);
    let m = matched(config_and_name().get_matches_from(&tokens, 2));
    assert!(m.flags.is_empty());
}
