use argmatch::{App, Arg, ErrorKind, Outcome, SubCommand};

fn toks(ts: &[&str]) -> Vec<String> {
    ts.iter().map(|t| t.to_string()).collect()
}

fn git() -> App {
    App::new("git")
        .arg(Arg::new("verbose").short('V').multiple(true))
        .subcommand(
            SubCommand::new("clone")
                .about("Copies a repository")
                .arg(Arg::new("depth").long("depth").takes_value(true))
                .arg(Arg::new("url").index(1).required(true)),
        )
        .subcommand(SubCommand::new("remote").subcommand(SubCommand::new("add").arg(Arg::new("name").index(1))))
}

#[test]
fn a_subcommand_takes_the_rest_of_the_tokens() {
    match git().get_matches_from(&toks(&["-V", "clone", "--depth=1", "-V"]), 0) {
        Outcome::Failed(d) => {
            // below the subcommand the parent's flags are unknown
            assert_eq!(d.kind, ErrorKind::UnknownArgument);
            assert_eq!(d.message, "Argument -V isn't valid");
            assert_eq!(
                d.usage.as_deref(),
                Some("USAGE:\n\tclone [FLAGS] [OPTIONS] <url>  \nFor more information try --help\n")
            );
        },
        _ => panic!("the subcommand has no such flag"),
    }
    match git().get_matches_from(&toks(&["-VV", "clone", "--depth=1", "here"]), 0) {
        Outcome::Matched(m) => {
            assert_eq!(m.occurrences_of("verbose"), 2);
            assert!(!m.is_present("depth"));
            assert_eq!(m.subcommand_name(), Some("clone"));
            assert!(m.subcommand_matches("remote").is_none());
            let sub = m.subcommand_matches("clone").unwrap();
            assert_eq!(sub.value_of("depth"), Some("1"));
            assert_eq!(sub.value_of("url"), Some("here"));
            assert!(!sub.is_present("verbose"));
            assert_eq!(sub.subcommand_name(), None);
        },
        _ => panic!("every token is declared"),
    }
}

#[test]
fn subcommands_nest() {
    match git().get_matches_from(&toks(&["remote", "add", "origin"]), 0) {
        Outcome::Matched(m) => {
            let remote = m.subcommand_matches("remote").unwrap();
            assert_eq!(remote.subcommand_name(), Some("add"));
            let add = remote.subcommand_matches("add").unwrap();
            assert_eq!(add.value_of("name"), Some("origin"));
        },
        _ => panic!("every token is declared"),
    }
}

#[test]
fn a_subcommand_has_its_own_rules() {
    match git().get_matches_from(&toks(&["clone"]), 0) {
        Outcome::Failed(d) => assert_eq!(d.kind, ErrorKind::MissingRequired),
        _ => panic!("the url is required"),
    }
    match git().get_matches_from(&toks(&["clone", "--help"]), 0) {
        Outcome::Help(text) => assert_eq!(
            text,
            "clone \nCopies a repository\n\nUSAGE:\n\tclone [FLAGS] [OPTIONS] <url>  \n\nFLAGS:\n\
\t-h,--help\tPrints this message\n\
\t-v,--version\tPrints version information\n\
\nOPTIONS:\n\
\t   ,--depth=depth\t   \n\
\nPOSITIONAL ARGUMENTS:\n\
\turl\t\t\t   \n"
        ),
        _ => panic!("help was asked for"),
    }
}

#[test]
fn the_parent_is_checked_before_the_subcommand_runs() {
    // a requirement of the parent that is still open when the subcommand is
    // named fails the run, whatever follows
    let build = || {
        App::new("p")
            .arg(Arg::new("token").long("token").takes_value(true).required(true))
            .subcommand(SubCommand::new("go"))
    };
    match build().get_matches_from(&toks(&["go", "--nope"]), 0) {
        Outcome::Failed(d) => {
            assert_eq!(d.kind, ErrorKind::MissingRequired);
            assert_eq!(
                d.usage.as_deref(),
                Some("USAGE:\n\tp [FLAGS] --token=token   [SUBCOMMANDS]\nFor more information try --help\n")
            );
        },
        _ => panic!("the token is required"),
    }
    match build().get_matches_from(&toks(&["--token=x", "go"]), 0) {
        Outcome::Matched(m) => {
            assert_eq!(m.value_of("token"), Some("x"));
            assert_eq!(m.subcommand_name(), Some("go"));
        },
        _ => panic!("the requirement is met"),
    }
    // the help subcommand is an exception: it shows the help text at once
    match build().get_matches_from(&toks(&["help"]), 0) {
        Outcome::Help(_) => {},
        _ => panic!("help was asked for"),
    }
}

#[test]
fn help_subcommand_exists_only_beside_others() {
    match App::new("p").get_matches_from(&toks(&["help"]), 0) {
        Outcome::Failed(d) => {
            assert_eq!(d.kind, ErrorKind::UnexpectedPositional);
            assert_eq!(d.message, "Found positional argument help, but p doesn't accept any");
        },
        _ => panic!("there is no subcommand at all"),
    }
    let app = App::new("p").arg(Arg::new("topic").index(1));
    match app.get_matches_from(&toks(&["help"]), 0) {
        Outcome::Matched(m) => assert_eq!(m.value_of("topic"), Some("help")),
        _ => panic!("the token fills the slot"),
    }
}

#[test]
fn a_declared_help_subcommand_still_shows_the_help_text() {
    let app = App::new("p").subcommand(SubCommand::new("help").about("My own help"));
    match app.get_matches_from(&toks(&["help", "x"]), 0) {
        Outcome::Help(text) => assert_eq!(
            text,
            "p \n\nUSAGE:\n\tp [FLAGS]   [SUBCOMMANDS]\n\nFLAGS:\n\
\t-h,--help\tPrints this message\n\
\t-v,--version\tPrints version information\n\
\nSUBCOMMANDS:\n\
\thelp\t\tMy own help\n"
        ),
        _ => panic!("help was asked for"),
    }
}

#[test]
fn a_later_subcommand_replaces_its_namesake() {
    let app = App::new("p")
        .subcommand(SubCommand::new("go").arg(Arg::new("fast").short('f')))
        .subcommand(SubCommand::new("stop"))
        .subcommands(vec![SubCommand::new("go").arg(Arg::new("slow").short('s')), SubCommand::new("wait")]);
    match app.get_matches_from(&toks(&["go", "-s"]), 0) {
        Outcome::Matched(m) => assert_eq!(m.subcommand_matches("go").unwrap().occurrences_of("slow"), 1),
        _ => panic!("the later declaration stands"),
    }
    let app = App::new("p")
        .subcommand(SubCommand::new("go").arg(Arg::new("fast").short('f')))
        .subcommand(SubCommand::new("go").arg(Arg::new("slow").short('s')));
    match app.get_matches_from(&toks(&["go", "-f"]), 0) {
        Outcome::Failed(d) => assert_eq!(d.kind, ErrorKind::UnknownArgument),
        _ => panic!("the earlier declaration is gone"),
    }
}

#[test]
fn a_subcommand_name_is_a_value_where_a_value_is_due() {
    let app = App::new("p").arg(Arg::new("name").short('n').takes_value(true)).subcommand(SubCommand::new("go"));
    match app.get_matches_from(&toks(&["-n", "go"]), 0) {
        Outcome::Matched(m) => {
            assert_eq!(m.value_of("name"), Some("go"));
            assert_eq!(m.subcommand_name(), None);
        },
        _ => panic!("the token is the value"),
    }
}

#[test]
fn after_the_separator_a_subcommand_is_still_found() {
    let app = App::new("p").arg(Arg::new("in").index(1)).subcommand(SubCommand::new("go"));
    match app.get_matches_from(&toks(&["--", "-x", "go", "-y"]), 0) {
        Outcome::Failed(d) => {
            assert_eq!(d.kind, ErrorKind::UnknownArgument);
            assert_eq!(d.message, "Argument -y isn't valid");
        },
        _ => panic!("the subcommand has no such flag"),
    }
}
