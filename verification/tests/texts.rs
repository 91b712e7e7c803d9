use argmatch::parse::tokens_fit;
use argmatch::{App, Arg, ErrorKind, Outcome};

fn toks(ts: &[&str]) -> Vec<String> {
    ts.iter().map(|t| t.to_string()).collect()
}

fn full() -> App {
    App::new("myprog")
        .version("1.0.2")
        .author("Me, me@mail.com")
        .about("Explains in brief what the program does")
        .arg(Arg::new("config").short('c').long("config").help("Sets the config"))
        .arg(Arg::new("quiet").long("quiet"))
        .arg(Arg::new("Verbose").short('V'))
        .arg(Arg::new("name").short('n').long("name").takes_value(true).help("Your name"))
        .arg(Arg::new("level").long("level").takes_value(true))
        .arg(Arg::new("dir").short('d').takes_value(true).help("Where to look"))
        .arg(Arg::new("input").index(1).help("The input file"))
        .arg(Arg::new("output").index(2))
}

const FULL_HELP: &str = "myprog 1.0.2\n\
Me, me@mail.com\n\
Explains in brief what the program does\n\
\n\
USAGE:\n\
\tmyprog [FLAGS] [OPTIONS] [POSITIONAL] \n\
\n\
FLAGS:\n\
\t-c,--config\tSets the config\n\
\t   ,--quiet\t   \n\
\t-V   \t\t   \n\
\t-h,--help\tPrints this message\n\
\t-v,--version\tPrints version information\n\
\n\
OPTIONS:\n\
\t-n ,--name=name\tYour name\n\
\t   ,--level=level\t   \n\
\t-d  dir\t\tWhere to look\n\
\n\
POSITIONAL ARGUMENTS:\n\
\tinput\t\t\tThe input file\n\
\toutput\t\t\t   \n";

#[test]
fn version_line() {
    assert_eq!(full().version_text(), "myprog 1.0.2\n");
    assert_eq!(App::new("bare").version_text(), "bare \n");
}

#[test]
fn usage_of_an_empty_command() {
    assert_eq!(App::new("bare").usage_text(false), "USAGE:\n\tbare    ");
    assert_eq!(App::new("bare").usage_text(true), "USAGE:\n\tbare    \nFor more information try --help\n");
}

#[test]
fn usage_override() {
    let app = App::new("myprog").usage("myprog [-clDas] <some_file>").arg(Arg::new("c").short('c'));
    assert_eq!(app.usage_text(false), "USAGE:\n\tmyprog [-clDas] <some_file>\n");
    let app = App::new("myprog").usage("myprog [-clDas] <some_file>");
    assert_eq!(
        app.usage_text(true),
        "USAGE:\n\tmyprog [-clDas] <some_file>\n\nFor more information try --help\n"
    );
}

#[test]
fn usage_placeholders() {
    assert_eq!(full().usage_text(false), "USAGE:\n\tmyprog [FLAGS] [OPTIONS] [POSITIONAL] ");
    let app = App::new("p").arg(Arg::new("c").short('c'));
    assert_eq!(app.usage_text(false), "USAGE:\n\tp [FLAGS]   ");
    let app = App::new("p").arg(Arg::new("n").short('n').takes_value(true));
    assert_eq!(app.usage_text(false), "USAGE:\n\tp  [OPTIONS]  ");
    let app = App::new("p").arg(Arg::new("in").index(1));
    assert_eq!(app.usage_text(false), "USAGE:\n\tp   [POSITIONAL] ");
    let app = App::new("p").subcommand(App::new("sub"));
    assert_eq!(app.usage_text(false), "USAGE:\n\tp    [SUBCOMMANDS]");
}

#[test]
fn usage_spells_out_what_is_required() {
    let app = App::new("p")
        .arg(Arg::new("name").short('n').long("name").takes_value(true).required(true))
        .arg(Arg::new("opt").long("opt").takes_value(true))
        .arg(Arg::new("level").long("level").takes_value(true).required(true))
        .arg(Arg::new("out").index(2).required(true))
        .arg(Arg::new("extra").index(3))
        .arg(Arg::new("in").index(1).required(true));
    assert_eq!(app.usage_text(false), "USAGE:\n\tp  -n name --level=level  <in> <out>  ");
}

#[test]
fn help_of_a_full_command() {
    // the text as a run shows it, with the built-in flags listed
    match full().get_matches_from(&toks(&["--help"]), 0) {
        Outcome::Help(text) => assert_eq!(text, FULL_HELP),
        _ => panic!("help was asked for"),
    }
    match full().get_matches_from(&toks(&["-c", "-h", "--nope"]), 0) {
        Outcome::Help(text) => assert_eq!(text, FULL_HELP),
        _ => panic!("help was asked for"),
    }
}

#[test]
fn help_of_an_empty_command() {
    assert_eq!(App::new("bare").help_text(), "bare \n\nUSAGE:\n\tbare    ");
    match App::new("bare").get_matches_from(&toks(&["--help"]), 0) {
        Outcome::Help(text) => assert_eq!(
            text,
            "bare \n\nUSAGE:\n\tbare [FLAGS]   \n\nFLAGS:\n\
\t-h,--help\tPrints this message\n\
\t-v,--version\tPrints version information\n"
        ),
        _ => panic!("help was asked for"),
    }
}

#[test]
fn help_lists_subcommands() {
    let app = App::new("git")
        .subcommand(App::new("clone").about("Copies a repository"))
        .subcommand(App::new("init"));
    match app.get_matches_from(&toks(&["help"]), 0) {
        Outcome::Help(text) => assert_eq!(
            text,
            "git \n\nUSAGE:\n\tgit [FLAGS]   [SUBCOMMANDS]\n\nFLAGS:\n\
\t-h,--help\tPrints this message\n\
\t-v,--version\tPrints version information\n\
\nSUBCOMMANDS:\n\
\tclone\t\tCopies a repository\n\
\tinit\t\t   \n\
\thelp\t\tPrints this message\n"
        ),
        _ => panic!("help was asked for"),
    }
}

#[test]
fn version_is_shown_on_request() {
    for t in ["--version", "-v"] {
        match full().get_matches_from(&toks(&[t]), 0) {
            Outcome::Version(text) => assert_eq!(text, "myprog 1.0.2\n"),
            _ => panic!("the version was asked for"),
        }
    }
    // in a cluster too, and before what follows is looked at
    match full().get_matches_from(&toks(&["-cvx"]), 0) {
        Outcome::Version(text) => assert_eq!(text, "myprog 1.0.2\n"),
        _ => panic!("the version was asked for"),
    }
}

#[test]
fn claimed_switches_are_not_built_in_any_more() {
    let build = || {
        App::new("p")
            .arg(Arg::new("host").short('h').long("host").takes_value(true))
            .arg(Arg::new("verbose").short('v'))
            .arg(Arg::new("assist").long("help"))
            .arg(Arg::new("release").long("version").takes_value(true))
    };
    match build().get_matches_from(&toks(&["-h", "example.org", "-v", "--help", "--version=2"]), 0) {
        Outcome::Matched(m) => {
            assert_eq!(m.value_of("host"), Some("example.org"));
            assert_eq!(m.occurrences_of("verbose"), 1);
            assert_eq!(m.occurrences_of("assist"), 1);
            assert_eq!(m.value_of("release"), Some("2"));
        },
        _ => panic!("every switch was declared"),
    }
    // no built-in is listed once both of its switches are claimed
    assert_eq!(
        build().help_text(),
        "p \n\nUSAGE:\n\tp [FLAGS] [OPTIONS]  \n\nFLAGS:\n\
\t-v   \t\t   \n\
\t   ,--help\t   \n\
\nOPTIONS:\n\
\t-h ,--host=host\t   \n\
\t   ,--version=release\t   \n"
    );
}

#[test]
fn a_built_in_keeps_the_switch_that_is_not_claimed() {
    // the long form is still the built-in's; the short one is the flag's
    let app = App::new("p").arg(Arg::new("hidden").short('h'));
    match app.get_matches_from(&toks(&["--help"]), 0) {
        Outcome::Help(text) => assert_eq!(
            text,
            "p \n\nUSAGE:\n\tp [FLAGS]   \n\nFLAGS:\n\
\t-h   \t\t   \n\
\t   ,--help\tPrints this message\n\
\t-v,--version\tPrints version information\n"
        ),
        _ => panic!("help was asked for"),
    }
    let app = App::new("p").arg(Arg::new("hidden").short('h'));
    match app.get_matches_from(&toks(&["-h"]), 0) {
        Outcome::Matched(m) => assert_eq!(m.occurrences_of("hidden"), 1),
        _ => panic!("the flag was declared"),
    }
}

#[test]
fn diagnostics_carry_the_usage_block() {
    let app = App::new("p").arg(Arg::new("c").short('c'));
    match app.get_matches_from(&toks(&["--nope"]), 0) {
        Outcome::Failed(d) => {
            assert_eq!(d.kind, ErrorKind::UnknownArgument);
            assert_eq!(d.message, "Argument --nope isn't valid");
            assert_eq!(d.usage.as_deref(), Some("USAGE:\n\tp [FLAGS]   \nFor more information try --help\n"));
            assert_eq!(
                d.report(),
                "Argument --nope isn't valid\nUSAGE:\n\tp [FLAGS]   \nFor more information try --help\n"
            );
        },
        _ => panic!("the switch is unknown"),
    }
}

#[test]
fn outcome_says_what_to_print_and_how_to_leave() {
    let o = full().get_matches_from(&toks(&["-c"]), 0);
    assert_eq!(o.exit_code(), 0);
    assert_eq!(o.output(), "");
    let o = full().get_matches_from(&toks(&["--help"]), 0);
    assert_eq!(o.exit_code(), 0);
    assert_eq!(o.output(), FULL_HELP);
    let o = full().get_matches_from(&toks(&["--version"]), 0);
    assert_eq!(o.exit_code(), 0);
    assert_eq!(o.output(), "myprog 1.0.2\n");
    let o = full().get_matches_from(&toks(&["-x"]), 0);
    assert_eq!(o.exit_code(), 1);
    assert_eq!(
        o.output(),
        "Argument -x isn't valid\nUSAGE:\n\tmyprog [FLAGS] [OPTIONS] [POSITIONAL] \nFor more information try --help\n"
    );
    // a positional that is excluded is reported without the usage block
    let app = App::new("p").arg(Arg::new("f").short('f').mutually_excludes("in")).arg(Arg::new("in").index(1));
    let o = app.get_matches_from(&toks(&["x", "-f"]), 0);
    assert_eq!(o.exit_code(), 1);
    assert_eq!(o.output(), "The argument \"in\" is mutually exclusive with one or more other arguments\n");
}

#[test]
fn the_program_is_named_by_its_file() {
    let app = App::new("myprog").arg(Arg::new("c").short('c'));
    match app.get_matches(toks(&["/usr/local/bin/tool", "--nope"])) {
        Outcome::Failed(d) => assert_eq!(
            d.usage.as_deref(),
            Some("USAGE:\n\ttool [FLAGS]   \nFor more information try --help\n")
        ),
        _ => panic!("the switch is unknown"),
    }
    // the path itself is no token
    let app = App::new("myprog").arg(Arg::new("c").short('c'));
    match app.get_matches(toks(&["--nope", "-c"])) {
        Outcome::Matched(m) => assert_eq!(m.occurrences_of("c"), 1),
        _ => panic!("only the flag is a token"),
    }
    match App::new("myprog").get_matches(vec![]) {
        Outcome::Matched(m) => assert!(m.flags.is_empty()),
        _ => panic!("there is nothing to fail on"),
    }
}

#[test]
fn the_program_can_be_named_by_the_caller() {
    let app = App::new("myprog");
    match app.get_matches_named(Some("alias".to_string()), &toks(&["path", "x"])) {
        Outcome::Failed(d) => {
            assert_eq!(d.kind, ErrorKind::UnexpectedPositional);
            assert_eq!(d.message, "Found positional argument x, but myprog doesn't accept any");
            assert_eq!(d.usage.as_deref(), Some("USAGE:\n\talias [FLAGS]   \nFor more information try --help\n"));
        },
        _ => panic!("no positional is declared"),
    }
    match App::new("myprog").get_matches_named(None, &toks(&["path", "--version"])) {
        Outcome::Version(text) => assert_eq!(text, "myprog \n"),
        _ => panic!("the version was asked for"),
    }
}

#[test]
fn tokens_in_memory_fit() {
    assert!(tokens_fit(&toks(&[])));
    assert!(tokens_fit(&toks(&["", "-abc", "ηθ"])));
}
