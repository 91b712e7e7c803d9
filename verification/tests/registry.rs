use argmatch::app::describe;
use argmatch::{App, Arg, DefinitionError};

fn flag(name: &str, short: char) -> Arg {
    Arg::new(name).short(short)
}

#[test]
fn a_fresh_argument_is_accepted() {
    let app = App::new("prog");
    assert_eq!(app.check_arg(&Arg::new("config").short('c').long("config")), None);
    assert_eq!(app.check_arg(&Arg::new("name").long("name").takes_value(true).required(true)), None);
    assert_eq!(app.check_arg(&Arg::new("input").index(1).required(true)), None);
}

#[test]
fn duplicate_name_is_refused() {
    let app = App::new("prog").arg(flag("debug", 'd'));
    assert_eq!(app.check_arg(&flag("debug", 'x')), Some(DefinitionError::DuplicateName));
    // the name is checked before anything else
    assert_eq!(app.check_arg(&Arg::new("debug")), Some(DefinitionError::DuplicateName));
}

#[test]
fn duplicate_short_is_refused_before_any_run() {
    let app = App::new("prog").arg(flag("debug", 'd'));
    assert_eq!(app.check_arg(&flag("dry", 'd')), Some(DefinitionError::DuplicateShort));
    // an option cannot take the short form of a flag either
    assert_eq!(
        app.check_arg(&Arg::new("dir").short('d').takes_value(true)),
        Some(DefinitionError::DuplicateShort)
    );
    assert_eq!(app.check_arg(&flag("dry", 'y')), None);
}

#[test]
fn duplicate_long_is_refused() {
    let app = App::new("prog").arg(Arg::new("debug").long("debug"));
    assert_eq!(app.check_arg(&Arg::new("other").long("debug")), Some(DefinitionError::DuplicateLong));
    assert_eq!(app.check_arg(&Arg::new("other").long("Debug")), None);
}

#[test]
fn positional_shape_is_checked() {
    let app = App::new("prog");
    assert_eq!(
        app.check_arg(&Arg::new("in").index(1).short('i')),
        Some(DefinitionError::PositionalWithSwitch)
    );
    assert_eq!(
        app.check_arg(&Arg::new("in").index(1).long("in")),
        Some(DefinitionError::PositionalWithSwitch)
    );
    assert_eq!(
        app.check_arg(&Arg::new("in").index(1).multiple(true)),
        Some(DefinitionError::PositionalMultiple)
    );
    assert_eq!(
        app.check_arg(&Arg::new("in").index(1).takes_value(true)),
        Some(DefinitionError::PositionalTakesValue)
    );
    // a switch is reported before the other two
    assert_eq!(
        app.check_arg(&Arg::new("in").index(1).short('i').multiple(true).takes_value(true)),
        Some(DefinitionError::PositionalWithSwitch)
    );
}

#[test]
fn option_needs_a_switch() {
    let app = App::new("prog");
    assert_eq!(app.check_arg(&Arg::new("name").takes_value(true)), Some(DefinitionError::OptionWithoutSwitch));
}

#[test]
fn flag_needs_a_switch_and_cannot_be_required() {
    let app = App::new("prog");
    assert_eq!(app.check_arg(&Arg::new("debug")), Some(DefinitionError::FlagWithoutSwitch));
    assert_eq!(app.check_arg(&flag("debug", 'd').required(true)), Some(DefinitionError::FlagRequired));
    assert_eq!(app.check_arg(&Arg::new("debug").required(true)), Some(DefinitionError::FlagWithoutSwitch));
}

#[test]
fn switches_of_refused_shapes_are_not_taken() {
    let app = App::new("prog").arg(flag("debug", 'd'));
    // `check_arg` changes nothing
    assert_eq!(app.check_arg(&flag("quiet", 'q')), None);
    assert_eq!(app.check_arg(&flag("quiet", 'q')), None);
}

#[test]
fn builder_sets_every_field() {
    let a = Arg::new("out")
        .short('o')
        .long("output")
        .help("Where to write")
        .required(true)
        .takes_value(true)
        .multiple(true)
        .mutually_excludes("quiet")
        .mutually_excludes_all(vec!["a".to_string(), "b".to_string()])
        .depends_on("in")
        .depends_on_all(vec!["x".to_string()]);
    assert_eq!(a.name, "out");
    assert_eq!(a.short, Some('o'));
    assert_eq!(a.long, Some("output".to_string()));
    assert_eq!(a.help, Some("Where to write".to_string()));
    assert!(a.required);
    assert!(a.takes_value);
    assert!(a.multiple);
    assert_eq!(a.index, None);
    assert_eq!(a.blacklist, vec!["quiet", "a", "b"]);
    assert_eq!(a.requires, vec!["in", "x"]);
    let p = Arg::new("in").index(3);
    assert_eq!(p.index, Some(3));
    assert!(!p.required && !p.takes_value && !p.multiple);
    assert!(p.blacklist.is_empty() && p.requires.is_empty());
}

#[test]
fn args_declares_in_order() {
    let app = App::new("prog").args(vec![flag("a", 'a'), flag("b", 'b')]);
    assert_eq!(app.check_arg(&flag("c", 'a')), Some(DefinitionError::DuplicateShort));
    assert_eq!(app.check_arg(&flag("c", 'b')), Some(DefinitionError::DuplicateShort));
    assert_eq!(app.check_arg(&flag("a", 'c')), Some(DefinitionError::DuplicateName));
    assert_eq!(app.check_arg(&flag("c", 'c')), None);
    let empty = App::new("prog").args(vec![]);
    assert_eq!(empty.check_arg(&flag("a", 'a')), None);
}

#[test]
fn each_refusal_is_described() {
    let a = Arg::new("cfg").short('c').long("config");
    assert_eq!(describe(DefinitionError::DuplicateName, &a), "Argument name must be unique, \"cfg\" is already in use");
    assert_eq!(describe(DefinitionError::DuplicateShort, &a), "Argument short must be unique, -c is already in use");
    assert_eq!(
        describe(DefinitionError::DuplicateLong, &a),
        "Argument long must be unique, --config is already in use"
    );
    assert_eq!(
        describe(DefinitionError::PositionalWithSwitch, &a),
        "Argument \"cfg\" has conflicting requirements, both index() and short(), or long(), were supplied"
    );
    assert_eq!(
        describe(DefinitionError::PositionalMultiple, &a),
        "Argument \"cfg\" has conflicting requirements, both index() and multiple(true) were supplied"
    );
    assert_eq!(
        describe(DefinitionError::PositionalTakesValue, &a),
        "Argument \"cfg\" has conflicting requirements, both index() and takes_value(true) were supplied"
    );
    assert_eq!(
        describe(DefinitionError::OptionWithoutSwitch, &a),
        "Argument \"cfg\" has take_value(true), yet neither a short() or long() were supplied"
    );
    assert_eq!(
        describe(DefinitionError::FlagWithoutSwitch, &a),
        "Argument \"cfg\" must have either a short() and/or long() supplied since no index() or takes_value() were found"
    );
    assert_eq!(
        describe(DefinitionError::FlagRequired, &a),
        "Argument \"cfg\" cannot be required(true) because it has no index() or takes_value(true)"
    );
}

#[test]
fn a_refusal_is_described_for_the_argument_that_caused_it() {
    let app = App::new("prog").arg(Arg::new("debug").short('d'));
    let dry = Arg::new("dry").short('d');
    let e = app.check_arg(&dry).unwrap();
    assert_eq!(describe(e, &dry), "Argument short must be unique, -d is already in use");
}
