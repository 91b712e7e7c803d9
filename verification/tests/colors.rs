use argmatch::fmt::{ANSIString, Color, ColorWhen, Colorizer, ColorizerOption, Format, Palette};

fn palette() -> Palette {
    Palette { green: "&a".to_string(), red_bold: "&c".to_string(), yellow: "&e".to_string() }
}

fn class_of<T>(f: &Format<T>) -> &'static str {
    match f {
        Format::Error(_) => "error",
        Format::Warning(_) => "warning",
        Format::Good(_) => "good",
        Format::Plain(_) => "plain",
    }
}

#[test]
fn colored_output() {
    let p = palette();
    let err = Format::Error("error");
    assert_eq!(err.format(&p).to_string(), Color::RedBold.paint(&p, "error").to_string());
    let good = Format::Good("good");
    assert_eq!(good.format(&p).to_string(), Color::Green.paint(&p, "good").to_string());
    let warn = Format::Warning("warn");
    assert_eq!(warn.format(&p).to_string(), Color::Yellow.paint(&p, "warn").to_string());
    let none = Format::Plain("none");
    assert_eq!(none.format(&p).to_string(), ANSIString::from("none").to_string());
}

#[test]
fn paint_prefixes_the_code() {
    let p = palette();
    assert_eq!(Color::Green.paint(&p, "ok").to_string(), "&aok");
    assert_eq!(Color::RedBold.paint(&p, "bad").to_string(), "&cbad");
    assert_eq!(Color::Yellow.paint(&p, "hm").to_string(), "&ehm");
    assert_eq!(Color::Yellow.paint(&p, "").to_string(), "&e");
}

#[test]
fn format_renders_each_class() {
    let p = palette();
    assert_eq!(Format::Error("e".to_string()).format(&p).to_string(), "&ce");
    assert_eq!(Format::Warning("w".to_string()).format(&p).to_string(), "&ew");
    assert_eq!(Format::Good("g".to_string()).format(&p).to_string(), "&ag");
    assert_eq!(Format::Plain("n".to_string()).format(&p).to_string(), "n");
}

#[test]
fn plain_text_is_kept_as_it_is() {
    assert_eq!(ANSIString::from("a\tb").to_string(), "a\tb");
    assert_eq!(ANSIString::from("").to_string(), "");
}

#[test]
fn colorizer_follows_its_policy() {
    for when in [ColorWhen::Auto, ColorWhen::Always] {
        let c = Colorizer::new(ColorizerOption { use_stderr: false, when });
        assert_eq!(class_of(&c.good("x")), "good");
        assert_eq!(class_of(&c.warning("x")), "warning");
        assert_eq!(class_of(&c.error("x")), "error");
        assert_eq!(class_of(&c.none("x")), "plain");
    }
    let c = Colorizer::new(ColorizerOption { use_stderr: true, when: ColorWhen::Never });
    assert_eq!(class_of(&c.good("x")), "plain");
    assert_eq!(class_of(&c.warning("x")), "plain");
    assert_eq!(class_of(&c.error("x")), "plain");
    assert_eq!(class_of(&c.none("x")), "plain");
}

#[test]
fn colorizer_keeps_the_message() {
    let c = Colorizer::new(ColorizerOption { use_stderr: true, when: ColorWhen::Always });
    match c.error("boom") {
        Format::Error(m) => assert_eq!(m, "boom"),
        _ => panic!("an error stays an error"),
    }
    let c = Colorizer::new(ColorizerOption { use_stderr: true, when: ColorWhen::Never });
    match c.error("boom") {
        Format::Plain(m) => assert_eq!(m, "boom"),
        _ => panic!("nothing is styled under this policy"),
    }
}

#[test]
fn default_colorizer_styles() {
    let c = Colorizer::default();
    assert_eq!(class_of(&c.good("x")), "good");
    assert_eq!(class_of(&c.error("x")), "error");
}
