//! Semantic classes for printed messages and the colour policy that selects them.
use vstd::prelude::*;
use vstd::string::*;

verus! {

/// Text that already carries whatever styling it was given.
pub struct ANSIString {
    s: String,
}

impl View for ANSIString {
    type V = Seq<char>;

    closed spec fn view(&self) -> Seq<char> {
        self.s@
    }
}

impl ANSIString {
    /// Wraps plain text without adding any styling.
    pub fn from(s: &str) -> (r: Self)
        ensures
            r@ == s@,
    {
        ANSIString { s: String::from_str(s) }
    }

    /// The characters as they would be printed.
    pub fn to_string(&self) -> (r: String)
        ensures
            r@ == self@,
    {
        self.s.clone()
    }
}

/// The colour codes of the terminal or chat surface that will show the text.
///
/// The library never invents codes: whoever prints supplies the three it needs.
pub struct Palette {
    pub green: String,
    pub red_bold: String,
    pub yellow: String,
}

/// The three colours a message can be painted in.
#[derive(Debug, Copy, Clone)]
pub enum Color {
    Green,
    RedBold,
    Yellow,
}

impl Color {
    /// The code that `palette` gives this colour.
    pub open spec fn code(self, palette: Palette) -> Seq<char> {
        match self {
            Color::Green => palette.green@,
            Color::RedBold => palette.red_bold@,
            Color::Yellow => palette.yellow@,
        }
    }

    /// Prefixes `s` with this colour's code.
    pub fn paint(&self, palette: &Palette, s: &str) -> (r: ANSIString)
        ensures
            r@ == self.code(*palette) + s@,
    {
        let mut out = match self {
            Color::Green => palette.green.clone(),
            Color::RedBold => palette.red_bold.clone(),
            Color::Yellow => palette.yellow.clone(),
        };
        out.append(s);
        ANSIString { s: out }
    }
}

/// When styling is applied.
#[derive(Debug, Copy, Clone, PartialEq)]
pub enum ColorWhen {
    Auto,
    Always,
    Never,
}

/// How a `Colorizer` is configured.
pub struct ColorizerOption {
    pub use_stderr: bool,
    pub when: ColorWhen,
}

/// Sorts messages into semantic classes according to a colour policy.
pub struct Colorizer {
    when: ColorWhen,
}

/// A message together with its semantic class.
#[derive(Debug)]
pub enum Format<T> {
    /// A failure; painted red.
    Error(T),
    /// A caution; painted yellow.
    Warning(T),
    /// A success; painted green.
    Good(T),
    /// Plain text.
    Plain(T),
}

/// Anything that can be read as text.
pub trait Message {
    /// The characters of the message.
    spec fn text(&self) -> Seq<char>;

    /// The message as a string slice.
    fn as_text(&self) -> (s: &str)
        ensures
            s@ == self.text(),
    ;
}

impl Message for String {
    open spec fn text(&self) -> Seq<char> {
        self@
    }

    fn as_text(&self) -> (s: &str) {
        self.as_str()
    }
}

impl<'a> Message for &'a str {
    open spec fn text(&self) -> Seq<char> {
        self@
    }

    fn as_text(&self) -> (s: &str) {
        *self
    }
}

impl Colorizer {
    /// The policy this colorizer follows.
    pub closed spec fn policy(&self) -> ColorWhen {
        self.when
    }

    pub fn new(option: ColorizerOption) -> (r: Colorizer)
        ensures
            r.policy() == option.when,
    {
        Colorizer { when: option.when }
    }

    /// Classifies `msg` as a success, unless the policy forbids styling.
    pub fn good<T>(&self, msg: T) -> (r: Format<T>)
        ensures
            r == (if self.policy() is Never {
                Format::Plain(msg)
            } else {
                Format::Good(msg)
            }),
    {
        match self.when {
            ColorWhen::Auto => Format::Good(msg),
            ColorWhen::Always => Format::Good(msg),
            ColorWhen::Never => Format::Plain(msg),
        }
    }

    /// Classifies `msg` as a caution, unless the policy forbids styling.
    pub fn warning<T>(&self, msg: T) -> (r: Format<T>)
        ensures
            r == (if self.policy() is Never {
                Format::Plain(msg)
            } else {
                Format::Warning(msg)
            }),
    {
        match self.when {
            ColorWhen::Auto => Format::Warning(msg),
            ColorWhen::Always => Format::Warning(msg),
            ColorWhen::Never => Format::Plain(msg),
        }
    }

    /// Classifies `msg` as a failure, unless the policy forbids styling.
    pub fn error<T>(&self, msg: T) -> (r: Format<T>)
        ensures
            r == (if self.policy() is Never {
                Format::Plain(msg)
            } else {
                Format::Error(msg)
            }),
    {
        match self.when {
            ColorWhen::Auto => Format::Error(msg),
            ColorWhen::Always => Format::Error(msg),
            ColorWhen::Never => Format::Plain(msg),
        }
    }

    /// Classifies `msg` as plain text under every policy.
    pub fn none<T>(&self, msg: T) -> (r: Format<T>)
        ensures
            r == Format::Plain(msg),
    {
        Format::Plain(msg)
    }
}

impl Default for Colorizer {
    fn default() -> (r: Colorizer)
        ensures
            r.policy() is Auto,
    {
        Colorizer::new(ColorizerOption { use_stderr: true, when: ColorWhen::Auto })
    }
}

impl<T: Message> Format<T> {
    /// What a message of this class looks like once painted with `palette`.
    pub open spec fn rendered(self, palette: Palette) -> Seq<char> {
        match self {
            Format::Error(e) => Color::RedBold.code(palette) + e.text(),
            Format::Warning(e) => Color::Yellow.code(palette) + e.text(),
            Format::Good(e) => Color::Green.code(palette) + e.text(),
            Format::Plain(e) => e.text(),
        }
    }

    /// Paints the message in the colour of its class.
    pub fn format(&self, palette: &Palette) -> (r: ANSIString)
        ensures
            r@ == self.rendered(*palette),
    {
        match self {
            Format::Error(e) => Color::RedBold.paint(palette, e.as_text()),
            Format::Warning(e) => Color::Yellow.paint(palette, e.as_text()),
            Format::Good(e) => Color::Green.paint(palette, e.as_text()),
            Format::Plain(e) => ANSIString::from(e.as_text()),
        }
    }
}

} // verus!
