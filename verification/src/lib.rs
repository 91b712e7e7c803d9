//! Declarative command-line argument definitions and a verified matcher.
//!
//! A registry of flags, options, positional arguments and subcommands is
//! assembled once, then run over the argument tokens of a process. The run is a
//! pure function from tokens to an outcome: a tree of matches, a request to
//! show help or version text, or a diagnostic.
//!
//! ```ignore
//! let app = App::new("myprog")
//!     .version("1.0.2")
//!     .arg(Arg::new("config").short('c').long("config"))
//!     .arg(Arg::new("name").short('n').long("name").takes_value(true))
//!     .arg(Arg::new("input").index(1));
//! match app.get_matches_from(&tokens, 0) {
//!     Outcome::Matched(m) => assert_eq!(m.value_of("name"), Some("bob")),
//!     ended => print!("{}", ended.output()),
//! }
//! ```
//!
//! The modules, from the ground up: `text` holds owned text and name lists;
//! `arg` the description of one argument; `registry` what may be declared and
//! `app` the command that is assembled from it; `render` the texts a command
//! shows; `matches` what a run records; `machine` the run as a function on
//! plain values and `parse` the code that computes it; `soundness`,
//! `invariants` and `laws` what is proved of registries and of runs; `fmt`
//! the semantic classes of printed messages.

pub mod app;
pub mod arg;
pub mod fmt;
pub mod invariants;
pub mod laws;
pub mod machine;
pub mod matches;
pub mod parse;
pub mod registry;
pub mod render;
pub mod soundness;
pub mod text;

pub use app::App;
pub use arg::Arg;
pub use fmt::{ANSIString, Color, ColorWhen, Colorizer, ColorizerOption, Format, Message, Palette};
pub use machine::ErrorKind;
pub use matches::{ArgMatches, FlagArg, OptArg, PosArg, SubCommand};
pub use parse::{Diagnostic, Outcome};
pub use registry::DefinitionError;
