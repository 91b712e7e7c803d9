//! The matching state machine, as a function from tokens to an outcome.
//!
//! A level starts in the normal state. Each token moves it on: a token that
//! follows an option waiting for its value is that value; a bare `--` makes
//! every later token a positional; `--word` and `-c` name options and flags;
//! any other token names a subcommand or fills the next positional slot.
use vstd::prelude::*;
use crate::arg::{find_long, find_named, find_short, ArgSpec};
use crate::matches::Matches;
use crate::registry::{find_sub, Registry};
use crate::text::{first_index_of, with_name, with_names, without_name};

verus! {

/// The kinds of fault a run can end with.
#[derive(Debug, Copy, Clone, PartialEq, Eq, Structural)]
pub enum ErrorKind {
    /// A token names no declared flag or option.
    UnknownArgument,
    /// An option was named and no value came with it.
    MissingValue,
    /// An argument that may occur once was given again.
    DuplicateNotAllowed,
    /// The input ended with a required argument still missing.
    MissingRequired,
    /// Two arguments were given that exclude each other.
    MutuallyExclusive,
    /// A positional was given that no slot is left for.
    UnexpectedPositional,
}

/// A fault, with the text that reports it.
pub struct Failure {
    pub kind: ErrorKind,
    /// The sentence that names the fault.
    pub message: Seq<char>,
    /// The usage block to print after the message, where one is due.
    pub usage: Option<Seq<char>>,
}

/// How a run ends.
pub enum Parsed {
    /// Every token was consumed and every rule was met.
    Matched(Matches),
    /// The help text was asked for: print it and stop.
    Help(Seq<char>),
    /// The version was asked for: print it and stop.
    Version(Seq<char>),
    /// The input broke a rule: print the diagnostic and stop.
    Failed(Failure),
}

/// What one level knows between two tokens.
pub struct State {
    /// What was matched so far.
    pub matches: Matches,
    /// The names still to be matched before the level ends.
    pub required: Seq<Seq<char>>,
    /// The names excluded by what was matched so far.
    pub blacklist: Seq<Seq<char>>,
    /// Whether a bare `--` was seen.
    pub pos_only: bool,
    /// The option that waits for its value.
    pub needs_val_of: Option<Seq<char>>,
    /// How many positional slots are filled.
    pub pos_counter: nat,
}

/// What one token does to a level.
pub enum Step {
    /// The token was consumed; the level goes on in this state.
    Next(State),
    /// The token names the subcommand with this index: the level ends here.
    Dispatch(int),
    /// The run ends here.
    Stop(Parsed),
}

/// How the scan of one level ends.
pub enum Scan {
    /// The tokens ran out in this state.
    Done(State),
    /// In this state a token named the subcommand with this index; the tokens
    /// from the given position on are its own.
    Dispatch(State, int, int),
    /// The run ends here.
    Stop(Parsed),
}

pub open spec fn double_dashed(n: Seq<char>) -> Seq<char> {
    "--"@ + n
}

pub open spec fn dashed(n: Seq<char>) -> Seq<char> {
    "-"@ + n
}

pub open spec fn quoted(n: Seq<char>) -> Seq<char> {
    "\""@ + n + "\""@
}

pub open spec fn msg_not_valid(shown: Seq<char>) -> Seq<char> {
    "Argument "@ + shown + " isn't valid"@
}

pub open spec fn msg_exclusive(shown: Seq<char>) -> Seq<char> {
    "The argument "@ + shown + " is mutually exclusive with one or more other arguments"@
}

pub open spec fn msg_repeated(shown: Seq<char>) -> Seq<char> {
    "Argument "@ + shown + " was supplied more than once, but does not support multiple values"@
}

pub open spec fn msg_empty_value(shown: Seq<char>) -> Seq<char> {
    "Argument "@ + shown + " requires a value, but none was supplied"@
}

pub open spec fn msg_no_value(name: Seq<char>) -> Seq<char> {
    "Argument "@ + quoted(name) + " requires a value but none was supplied"@
}

pub open spec fn msg_required() -> Seq<char> {
    "One or more required arguments were not supplied"@
}

pub open spec fn msg_no_positionals(token: Seq<char>, app: Seq<char>) -> Seq<char> {
    "Found positional argument "@ + token + ", but "@ + app + " doesn't accept any"@
}

pub open spec fn msg_extra_positional(token: Seq<char>, app: Seq<char>) -> Seq<char> {
    "Positional argument "@ + quoted(token) + " was found, but "@ + app + " wasn't expecting any"@
}

/// The fault of kind `kind` at the level of `r`, followed by the usage block
/// where `hint` says so.
pub open spec fn failure(r: Registry, kind: ErrorKind, message: Seq<char>, hint: bool) -> Failure {
    Failure {
        kind,
        message,
        usage: if hint {
            Some(r.usage_text(true))
        } else {
            None
        },
    }
}

pub open spec fn fail(r: Registry, kind: ErrorKind, message: Seq<char>) -> Step {
    Step::Stop(Parsed::Failed(failure(r, kind, message, true)))
}

/// `required` with each name of `deps` that `m` has not matched, added once.
pub open spec fn with_unmet(required: Seq<Seq<char>>, deps: Seq<Seq<char>>, m: Matches) -> Seq<Seq<char>>
    decreases deps.len(),
{
    if deps.len() == 0 {
        required
    } else {
        let before = with_unmet(required, deps.drop_last(), m);
        if m.is_present(deps.last()) {
            before
        } else {
            with_name(before, deps.last())
        }
    }
}

impl State {
    /// The state a level starts in.
    pub open spec fn initial(r: Registry) -> State {
        State {
            matches: Matches::empty(),
            required: r.required,
            blacklist: Seq::empty(),
            pos_only: false,
            needs_val_of: None,
            pos_counter: 0,
        }
    }

    /// What a match of `a` leaves behind, `m` being the matches that now hold
    /// it: the names `a` excludes are excluded from here on, `a` itself is no
    /// longer missing, and what it depends on is, unless already matched.
    pub open spec fn settle(self, a: ArgSpec, m: Matches) -> State {
        State {
            matches: m,
            blacklist: with_names(self.blacklist, a.blacklist),
            required: with_unmet(without_name(self.required, a.name), a.requires, m),
            ..self
        }
    }
}

/// A match of the flag `f`, which the token shows as `shown`.
pub open spec fn match_flag(r: Registry, st: State, f: ArgSpec, shown: Seq<char>) -> Step {
    if st.blacklist.contains(f.name) {
        fail(r, ErrorKind::MutuallyExclusive, msg_exclusive(shown))
    } else if st.matches.has_flag(f.name) && !f.multiple {
        fail(r, ErrorKind::DuplicateNotAllowed, msg_repeated(shown))
    } else {
        Step::Next(st.settle(f, st.matches.with_flag(f.name, f.multiple)))
    }
}

/// A match of the option `o` with the value `inline`, if the token held one;
/// without one the option waits for the next token.
pub open spec fn match_opt(
    r: Registry,
    st: State,
    o: ArgSpec,
    inline: Option<Seq<char>>,
    shown_excluded: Seq<char>,
    shown_repeated: Seq<char>,
) -> Step {
    if st.blacklist.contains(o.name) {
        fail(r, ErrorKind::MutuallyExclusive, msg_exclusive(shown_excluded))
    } else if st.matches.has_opt(o.name) && !o.multiple {
        fail(r, ErrorKind::DuplicateNotAllowed, msg_repeated(shown_repeated))
    } else {
        Step::Next(
            State {
                needs_val_of: if inline is None {
                    Some(o.name)
                } else {
                    None
                },
                ..st.settle(o, st.matches.with_opt(o.name, inline))
            },
        )
    }
}

/// The name part of a long token's body: what stands before the first `=`.
pub open spec fn long_name(body: Seq<char>) -> Seq<char> {
    body.take(first_index_of(body, '='))
}

/// The value part of a long token's body: what stands after the first `=`.
pub open spec fn long_value(body: Seq<char>) -> Option<Seq<char>> {
    let k = first_index_of(body, '=');
    if k < body.len() {
        Some(body.skip(k + 1))
    } else {
        None
    }
}

/// A token `--body`.
pub open spec fn step_long(r: Registry, st: State, body: Seq<char>) -> Step {
    if body == "help"@ && r.needs_long_help {
        Step::Stop(Parsed::Help(r.help_text()))
    } else if body == "version"@ && r.needs_long_version {
        Step::Stop(Parsed::Version(r.version_text()))
    } else {
        let name = long_name(body);
        let inline = long_value(body);
        let shown = double_dashed(name);
        if inline is Some && inline->0.len() == 0 {
            fail(r, ErrorKind::MissingValue, msg_empty_value(shown))
        } else if find_long(r.opts, name) < r.opts.len() {
            match_opt(r, st, r.opts[find_long(r.opts, name)], inline, shown, shown)
        } else if find_long(r.flags, name) < r.flags.len() {
            match_flag(r, st, r.flags[find_long(r.flags, name)], shown)
        } else {
            fail(r, ErrorKind::UnknownArgument, msg_not_valid(shown))
        }
    }
}

/// The built-in that the short form `c` stands for, if it still does.
pub open spec fn short_builtin(r: Registry, c: char) -> Option<Parsed> {
    if c == 'h' && r.needs_short_help {
        Some(Parsed::Help(r.help_text()))
    } else if c == 'v' && r.needs_short_version {
        Some(Parsed::Version(r.version_text()))
    } else {
        None
    }
}

/// The characters `rest` of the cluster `-whole`, each of which has to be a flag.
pub open spec fn step_cluster(r: Registry, st: State, rest: Seq<char>, whole: Seq<char>) -> Step
    decreases rest.len(),
{
    if rest.len() == 0 {
        Step::Next(st)
    } else {
        let c = rest[0];
        match short_builtin(r, c) {
            Some(p) => Step::Stop(p),
            None => {
                let k = find_short(r.flags, c);
                if k < r.flags.len() {
                    match match_flag(r, st, r.flags[k], dashed(seq![c])) {
                        Step::Next(st1) => step_cluster(r, st1, rest.drop_first(), whole),
                        other => other,
                    }
                } else {
                    fail(r, ErrorKind::UnknownArgument, msg_not_valid(dashed(whole)))
                }
            },
        }
    }
}

/// A token `-body`: one character names a flag or an option, several name flags.
pub open spec fn step_short(r: Registry, st: State, body: Seq<char>) -> Step {
    if body.len() > 1 {
        step_cluster(r, st, body, body)
    } else {
        let c = body[0];
        match short_builtin(r, c) {
            Some(p) => Step::Stop(p),
            None => {
                if find_short(r.flags, c) < r.flags.len() {
                    match_flag(r, st, r.flags[find_short(r.flags, c)], dashed(seq![c]))
                } else if find_short(r.opts, c) < r.opts.len() {
                    match_opt(
                        r,
                        st,
                        r.opts[find_short(r.opts, c)],
                        None,
                        double_dashed(seq![c]),
                        dashed(seq![c]),
                    )
                } else {
                    fail(r, ErrorKind::UnknownArgument, msg_not_valid(dashed(seq![c])))
                }
            },
        }
    }
}

/// A token that is no switch: the name of a subcommand, or the value of the
/// next positional slot in ascending order of index.
pub open spec fn step_positional(r: Registry, st: State, t: Seq<char>) -> Step {
    let k = find_sub(r.subcommands, t);
    if k < r.subcommands.len() {
        if t == "help"@ {
            Step::Stop(Parsed::Help(r.help_text()))
        } else {
            Step::Dispatch(k)
        }
    } else if r.positionals.len() == 0 {
        fail(r, ErrorKind::UnexpectedPositional, msg_no_positionals(t, r.name))
    } else if st.pos_counter < r.positionals.len() {
        let p = r.positionals[st.pos_counter as int];
        if st.blacklist.contains(p.name) {
            fail(r, ErrorKind::MutuallyExclusive, msg_exclusive(quoted(t)))
        } else {
            Step::Next(
                State {
                    pos_counter: st.pos_counter + 1,
                    ..st.settle(p, st.matches.with_positional(p.name, t))
                },
            )
        }
    } else {
        fail(r, ErrorKind::UnexpectedPositional, msg_extra_positional(t, r.name))
    }
}

/// Whether the option named `n` may occur more than once.
pub open spec fn may_repeat(opts: Seq<ArgSpec>, n: Seq<char>) -> bool {
    find_named(opts, n) < opts.len() && opts[find_named(opts, n)].multiple
}

/// Whether `t` is the bare separator.
pub open spec fn is_separator(t: Seq<char>) -> bool {
    t.len() == 2 && t[0] == '-' && t[1] == '-'
}

/// Whether `t` has the shape of a long switch.
pub open spec fn is_long(t: Seq<char>) -> bool {
    t.len() > 2 && t[0] == '-' && t[1] == '-'
}

/// Whether `t` has the shape of a short switch or of a cluster.
pub open spec fn is_short(t: Seq<char>) -> bool {
    t.len() > 1 && t[0] == '-' && t[1] != '-'
}

/// What the token `t` does to a level in state `st`.
#[verifier::opaque]
pub open spec fn step(r: Registry, st: State, t: Seq<char>) -> Step {
    if st.needs_val_of is Some && !st.pos_only {
        let n = st.needs_val_of->0;
        Step::Next(State { matches: st.matches.with_value(n, may_repeat(r.opts, n), t), needs_val_of: None, ..st })
    } else if st.pos_only {
        step_positional(r, st, t)
    } else if is_separator(t) {
        Step::Next(State { pos_only: true, ..st })
    } else if is_long(t) {
        step_long(r, st, t.skip(2))
    } else if is_short(t) {
        step_short(r, st, t.skip(1))
    } else {
        step_positional(r, st, t)
    }
}

/// How an argument found under `n` is shown: by its short form, else by its
/// long form, else by its quoted name.
pub open spec fn shown_switch(args: Seq<ArgSpec>, n: Seq<char>) -> Seq<char> {
    let k = find_named(args, n);
    if k < args.len() {
        match args[k].short {
            Some(c) => dashed(seq![c]),
            None => match args[k].long {
                Some(l) => double_dashed(l),
                None => quoted(n),
            },
        }
    } else {
        quoted(n)
    }
}

/// The first excluded name, in the order of exclusion, that was matched after all.
pub open spec fn first_conflict(r: Registry, m: Matches, excluded: Seq<Seq<char>>) -> Option<Failure>
    decreases excluded.len(),
{
    if excluded.len() == 0 {
        None
    } else {
        let n = excluded[0];
        if m.has_flag(n) {
            Some(failure(r, ErrorKind::MutuallyExclusive, msg_exclusive(shown_switch(r.flags, n)), true))
        } else if m.has_opt(n) {
            Some(failure(r, ErrorKind::MutuallyExclusive, msg_exclusive(shown_switch(r.opts, n)), true))
        } else if m.has_positional(n) {
            Some(failure(r, ErrorKind::MutuallyExclusive, msg_exclusive(quoted(n)), false))
        } else {
            first_conflict(r, m, excluded.drop_first())
        }
    }
}

/// The fault a level ends with, if any: an option still waiting for its value,
/// a required name still missing, or an excluded name that was matched.
pub open spec fn finish(r: Registry, st: State) -> Option<Failure> {
    if st.needs_val_of is Some {
        Some(failure(r, ErrorKind::MissingValue, msg_no_value(st.needs_val_of->0), true))
    } else if st.required.len() > 0 {
        Some(failure(r, ErrorKind::MissingRequired, msg_required(), true))
    } else {
        first_conflict(r, st.matches, st.blacklist)
    }
}

/// The scan of `tokens` from position `i` on, at the level of `r`, from state `st`.
pub open spec fn scan(r: Registry, st: State, tokens: Seq<Seq<char>>, i: int) -> Scan
    decreases tokens.len() - i,
{
    if i < 0 || i >= tokens.len() {
        Scan::Done(st)
    } else {
        match step(r, st, tokens[i]) {
            Step::Next(st1) => scan(r, st1, tokens, i + 1),
            Step::Dispatch(k) => Scan::Dispatch(st, k, i + 1),
            Step::Stop(p) => Scan::Stop(p),
        }
    }
}

/// The outcome of running `reg` over `tokens` from position `start` on.
///
/// The level is scanned to its end, which is the end of the tokens or the name
/// of a subcommand. Then the level's own rules are checked. Then the rest of
/// the tokens is the subcommand's, and its matches hang below this level's.
pub open spec fn parse_from(reg: Registry, tokens: Seq<Seq<char>>, start: int) -> Parsed
    decreases tokens.len() - start,
{
    let r = reg.with_builtins();
    match scan(r, State::initial(r), tokens, start) {
        Scan::Stop(p) => p,
        Scan::Done(st) => match finish(r, st) {
            Some(f) => Parsed::Failed(f),
            None => Parsed::Matched(st.matches),
        },
        Scan::Dispatch(st, k, next) => match finish(r, st) {
            Some(f) => Parsed::Failed(f),
            None => {
                if start < next <= tokens.len() && 0 <= k < r.subcommands.len() {
                    let sub = r.subcommands[k];
                    match parse_from(sub, tokens, next) {
                        Parsed::Matched(m) => Parsed::Matched(st.matches.with_subcommand(sub.name, m)),
                        other => other,
                    }
                } else {
                    Parsed::Matched(st.matches)
                }
            },
        },
    }
}

/// The outcome of running `reg` over all of `tokens`.
pub open spec fn parse(reg: Registry, tokens: Seq<Seq<char>>) -> Parsed {
    parse_from(reg, tokens, 0)
}

/// What the tokens before position `i` weigh: one for each token and one for
/// each of its characters. No count a run records exceeds this.
pub open spec fn weight(tokens: Seq<Seq<char>>, i: int) -> int
    decreases i,
{
    if i <= 0 {
        0
    } else {
        weight(tokens, i - 1) + tokens[i - 1].len() + 1
    }
}

} // verus!
