//! Running a command over the argument tokens of a process.
use vstd::prelude::*;
use vstd::string::*;
use crate::app::{is_word, sub_index, App};
use crate::arg::{index_long, index_named, index_short, lemma_specs_push, specs_of, Arg};
use crate::invariants::{lemma_dispatch_in_range, lemma_weight_grows};
use crate::machine::{
    dashed, double_dashed, fail, failure, finish, first_conflict, long_name, long_value, match_flag,
    match_opt, parse_from, quoted, scan, short_builtin, shown_switch, step, step_cluster, step_long,
    step_positional, step_short, weight, with_unmet, ErrorKind, Failure, Parsed, State, Step,
};
use crate::matches::{ArgMatches, Matches};
use crate::registry::{help_flag, upsert_arg, version_flag, Registry};
use crate::render::dash;
use crate::text::{
    clone_names, contains_name, find_char, insert_name, insert_names, names_of, opt_text, push_char,
    remove_name, text_of, to_chars,
};

verus! {

/// A fault, with the text that reports it.
pub struct Diagnostic {
    pub kind: ErrorKind,
    /// The sentence that names the fault.
    pub message: String,
    /// The usage block to print after the message, where one is due.
    pub usage: Option<String>,
}

impl View for Diagnostic {
    type V = Failure;

    open spec fn view(&self) -> Failure {
        Failure { kind: self.kind, message: self.message@, usage: opt_text(self.usage) }
    }
}

/// How a run ends.
pub enum Outcome {
    /// Every token was consumed and every rule was met.
    Matched(ArgMatches),
    /// The help text was asked for: print it and leave with success.
    Help(String),
    /// The version was asked for: print it and leave with success.
    Version(String),
    /// The input broke a rule: print the diagnostic and leave with failure.
    Failed(Diagnostic),
}

impl View for Outcome {
    type V = Parsed;

    open spec fn view(&self) -> Parsed {
        match self {
            Outcome::Matched(m) => Parsed::Matched(m@),
            Outcome::Help(t) => Parsed::Help(t@),
            Outcome::Version(t) => Parsed::Version(t@),
            Outcome::Failed(d) => Parsed::Failed(d@),
        }
    }
}

impl Diagnostic {
    /// What is printed for this fault: the message on a line of its own, then
    /// the usage block where one is due.
    pub open spec fn report_text(f: Failure) -> Seq<char> {
        f.message + "\n"@ + crate::render::text_or(f.usage, Seq::empty())
    }

    /// The text to print for this fault.
    pub fn report(&self) -> (r: String)
        ensures
            r@ == Self::report_text(self@),
    {
        let mut r = self.message.clone();
        r.append("\n");
        match &self.usage {
            Some(u) => r.append(u.as_str()),
            None => {
                assert(r@ + Seq::<char>::empty() =~= r@);
            },
        }
        r
    }
}

impl Parsed {
    /// The status a process leaves with: 0 after matches, help or version, 1
    /// after a fault.
    pub open spec fn exit_code(self) -> int {
        if self is Failed {
            1
        } else {
            0
        }
    }

    /// What is to be printed before the process goes on or leaves: nothing
    /// after matches, else the help text, the version line or the report of
    /// the fault.
    pub open spec fn output(self) -> Seq<char> {
        match self {
            Parsed::Matched(_) => Seq::empty(),
            Parsed::Help(t) => t,
            Parsed::Version(t) => t,
            Parsed::Failed(f) => Diagnostic::report_text(f),
        }
    }
}

impl Outcome {
    /// The status the process is to leave with.
    pub fn exit_code(&self) -> (r: i32)
        ensures
            r == self@.exit_code(),
    {
        match self {
            Outcome::Failed(_) => 1,
            _ => 0,
        }
    }

    /// The text that is to be printed.
    pub fn output(&self) -> (r: String)
        ensures
            r@ == self@.output(),
    {
        match self {
            Outcome::Matched(_) => String::new(),
            Outcome::Help(t) => t.clone(),
            Outcome::Version(t) => t.clone(),
            Outcome::Failed(d) => d.report(),
        }
    }
}

/// Whether `tokens` are few and short enough for a run to count over them:
/// one unit for each token and one for each of its characters, in all at most
/// `usize::MAX`. Tokens that are in memory together always are.
pub fn tokens_fit(tokens: &Vec<String>) -> (r: bool)
    ensures
        r == (weight(names_of(tokens@), tokens@.len() as int) <= usize::MAX),
{
    let ghost toks = names_of(tokens@);
    let mut total: usize = 0;
    let mut i: usize = 0;
    while i < tokens.len()
        invariant
            i <= tokens@.len(),
            toks == names_of(tokens@),
            total == weight(toks, i as int),
        decreases tokens@.len() - i,
    {
        let len = tokens[i].as_str().unicode_len();
        proof {
            assert(toks[i as int] == tokens@[i as int]@);
            lemma_weight_grows(toks, i + 1, tokens@.len() as int);
        }
        if len == usize::MAX || total > usize::MAX - len - 1 {
            return false;
        }
        total = total + len + 1;
        i += 1;
    }
    true
}

/// What one level knows between two tokens.
pub(crate) struct Level {
    pub(crate) matches: ArgMatches,
    pub(crate) required: Vec<String>,
    pub(crate) blacklist: Vec<String>,
    pub(crate) pos_only: bool,
    pub(crate) needs_val_of: Option<String>,
    pub(crate) pos_counter: usize,
}

impl View for Level {
    type V = State;

    closed spec fn view(&self) -> State {
        State {
            matches: self.matches@,
            required: names_of(self.required@),
            blacklist: names_of(self.blacklist@),
            pos_only: self.pos_only,
            needs_val_of: opt_text(self.needs_val_of),
            pos_counter: self.pos_counter as nat,
        }
    }
}

/// What one token does to a level.
pub(crate) enum Move {
    Next(Level),
    Dispatch(Level, usize),
    Stop(Outcome),
}

impl Move {
    /// The step this move stands for.
    pub(crate) open spec fn step(self) -> Step {
        match self {
            Move::Next(l) => Step::Next(l@),
            Move::Dispatch(_, k) => Step::Dispatch(k as int),
            Move::Stop(o) => Step::Stop(o@),
        }
    }

    /// Where the level goes on, its counts are at most `bound`; where it ends
    /// in a subcommand, it is still in the state `st`.
    pub(crate) open spec fn keeps(self, st: State, bound: int) -> bool {
        match self {
            Move::Next(l) => l@.matches.counts_within(bound),
            Move::Dispatch(l, _) => l@ == st,
            Move::Stop(_) => true,
        }
    }
}

/// Counts that are within a bound are within every greater one.
pub(crate) proof fn lemma_counts_widen(m: Matches, low: int, high: int)
    requires
        m.counts_within(low),
        low <= high,
    ensures
        m.counts_within(high),
{
}

/// A move that keeps a bound keeps every greater one.
pub(crate) proof fn lemma_keeps_widen(m: Move, st: State, low: int, high: int)
    requires
        m.keeps(st, low),
        low <= high,
    ensures
        m.keeps(st, high),
{
}

/// The three texts one after another.
fn join3(a: &str, b: &str, c: &str) -> (r: String)
    ensures
        r@ == a@ + b@ + c@,
{
    let mut r = String::from_str(a);
    r.append(b);
    r.append(c);
    r
}

/// Two dashes followed by `n`.
fn double_dash(n: &str) -> (r: String)
    ensures
        r@ == double_dashed(n@),
{
    let mut r = String::from_str("--");
    r.append(n);
    r
}

/// `n` between double quotes.
fn quote(n: &str) -> (r: String)
    ensures
        r@ == quoted(n@),
{
    join3("\"", n, "\"")
}

/// A dash followed by the character `c`.
fn dash_char(c: char) -> (r: String)
    ensures
        r@ == dashed(seq![c]),
{
    let r = dash(c);
    assert("-"@.push(c) =~= "-"@ + seq![c]);
    r
}

/// Adds to `required` each name of `deps` that `m` has not matched.
fn add_unmet(required: &mut Vec<String>, deps: &Vec<String>, m: &ArgMatches)
    ensures
        names_of(final(required)@) == with_unmet(names_of(old(required)@), names_of(deps@), m@),
{
    let mut i: usize = 0;
    while i < deps.len()
        invariant
            i <= deps@.len(),
            names_of(required@) == with_unmet(names_of(old(required)@), names_of(deps@).take(i as int), m@),
        decreases deps@.len() - i,
    {
        proof {
            assert(names_of(deps@).take(i + 1).drop_last() =~= names_of(deps@).take(i as int));
        }
        if !m.holds(&deps[i]) {
            insert_name(required, deps[i].clone());
        }
        i += 1;
    }
    proof {
        assert(names_of(deps@).take(deps@.len() as int) =~= names_of(deps@));
    }
}

impl Level {
    /// The state a level of `app` starts in.
    fn initial(app: &App) -> (r: Level)
        ensures
            r@ == State::initial(app@),
    {
        proof {
            app.lemma_view();
        }
        let r = Level {
            matches: ArgMatches::new(),
            required: clone_names(&app.required),
            blacklist: Vec::new(),
            pos_only: false,
            needs_val_of: None,
            pos_counter: 0,
        };
        assert(names_of(r.blacklist@) =~= Seq::<Seq<char>>::empty());
        r
    }

    /// Takes note of a match of `a`, `m` being the matches that now hold it.
    fn settle(self, a: &Arg, m: ArgMatches) -> (r: Level)
        ensures
            r@ == self@.settle(a@, m@),
    {
        let Level { matches: _, required, blacklist, pos_only, needs_val_of, pos_counter } = self;
        let mut blacklist = blacklist;
        insert_names(&mut blacklist, &a.blacklist);
        let mut required = remove_name(&required, &a.name);
        add_unmet(&mut required, &a.requires, &m);
        Level { matches: m, required, blacklist, pos_only, needs_val_of, pos_counter }
    }
}

impl App {
    /// The diagnostic for a fault at this level.
    fn report_error(&self, kind: ErrorKind, message: String, hint: bool) -> (r: Diagnostic)
        ensures
            r@ == failure(self@, kind, message@, hint),
    {
        let usage = if hint {
            Some(self.usage_text(true))
        } else {
            None
        };
        Diagnostic { kind, message, usage }
    }

    /// Ends the run with a fault at this level.
    fn stop(&self, kind: ErrorKind, message: String) -> (r: Move)
        ensures
            r.step() == fail(self@, kind, message@),
    {
        Move::Stop(Outcome::Failed(self.report_error(kind, message, true)))
    }

    /// Records a match of the flag `f`, which the token shows as `shown`.
    fn match_flag(&self, st: Level, f: &Arg, shown: &String, Ghost(bound): Ghost<int>) -> (r: Move)
        requires
            st@.matches.counts_within(bound),
            0 <= bound < usize::MAX,
        ensures
            r.step() == match_flag(self@, st@, f@, shown@),
            r.keeps(st@, bound + 1),
    {
        if contains_name(&st.blacklist, &f.name) {
            return self.stop(
                ErrorKind::MutuallyExclusive,
                join3(
                    "The argument ",
                    shown.as_str(),
                    " is mutually exclusive with one or more other arguments",
                ),
            );
        }
        if st.matches.flag_index(&f.name) < st.matches.flags.len() && !f.multiple {
            return self.stop(
                ErrorKind::DuplicateNotAllowed,
                join3(
                    "Argument ",
                    shown.as_str(),
                    " was supplied more than once, but does not support multiple values",
                ),
            );
        }
        let Level { matches, required, blacklist, pos_only, needs_val_of, pos_counter } = st;
        let m = matches.record_flag(&f.name, f.multiple, Ghost(bound));
        let rest = Level { matches: ArgMatches::new(), required, blacklist, pos_only, needs_val_of, pos_counter };
        Move::Next(rest.settle(f, m))
    }

    /// Records a match of the option `o`, with the value the token held if it
    /// held one.
    fn match_opt(
        &self,
        st: Level,
        o: &Arg,
        inline: Option<String>,
        shown_excluded: &String,
        shown_repeated: &String,
        Ghost(bound): Ghost<int>,
    ) -> (r: Move)
        requires
            st@.matches.counts_within(bound),
            0 <= bound < usize::MAX,
        ensures
            r.step() == match_opt(self@, st@, o@, opt_text(inline), shown_excluded@, shown_repeated@),
            r.keeps(st@, bound + 1),
    {
        if contains_name(&st.blacklist, &o.name) {
            return self.stop(
                ErrorKind::MutuallyExclusive,
                join3(
                    "The argument ",
                    shown_excluded.as_str(),
                    " is mutually exclusive with one or more other arguments",
                ),
            );
        }
        if st.matches.opt_index(&o.name) < st.matches.opts.len() && !o.multiple {
            return self.stop(
                ErrorKind::DuplicateNotAllowed,
                join3(
                    "Argument ",
                    shown_repeated.as_str(),
                    " was supplied more than once, but does not support multiple values",
                ),
            );
        }
        let Level { matches, required, blacklist, pos_only, needs_val_of, pos_counter } = st;
        let m = matches.record_opt(&o.name, &inline, Ghost(bound));
        let rest = Level { matches: ArgMatches::new(), required, blacklist, pos_only, needs_val_of, pos_counter };
        let mut next = rest.settle(o, m);
        next.needs_val_of = match inline {
            Some(_) => None,
            None => Some(o.name.clone()),
        };
        Move::Next(next)
    }

    /// Handles a token of the shape `--body`, given by its characters.
    fn parse_long_arg(&self, st: Level, chars: &Vec<char>, Ghost(bound): Ghost<int>) -> (r: Move)
        requires
            chars@.len() > 2,
            st@.matches.counts_within(bound),
            0 <= bound < usize::MAX,
        ensures
            r.step() == step_long(self@, st@, chars@.skip(2)),
            r.keeps(st@, bound + 1),
    {
        proof {
            self.lemma_view();
        }
        let ghost body = chars@.skip(2);
        let whole = text_of(chars, 2, chars.len());
        assert(whole@ =~= body);
        if is_word(&whole, "help") && self.needs_long_help {
            return Move::Stop(Outcome::Help(self.help_text()));
        }
        if is_word(&whole, "version") && self.needs_long_version {
            return Move::Stop(Outcome::Version(self.version_text()));
        }
        let eq = find_char(chars, 2, '=');
        let name = text_of(chars, 2, eq);
        assert(name@ =~= long_name(body));
        let inline = if eq < chars.len() {
            let v = text_of(chars, eq + 1, chars.len());
            assert(v@ =~= body.skip(eq - 2 + 1));
            Some(v)
        } else {
            None
        };
        assert(opt_text(inline) == long_value(body));
        let shown = double_dash(name.as_str());
        let empty_value = match &inline {
            Some(v) => v.as_str().unicode_len() == 0,
            None => false,
        };
        if empty_value {
            return self.stop(
                ErrorKind::MissingValue,
                join3("Argument ", shown.as_str(), " requires a value, but none was supplied"),
            );
        }
        let k = index_long(&self.opts, &name);
        if k < self.opts.len() {
            return self.match_opt(st, &self.opts[k], inline, &shown, &shown, Ghost(bound));
        }
        let k = index_long(&self.flags, &name);
        if k < self.flags.len() {
            return self.match_flag(st, &self.flags[k], &shown, Ghost(bound));
        }
        self.stop(ErrorKind::UnknownArgument, join3("Argument ", shown.as_str(), " isn't valid"))
    }

    /// The built-in that the short form `c` stands for, if it still does.
    fn check_for_help_and_version(&self, c: char) -> (r: Option<Outcome>)
        ensures
            match r {
                Some(o) => short_builtin(self@, c) == Some(o@),
                None => short_builtin(self@, c) is None,
            },
    {
        proof {
            self.lemma_view();
        }
        if c == 'h' && self.needs_short_help {
            Some(Outcome::Help(self.help_text()))
        } else if c == 'v' && self.needs_short_version {
            Some(Outcome::Version(self.version_text()))
        } else {
            None
        }
    }

    /// Handles one character of a cluster, or a lone short form, where it names
    /// a flag. Without such a flag the state comes back unchanged.
    fn parse_single_short_flag(&self, st: Level, c: char, Ghost(bound): Ghost<int>) -> (r: Result<Move, Level>)
        requires
            st@.matches.counts_within(bound),
            0 <= bound < usize::MAX,
        ensures
            match r {
                Ok(m) => {
                    &&& crate::arg::find_short(self@.flags, c) < self@.flags.len()
                    &&& m.step() == match_flag(
                        self@,
                        st@,
                        self@.flags[crate::arg::find_short(self@.flags, c)],
                        dashed(seq![c]),
                    )
                    &&& m.keeps(st@, bound + 1)
                },
                Err(l) => crate::arg::find_short(self@.flags, c) >= self@.flags.len() && l@ == st@,
            },
    {
        proof {
            self.lemma_view();
        }
        let k = index_short(&self.flags, c);
        if k < self.flags.len() {
            let shown = dash_char(c);
            Ok(self.match_flag(st, &self.flags[k], &shown, Ghost(bound)))
        } else {
            Err(st)
        }
    }

    /// Handles a token of the shape `-body`, given by its characters.
    fn parse_short_arg(&self, st: Level, chars: &Vec<char>, Ghost(bound): Ghost<int>) -> (r: Move)
        requires
            chars@.len() > 1,
            st@.matches.counts_within(bound),
            0 <= bound,
            bound + chars@.len() <= usize::MAX,
        ensures
            r.step() == step_short(self@, st@, chars@.skip(1)),
            r.keeps(st@, bound + chars@.len()),
    {
        proof {
            self.lemma_view();
        }
        let ghost body = chars@.skip(1);
        let ghost before = st@;
        if chars.len() > 2 {
            let mut cur = st;
            let mut i: usize = 1;
            assert(body.skip(0) =~= body);
            while i < chars.len()
                invariant
                    1 <= i <= chars@.len(),
                    chars@.len() > 2,
                    body == chars@.skip(1),
                    before == st@,
                    cur@.matches.counts_within(bound + i - 1),
                    0 <= bound,
                    bound + chars@.len() <= usize::MAX,
                    step_cluster(self@, before, body, body) == step_cluster(self@, cur@, body.skip(i - 1), body),
                decreases chars@.len() - i,
            {
                let c = chars[i];
                proof {
                    self.lemma_view();
                    assert(body.skip(i - 1)[0] == c);
                    assert(body.skip(i - 1).drop_first() =~= body.skip(i as int));
                }
                match self.check_for_help_and_version(c) {
                    Some(o) => {
                        return Move::Stop(o);
                    },
                    None => {},
                }
                match self.parse_single_short_flag(cur, c, Ghost(bound + i - 1)) {
                    Ok(Move::Next(l)) => {
                        cur = l;
                    },
                    Ok(Move::Dispatch(l, k)) => {
                        return Move::Dispatch(l, k);
                    },
                    Ok(Move::Stop(o)) => {
                        return Move::Stop(o);
                    },
                    Err(_) => {
                        let whole = text_of(chars, 1, chars.len());
                        assert(whole@ =~= body);
                        let mut shown = String::from_str("-");
                        shown.append(whole.as_str());
                        return self.stop(
                            ErrorKind::UnknownArgument,
                            join3("Argument ", shown.as_str(), " isn't valid"),
                        );
                    },
                }
                i += 1;
            }
            proof {
                lemma_counts_widen(cur@.matches, bound + i - 1, bound + chars@.len());
            }
            return Move::Next(cur);
        }
        let c = chars[1];
        assert(body[0] == c);
        match self.check_for_help_and_version(c) {
            Some(o) => {
                return Move::Stop(o);
            },
            None => {},
        }
        let st = match self.parse_single_short_flag(st, c, Ghost(bound)) {
            Ok(m) => {
                proof {
                    lemma_keeps_widen(m, before, bound + 1, bound + chars@.len());
                }
                return m;
            },
            Err(l) => l,
        };
        let k = index_short(&self.opts, c);
        if k < self.opts.len() {
            let mut shown_excluded = String::from_str("--");
            push_char(&mut shown_excluded, c);
            assert(shown_excluded@ =~= double_dashed(seq![c]));
            let shown_repeated = dash_char(c);
            let m = self.match_opt(st, &self.opts[k], None, &shown_excluded, &shown_repeated, Ghost(bound));
            proof {
                lemma_keeps_widen(m, before, bound + 1, bound + chars@.len());
            }
            return m;
        }
        let shown = dash_char(c);
        self.stop(ErrorKind::UnknownArgument, join3("Argument ", shown.as_str(), " isn't valid"))
    }

    /// Handles a token that is no switch: the name of a subcommand, or the
    /// value of the next positional slot.
    fn parse_positional(&self, st: Level, token: &String) -> (r: Move)
        ensures
            r.step() == step_positional(self@, st@, token@),
            forall|bound: int| st@.matches.counts_within(bound) ==> r.keeps(st@, bound),
    {
        proof {
            self.lemma_view();
        }
        let k = sub_index(&self.subcommands, token);
        if k < self.subcommands.len() {
            if is_word(token, "help") {
                return Move::Stop(Outcome::Help(self.help_text()));
            }
            return Move::Dispatch(st, k);
        }
        if self.positionals.len() == 0 {
            let mut message = join3("Found positional argument ", token.as_str(), ", but ");
            message.append(self.name.as_str());
            message.append(" doesn't accept any");
            return self.stop(ErrorKind::UnexpectedPositional, message);
        }
        if st.pos_counter < self.positionals.len() {
            let p = &self.positionals[st.pos_counter];
            if contains_name(&st.blacklist, &p.name) {
                let shown = quote(token.as_str());
                return self.stop(
                    ErrorKind::MutuallyExclusive,
                    join3(
                        "The argument ",
                        shown.as_str(),
                        " is mutually exclusive with one or more other arguments",
                    ),
                );
            }
            let Level { matches, required, blacklist, pos_only, needs_val_of, pos_counter } = st;
            let ghost before = matches@;
            let m = matches.record_positional(&p.name, token);
            proof {
                assert forall|bound: int| before.counts_within(bound) implies m@.counts_within(bound) by {
                    assert(m@.flags == before.flags);
                    assert(m@.opts == before.opts);
                }
            }
            let rest = Level { matches: ArgMatches::new(), required, blacklist, pos_only, needs_val_of, pos_counter };
            let mut next = rest.settle(p, m);
            next.pos_counter = pos_counter + 1;
            return Move::Next(next);
        }
        let shown = quote(token.as_str());
        let mut message = join3("Positional argument ", shown.as_str(), " was found, but ");
        message.append(self.name.as_str());
        message.append(" wasn't expecting any");
        self.stop(ErrorKind::UnexpectedPositional, message)
    }

    /// Handles one token.
    fn step(&self, st: Level, token: &String, Ghost(bound): Ghost<int>) -> (r: Move)
        requires
            st@.matches.counts_within(bound),
            0 <= bound,
            bound + token@.len() + 1 <= usize::MAX,
        ensures
            r.step() == step(self@, st@, token@),
            r.keeps(st@, bound + token@.len() + 1),
    {
        proof {
            reveal(step);
            self.lemma_view();
        }
        let ghost before = st@;
        if st.needs_val_of.is_some() && !st.pos_only {
            let Level { matches, required, blacklist, pos_only, needs_val_of, pos_counter } = st;
            let n = needs_val_of.unwrap();
            let k = index_named(&self.opts, &n);
            let multiple = k < self.opts.len() && self.opts[k].multiple;
            let m = matches.record_value(&n, multiple, token, Ghost(bound));
            proof {
                lemma_counts_widen(m@, bound + 1, bound + token@.len() + 1);
            }
            return Move::Next(Level { matches: m, required, blacklist, pos_only, needs_val_of: None, pos_counter });
        }
        if st.pos_only {
            let m = self.parse_positional(st, token);
            proof {
                lemma_keeps_widen(m, before, bound, bound + token@.len() + 1);
            }
            return m;
        }
        let chars = to_chars(token.as_str());
        let len = chars.len();
        if len == 2 && chars[0] == '-' && chars[1] == '-' {
            let mut next = st;
            next.pos_only = true;
            proof {
                lemma_counts_widen(next@.matches, bound, bound + token@.len() + 1);
            }
            return Move::Next(next);
        }
        if len > 2 && chars[0] == '-' && chars[1] == '-' {
            let m = self.parse_long_arg(st, &chars, Ghost(bound));
            proof {
                lemma_keeps_widen(m, before, bound + 1, bound + token@.len() + 1);
            }
            return m;
        }
        if len > 1 && chars[0] == '-' && chars[1] != '-' {
            let m = self.parse_short_arg(st, &chars, Ghost(bound));
            proof {
                lemma_keeps_widen(m, before, bound + token@.len(), bound + token@.len() + 1);
            }
            return m;
        }
        let m = self.parse_positional(st, token);
        proof {
            lemma_keeps_widen(m, before, bound, bound + token@.len() + 1);
        }
        m
    }

    /// How the argument named `n` is shown when it is found among `args`.
    fn shown_switch_of(args: &Vec<Arg>, n: &String) -> (r: String)
        ensures
            r@ == shown_switch(specs_of(args@), n@),
    {
        let k = index_named(args, n);
        if k < args.len() {
            match args[k].short {
                Some(c) => dash_char(c),
                None => match &args[k].long {
                    Some(l) => double_dash(l.as_str()),
                    None => quote(n.as_str()),
                },
            }
        } else {
            quote(n.as_str())
        }
    }

    /// Looks for an excluded name that was matched after all.
    fn validate_blacklist(&self, matches: &ArgMatches, blacklist: &Vec<String>) -> (r: Option<Diagnostic>)
        ensures
            crate::parse::opt_failure(r) == first_conflict(self@, matches@, names_of(blacklist@)),
    {
        proof {
            self.lemma_view();
        }
        let ghost all = names_of(blacklist@);
        let mut i: usize = 0;
        assert(all.skip(0) =~= all);
        while i < blacklist.len()
            invariant
                i <= blacklist@.len(),
                all == names_of(blacklist@),
                first_conflict(self@, matches@, all) == first_conflict(self@, matches@, all.skip(i as int)),
            decreases blacklist@.len() - i,
        {
            let name = &blacklist[i];
            proof {
                self.lemma_view();
                assert(all.skip(i as int)[0] == name@);
                assert(all.skip(i as int).drop_first() =~= all.skip(i + 1));
            }
            if matches.flag_index(name) < matches.flags.len() {
                let shown = Self::shown_switch_of(&self.flags, name);
                return Some(
                    self.report_error(
                        ErrorKind::MutuallyExclusive,
                        join3(
                            "The argument ",
                            shown.as_str(),
                            " is mutually exclusive with one or more other arguments",
                        ),
                        true,
                    ),
                );
            }
            if matches.opt_index(name) < matches.opts.len() {
                let shown = Self::shown_switch_of(&self.opts, name);
                return Some(
                    self.report_error(
                        ErrorKind::MutuallyExclusive,
                        join3(
                            "The argument ",
                            shown.as_str(),
                            " is mutually exclusive with one or more other arguments",
                        ),
                        true,
                    ),
                );
            }
            if matches.positional_index(name) < matches.positionals.len() {
                let shown = quote(name.as_str());
                return Some(
                    self.report_error(
                        ErrorKind::MutuallyExclusive,
                        join3(
                            "The argument ",
                            shown.as_str(),
                            " is mutually exclusive with one or more other arguments",
                        ),
                        false,
                    ),
                );
            }
            i += 1;
        }
        None
    }

    /// Checks the rules that hold at the end of a level.
    fn finish(&self, st: &Level) -> (r: Option<Diagnostic>)
        ensures
            opt_failure(r) == finish(self@, st@),
    {
        match &st.needs_val_of {
            Some(n) => {
                let shown = quote(n.as_str());
                return Some(
                    self.report_error(
                        ErrorKind::MissingValue,
                        join3("Argument ", shown.as_str(), " requires a value but none was supplied"),
                        true,
                    ),
                );
            },
            None => {},
        }
        if st.required.len() > 0 {
            return Some(
                self.report_error(
                    ErrorKind::MissingRequired,
                    String::from_str("One or more required arguments were not supplied"),
                    true,
                ),
            );
        }
        self.validate_blacklist(&st.matches, &st.blacklist)
    }

    /// Lists the built-in help and version flags, and supplies the `help`
    /// subcommand, each unless the declarations have claimed its place.
    fn create_help_and_version(self) -> (r: App)
        ensures
            r@ == self@.with_builtins(),
    {
        let ghost before = self@;
        proof {
            self.lemma_view();
        }
        let mut r = self;
        if r.needs_long_help {
            let flag = Arg {
                name: String::from_str("builtin_help"),
                short: if r.needs_short_help {
                    Some('h')
                } else {
                    None
                },
                long: Some(String::from_str("help")),
                help: Some(String::from_str("Prints this message")),
                required: false,
                takes_value: false,
                multiple: false,
                index: None,
                blacklist: Vec::new(),
                requires: Vec::new(),
            };
            assert(flag@.blacklist =~= Seq::empty());
            assert(flag@.requires =~= Seq::empty());
            assert(flag@ == help_flag(before.needs_short_help));
            upsert_flag(&mut r.flags, flag);
        }
        if r.needs_long_version {
            let flag = Arg {
                name: String::from_str("builtin_version"),
                short: if r.needs_short_version {
                    Some('v')
                } else {
                    None
                },
                long: Some(String::from_str("version")),
                help: Some(String::from_str("Prints version information")),
                required: false,
                takes_value: false,
                multiple: false,
                index: None,
                blacklist: Vec::new(),
                requires: Vec::new(),
            };
            assert(flag@.blacklist =~= Seq::empty());
            assert(flag@.requires =~= Seq::empty());
            assert(flag@ == version_flag(before.needs_short_version));
            upsert_flag(&mut r.flags, flag);
        }
        if r.needs_subcmd_help && r.subcommands.len() > 0 {
            let help = App::new("help").about("Prints this message");
            crate::app::upsert_subcommand(&mut r.subcommands, help);
        }
        proof {
            r.lemma_view();
        }
        r
    }

    /// Runs this command over `tokens` from position `start` on.
    ///
    /// The tokens must be few and short enough to count over, as tokens that
    /// are in memory together always are: `tokens_fit` tells.
    pub fn get_matches_from(self, tokens: &Vec<String>, start: usize) -> (r: Outcome)
        requires
            weight(names_of(tokens@), tokens@.len() as int) <= usize::MAX,
        ensures
            r@ == parse_from(self@, names_of(tokens@), start as int),
        decreases tokens@.len() - start,
    {
        let ghost toks = names_of(tokens@);
        let app = self.create_help_and_version();
        let mut st = Level::initial(&app);
        let mut i: usize = start;
        proof {
            if start <= tokens@.len() {
                lemma_weight_grows(toks, start as int, tokens@.len() as int);
            }
        }
        while i < tokens.len()
            invariant
                start <= i,
                i <= tokens@.len() || i == start,
                toks == names_of(tokens@),
                app@ == self@.with_builtins(),
                scan(app@, State::initial(app@), toks, start as int) == scan(app@, st@, toks, i as int),
                i <= tokens@.len() ==> st@.matches.counts_within(weight(toks, i as int)),
                i <= tokens@.len() ==> 0 <= weight(toks, i as int),
                weight(toks, tokens@.len() as int) <= usize::MAX,
            decreases tokens@.len() - i,
        {
            proof {
                lemma_weight_grows(toks, i + 1, tokens@.len() as int);
                lemma_weight_grows(toks, i as int, i + 1);
                assert(toks[i as int] == tokens@[i as int]@);
                lemma_dispatch_in_range(app@, st@, toks[i as int]);
            }
            match app.step(st, &tokens[i], Ghost(weight(toks, i as int))) {
                Move::Next(l) => {
                    st = l;
                },
                Move::Stop(o) => {
                    return o;
                },
                Move::Dispatch(l, k) => {
                    match app.finish(&l) {
                        Some(d) => {
                            return Outcome::Failed(d);
                        },
                        None => {},
                    }
                    proof {
                        app.lemma_view();
                    }
                    let mut app = app;
                    let sub = app.subcommands.remove(k);
                    proof {
                        sub.lemma_view();
                    }
                    let name = sub.name.clone();
                    return match sub.get_matches_from(tokens, i + 1) {
                        Outcome::Matched(m) => Outcome::Matched(l.matches.attach(name, m)),
                        other => other,
                    };
                },
            }
            i += 1;
        }
        match app.finish(&st) {
            Some(d) => Outcome::Failed(d),
            None => Outcome::Matched(st.matches),
        }
    }
}

impl Registry {
    /// The registry that knows the running program by the file name `b`, where
    /// one could be read off its path.
    pub open spec fn with_bin_name(self, b: Option<Seq<char>>) -> Registry {
        match b {
            Some(n) => Registry { bin_name: Some(n), ..self },
            None => self,
        }
    }
}

/// The final component of `path`, as `std::path::Path::file_name` finds it, where
/// there is one and it is valid Unicode. What counts as a component depends on
/// the platform, so nothing is claimed of the result.
#[verifier::external_body]
fn file_name_of(path: &String) -> (r: Option<String>) {
    match std::path::Path::new(path.as_str()).file_name() {
        Some(name) => match name.to_str() {
            Some(text) => Some(text.to_string()),
            None => None,
        },
        None => None,
    }
}

impl App {
    /// Runs this command over the tokens of `args` that follow the program's
    /// path, showing the program in usage text under the name `bin_name` where
    /// there is one.
    pub fn get_matches_named(self, bin_name: Option<String>, args: &Vec<String>) -> (r: Outcome)
        requires
            weight(names_of(args@), args@.len() as int) <= usize::MAX,
        ensures
            r@ == parse_from(
                self@.with_bin_name(opt_text(bin_name)),
                names_of(args@),
                if args@.len() == 0 {
                    0
                } else {
                    1
                },
            ),
    {
        proof {
            self.lemma_view();
        }
        let mut app = self;
        match bin_name {
            Some(b) => {
                app.bin_name = Some(b);
            },
            None => {},
        }
        proof {
            app.lemma_view();
        }
        if args.len() == 0 {
            app.get_matches_from(args, 0)
        } else {
            app.get_matches_from(args, 1)
        }
    }

    /// Runs this command over the arguments of a process: the program's path,
    /// then the tokens. The path only serves to name the program in usage
    /// text, by its file name where the platform finds one.
    pub fn get_matches(self, args: Vec<String>) -> (r: Outcome)
        requires
            weight(names_of(args@), args@.len() as int) <= usize::MAX,
        ensures
            args@.len() == 0 ==> r@ == parse_from(self@, names_of(args@), 0),
            args@.len() > 0 ==> exists|b: Option<Seq<char>>|
                r@ == parse_from(#[trigger] self@.with_bin_name(b), names_of(args@), 1),
    {
        if args.len() == 0 {
            self.get_matches_named(None, &args)
        } else {
            let bin_name = file_name_of(&args[0]);
            let ghost b = opt_text(bin_name);
            let ghost before = self@;
            let r = self.get_matches_named(bin_name, &args);
            assert(r@ == parse_from(before.with_bin_name(b), names_of(args@), 1));
            r
        }
    }
}

/// The fault a diagnostic stands for, if there is one.
pub open spec fn opt_failure(d: Option<Diagnostic>) -> Option<Failure> {
    match d {
        Some(d) => Some(d@),
        None => None,
    }
}

/// Puts `flag` in place of the flag of the same name, or at the end.
fn upsert_flag(flags: &mut Vec<Arg>, flag: Arg)
    ensures
        specs_of(final(flags)@) == upsert_arg(specs_of(old(flags)@), flag@),
{
    let k = index_named(flags, &flag.name);
    if k < flags.len() {
        flags.remove(k);
        flags.insert(k, flag);
        assert(specs_of(flags@) =~= upsert_arg(specs_of(old(flags)@), flag@));
    } else {
        proof {
            lemma_specs_push(flags@, flag);
        }
        flags.push(flag);
    }
}

} // verus!
