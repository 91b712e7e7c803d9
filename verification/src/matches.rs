//! The result of a run: what was matched, how often, and with which values.
use vstd::prelude::*;
use vstd::string::*;
use crate::text::{first_index_of, lemma_first_index_is, lemma_first_index_of, names_of};

verus! {

/// A matched flag.
pub struct FlagMatch {
    pub name: Seq<char>,
    pub occurrences: nat,
}

/// A matched option with the values it was given, in token order.
pub struct OptMatch {
    pub name: Seq<char>,
    pub occurrences: nat,
    pub values: Seq<Seq<char>>,
}

/// A filled positional slot.
pub struct PosMatch {
    pub name: Seq<char>,
    pub value: Seq<char>,
}

/// The matches of a subcommand, under its name.
pub struct SubMatch {
    pub name: Seq<char>,
    pub matches: Matches,
}

/// The matches of one level, as plain values. Within each of the three lists no
/// name occurs twice, and entries stand in the order of their first match.
pub struct Matches {
    pub flags: Seq<FlagMatch>,
    pub opts: Seq<OptMatch>,
    pub positionals: Seq<PosMatch>,
    pub subcommand: Option<Box<SubMatch>>,
}

impl Matches {
    pub open spec fn empty() -> Matches {
        Matches {
            flags: Seq::empty(),
            opts: Seq::empty(),
            positionals: Seq::empty(),
            subcommand: None,
        }
    }

    pub open spec fn flag_names(self) -> Seq<Seq<char>> {
        self.flags.map_values(|f: FlagMatch| f.name)
    }

    pub open spec fn opt_names(self) -> Seq<Seq<char>> {
        self.opts.map_values(|o: OptMatch| o.name)
    }

    pub open spec fn positional_names(self) -> Seq<Seq<char>> {
        self.positionals.map_values(|p: PosMatch| p.name)
    }

    /// Where the flag `n` is recorded, or the number of recorded flags.
    pub open spec fn flag_at(self, n: Seq<char>) -> int {
        first_index_of(self.flag_names(), n)
    }

    /// Where the option `n` is recorded, or the number of recorded options.
    pub open spec fn opt_at(self, n: Seq<char>) -> int {
        first_index_of(self.opt_names(), n)
    }

    /// Where the positional `n` is recorded, or the number of recorded positionals.
    pub open spec fn positional_at(self, n: Seq<char>) -> int {
        first_index_of(self.positional_names(), n)
    }

    pub open spec fn has_flag(self, n: Seq<char>) -> bool {
        self.flag_at(n) < self.flags.len()
    }

    pub open spec fn has_opt(self, n: Seq<char>) -> bool {
        self.opt_at(n) < self.opts.len()
    }

    pub open spec fn has_positional(self, n: Seq<char>) -> bool {
        self.positional_at(n) < self.positionals.len()
    }

    /// Whether anything was matched under the name `n`.
    pub open spec fn is_present(self, n: Seq<char>) -> bool {
        self.has_flag(n) || self.has_opt(n) || self.has_positional(n)
    }

    /// How often the flag `n` was counted: 0 when it was never matched.
    pub open spec fn flag_count(self, n: Seq<char>) -> nat {
        if self.has_flag(n) {
            self.flags[self.flag_at(n)].occurrences
        } else {
            0
        }
    }

    /// How often `n` was counted: 0 when it was never matched.
    pub open spec fn occurrences_of(self, n: Seq<char>) -> nat {
        if self.has_flag(n) {
            self.flag_count(n)
        } else if self.has_opt(n) {
            self.opts[self.opt_at(n)].occurrences
        } else if self.has_positional(n) {
            1
        } else {
            0
        }
    }

    /// The values recorded for the option `n`, in token order.
    pub open spec fn values_of(self, n: Seq<char>) -> Seq<Seq<char>> {
        if self.has_opt(n) {
            self.opts[self.opt_at(n)].values
        } else {
            Seq::empty()
        }
    }

    /// The value the positional `n` was filled with.
    pub open spec fn positional_value(self, n: Seq<char>) -> Option<Seq<char>> {
        if self.has_positional(n) {
            Some(self.positionals[self.positional_at(n)].value)
        } else {
            None
        }
    }

    /// The first value of the option `n`, or the value of the positional `n`.
    pub open spec fn value_of(self, n: Seq<char>) -> Option<Seq<char>> {
        if self.has_opt(n) && self.values_of(n).len() > 0 {
            Some(self.values_of(n)[0])
        } else {
            self.positional_value(n)
        }
    }

    /// Whether no name is recorded twice among the flags, none among the
    /// options and none among the positionals.
    pub open spec fn distinct(self) -> bool {
        &&& self.flag_names().no_duplicates()
        &&& self.opt_names().no_duplicates()
        &&& self.positional_names().no_duplicates()
    }

    /// Whether a match of the argument `a` is recorded, among those of its kind.
    pub open spec fn records(self, a: crate::arg::ArgSpec) -> bool {
        if a.is_positional() {
            self.has_positional(a.name)
        } else if a.is_option() {
            self.has_opt(a.name)
        } else {
            self.has_flag(a.name)
        }
    }

    /// Every count recorded so far is at most `bound`.
    pub open spec fn counts_within(self, bound: int) -> bool {
        &&& forall|i: int| 0 <= i < self.flags.len() ==> (#[trigger] self.flags[i]).occurrences <= bound
        &&& forall|i: int| 0 <= i < self.opts.len() ==> (#[trigger] self.opts[i]).occurrences <= bound
    }

    /// One more occurrence of the flag `n`: counted up where it may repeat, else
    /// counted as one.
    pub open spec fn with_flag(self, n: Seq<char>, multiple: bool) -> Matches {
        let i = self.flag_at(n);
        if i < self.flags.len() {
            let seen = self.flags[i].occurrences;
            Matches {
                flags: self.flags.update(
                    i,
                    FlagMatch { name: self.flags[i].name, occurrences: if multiple { seen + 1 } else { 1 } },
                ),
                ..self
            }
        } else {
            Matches { flags: self.flags.push(FlagMatch { name: n, occurrences: 1 }), ..self }
        }
    }

    /// The option `n` was named, with the value `inline` where the token held one.
    /// A first naming records it once; a later one counts only when it brings a value.
    pub open spec fn with_opt(self, n: Seq<char>, inline: Option<Seq<char>>) -> Matches {
        let i = self.opt_at(n);
        if i < self.opts.len() {
            match inline {
                Some(v) => Matches {
                    opts: self.opts.update(
                        i,
                        OptMatch {
                            name: self.opts[i].name,
                            occurrences: self.opts[i].occurrences + 1,
                            values: self.opts[i].values.push(v),
                        },
                    ),
                    ..self
                },
                None => self,
            }
        } else {
            Matches {
                opts: self.opts.push(
                    OptMatch {
                        name: n,
                        occurrences: 1,
                        values: match inline {
                            Some(v) => seq![v],
                            None => Seq::empty(),
                        },
                    },
                ),
                ..self
            }
        }
    }

    /// The token `v` became the value the option `n` was waiting for.
    pub open spec fn with_value(self, n: Seq<char>, multiple: bool, v: Seq<char>) -> Matches {
        let i = self.opt_at(n);
        if i < self.opts.len() {
            let seen = self.opts[i].occurrences;
            Matches {
                opts: self.opts.update(
                    i,
                    OptMatch {
                        name: self.opts[i].name,
                        occurrences: if multiple { seen + 1 } else { 1 },
                        values: self.opts[i].values.push(v),
                    },
                ),
                ..self
            }
        } else {
            self
        }
    }

    /// The positional `n` was filled with `v`.
    pub open spec fn with_positional(self, n: Seq<char>, v: Seq<char>) -> Matches {
        let i = self.positional_at(n);
        if i < self.positionals.len() {
            Matches {
                positionals: self.positionals.update(i, PosMatch { name: self.positionals[i].name, value: v }),
                ..self
            }
        } else {
            Matches { positionals: self.positionals.push(PosMatch { name: n, value: v }), ..self }
        }
    }

    /// The same matches with those of the subcommand `name` attached.
    pub open spec fn with_subcommand(self, name: Seq<char>, sub: Matches) -> Matches {
        Matches { subcommand: Some(Box::new(SubMatch { name, matches: sub })), ..self }
    }
}

/// Which names are recorded after one more match: those before, and the new one.
pub proof fn lemma_recorded_names(m: Matches, n: Seq<char>, multiple: bool, inline: Option<Seq<char>>, v: Seq<char>)
    ensures
        forall|x: Seq<char>| #[trigger] m.with_flag(n, multiple).has_flag(x) <==> m.has_flag(x) || x == n,
        m.with_flag(n, multiple).opts == m.opts,
        m.with_flag(n, multiple).positionals == m.positionals,
        forall|x: Seq<char>| #[trigger] m.with_opt(n, inline).has_opt(x) <==> m.has_opt(x) || x == n,
        m.with_opt(n, inline).flags == m.flags,
        m.with_opt(n, inline).positionals == m.positionals,
        forall|x: Seq<char>| #[trigger] m.with_value(n, multiple, v).has_opt(x) <==> m.has_opt(x),
        m.with_value(n, multiple, v).flags == m.flags,
        m.with_value(n, multiple, v).positionals == m.positionals,
        forall|x: Seq<char>| #[trigger] m.with_positional(n, v).has_positional(x) <==> m.has_positional(x) || x == n,
        m.with_positional(n, v).flags == m.flags,
        m.with_positional(n, v).opts == m.opts,
{
    lemma_first_index_of(m.flag_names(), n);
    lemma_first_index_of(m.opt_names(), n);
    lemma_first_index_of(m.positional_names(), n);
    let a = m.with_flag(n, multiple);
    assert forall|x: Seq<char>| #[trigger] a.has_flag(x) <==> m.has_flag(x) || x == n by {
        lemma_first_index_of(m.flag_names(), x);
        lemma_first_index_of(a.flag_names(), x);
        if m.has_flag(n) {
            assert(a.flag_names() =~= m.flag_names());
        } else {
            assert(a.flag_names() =~= m.flag_names().push(n));
            lemma_contains_push(m.flag_names(), n, x);
        }
    }
    let b = m.with_opt(n, inline);
    assert forall|x: Seq<char>| #[trigger] b.has_opt(x) <==> m.has_opt(x) || x == n by {
        lemma_first_index_of(m.opt_names(), x);
        lemma_first_index_of(b.opt_names(), x);
        if m.has_opt(n) {
            assert(b.opt_names() =~= m.opt_names());
        } else {
            assert(b.opt_names() =~= m.opt_names().push(n));
            lemma_contains_push(m.opt_names(), n, x);
        }
    }
    let c = m.with_value(n, multiple, v);
    assert(c.opt_names() =~= m.opt_names());
    let d = m.with_positional(n, v);
    assert forall|x: Seq<char>| #[trigger] d.has_positional(x) <==> m.has_positional(x) || x == n by {
        lemma_first_index_of(m.positional_names(), x);
        lemma_first_index_of(d.positional_names(), x);
        if m.has_positional(n) {
            assert(d.positional_names() =~= m.positional_names());
        } else {
            assert(d.positional_names() =~= m.positional_names().push(n));
            lemma_contains_push(m.positional_names(), n, x);
        }
    }
}

/// The first index of `x` in a sequence that had `n` pushed at its end.
pub proof fn lemma_first_index_push<A>(s: Seq<A>, n: A, x: A)
    ensures
        s.contains(x) ==> first_index_of(s.push(n), x) == first_index_of(s, x),
        !s.contains(x) && x == n ==> first_index_of(s.push(n), x) == s.len(),
        !s.contains(x) && x != n ==> first_index_of(s.push(n), x) == s.len() + 1,
{
    lemma_first_index_of(s, x);
    let k = first_index_of(s, x);
    if k < s.len() {
        assert forall|j: int| 0 <= j < k implies s.push(n)[j] != x by {
            assert(s[j] != x);
        }
        assert(s.push(n)[k] == x);
        lemma_first_index_is(s.push(n), x, k);
    } else if x == n {
        assert forall|j: int| 0 <= j < s.len() implies s.push(n)[j] != x by {
            assert(s[j] != x);
        }
        lemma_first_index_is(s.push(n), x, s.len() as int);
    } else {
        assert forall|j: int| 0 <= j < s.len() + 1 implies s.push(n)[j] != x by {
            if j < s.len() {
                assert(s[j] != x);
            }
        }
        lemma_first_index_is(s.push(n), x, (s.len() + 1) as int);
    }
}

/// The values recorded under `x` after one more match: those before, with the
/// new value at their end where the match was of `x` and brought one.
pub proof fn lemma_recorded_values(
    m: Matches,
    n: Seq<char>,
    multiple: bool,
    inline: Option<Seq<char>>,
    v: Seq<char>,
    x: Seq<char>,
)
    ensures
        m.with_flag(n, multiple).values_of(x) == m.values_of(x),
        m.with_positional(n, v).values_of(x) == m.values_of(x),
        m.with_opt(n, inline).values_of(x) == (if x == n && inline is Some {
            m.values_of(x).push(inline->0)
        } else {
            m.values_of(x)
        }),
        m.with_value(n, multiple, v).values_of(x) == (if x == n && m.has_opt(n) {
            m.values_of(x).push(v)
        } else {
            m.values_of(x)
        }),
{
    lemma_recorded_names(m, n, multiple, inline, v);
    lemma_first_index_of(m.opt_names(), n);
    lemma_first_index_of(m.opt_names(), x);
    let i = m.opt_at(n);
    let b = m.with_opt(n, inline);
    if i < m.opts.len() {
        assert(m.opt_names()[i] == n);
        assert(b.opt_names() =~= m.opt_names());
    } else {
        assert(b.opt_names() =~= m.opt_names().push(n));
        lemma_first_index_push(m.opt_names(), n, x);
        if x == n {
            assert(m.values_of(x) =~= Seq::<Seq<char>>::empty());
            if inline is Some {
                assert(seq![inline->0] =~= Seq::<Seq<char>>::empty().push(inline->0));
            }
        }
    }
    let c = m.with_value(n, multiple, v);
    assert(c.opt_names() =~= m.opt_names());
    if i < m.opts.len() && x != n {
        assert(m.opt_at(x) != i);
    }
}

/// One more match records no name twice.
pub proof fn lemma_recorded_distinct(m: Matches, n: Seq<char>, multiple: bool, inline: Option<Seq<char>>, v: Seq<char>)
    requires
        m.distinct(),
    ensures
        m.with_flag(n, multiple).distinct(),
        m.with_opt(n, inline).distinct(),
        m.with_value(n, multiple, v).distinct(),
        m.with_positional(n, v).distinct(),
{
    lemma_recorded_names(m, n, multiple, inline, v);
    lemma_first_index_of(m.flag_names(), n);
    lemma_first_index_of(m.opt_names(), n);
    lemma_first_index_of(m.positional_names(), n);
    let a = m.with_flag(n, multiple);
    if m.has_flag(n) {
        assert(a.flag_names() =~= m.flag_names());
    } else {
        assert(a.flag_names() =~= m.flag_names().push(n));
    }
    let b = m.with_opt(n, inline);
    if m.has_opt(n) {
        assert(b.opt_names() =~= m.opt_names());
    } else {
        assert(b.opt_names() =~= m.opt_names().push(n));
    }
    let c = m.with_value(n, multiple, v);
    assert(c.opt_names() =~= m.opt_names());
    let d = m.with_positional(n, v);
    if m.has_positional(n) {
        assert(d.positional_names() =~= m.positional_names());
    } else {
        assert(d.positional_names() =~= m.positional_names().push(n));
    }
}

/// The count of the flag `x` after one more match of the flag `n`.
pub proof fn lemma_recorded_counts(m: Matches, n: Seq<char>, multiple: bool, x: Seq<char>)
    ensures
        m.with_flag(n, multiple).flag_count(x) == (if x != n {
            m.flag_count(x)
        } else if multiple {
            m.flag_count(x) + 1
        } else {
            1
        }),
{
    lemma_recorded_names(m, n, multiple, None, n);
    lemma_first_index_of(m.flag_names(), n);
    lemma_first_index_of(m.flag_names(), x);
    let i = m.flag_at(n);
    let a = m.with_flag(n, multiple);
    if i < m.flags.len() {
        assert(m.flag_names()[i] == n);
        assert(a.flag_names() =~= m.flag_names());
    } else {
        assert(a.flag_names() =~= m.flag_names().push(n));
        lemma_first_index_push(m.flag_names(), n, x);
    }
}

/// What a sequence holds once `n` is pushed: what it held, and `n`.
pub proof fn lemma_contains_push<A>(s: Seq<A>, n: A, x: A)
    ensures
        s.push(n).contains(x) <==> s.contains(x) || x == n,
{
    if s.contains(x) {
        let i = choose|i: int| 0 <= i < s.len() && s[i] == x;
        assert(s.push(n)[i] == x);
    }
    if x == n {
        assert(s.push(n)[s.len() as int] == x);
    }
    if s.push(n).contains(x) {
        let i = choose|i: int| 0 <= i < s.push(n).len() && s.push(n)[i] == x;
        if i < s.len() {
            assert(s[i] == x);
        }
    }
}

/// Recording one occurrence raises no count by more than one.
pub proof fn lemma_counts_grow(m: Matches, n: Seq<char>, multiple: bool, inline: Option<Seq<char>>, v: Seq<char>, bound: int)
    requires
        m.counts_within(bound),
        0 <= bound,
    ensures
        m.with_flag(n, multiple).counts_within(bound + 1),
        m.with_opt(n, inline).counts_within(bound + 1),
        m.with_value(n, multiple, v).counts_within(bound + 1),
        m.with_positional(n, v).counts_within(bound + 1),
{
    lemma_first_index_of(m.flag_names(), n);
    lemma_first_index_of(m.opt_names(), n);
    lemma_first_index_of(m.positional_names(), n);
    let a = m.with_flag(n, multiple);
    assert forall|i: int| 0 <= i < a.flags.len() implies (#[trigger] a.flags[i]).occurrences <= bound + 1 by {
        if i < m.flags.len() && i != m.flag_at(n) {
            assert(a.flags[i] == m.flags[i]);
        }
    }
    let b = m.with_opt(n, inline);
    assert forall|i: int| 0 <= i < b.opts.len() implies (#[trigger] b.opts[i]).occurrences <= bound + 1 by {
        if i < m.opts.len() && i != m.opt_at(n) {
            assert(b.opts[i] == m.opts[i]);
        } else if i < m.opts.len() {
            assert(m.opts[i].occurrences <= bound);
        }
    }
    let c = m.with_value(n, multiple, v);
    assert forall|i: int| 0 <= i < c.opts.len() implies (#[trigger] c.opts[i]).occurrences <= bound + 1 by {
        if i < m.opts.len() && i != m.opt_at(n) {
            assert(c.opts[i] == m.opts[i]);
        } else if i < m.opts.len() {
            assert(m.opts[i].occurrences <= bound);
        }
    }
    assert forall|i: int| 0 <= i < a.opts.len() implies (#[trigger] a.opts[i]).occurrences <= bound + 1 by {
        assert(m.opts[i].occurrences <= bound);
    }
    assert forall|i: int| 0 <= i < b.flags.len() implies (#[trigger] b.flags[i]).occurrences <= bound + 1 by {
        assert(m.flags[i].occurrences <= bound);
    }
    assert forall|i: int| 0 <= i < c.flags.len() implies (#[trigger] c.flags[i]).occurrences <= bound + 1 by {
        assert(m.flags[i].occurrences <= bound);
    }
    let d = m.with_positional(n, v);
    assert forall|i: int| 0 <= i < d.flags.len() implies (#[trigger] d.flags[i]).occurrences <= bound + 1 by {
        assert(m.flags[i].occurrences <= bound);
    }
    assert forall|i: int| 0 <= i < d.opts.len() implies (#[trigger] d.opts[i]).occurrences <= bound + 1 by {
        assert(m.opts[i].occurrences <= bound);
    }
}

/// A matched flag.
pub struct FlagArg {
    pub name: String,
    pub occurrences: usize,
}

/// A matched option.
pub struct OptArg {
    pub name: String,
    pub occurrences: usize,
    pub values: Vec<String>,
}

/// A filled positional slot.
pub struct PosArg {
    pub name: String,
    pub value: String,
}

/// The matches of a subcommand.
pub struct SubCommand {
    pub name: String,
    pub matches: ArgMatches,
}

/// What a run matched at one level, with the matches of the subcommand below it.
pub struct ArgMatches {
    pub flags: Vec<FlagArg>,
    pub opts: Vec<OptArg>,
    pub positionals: Vec<PosArg>,
    pub subcommand: Option<Box<SubCommand>>,
}

impl View for FlagArg {
    type V = FlagMatch;

    open spec fn view(&self) -> FlagMatch {
        FlagMatch { name: self.name@, occurrences: self.occurrences as nat }
    }
}

impl View for OptArg {
    type V = OptMatch;

    open spec fn view(&self) -> OptMatch {
        OptMatch { name: self.name@, occurrences: self.occurrences as nat, values: names_of(self.values@) }
    }
}

impl View for PosArg {
    type V = PosMatch;

    open spec fn view(&self) -> PosMatch {
        PosMatch { name: self.name@, value: self.value@ }
    }
}

impl View for ArgMatches {
    type V = Matches;

    open spec fn view(&self) -> Matches
        decreases self,
    {
        Matches {
            flags: self.flags@.map_values(|f: FlagArg| f@),
            opts: self.opts@.map_values(|o: OptArg| o@),
            positionals: self.positionals@.map_values(|p: PosArg| p@),
            subcommand: match self.subcommand {
                Some(sub) => Some(Box::new(SubMatch { name: sub.name@, matches: sub.matches@ })),
                None => None,
            },
        }
    }
}

impl SubCommand {
    /// Starts a command that is meant to stand below another one.
    pub fn new(name: &str) -> (r: crate::app::App)
        ensures
            r@ == crate::registry::Registry::named(name@),
    {
        crate::app::App::new(name)
    }
}

impl ArgMatches {
    /// Matches with nothing recorded.
    pub fn new() -> (r: ArgMatches)
        ensures
            r@ == Matches::empty(),
    {
        let r = ArgMatches { flags: Vec::new(), opts: Vec::new(), positionals: Vec::new(), subcommand: None };
        assert(r@.flags =~= Seq::empty());
        assert(r@.opts =~= Seq::empty());
        assert(r@.positionals =~= Seq::empty());
        r
    }

    /// Whether anything was matched under `name`.
    pub fn is_present(&self, name: &str) -> (r: bool)
        ensures
            r == self@.is_present(name@),
    {
        let n = String::from_str(name);
        self.holds(&n)
    }

    /// How often `name` was counted: 0 when it was never matched, 1 for a
    /// filled positional.
    pub fn occurrences_of(&self, name: &str) -> (r: usize)
        ensures
            r == self@.occurrences_of(name@),
    {
        let n = String::from_str(name);
        let i = self.flag_index(&n);
        if i < self.flags.len() {
            return self.flags[i].occurrences;
        }
        let i = self.opt_index(&n);
        if i < self.opts.len() {
            return self.opts[i].occurrences;
        }
        if self.positional_index(&n) < self.positionals.len() {
            1
        } else {
            0
        }
    }

    /// The values of the option `name`, in the order of the tokens that
    /// brought them; none where it was never matched.
    pub fn values_of(&self, name: &str) -> (r: Vec<String>)
        ensures
            names_of(r@) == self@.values_of(name@),
    {
        let n = String::from_str(name);
        let i = self.opt_index(&n);
        if i < self.opts.len() {
            crate::text::clone_names(&self.opts[i].values)
        } else {
            let r: Vec<String> = Vec::new();
            assert(names_of(r@) =~= Seq::<Seq<char>>::empty());
            r
        }
    }

    /// The first value of the option `name`, or the value of the positional
    /// `name`.
    pub fn value_of(&self, name: &str) -> (r: Option<&str>)
        ensures
            match r {
                Some(v) => self@.value_of(name@) == Some(v@),
                None => self@.value_of(name@) is None,
            },
    {
        let n = String::from_str(name);
        let i = self.opt_index(&n);
        if i < self.opts.len() && self.opts[i].values.len() > 0 {
            return Some(self.opts[i].values[0].as_str());
        }
        let i = self.positional_index(&n);
        if i < self.positionals.len() {
            Some(self.positionals[i].value.as_str())
        } else {
            None
        }
    }

    /// The name of the subcommand that was matched, if one was.
    pub fn subcommand_name(&self) -> (r: Option<&str>)
        ensures
            match r {
                Some(n) => self@.subcommand is Some && self@.subcommand->0.name == n@,
                None => self@.subcommand is None,
            },
    {
        match &self.subcommand {
            Some(sub) => Some(sub.name.as_str()),
            None => None,
        }
    }

    /// The matches of the subcommand `name`, if that is the one that was matched.
    pub fn subcommand_matches(&self, name: &str) -> (r: Option<&ArgMatches>)
        ensures
            match r {
                Some(m) => self@.subcommand is Some && self@.subcommand->0.name == name@ && self@.subcommand->0.matches
                    == m@,
                None => self@.subcommand is None || self@.subcommand->0.name != name@,
            },
    {
        let n = String::from_str(name);
        match &self.subcommand {
            Some(sub) => {
                if sub.name == n {
                    Some(&sub.matches)
                } else {
                    None
                }
            },
            None => None,
        }
    }

    pub(crate) fn flag_index(&self, n: &String) -> (r: usize)
        ensures
            r == self@.flag_at(n@),
            r <= self.flags@.len(),
    {
        let mut i: usize = 0;
        while i < self.flags.len() && !(self.flags[i].name == *n)
            invariant
                i <= self.flags@.len(),
                forall|j: int| 0 <= j < i ==> self@.flag_names()[j] != n@,
            decreases self.flags@.len() - i,
        {
            i += 1;
        }
        proof {
            lemma_first_index_is(self@.flag_names(), n@, i as int);
        }
        i
    }

    pub(crate) fn opt_index(&self, n: &String) -> (r: usize)
        ensures
            r == self@.opt_at(n@),
            r <= self.opts@.len(),
    {
        let mut i: usize = 0;
        while i < self.opts.len() && !(self.opts[i].name == *n)
            invariant
                i <= self.opts@.len(),
                forall|j: int| 0 <= j < i ==> self@.opt_names()[j] != n@,
            decreases self.opts@.len() - i,
        {
            i += 1;
        }
        proof {
            lemma_first_index_is(self@.opt_names(), n@, i as int);
        }
        i
    }

    pub(crate) fn positional_index(&self, n: &String) -> (r: usize)
        ensures
            r == self@.positional_at(n@),
            r <= self.positionals@.len(),
    {
        let mut i: usize = 0;
        while i < self.positionals.len() && !(self.positionals[i].name == *n)
            invariant
                i <= self.positionals@.len(),
                forall|j: int| 0 <= j < i ==> self@.positional_names()[j] != n@,
            decreases self.positionals@.len() - i,
        {
            i += 1;
        }
        proof {
            lemma_first_index_is(self@.positional_names(), n@, i as int);
        }
        i
    }

    /// Whether anything was matched under the name `n`.
    pub(crate) fn holds(&self, n: &String) -> (r: bool)
        ensures
            r == self@.is_present(n@),
    {
        self.flag_index(n) < self.flags.len() || self.opt_index(n) < self.opts.len()
            || self.positional_index(n) < self.positionals.len()
    }

    /// Records one more occurrence of the flag `n`.
    pub(crate) fn record_flag(self, n: &String, multiple: bool, Ghost(bound): Ghost<int>) -> (r: ArgMatches)
        requires
            self@.counts_within(bound),
            0 <= bound < usize::MAX,
        ensures
            r@ == self@.with_flag(n@, multiple),
            r@.counts_within(bound + 1),
    {
        proof {
            lemma_counts_grow(self@, n@, multiple, None, n@, bound);
        }
        let mut m = self;
        let i = m.flag_index(n);
        if i < m.flags.len() {
            let old_entry = m.flags.remove(i);
            assert(old_entry@ == self@.flags[i as int]);
            assert(old_entry.occurrences <= bound);
            let seen = old_entry.occurrences;
            let entry = FlagArg { name: old_entry.name, occurrences: if multiple { seen + 1 } else { 1 } };
            m.flags.insert(i, entry);
            assert(m@.flags =~= self@.with_flag(n@, multiple).flags);
        } else {
            m.flags.push(FlagArg { name: n.clone(), occurrences: 1 });
            assert(m@.flags =~= self@.with_flag(n@, multiple).flags);
        }
        assert(m@.opts =~= self@.opts);
        assert(m@.positionals =~= self@.positionals);
        m
    }

    /// Records that the option `n` was named, with its inline value if it had one.
    pub(crate) fn record_opt(self, n: &String, inline: &Option<String>, Ghost(bound): Ghost<int>) -> (r:
        ArgMatches)
        requires
            self@.counts_within(bound),
            0 <= bound < usize::MAX,
        ensures
            r@ == self@.with_opt(n@, crate::text::opt_text(*inline)),
            r@.counts_within(bound + 1),
    {
        proof {
            lemma_counts_grow(self@, n@, false, crate::text::opt_text(*inline), n@, bound);
        }
        let mut m = self;
        let i = m.opt_index(n);
        if i < m.opts.len() {
            match inline {
                Some(v) => {
                    let old_entry = m.opts.remove(i);
                    assert(old_entry@ == self@.opts[i as int]);
                    assert(old_entry.occurrences <= bound);
                    let mut values = old_entry.values;
                    proof {
                        crate::text::lemma_names_push(values@, *v);
                    }
                    values.push(v.clone());
                    let entry = OptArg { name: old_entry.name, occurrences: old_entry.occurrences + 1, values };
                    m.opts.insert(i, entry);
                    assert(m@.opts =~= self@.with_opt(n@, crate::text::opt_text(*inline)).opts);
                },
                None => {},
            }
        } else {
            let mut values: Vec<String> = Vec::new();
            match inline {
                Some(v) => {
                    values.push(v.clone());
                    assert(names_of(values@) =~= seq![v@]);
                },
                None => {
                    assert(names_of(values@) =~= Seq::<Seq<char>>::empty());
                },
            }
            m.opts.push(OptArg { name: n.clone(), occurrences: 1, values });
            assert(m@.opts =~= self@.with_opt(n@, crate::text::opt_text(*inline)).opts);
        }
        assert(m@.flags =~= self@.flags);
        assert(m@.positionals =~= self@.positionals);
        m
    }

    /// Records `v` as the value the option `n` was waiting for.
    pub(crate) fn record_value(self, n: &String, multiple: bool, v: &String, Ghost(bound): Ghost<int>) -> (r:
        ArgMatches)
        requires
            self@.counts_within(bound),
            0 <= bound < usize::MAX,
        ensures
            r@ == self@.with_value(n@, multiple, v@),
            r@.counts_within(bound + 1),
    {
        proof {
            lemma_counts_grow(self@, n@, multiple, None, v@, bound);
        }
        let mut m = self;
        let i = m.opt_index(n);
        if i < m.opts.len() {
            let old_entry = m.opts.remove(i);
            assert(old_entry@ == self@.opts[i as int]);
            assert(old_entry.occurrences <= bound);
            let mut values = old_entry.values;
            proof {
                crate::text::lemma_names_push(values@, *v);
            }
            values.push(v.clone());
            let seen = old_entry.occurrences;
            let entry = OptArg { name: old_entry.name, occurrences: if multiple { seen + 1 } else { 1 }, values };
            m.opts.insert(i, entry);
            assert(m@.opts =~= self@.with_value(n@, multiple, v@).opts);
        }
        assert(m@.opts =~= self@.with_value(n@, multiple, v@).opts);
        assert(m@.flags =~= self@.flags);
        assert(m@.positionals =~= self@.positionals);
        m
    }

    /// Records `v` as the value of the positional `n`.
    pub(crate) fn record_positional(self, n: &String, v: &String) -> (r: ArgMatches)
        ensures
            r@ == self@.with_positional(n@, v@),
    {
        let mut m = self;
        let i = m.positional_index(n);
        if i < m.positionals.len() {
            let old_entry = m.positionals.remove(i);
            assert(old_entry@ == self@.positionals[i as int]);
            m.positionals.insert(i, PosArg { name: old_entry.name, value: v.clone() });
            assert(m@.positionals =~= self@.with_positional(n@, v@).positionals);
        } else {
            m.positionals.push(PosArg { name: n.clone(), value: v.clone() });
            assert(m@.positionals =~= self@.with_positional(n@, v@).positionals);
        }
        assert(m@.flags =~= self@.flags);
        assert(m@.opts =~= self@.opts);
        m
    }

    /// Attaches the matches of the subcommand `name`.
    pub(crate) fn attach(self, name: String, sub: ArgMatches) -> (r: ArgMatches)
        ensures
            r@ == self@.with_subcommand(name@, sub@),
    {
        let mut m = self;
        m.subcommand = Some(Box::new(SubCommand { name, matches: sub }));
        assert(m@.flags =~= self@.flags);
        assert(m@.opts =~= self@.opts);
        assert(m@.positionals =~= self@.positionals);
        m
    }
}

} // verus!
