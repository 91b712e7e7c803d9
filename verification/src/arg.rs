//! The description of one argument: a flag, an option or a positional.
use vstd::prelude::*;
use vstd::string::*;
use crate::text::{first_index_of, lemma_first_index_is, names_of, opt_text};

verus! {

/// What an argument is, as plain values.
///
/// An argument with an index is a positional; one that takes a value is an
/// option; any other is a flag.
pub struct ArgSpec {
    /// The key under which matches are recorded.
    pub name: Seq<char>,
    /// The character that follows a single dash.
    pub short: Option<char>,
    /// The word that follows a double dash.
    pub long: Option<Seq<char>>,
    /// The line shown in help text.
    pub help: Option<Seq<char>>,
    /// Whether a run without this argument fails.
    pub required: bool,
    /// Whether each occurrence consumes one value.
    pub takes_value: bool,
    /// Whether it may occur more than once.
    pub multiple: bool,
    /// The ordinal of a positional among the positionals.
    pub index: Option<u8>,
    /// The names that may not be matched together with this one.
    pub blacklist: Seq<Seq<char>>,
    /// The names that must be matched once this one is.
    pub requires: Seq<Seq<char>>,
}

impl ArgSpec {
    pub open spec fn is_positional(self) -> bool {
        self.index is Some
    }

    pub open spec fn is_option(self) -> bool {
        self.index is None && self.takes_value
    }

    pub open spec fn is_flag(self) -> bool {
        self.index is None && !self.takes_value
    }

    pub open spec fn has_switch(self) -> bool {
        self.short is Some || self.long is Some
    }

    /// The description a fresh argument named `n` starts from.
    pub open spec fn named(n: Seq<char>) -> ArgSpec {
        ArgSpec {
            name: n,
            short: None,
            long: None,
            help: None,
            required: false,
            takes_value: false,
            multiple: false,
            index: None,
            blacklist: Seq::empty(),
            requires: Seq::empty(),
        }
    }
}

/// The names of `args`, in order.
pub open spec fn names(args: Seq<ArgSpec>) -> Seq<Seq<char>> {
    args.map_values(|a: ArgSpec| a.name)
}

/// The short forms of `args`, in order.
pub open spec fn shorts(args: Seq<ArgSpec>) -> Seq<Option<char>> {
    args.map_values(|a: ArgSpec| a.short)
}

/// The long forms of `args`, in order.
pub open spec fn longs(args: Seq<ArgSpec>) -> Seq<Option<Seq<char>>> {
    args.map_values(|a: ArgSpec| a.long)
}

/// The index of the first of `args` named `n`, or their number.
pub open spec fn find_named(args: Seq<ArgSpec>, n: Seq<char>) -> int {
    first_index_of(names(args), n)
}

/// The index of the first of `args` whose short form is `c`, or their number.
pub open spec fn find_short(args: Seq<ArgSpec>, c: char) -> int {
    first_index_of(shorts(args), Some(c))
}

/// The index of the first of `args` whose long form is `l`, or their number.
pub open spec fn find_long(args: Seq<ArgSpec>, l: Seq<char>) -> int {
    first_index_of(longs(args), Some(l))
}

/// One argument as the caller declares it.
pub struct Arg {
    pub name: String,
    pub short: Option<char>,
    pub long: Option<String>,
    pub help: Option<String>,
    pub required: bool,
    pub takes_value: bool,
    pub multiple: bool,
    pub index: Option<u8>,
    pub blacklist: Vec<String>,
    pub requires: Vec<String>,
}

impl View for Arg {
    type V = ArgSpec;

    open spec fn view(&self) -> ArgSpec {
        ArgSpec {
            name: self.name@,
            short: self.short,
            long: opt_text(self.long),
            help: opt_text(self.help),
            required: self.required,
            takes_value: self.takes_value,
            multiple: self.multiple,
            index: self.index,
            blacklist: names_of(self.blacklist@),
            requires: names_of(self.requires@),
        }
    }
}

impl Arg {
    /// Starts the description of an argument named `n`: a flag without
    /// switches, until the calls that follow say otherwise.
    pub fn new(n: &str) -> (r: Arg)
        ensures
            r@ == ArgSpec::named(n@),
    {
        let r = Arg {
            name: String::from_str(n),
            short: None,
            long: None,
            help: None,
            required: false,
            takes_value: false,
            multiple: false,
            index: None,
            blacklist: Vec::new(),
            requires: Vec::new(),
        };
        assert(r@.blacklist =~= Seq::empty());
        assert(r@.requires =~= Seq::empty());
        r
    }

    /// Gives the argument the short form `-c`.
    pub fn short(self, c: char) -> (r: Arg)
        ensures
            r@ == (ArgSpec { short: Some(c), ..self@ }),
    {
        let mut r = self;
        r.short = Some(c);
        r
    }

    /// Gives the argument the long form `--l`.
    pub fn long(self, l: &str) -> (r: Arg)
        ensures
            r@ == (ArgSpec { long: Some(l@), ..self@ }),
    {
        let mut r = self;
        r.long = Some(String::from_str(l));
        r
    }

    /// Sets the line that the help text shows for the argument.
    pub fn help(self, h: &str) -> (r: Arg)
        ensures
            r@ == (ArgSpec { help: Some(h@), ..self@ }),
    {
        let mut r = self;
        r.help = Some(String::from_str(h));
        r
    }

    /// Says whether a run without the argument fails.
    pub fn required(self, yes: bool) -> (r: Arg)
        ensures
            r@ == (ArgSpec { required: yes, ..self@ }),
    {
        let mut r = self;
        r.required = yes;
        r
    }

    /// Says whether each occurrence of the argument consumes a value.
    pub fn takes_value(self, yes: bool) -> (r: Arg)
        ensures
            r@ == (ArgSpec { takes_value: yes, ..self@ }),
    {
        let mut r = self;
        r.takes_value = yes;
        r
    }

    /// Says whether the argument may occur more than once.
    pub fn multiple(self, yes: bool) -> (r: Arg)
        ensures
            r@ == (ArgSpec { multiple: yes, ..self@ }),
    {
        let mut r = self;
        r.multiple = yes;
        r
    }

    /// Makes the argument the positional with the ordinal `i`.
    pub fn index(self, i: u8) -> (r: Arg)
        ensures
            r@ == (ArgSpec { index: Some(i), ..self@ }),
    {
        let mut r = self;
        r.index = Some(i);
        r
    }

    /// Adds `name` to the arguments that may not be matched together with this one.
    pub fn mutually_excludes(self, name: &str) -> (r: Arg)
        ensures
            r@ == (ArgSpec { blacklist: self@.blacklist.push(name@), ..self@ }),
    {
        let mut r = self;
        let n = String::from_str(name);
        proof {
            crate::text::lemma_names_push(r.blacklist@, n);
        }
        r.blacklist.push(n);
        r
    }

    /// Adds each of `names` to the arguments that may not be matched together
    /// with this one.
    pub fn mutually_excludes_all(self, names: Vec<String>) -> (r: Arg)
        ensures
            r@ == (ArgSpec { blacklist: self@.blacklist + names_of(names@), ..self@ }),
    {
        let mut r = self;
        let mut i: usize = 0;
        assert(self@.blacklist + names_of(names@).take(0) =~= self@.blacklist);
        while i < names.len()
            invariant
                i <= names@.len(),
                r@ == (ArgSpec { blacklist: self@.blacklist + names_of(names@).take(i as int), ..self@ }),
            decreases names@.len() - i,
        {
            let n = names[i].clone();
            proof {
                crate::text::lemma_names_push(r.blacklist@, n);
                assert(self@.blacklist + names_of(names@).take(i + 1) =~= (self@.blacklist + names_of(names@).take(
                    i as int,
                )).push(n@));
            }
            r.blacklist.push(n);
            i += 1;
        }
        assert(names_of(names@).take(names@.len() as int) =~= names_of(names@));
        r
    }

    /// Adds `name` to the arguments that must be matched once this one is.
    pub fn depends_on(self, name: &str) -> (r: Arg)
        ensures
            r@ == (ArgSpec { requires: self@.requires.push(name@), ..self@ }),
    {
        let mut r = self;
        let n = String::from_str(name);
        proof {
            crate::text::lemma_names_push(r.requires@, n);
        }
        r.requires.push(n);
        r
    }

    /// Adds each of `names` to the arguments that must be matched once this one is.
    pub fn depends_on_all(self, names: Vec<String>) -> (r: Arg)
        ensures
            r@ == (ArgSpec { requires: self@.requires + names_of(names@), ..self@ }),
    {
        let mut r = self;
        let mut i: usize = 0;
        assert(self@.requires + names_of(names@).take(0) =~= self@.requires);
        while i < names.len()
            invariant
                i <= names@.len(),
                r@ == (ArgSpec { requires: self@.requires + names_of(names@).take(i as int), ..self@ }),
            decreases names@.len() - i,
        {
            let n = names[i].clone();
            proof {
                crate::text::lemma_names_push(r.requires@, n);
                assert(self@.requires + names_of(names@).take(i + 1) =~= (self@.requires + names_of(names@).take(
                    i as int,
                )).push(n@));
            }
            r.requires.push(n);
            i += 1;
        }
        assert(names_of(names@).take(names@.len() as int) =~= names_of(names@));
        r
    }
}

/// The descriptions of `v`, in order.
pub open spec fn specs_of(v: Seq<Arg>) -> Seq<ArgSpec> {
    v.map_values(|a: Arg| a@)
}

/// The descriptions of a list with one more argument are those before with one more.
pub proof fn lemma_specs_push(v: Seq<Arg>, a: Arg)
    ensures
        specs_of(v.push(a)) == specs_of(v).push(a@),
{
    assert(specs_of(v.push(a)) =~= specs_of(v).push(a@));
}

/// The index of the first of `args` named `n`, or their number.
pub(crate) fn index_named(args: &Vec<Arg>, n: &String) -> (r: usize)
    ensures
        r == find_named(specs_of(args@), n@),
        r <= args@.len(),
{
    let mut i: usize = 0;
    while i < args.len() && !(args[i].name == *n)
        invariant
            i <= args@.len(),
            forall|j: int| 0 <= j < i ==> names(specs_of(args@))[j] != n@,
        decreases args@.len() - i,
    {
        i += 1;
    }
    proof {
        lemma_first_index_is(names(specs_of(args@)), n@, i as int);
    }
    i
}

/// The index of the first of `args` whose short form is `c`, or their number.
pub(crate) fn index_short(args: &Vec<Arg>, c: char) -> (r: usize)
    ensures
        r == find_short(specs_of(args@), c),
        r <= args@.len(),
{
    let mut i: usize = 0;
    while i < args.len()
        invariant
            i <= args@.len(),
            forall|j: int| 0 <= j < i ==> shorts(specs_of(args@))[j] != Some(c),
        decreases args@.len() - i,
    {
        let hit = match args[i].short {
            Some(s) => s == c,
            None => false,
        };
        if hit {
            proof {
                lemma_first_index_is(shorts(specs_of(args@)), Some(c), i as int);
            }
            return i;
        }
        i += 1;
    }
    proof {
        lemma_first_index_is(shorts(specs_of(args@)), Some(c), i as int);
    }
    i
}

/// The index of the first of `args` whose long form is `l`, or their number.
pub(crate) fn index_long(args: &Vec<Arg>, l: &String) -> (r: usize)
    ensures
        r == find_long(specs_of(args@), l@),
        r <= args@.len(),
{
    let mut i: usize = 0;
    while i < args.len()
        invariant
            i <= args@.len(),
            forall|j: int| 0 <= j < i ==> longs(specs_of(args@))[j] != Some(l@),
        decreases args@.len() - i,
    {
        let hit = match &args[i].long {
            Some(s) => *s == *l,
            None => false,
        };
        if hit {
            proof {
                lemma_first_index_is(longs(specs_of(args@)), Some(l@), i as int);
            }
            return i;
        }
        i += 1;
    }
    proof {
        lemma_first_index_is(longs(specs_of(args@)), Some(l@), i as int);
    }
    i
}

} // verus!
