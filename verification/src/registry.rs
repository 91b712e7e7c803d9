//! The registry of declared arguments, as plain values, and the rules that
//! govern what may be declared.
use vstd::prelude::*;
use crate::arg::{find_named, ArgSpec};
use crate::text::{first_index_of, with_name};

verus! {

/// Why a declaration is refused.
#[derive(Debug, Copy, Clone, PartialEq, Eq, Structural)]
pub enum DefinitionError {
    /// Another argument already has this name.
    DuplicateName,
    /// Another argument already has this short form.
    DuplicateShort,
    /// Another argument already has this long form.
    DuplicateLong,
    /// A positional cannot have a short or a long form.
    PositionalWithSwitch,
    /// A positional cannot occur more than once.
    PositionalMultiple,
    /// A positional is a value: it cannot take one.
    PositionalTakesValue,
    /// An option needs a short or a long form.
    OptionWithoutSwitch,
    /// A flag needs a short or a long form.
    FlagWithoutSwitch,
    /// A flag cannot be required.
    FlagRequired,
}

impl DefinitionError {
    /// The sentence that tells the author of a command what is wrong with the
    /// declaration of `a`.
    pub open spec fn message(self, a: ArgSpec) -> Seq<char> {
        match self {
            DefinitionError::DuplicateName => "Argument name must be unique, \""@ + a.name
                + "\" is already in use"@,
            DefinitionError::DuplicateShort => "Argument short must be unique, -"@ + (match a.short {
                Some(c) => seq![c],
                None => Seq::empty(),
            }) + " is already in use"@,
            DefinitionError::DuplicateLong => "Argument long must be unique, --"@ + (match a.long {
                Some(l) => l,
                None => Seq::empty(),
            }) + " is already in use"@,
            DefinitionError::PositionalWithSwitch => "Argument \""@ + a.name
                + "\" has conflicting requirements, both index() and short(), or long(), were supplied"@,
            DefinitionError::PositionalMultiple => "Argument \""@ + a.name
                + "\" has conflicting requirements, both index() and multiple(true) were supplied"@,
            DefinitionError::PositionalTakesValue => "Argument \""@ + a.name
                + "\" has conflicting requirements, both index() and takes_value(true) were supplied"@,
            DefinitionError::OptionWithoutSwitch => "Argument \""@ + a.name
                + "\" has take_value(true), yet neither a short() or long() were supplied"@,
            DefinitionError::FlagWithoutSwitch => "Argument \""@ + a.name
                + "\" must have either a short() and/or long() supplied since no index() or takes_value() were found"@,
            DefinitionError::FlagRequired => "Argument \""@ + a.name
                + "\" cannot be required(true) because it has no index() or takes_value(true)"@,
        }
    }
}

/// Everything that has been declared for one command, as plain values.
pub struct Registry {
    /// The name shown in version, help and usage text.
    pub name: Seq<char>,
    pub author: Option<Seq<char>>,
    pub version: Option<Seq<char>>,
    pub about: Option<Seq<char>>,
    /// Replaces the generated usage line.
    pub usage_str: Option<Seq<char>>,
    /// The file name of the running program, once known.
    pub bin_name: Option<Seq<char>>,
    /// The declared flags, in the order of their declaration.
    pub flags: Seq<ArgSpec>,
    /// The declared options, in the order of their declaration.
    pub opts: Seq<ArgSpec>,
    /// The declared positionals, by ascending index.
    pub positionals: Seq<ArgSpec>,
    /// The subcommands, each a registry of its own.
    pub subcommands: Seq<Registry>,
    /// Whether `--help` still shows the help text.
    pub needs_long_help: bool,
    /// Whether `--version` still shows the version.
    pub needs_long_version: bool,
    /// Whether `-h` still shows the help text.
    pub needs_short_help: bool,
    /// Whether `-v` still shows the version.
    pub needs_short_version: bool,
    /// Whether a `help` subcommand is still to be supplied.
    pub needs_subcmd_help: bool,
    /// The names a run has to match.
    pub required: Seq<Seq<char>>,
    /// The names in use.
    pub arg_list: Seq<Seq<char>>,
    /// The short forms in use.
    pub short_list: Seq<char>,
    /// The long forms in use.
    pub long_list: Seq<Seq<char>>,
}

/// The index of the first positional whose index is at least `i`, or their number.
pub open spec fn slot_for(ps: Seq<ArgSpec>, i: u8) -> int
    decreases ps.len(),
{
    if ps.len() == 0 {
        0
    } else if ps[0].index is Some && ps[0].index->0 >= i {
        0
    } else {
        1 + slot_for(ps.drop_first(), i)
    }
}

/// Where the slot for the index `i` is: within `ps` or at its end, after every
/// positional with a lesser index, and at one with an index of at least `i`.
pub proof fn lemma_slot_for(ps: Seq<ArgSpec>, i: u8)
    ensures
        0 <= slot_for(ps, i) <= ps.len(),
        forall|j: int| 0 <= j < slot_for(ps, i) ==> !((#[trigger] ps[j]).index is Some && ps[j].index->0 >= i),
        slot_for(ps, i) < ps.len() ==> ps[slot_for(ps, i)].index is Some && ps[slot_for(ps, i)].index->0 >= i,
    decreases ps.len(),
{
    if ps.len() > 0 && !(ps[0].index is Some && ps[0].index->0 >= i) {
        let rest = ps.drop_first();
        lemma_slot_for(rest, i);
        assert forall|j: int| 0 <= j < slot_for(ps, i) implies !((#[trigger] ps[j]).index is Some
            && ps[j].index->0 >= i) by {
            if j > 0 {
                assert(ps[j] == rest[j - 1]);
            }
        }
    }
}

/// The slot for the index `i` is the only place after every lesser index and
/// at or before every other.
pub proof fn lemma_slot_is(ps: Seq<ArgSpec>, i: u8, k: int)
    requires
        0 <= k <= ps.len(),
        forall|j: int| 0 <= j < k ==> !((#[trigger] ps[j]).index is Some && ps[j].index->0 >= i),
        k < ps.len() ==> ps[k].index is Some && ps[k].index->0 >= i,
    ensures
        slot_for(ps, i) == k,
{
    lemma_slot_for(ps, i);
}

/// `ps` with the positional `a` at the place of its index: in place of the one
/// that had that index, or before the first with a greater one.
pub open spec fn place_positional(ps: Seq<ArgSpec>, a: ArgSpec) -> Seq<ArgSpec> {
    match a.index {
        Some(i) => {
            let k = slot_for(ps, i);
            if k < ps.len() && ps[k].index == Some(i) {
                ps.update(k, a)
            } else {
                ps.insert(k, a)
            }
        },
        None => ps,
    }
}

/// `args` with `a` in place of the argument of the same name, or at the end.
pub open spec fn upsert_arg(args: Seq<ArgSpec>, a: ArgSpec) -> Seq<ArgSpec> {
    let k = find_named(args, a.name);
    if k < args.len() {
        args.update(k, a)
    } else {
        args.push(a)
    }
}

/// The names of `subs`, in order.
pub open spec fn sub_names(subs: Seq<Registry>) -> Seq<Seq<char>> {
    subs.map_values(|r: Registry| r.name)
}

/// The index of the first of `subs` named `n`, or their number.
pub open spec fn find_sub(subs: Seq<Registry>, n: Seq<char>) -> int {
    first_index_of(sub_names(subs), n)
}

/// `subs` with `s` in place of the subcommand of the same name, or at the end.
pub open spec fn upsert_sub(subs: Seq<Registry>, s: Registry) -> Seq<Registry> {
    let k = find_sub(subs, s.name);
    if k < subs.len() {
        subs.update(k, s)
    } else {
        subs.push(s)
    }
}

/// The hidden flag that stands for the help text in listings.
pub open spec fn help_flag(with_short: bool) -> ArgSpec {
    ArgSpec {
        short: if with_short { Some('h') } else { None },
        long: Some("help"@),
        help: Some("Prints this message"@),
        ..ArgSpec::named("builtin_help"@)
    }
}

/// The hidden flag that stands for the version in listings.
pub open spec fn version_flag(with_short: bool) -> ArgSpec {
    ArgSpec {
        short: if with_short { Some('v') } else { None },
        long: Some("version"@),
        help: Some("Prints version information"@),
        ..ArgSpec::named("builtin_version"@)
    }
}

/// No two of `args` have the same name.
pub open spec fn distinct_names(args: Seq<ArgSpec>) -> bool {
    forall|i: int, j: int| 0 <= i < j < args.len() ==> (#[trigger] args[i]).name != (#[trigger] args[j]).name
}

/// No two of `args` have the same short form, nor the same long form.
pub open spec fn distinct_switches(args: Seq<ArgSpec>) -> bool {
    forall|i: int, j: int|
        0 <= i < j < args.len() ==> {
            &&& !((#[trigger] args[i]).short is Some && args[i].short == (#[trigger] args[j]).short)
            &&& !(args[i].long is Some && args[i].long == args[j].long)
        }
}

/// The positionals `ps` stand by strictly ascending index.
pub open spec fn ascending(ps: Seq<ArgSpec>) -> bool {
    forall|i: int, j: int|
        0 <= i < j < ps.len() ==> (#[trigger] ps[i]).index is Some && (#[trigger] ps[j]).index is Some
            && ps[i].index->0 < ps[j].index->0
}

impl Registry {
    /// The flags and the options: the arguments that tokens name by a switch.
    pub open spec fn switches(self) -> Seq<ArgSpec> {
        self.flags + self.opts
    }

    /// The declared arguments of every kind.
    pub open spec fn declared(self) -> Seq<ArgSpec> {
        self.flags + self.opts + self.positionals
    }

    /// Whether `a` is one of the declared arguments.
    pub open spec fn declares(self, a: ArgSpec) -> bool {
        self.flags.contains(a) || self.opts.contains(a) || self.positionals.contains(a)
    }

    /// Whether `a` leaves the built-in switches to the built-ins that are still due.
    pub open spec fn leaves_builtins(self, a: ArgSpec) -> bool {
        &&& self.needs_long_help ==> a.long != Some("help"@)
        &&& self.needs_long_version ==> a.long != Some("version"@)
        &&& self.needs_short_help ==> a.short != Some('h')
        &&& self.needs_short_version ==> a.short != Some('v')
    }

    /// What holds of every registry a run works with: within each kind no name
    /// occurs twice; no short and no long form is shared among flags and
    /// options; each argument has the shape of its kind; positionals stand by
    /// ascending index; and no option has a switch that a built-in still claims.
    pub open spec fn wf(self) -> bool {
        &&& distinct_names(self.flags)
        &&& distinct_names(self.opts)
        &&& distinct_names(self.positionals)
        &&& distinct_switches(self.switches())
        &&& ascending(self.positionals)
        &&& forall|i: int|
            0 <= i < self.flags.len() ==> {
                &&& (#[trigger] self.flags[i]).is_flag()
                &&& self.flags[i].has_switch()
                &&& !self.flags[i].required
            }
        &&& forall|i: int|
            0 <= i < self.opts.len() ==> {
                &&& (#[trigger] self.opts[i]).is_option()
                &&& self.opts[i].has_switch()
                &&& self.leaves_builtins(self.opts[i])
            }
        &&& forall|i: int|
            0 <= i < self.positionals.len() ==> {
                &&& (#[trigger] self.positionals[i]).is_positional()
                &&& !self.positionals[i].has_switch()
                &&& !self.positionals[i].multiple
                &&& !self.positionals[i].takes_value
            }
    }

    /// What holds of every registry that was assembled by declarations: it is
    /// well formed, no two arguments of whatever kind have the same name, no
    /// flag has a switch that a built-in still claims, and every name and
    /// switch in use is listed as used.
    pub open spec fn sound(self) -> bool {
        &&& self.wf()
        &&& distinct_names(self.declared())
        &&& forall|i: int| 0 <= i < self.flags.len() ==> self.leaves_builtins(#[trigger] self.flags[i])
        &&& forall|i: int| 0 <= i < self.flags.len() ==> self.arg_list.contains((#[trigger] self.flags[i]).name)
        &&& forall|i: int| 0 <= i < self.opts.len() ==> self.arg_list.contains((#[trigger] self.opts[i]).name)
        &&& forall|i: int|
            0 <= i < self.positionals.len() ==> self.arg_list.contains((#[trigger] self.positionals[i]).name)
        &&& forall|i: int|
            0 <= i < self.switches().len() ==> {
                &&& (#[trigger] self.switches()[i]).short is Some ==> self.short_list.contains(
                    self.switches()[i].short->0,
                )
                &&& self.switches()[i].long is Some ==> self.long_list.contains(self.switches()[i].long->0)
            }
    }

    /// An empty registry named `n`: every built-in is still due.
    pub open spec fn named(n: Seq<char>) -> Registry {
        Registry {
            name: n,
            author: None,
            version: None,
            about: None,
            usage_str: None,
            bin_name: None,
            flags: Seq::empty(),
            opts: Seq::empty(),
            positionals: Seq::empty(),
            subcommands: Seq::empty(),
            needs_long_help: true,
            needs_long_version: true,
            needs_short_help: true,
            needs_short_version: true,
            needs_subcmd_help: true,
            required: Seq::empty(),
            arg_list: Seq::empty(),
            short_list: Seq::empty(),
            long_list: Seq::empty(),
        }
    }

    /// Why `a` cannot be declared here, if it cannot. The checks run in this
    /// order: the name, the short form and the long form must be unused; then
    /// the shape must fit the kind.
    pub open spec fn definition_error(self, a: ArgSpec) -> Option<DefinitionError> {
        if self.arg_list.contains(a.name) {
            Some(DefinitionError::DuplicateName)
        } else if a.short is Some && self.short_list.contains(a.short->0) {
            Some(DefinitionError::DuplicateShort)
        } else if a.long is Some && self.long_list.contains(a.long->0) {
            Some(DefinitionError::DuplicateLong)
        } else if a.is_positional() {
            if a.has_switch() {
                Some(DefinitionError::PositionalWithSwitch)
            } else if a.multiple {
                Some(DefinitionError::PositionalMultiple)
            } else if a.takes_value {
                Some(DefinitionError::PositionalTakesValue)
            } else {
                None
            }
        } else if a.takes_value {
            if !a.has_switch() {
                Some(DefinitionError::OptionWithoutSwitch)
            } else {
                None
            }
        } else {
            if !a.has_switch() {
                Some(DefinitionError::FlagWithoutSwitch)
            } else if a.required {
                Some(DefinitionError::FlagRequired)
            } else {
                None
            }
        }
    }

    /// The registry once `a` is declared.
    pub open spec fn with_arg(self, a: ArgSpec) -> Registry {
        let claims_switch = !a.is_positional();
        Registry {
            arg_list: self.arg_list.push(a.name),
            short_list: match a.short {
                Some(c) => self.short_list.push(c),
                None => self.short_list,
            },
            long_list: match a.long {
                Some(l) => self.long_list.push(l),
                None => self.long_list,
            },
            required: if a.required {
                with_name(self.required, a.name)
            } else {
                self.required
            },
            positionals: if a.is_positional() {
                place_positional(self.positionals, a)
            } else {
                self.positionals
            },
            opts: if a.is_option() {
                self.opts.push(a)
            } else {
                self.opts
            },
            flags: if a.is_flag() {
                self.flags.push(a)
            } else {
                self.flags
            },
            needs_long_help: self.needs_long_help && !(claims_switch && a.long == Some("help"@)),
            needs_long_version: self.needs_long_version && !(claims_switch && a.long == Some("version"@)),
            needs_short_help: self.needs_short_help && !(claims_switch && a.short == Some('h')),
            needs_short_version: self.needs_short_version && !(claims_switch && a.short == Some('v')),
            ..self
        }
    }

    /// The registry once every argument of `args` is declared, first to last.
    pub open spec fn with_args(self, args: Seq<ArgSpec>) -> Registry
        decreases args.len(),
    {
        if args.len() == 0 {
            self
        } else {
            self.with_args(args.drop_last()).with_arg(args.last())
        }
    }

    /// Whether each of `args` can be declared after those before it.
    pub open spec fn accepts_all(self, args: Seq<ArgSpec>) -> bool
        decreases args.len(),
    {
        args.len() > 0 ==> {
            &&& self.accepts_all(args.drop_last())
            &&& self.with_args(args.drop_last()).definition_error(args.last()) is None
        }
    }

    /// The registry once `sub` is one of its subcommands.
    pub open spec fn with_subcommand(self, sub: Registry) -> Registry {
        Registry {
            needs_subcmd_help: self.needs_subcmd_help && sub.name != "help"@,
            subcommands: upsert_sub(self.subcommands, sub),
            ..self
        }
    }

    /// The registry once every registry of `subs` is one of its subcommands.
    pub open spec fn with_subcommands(self, subs: Seq<Registry>) -> Registry
        decreases subs.len(),
    {
        if subs.len() == 0 {
            self
        } else {
            self.with_subcommands(subs.drop_last()).with_subcommand(subs.last())
        }
    }

    /// The subcommand that shows the help text.
    pub open spec fn help_subcommand() -> Registry {
        Registry { about: Some("Prints this message"@), ..Registry::named("help"@) }
    }

    /// The registry a run works with: the built-in help and version flags are
    /// listed unless their long forms were claimed, each with its short form
    /// unless that was claimed; and a registry with subcommands has a `help`
    /// subcommand unless one was declared.
    pub open spec fn with_builtins(self) -> Registry {
        let flags1 = if self.needs_long_help {
            upsert_arg(self.flags, help_flag(self.needs_short_help))
        } else {
            self.flags
        };
        let flags2 = if self.needs_long_version {
            upsert_arg(flags1, version_flag(self.needs_short_version))
        } else {
            flags1
        };
        Registry {
            flags: flags2,
            subcommands: if self.needs_subcmd_help && self.subcommands.len() > 0 {
                upsert_sub(self.subcommands, Registry::help_subcommand())
            } else {
                self.subcommands
            },
            ..self
        }
    }
}

} // verus!
