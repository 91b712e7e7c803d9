//! Assembling a registry: the command's own texts, its arguments and its
//! subcommands.
use vstd::prelude::*;
use vstd::string::*;
use crate::arg::{lemma_specs_push, specs_of, Arg, ArgSpec};
use crate::registry::{
    find_sub, lemma_slot_is, place_positional, slot_for, sub_names, upsert_sub, DefinitionError, Registry,
};
use crate::text::{contains_char, contains_name, insert_name, lemma_first_index_is, names_of, opt_text};

verus! {

/// A command: what it is called, what it says of itself, and every argument
/// and subcommand it accepts.
pub struct App {
    pub(crate) name: String,
    pub(crate) author: Option<String>,
    pub(crate) version: Option<String>,
    pub(crate) about: Option<String>,
    pub(crate) usage_str: Option<String>,
    pub(crate) bin_name: Option<String>,
    pub(crate) flags: Vec<Arg>,
    pub(crate) opts: Vec<Arg>,
    pub(crate) positionals: Vec<Arg>,
    pub(crate) subcommands: Vec<App>,
    pub(crate) needs_long_help: bool,
    pub(crate) needs_long_version: bool,
    pub(crate) needs_short_help: bool,
    pub(crate) needs_short_version: bool,
    pub(crate) needs_subcmd_help: bool,
    pub(crate) required: Vec<String>,
    pub(crate) arg_list: Vec<String>,
    pub(crate) short_list: Vec<char>,
    pub(crate) long_list: Vec<String>,
}

impl View for App {
    type V = Registry;

    closed spec fn view(&self) -> Registry {
        self.model()
    }
}

/// The registries of the first `n` commands of `v`.
pub closed spec fn models_upto(v: Vec<App>, n: nat) -> Seq<Registry>
    decreases v, n,
{
    if n == 0 || n > v.len() {
        Seq::empty()
    } else {
        models_upto(v, (n - 1) as nat).push(v[n - 1].model())
    }
}

/// The registries of `v`, in order.
pub open spec fn registries_of(v: Seq<App>) -> Seq<Registry> {
    v.map_values(|a: App| a@)
}

impl App {
    /// The registry this command stands for.
    pub closed spec fn model(&self) -> Registry
        decreases self, 0nat,
    {
        Registry {
            name: self.name@,
            author: opt_text(self.author),
            version: opt_text(self.version),
            about: opt_text(self.about),
            usage_str: opt_text(self.usage_str),
            bin_name: opt_text(self.bin_name),
            flags: specs_of(self.flags@),
            opts: specs_of(self.opts@),
            positionals: specs_of(self.positionals@),
            subcommands: models_upto(self.subcommands, self.subcommands@.len()),
            needs_long_help: self.needs_long_help,
            needs_long_version: self.needs_long_version,
            needs_short_help: self.needs_short_help,
            needs_short_version: self.needs_short_version,
            needs_subcmd_help: self.needs_subcmd_help,
            required: names_of(self.required@),
            arg_list: names_of(self.arg_list@),
            short_list: self.short_list@,
            long_list: names_of(self.long_list@),
        }
    }

    /// What the fields of an `App` say of its registry.
    pub(crate) proof fn lemma_view(&self)
        ensures
            self@.name == self.name@,
            self@.author == opt_text(self.author),
            self@.version == opt_text(self.version),
            self@.about == opt_text(self.about),
            self@.usage_str == opt_text(self.usage_str),
            self@.bin_name == opt_text(self.bin_name),
            self@.flags == specs_of(self.flags@),
            self@.opts == specs_of(self.opts@),
            self@.positionals == specs_of(self.positionals@),
            self@.subcommands == registries_of(self.subcommands@),
            self@.needs_long_help == self.needs_long_help,
            self@.needs_long_version == self.needs_long_version,
            self@.needs_short_help == self.needs_short_help,
            self@.needs_short_version == self.needs_short_version,
            self@.needs_subcmd_help == self.needs_subcmd_help,
            self@.required == names_of(self.required@),
            self@.arg_list == names_of(self.arg_list@),
            self@.short_list == self.short_list@,
            self@.long_list == names_of(self.long_list@),
    {
        lemma_models_upto(self.subcommands, self.subcommands@.len());
        assert(self@.subcommands =~= registries_of(self.subcommands@));
    }

    /// Creates a command named `n` with nothing declared.
    pub fn new(n: &str) -> (r: App)
        ensures
            r@ == Registry::named(n@),
            r@.sound(),
    {
        let r = App {
            name: String::from_str(n),
            author: None,
            version: None,
            about: None,
            usage_str: None,
            bin_name: None,
            flags: Vec::new(),
            opts: Vec::new(),
            positionals: Vec::new(),
            subcommands: Vec::new(),
            needs_long_help: true,
            needs_long_version: true,
            needs_short_help: true,
            needs_short_version: true,
            needs_subcmd_help: true,
            required: Vec::new(),
            arg_list: Vec::new(),
            short_list: Vec::new(),
            long_list: Vec::new(),
        };
        proof {
            r.lemma_view();
            assert(r@.flags =~= Seq::empty());
            assert(r@.opts =~= Seq::empty());
            assert(r@.positionals =~= Seq::empty());
            assert(r@.subcommands =~= Seq::empty());
            assert(r@.required =~= Seq::empty());
            assert(r@.arg_list =~= Seq::empty());
            assert(r@.short_list =~= Seq::empty());
            assert(r@.long_list =~= Seq::empty());
        }
        r
    }

    /// Sets the author line of the help text.
    pub fn author(self, a: &str) -> (r: App)
        ensures
            r@ == (Registry { author: Some(a@), ..self@ }),
            self@.sound() ==> r@.sound(),
    {
        let mut r = self;
        r.author = Some(String::from_str(a));
        proof {
            self.lemma_view();
            r.lemma_view();
            if self@.sound() {
                crate::soundness::law_texts_and_subcommands_are_free(self@, r@);
            }
        }
        r
    }

    /// Sets the line that says what the command does.
    pub fn about(self, a: &str) -> (r: App)
        ensures
            r@ == (Registry { about: Some(a@), ..self@ }),
            self@.sound() ==> r@.sound(),
    {
        let mut r = self;
        r.about = Some(String::from_str(a));
        proof {
            self.lemma_view();
            r.lemma_view();
            if self@.sound() {
                crate::soundness::law_texts_and_subcommands_are_free(self@, r@);
            }
        }
        r
    }

    /// Sets the version shown after the name.
    pub fn version(self, v: &str) -> (r: App)
        ensures
            r@ == (Registry { version: Some(v@), ..self@ }),
            self@.sound() ==> r@.sound(),
    {
        let mut r = self;
        r.version = Some(String::from_str(v));
        proof {
            self.lemma_view();
            r.lemma_view();
            if self@.sound() {
                crate::soundness::law_texts_and_subcommands_are_free(self@, r@);
            }
        }
        r
    }

    /// Replaces the generated usage line by `u`.
    pub fn usage(self, u: &str) -> (r: App)
        ensures
            r@ == (Registry { usage_str: Some(u@), ..self@ }),
            self@.sound() ==> r@.sound(),
    {
        let mut r = self;
        r.usage_str = Some(String::from_str(u));
        proof {
            self.lemma_view();
            r.lemma_view();
            if self@.sound() {
                crate::soundness::law_texts_and_subcommands_are_free(self@, r@);
            }
        }
        r
    }

    /// Says why `a` cannot be declared, or `None` when it can.
    pub fn check_arg(&self, a: &Arg) -> (r: Option<DefinitionError>)
        ensures
            r == self@.definition_error(a@),
    {
        proof {
            self.lemma_view();
        }
        if contains_name(&self.arg_list, &a.name) {
            return Some(DefinitionError::DuplicateName);
        }
        match a.short {
            Some(c) => {
                if contains_char(&self.short_list, c) {
                    return Some(DefinitionError::DuplicateShort);
                }
            },
            None => {},
        }
        match &a.long {
            Some(l) => {
                if contains_name(&self.long_list, l) {
                    return Some(DefinitionError::DuplicateLong);
                }
            },
            None => {},
        }
        let has_switch = a.short.is_some() || a.long.is_some();
        if a.index.is_some() {
            if has_switch {
                Some(DefinitionError::PositionalWithSwitch)
            } else if a.multiple {
                Some(DefinitionError::PositionalMultiple)
            } else if a.takes_value {
                Some(DefinitionError::PositionalTakesValue)
            } else {
                None
            }
        } else if a.takes_value {
            if !has_switch {
                Some(DefinitionError::OptionWithoutSwitch)
            } else {
                None
            }
        } else {
            if !has_switch {
                Some(DefinitionError::FlagWithoutSwitch)
            } else if a.required {
                Some(DefinitionError::FlagRequired)
            } else {
                None
            }
        }
    }

    /// Declares the argument `a`: a positional if it has an index, an option if
    /// it takes a value, a flag otherwise.
    pub fn arg(self, a: Arg) -> (r: App)
        requires
            self@.definition_error(a@) is None,
        ensures
            r@ == self@.with_arg(a@),
            self@.sound() ==> r@.sound(),
    {
        let ghost before = self@;
        proof {
            self.lemma_view();
        }
        let mut r = self;
        proof {
            crate::text::lemma_names_push(r.arg_list@, a.name);
        }
        r.arg_list.push(a.name.clone());
        match a.short {
            Some(c) => {
                r.short_list.push(c);
            },
            None => {},
        }
        match &a.long {
            Some(l) => {
                proof {
                    crate::text::lemma_names_push(r.long_list@, *l);
                }
                r.long_list.push(l.clone());
            },
            None => {},
        }
        if a.required {
            insert_name(&mut r.required, a.name.clone());
        }
        match a.index {
            Some(i) => {
                let k = slot_index(&r.positionals, i);
                let replace = k < r.positionals.len() && match r.positionals[k].index {
                    Some(j) => j == i,
                    None => false,
                };
                if replace {
                    r.positionals.remove(k);
                }
                r.positionals.insert(k, a);
                assert(specs_of(r.positionals@) =~= place_positional(before.positionals, a@));
            },
            None => {
                let claims_long_help = match &a.long {
                    Some(l) => is_word(l, "help"),
                    None => false,
                };
                let claims_long_version = match &a.long {
                    Some(l) => is_word(l, "version"),
                    None => false,
                };
                if claims_long_help {
                    r.needs_long_help = false;
                }
                if claims_long_version {
                    r.needs_long_version = false;
                }
                match a.short {
                    Some(c) => {
                        if c == 'h' {
                            r.needs_short_help = false;
                        }
                        if c == 'v' {
                            r.needs_short_version = false;
                        }
                    },
                    None => {},
                }
                if a.takes_value {
                    proof {
                        lemma_specs_push(r.opts@, a);
                    }
                    r.opts.push(a);
                } else {
                    proof {
                        lemma_specs_push(r.flags@, a);
                    }
                    r.flags.push(a);
                }
            },
        }
        proof {
            r.lemma_view();
            assert(r@.subcommands =~= before.subcommands);
            assert(r@.short_list =~= before.with_arg(a@).short_list);
            if before.sound() {
                crate::soundness::law_declaring_keeps_sound(before, a@);
            }
        }
        r
    }

    /// Declares each argument of `args`, first to last.
    pub fn args(self, args: Vec<Arg>) -> (r: App)
        requires
            self@.accepts_all(specs_of(args@)),
        ensures
            r@ == self@.with_args(specs_of(args@)),
            self@.sound() ==> r@.sound(),
    {
        proof {
            if self@.sound() {
                crate::soundness::law_declaring_all_keeps_sound(self@, specs_of(args@));
            }
        }
        let ghost all = specs_of(args@);
        let mut r = self;
        let mut rest = args;
        let mut done: usize = 0;
        let total = rest.len();
        while done < total
            invariant
                done <= total == all.len(),
                specs_of(rest@) == all.skip(done as int),
                r@ == self@.with_args(all.take(done as int)),
                self@.accepts_all(all),
            decreases total - done,
        {
            assert(rest@.len() == specs_of(rest@).len());
            let ghost left = rest@;
            let a = rest.remove(0);
            assert forall|j: int| 0 <= j < rest@.len() implies specs_of(rest@)[j] == all.skip(done + 1)[j] by {
                assert(rest@[j] == left[j + 1]);
                assert(specs_of(left)[j + 1] == all.skip(done as int)[j + 1]);
            }
            assert(specs_of(rest@) =~= all.skip(done + 1));
            assert(a@ == specs_of(left)[0]);
            proof {
                assert(a@ == all[done as int]);
                assert(all.take(done + 1).drop_last() =~= all.take(done as int));
                lemma_accepts_prefix(self@, all, done + 1);
            }
            r = r.arg(a);
            done += 1;
        }
        proof {
            assert(all.take(total as int) =~= all);
        }
        r
    }

    /// Adds `subcmd` as a subcommand, in place of one of the same name if there
    /// is one.
    pub fn subcommand(self, subcmd: App) -> (r: App)
        ensures
            r@ == self@.with_subcommand(subcmd@),
            self@.sound() ==> r@.sound(),
    {
        let ghost before = self@;
        proof {
            self.lemma_view();
            subcmd.lemma_view();
        }
        let mut r = self;
        if is_word(&subcmd.name, "help") {
            r.needs_subcmd_help = false;
        }
        upsert_subcommand(&mut r.subcommands, subcmd);
        proof {
            r.lemma_view();
            if before.sound() {
                crate::soundness::law_texts_and_subcommands_are_free(before, r@);
            }
        }
        r
    }

    /// Adds each command of `subcmds` as a subcommand, first to last.
    pub fn subcommands(self, subcmds: Vec<App>) -> (r: App)
        ensures
            r@ == self@.with_subcommands(registries_of(subcmds@)),
            self@.sound() ==> r@.sound(),
    {
        proof {
            if self@.sound() {
                crate::soundness::law_subcommands_keep_sound(self@, registries_of(subcmds@));
            }
        }
        let ghost all = registries_of(subcmds@);
        let mut r = self;
        let mut rest = subcmds;
        let mut done: usize = 0;
        let total = rest.len();
        while done < total
            invariant
                done <= total == all.len(),
                registries_of(rest@) == all.skip(done as int),
                r@ == self@.with_subcommands(all.take(done as int)),
            decreases total - done,
        {
            assert(rest@.len() == registries_of(rest@).len());
            let ghost left = rest@;
            let s = rest.remove(0);
            assert forall|j: int| 0 <= j < rest@.len() implies registries_of(rest@)[j] == all.skip(done + 1)[j] by {
                assert(rest@[j] == left[j + 1]);
                assert(registries_of(left)[j + 1] == all.skip(done as int)[j + 1]);
            }
            assert(registries_of(rest@) =~= all.skip(done + 1));
            assert(s@ == registries_of(left)[0]);
            proof {
                assert(s@ == all[done as int]);
                assert(all.take(done + 1).drop_last() =~= all.take(done as int));
            }
            r = r.subcommand(s);
            done += 1;
        }
        proof {
            assert(all.take(total as int) =~= all);
        }
        r
    }
}

/// The registries of the first `n` commands are the registries of their list.
proof fn lemma_models_upto(v: Vec<App>, n: nat)
    requires
        n <= v@.len(),
    ensures
        models_upto(v, n) == registries_of(v@.take(n as int)),
    decreases n,
{
    if n > 0 {
        lemma_models_upto(v, (n - 1) as nat);
        assert(v[n - 1] == v@[n - 1]);
        assert(registries_of(v@.take(n as int)) =~= registries_of(v@.take(n - 1)).push(v@[n - 1]@));
    } else {
        assert(registries_of(v@.take(0)) =~= Seq::<Registry>::empty());
    }
}

/// Tells the author of a command what is wrong with the declaration of `a`.
pub fn describe(e: DefinitionError, a: &Arg) -> (r: String)
    ensures
        r@ == e.message(a@),
{
    match e {
        DefinitionError::DuplicateName => {
            let mut r = String::from_str("Argument name must be unique, \"");
            r.append(a.name.as_str());
            r.append("\" is already in use");
            r
        },
        DefinitionError::DuplicateShort => {
            let mut r = String::from_str("Argument short must be unique, -");
            match a.short {
                Some(c) => {
                    let ghost before = r@;
                    crate::text::push_char(&mut r, c);
                    assert(r@ =~= before + seq![c]);
                },
                None => {
                    assert(r@ + Seq::<char>::empty() =~= r@);
                },
            }
            r.append(" is already in use");
            r
        },
        DefinitionError::DuplicateLong => {
            let mut r = String::from_str("Argument long must be unique, --");
            match &a.long {
                Some(l) => r.append(l.as_str()),
                None => {
                    assert(r@ + Seq::<char>::empty() =~= r@);
                },
            }
            r.append(" is already in use");
            r
        },
        DefinitionError::PositionalWithSwitch => {
            let mut r = String::from_str("Argument \"");
            r.append(a.name.as_str());
            r.append("\" has conflicting requirements, both index() and short(), or long(), were supplied");
            r
        },
        DefinitionError::PositionalMultiple => {
            let mut r = String::from_str("Argument \"");
            r.append(a.name.as_str());
            r.append("\" has conflicting requirements, both index() and multiple(true) were supplied");
            r
        },
        DefinitionError::PositionalTakesValue => {
            let mut r = String::from_str("Argument \"");
            r.append(a.name.as_str());
            r.append("\" has conflicting requirements, both index() and takes_value(true) were supplied");
            r
        },
        DefinitionError::OptionWithoutSwitch => {
            let mut r = String::from_str("Argument \"");
            r.append(a.name.as_str());
            r.append("\" has take_value(true), yet neither a short() or long() were supplied");
            r
        },
        DefinitionError::FlagWithoutSwitch => {
            let mut r = String::from_str("Argument \"");
            r.append(a.name.as_str());
            r.append(
                "\" must have either a short() and/or long() supplied since no index() or takes_value() were found",
            );
            r
        },
        DefinitionError::FlagRequired => {
            let mut r = String::from_str("Argument \"");
            r.append(a.name.as_str());
            r.append("\" cannot be required(true) because it has no index() or takes_value(true)");
            r
        },
    }
}

/// Puts `sub` in place of the subcommand of the same name, or at the end.
pub(crate) fn upsert_subcommand(subs: &mut Vec<App>, sub: App)
    ensures
        registries_of(final(subs)@) == upsert_sub(registries_of(old(subs)@), sub@),
{
    proof {
        sub.lemma_view();
    }
    let k = sub_index(subs, &sub.name);
    if k < subs.len() {
        subs.remove(k);
        subs.insert(k, sub);
    } else {
        subs.push(sub);
    }
    assert(registries_of(subs@) =~= upsert_sub(registries_of(old(subs)@), sub@));
}

/// Whether `s` reads `word`.
pub(crate) fn is_word(s: &String, word: &str) -> (r: bool)
    ensures
        r == (s@ == word@),
{
    let w = String::from_str(word);
    *s == w
}

/// The index of the first positional whose index is at least `i`, or their number.
pub(crate) fn slot_index(ps: &Vec<Arg>, i: u8) -> (r: usize)
    ensures
        r == slot_for(specs_of(ps@), i),
        r <= ps@.len(),
{
    let mut k: usize = 0;
    while k < ps.len()
        invariant
            k <= ps@.len(),
            forall|j: int| 0 <= j < k ==> !((#[trigger] specs_of(ps@)[j]).index is Some && specs_of(ps@)[j].index->0 >= i),
        decreases ps@.len() - k,
    {
        let hit = match ps[k].index {
            Some(j) => j >= i,
            None => false,
        };
        if hit {
            proof {
                lemma_slot_is(specs_of(ps@), i, k as int);
            }
            return k;
        }
        k += 1;
    }
    proof {
        lemma_slot_is(specs_of(ps@), i, k as int);
    }
    k
}

/// The index of the first of `subs` named `n`, or their number.
pub(crate) fn sub_index(subs: &Vec<App>, n: &String) -> (r: usize)
    ensures
        r == find_sub(registries_of(subs@), n@),
        r <= subs@.len(),
{
    let mut i: usize = 0;
    while i < subs.len() && !(subs[i].name == *n)
        invariant
            i <= subs@.len(),
            forall|j: int| 0 <= j < i ==> sub_names(registries_of(subs@))[j] != n@,
        decreases subs@.len() - i,
    {
        proof {
            subs@[i as int].lemma_view();
        }
        i += 1;
    }
    proof {
        if i < subs.len() {
            subs@[i as int].lemma_view();
        }
        lemma_first_index_is(sub_names(registries_of(subs@)), n@, i as int);
    }
    i
}

/// Where a list of arguments can be declared, so can each of its beginnings.
pub proof fn lemma_accepts_prefix(r: Registry, args: Seq<ArgSpec>, k: int)
    requires
        r.accepts_all(args),
        0 < k <= args.len(),
    ensures
        r.accepts_all(args.take(k)),
        r.with_args(args.take(k).drop_last()).definition_error(args[k - 1]) is None,
    decreases args.len(),
{
    if k == args.len() {
        assert(args.take(k) =~= args);
    } else {
        lemma_accepts_prefix(r, args.drop_last(), k);
        assert(args.drop_last().take(k) =~= args.take(k));
    }
}

} // verus!
