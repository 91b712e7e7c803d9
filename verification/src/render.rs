//! The texts a command shows: its version line, its usage and its help.
use vstd::prelude::*;
use vstd::string::*;
use crate::app::{registries_of, App};
use crate::arg::{specs_of, Arg, ArgSpec};
use crate::registry::Registry;
use crate::text::push_char;

verus! {

/// `o`, or `fallback` where there is none.
pub open spec fn text_or(o: Option<Seq<char>>, fallback: Seq<char>) -> Seq<char> {
    match o {
        Some(t) => t,
        None => fallback,
    }
}

/// `o` on a line of its own, or nothing where there is none.
pub open spec fn line_of(o: Option<Seq<char>>) -> Seq<char> {
    match o {
        Some(t) => t + "\n"@,
        None => Seq::empty(),
    }
}

/// How a required option is shown in the usage line: by its short form if it
/// has one, else by its long form, followed by its name.
pub open spec fn required_opt_text(o: ArgSpec) -> Seq<char> {
    match o.short {
        Some(c) => "-"@.push(c) + " "@ + o.name + " "@,
        None => "--"@ + text_or(o.long, Seq::empty()) + "="@ + o.name + " "@,
    }
}

/// The required options of `opts`, as the usage line shows them.
pub open spec fn required_opts_text(opts: Seq<ArgSpec>) -> Seq<char>
    decreases opts.len(),
{
    if opts.len() == 0 {
        Seq::empty()
    } else if opts.last().required {
        required_opts_text(opts.drop_last()) + required_opt_text(opts.last())
    } else {
        required_opts_text(opts.drop_last())
    }
}

/// The required positionals of `ps`, as the usage line shows them.
pub open spec fn required_positionals_text(ps: Seq<ArgSpec>) -> Seq<char>
    decreases ps.len(),
{
    if ps.len() == 0 {
        Seq::empty()
    } else if ps.last().required {
        required_positionals_text(ps.drop_last()) + ("<"@ + ps.last().name + "> "@)
    } else {
        required_positionals_text(ps.drop_last())
    }
}

/// What stands for the options in the usage line.
pub open spec fn opts_part(opts: Seq<ArgSpec>) -> Seq<char> {
    if opts.len() == 0 {
        Seq::empty()
    } else if required_opts_text(opts).len() == 0 {
        "[OPTIONS]"@
    } else {
        required_opts_text(opts)
    }
}

/// What stands for the positionals in the usage line.
pub open spec fn positionals_part(ps: Seq<ArgSpec>) -> Seq<char> {
    if ps.len() == 0 {
        Seq::empty()
    } else if required_positionals_text(ps).len() == 0 {
        "[POSITIONAL]"@
    } else {
        required_positionals_text(ps)
    }
}

/// The line of the help text that lists one flag.
pub open spec fn flag_line(f: ArgSpec) -> Seq<char> {
    "\t"@ + (match f.short {
        Some(c) => "-"@.push(c),
        None => "   "@,
    }) + (match f.long {
        Some(l) => ",--"@ + l,
        None => "   \t"@,
    }) + "\t"@ + text_or(f.help, "   "@) + "\n"@
}

/// The line of the help text that lists one option.
pub open spec fn opt_line(o: ArgSpec) -> Seq<char> {
    "\t"@ + (match o.short {
        Some(c) => "-"@.push(c) + " "@,
        None => "   "@,
    }) + (match o.long {
        Some(l) => ",--"@ + l + "="@,
        None => " "@,
    }) + o.name + "\t"@ + (match o.help {
        Some(h) => if o.long is None {
            "\t"@ + h
        } else {
            h
        },
        None => "   "@,
    }) + "\n"@
}

/// The line of the help text that lists one positional.
pub open spec fn positional_line(p: ArgSpec) -> Seq<char> {
    "\t"@ + p.name + "\t\t\t"@ + text_or(p.help, "   "@) + "\n"@
}

/// The line of the help text that lists one subcommand.
pub open spec fn subcommand_line(s: Registry) -> Seq<char> {
    "\t"@ + s.name + "\t\t"@ + text_or(s.about, "   "@) + "\n"@
}

pub open spec fn flag_lines(flags: Seq<ArgSpec>) -> Seq<char>
    decreases flags.len(),
{
    if flags.len() == 0 {
        Seq::empty()
    } else {
        flag_lines(flags.drop_last()) + flag_line(flags.last())
    }
}

pub open spec fn opt_lines(opts: Seq<ArgSpec>) -> Seq<char>
    decreases opts.len(),
{
    if opts.len() == 0 {
        Seq::empty()
    } else {
        opt_lines(opts.drop_last()) + opt_line(opts.last())
    }
}

pub open spec fn positional_lines(ps: Seq<ArgSpec>) -> Seq<char>
    decreases ps.len(),
{
    if ps.len() == 0 {
        Seq::empty()
    } else {
        positional_lines(ps.drop_last()) + positional_line(ps.last())
    }
}

pub open spec fn subcommand_lines(subs: Seq<Registry>) -> Seq<char>
    decreases subs.len(),
{
    if subs.len() == 0 {
        Seq::empty()
    } else {
        subcommand_lines(subs.drop_last()) + subcommand_line(subs.last())
    }
}

/// A heading with the lines below it, after an empty line; nothing where
/// there are no lines to show.
pub open spec fn section(shown: bool, heading: Seq<char>, lines: Seq<char>) -> Seq<char> {
    if shown {
        "\n"@ + heading + "\n"@ + lines
    } else {
        Seq::empty()
    }
}

impl Registry {
    /// The name and the version on one line.
    pub open spec fn version_text(self) -> Seq<char> {
        self.name + " "@ + text_or(self.version, Seq::empty()) + "\n"@
    }

    /// The generated usage line: the program's name, then a placeholder for
    /// each kind of argument that is declared, with the required options and
    /// positionals spelled out in place of theirs.
    pub open spec fn usage_line(self) -> Seq<char> {
        "\t"@ + text_or(self.bin_name, self.name) + " "@ + (if self.flags.len() > 0 {
            "[FLAGS]"@
        } else {
            Seq::empty()
        }) + " "@ + opts_part(self.opts) + " "@ + positionals_part(self.positionals) + " "@ + (if self.subcommands.len()
            > 0 {
            "[SUBCOMMANDS]"@
        } else {
            Seq::empty()
        })
    }

    /// The usage block: the override if one was set, else the generated line,
    /// and the pointer to `--help` where `more_info` asks for it.
    pub open spec fn usage_text(self, more_info: bool) -> Seq<char> {
        "USAGE:\n"@ + (match self.usage_str {
            Some(u) => "\t"@ + u + "\n"@,
            None => self.usage_line(),
        }) + (if more_info {
            "\nFor more information try --help\n"@
        } else {
            Seq::empty()
        })
    }

    /// The help text: version line, author, about, an empty line, the usage
    /// block, then one section for each kind of argument that is declared.
    pub open spec fn help_text(self) -> Seq<char> {
        let any = self.flags.len() > 0 || self.opts.len() > 0 || self.positionals.len() > 0
            || self.subcommands.len() > 0;
        self.version_text() + line_of(self.author) + line_of(self.about) + "\n"@ + self.usage_text(false)
            + (if any {
            "\n"@
        } else {
            Seq::empty()
        }) + section(self.flags.len() > 0, "FLAGS:"@, flag_lines(self.flags)) + section(
            self.opts.len() > 0,
            "OPTIONS:"@,
            opt_lines(self.opts),
        ) + section(self.positionals.len() > 0, "POSITIONAL ARGUMENTS:"@, positional_lines(self.positionals))
            + section(self.subcommands.len() > 0, "SUBCOMMANDS:"@, subcommand_lines(self.subcommands))
    }
}

/// Appends `o` to `out`, or `fallback` where there is none.
fn append_or(out: &mut String, o: &Option<String>, fallback: &str)
    ensures
        final(out)@ == old(out)@ + text_or(crate::text::opt_text(*o), fallback@),
{
    match o {
        Some(t) => out.append(t.as_str()),
        None => out.append(fallback),
    }
}

/// A dash followed by `c`.
pub(crate) fn dash(c: char) -> (r: String)
    ensures
        r@ == "-"@.push(c),
{
    let mut r = String::from_str("-");
    push_char(&mut r, c);
    r
}

fn required_opt(o: &Arg) -> (r: String)
    ensures
        r@ == required_opt_text(o@),
{
    match o.short {
        Some(c) => {
            let mut r = dash(c);
            r.append(" ");
            r.append(o.name.as_str());
            r.append(" ");
            r
        },
        None => {
            let mut r = String::from_str("--");
            append_or(&mut r, &o.long, "");
            r.append("=");
            r.append(o.name.as_str());
            r.append(" ");
            proof {
                reveal_strlit("");
                assert(""@ =~= Seq::<char>::empty());
            }
            r
        },
    }
}

fn required_opts(opts: &Vec<Arg>) -> (r: String)
    ensures
        r@ == required_opts_text(specs_of(opts@)),
{
    let mut out = String::new();
    let mut i: usize = 0;
    while i < opts.len()
        invariant
            i <= opts@.len(),
            out@ == required_opts_text(specs_of(opts@).take(i as int)),
        decreases opts@.len() - i,
    {
        proof {
            assert(specs_of(opts@).take(i + 1).drop_last() =~= specs_of(opts@).take(i as int));
        }
        if opts[i].required {
            let piece = required_opt(&opts[i]);
            out.append(piece.as_str());
        }
        i += 1;
    }
    proof {
        assert(specs_of(opts@).take(opts@.len() as int) =~= specs_of(opts@));
    }
    out
}

fn required_positionals(ps: &Vec<Arg>) -> (r: String)
    ensures
        r@ == required_positionals_text(specs_of(ps@)),
{
    let mut out = String::new();
    let mut i: usize = 0;
    while i < ps.len()
        invariant
            i <= ps@.len(),
            out@ == required_positionals_text(specs_of(ps@).take(i as int)),
        decreases ps@.len() - i,
    {
        proof {
            assert(specs_of(ps@).take(i + 1).drop_last() =~= specs_of(ps@).take(i as int));
        }
        if ps[i].required {
            let mut piece = String::from_str("<");
            piece.append(ps[i].name.as_str());
            piece.append("> ");
            out.append(piece.as_str());
        }
        i += 1;
    }
    proof {
        assert(specs_of(ps@).take(ps@.len() as int) =~= specs_of(ps@));
    }
    out
}

fn flag_line_of(f: &Arg) -> (r: String)
    ensures
        r@ == flag_line(f@),
{
    let mut r = String::from_str("\t");
    match f.short {
        Some(c) => {
            let d = dash(c);
            r.append(d.as_str());
        },
        None => r.append("   "),
    }
    match &f.long {
        Some(l) => {
            let mut piece = String::from_str(",--");
            piece.append(l.as_str());
            r.append(piece.as_str());
        },
        None => r.append("   \t"),
    }
    r.append("\t");
    append_or(&mut r, &f.help, "   ");
    r.append("\n");
    r
}

fn opt_line_of(o: &Arg) -> (r: String)
    ensures
        r@ == opt_line(o@),
{
    let mut r = String::from_str("\t");
    match o.short {
        Some(c) => {
            let mut d = dash(c);
            d.append(" ");
            r.append(d.as_str());
        },
        None => r.append("   "),
    }
    match &o.long {
        Some(l) => {
            let mut piece = String::from_str(",--");
            piece.append(l.as_str());
            piece.append("=");
            r.append(piece.as_str());
        },
        None => r.append(" "),
    }
    r.append(o.name.as_str());
    r.append("\t");
    match &o.help {
        Some(h) => {
            if o.long.is_none() {
                let mut piece = String::from_str("\t");
                piece.append(h.as_str());
                r.append(piece.as_str());
            } else {
                r.append(h.as_str());
            }
        },
        None => r.append("   "),
    }
    r.append("\n");
    r
}

fn positional_line_of(p: &Arg) -> (r: String)
    ensures
        r@ == positional_line(p@),
{
    let mut r = String::from_str("\t");
    r.append(p.name.as_str());
    r.append("\t\t\t");
    append_or(&mut r, &p.help, "   ");
    r.append("\n");
    r
}

fn subcommand_line_of(s: &App) -> (r: String)
    ensures
        r@ == subcommand_line(s@),
{
    proof {
        s.lemma_view();
    }
    let mut r = String::from_str("\t");
    r.append(s.name.as_str());
    r.append("\t\t");
    append_or(&mut r, &s.about, "   ");
    r.append("\n");
    r
}

/// Appends a section to `out`: an empty line, the heading, the lines.
fn append_section(out: &mut String, shown: bool, heading: &str, lines: &String)
    ensures
        final(out)@ == old(out)@ + section(shown, heading@, lines@),
{
    if shown {
        let mut piece = String::from_str("\n");
        piece.append(heading);
        piece.append("\n");
        piece.append(lines.as_str());
        out.append(piece.as_str());
    } else {
        assert(out@ + Seq::<char>::empty() =~= out@);
    }
}

impl App {
    /// The name and the version on one line.
    pub fn version_text(&self) -> (r: String)
        ensures
            r@ == self@.version_text(),
    {
        proof {
            self.lemma_view();
            reveal_strlit("");
            assert(""@ =~= Seq::<char>::empty());
        }
        let mut r = self.name.clone();
        r.append(" ");
        append_or(&mut r, &self.version, "");
        r.append("\n");
        r
    }

    fn usage_line(&self) -> (r: String)
        ensures
            r@ == self@.usage_line(),
    {
        proof {
            self.lemma_view();
            reveal_strlit("");
            assert(""@ =~= Seq::<char>::empty());
        }
        let mut r = String::from_str("\t");
        match &self.bin_name {
            Some(b) => r.append(b.as_str()),
            None => r.append(self.name.as_str()),
        }
        r.append(" ");
        r.append(if self.flags.len() > 0 { "[FLAGS]" } else { "" });
        r.append(" ");
        if self.opts.len() > 0 {
            let req = required_opts(&self.opts);
            if req.as_str().unicode_len() == 0 {
                r.append("[OPTIONS]");
            } else {
                r.append(req.as_str());
            }
        } else {
            r.append("");
        }
        r.append(" ");
        if self.positionals.len() > 0 {
            let req = required_positionals(&self.positionals);
            if req.as_str().unicode_len() == 0 {
                r.append("[POSITIONAL]");
            } else {
                r.append(req.as_str());
            }
        } else {
            r.append("");
        }
        r.append(" ");
        r.append(if self.subcommands.len() > 0 { "[SUBCOMMANDS]" } else { "" });
        r
    }

    /// The usage block, with the pointer to `--help` where `more_info` asks for it.
    pub fn usage_text(&self, more_info: bool) -> (r: String)
        ensures
            r@ == self@.usage_text(more_info),
    {
        proof {
            self.lemma_view();
            reveal_strlit("");
            assert(""@ =~= Seq::<char>::empty());
        }
        let mut r = String::from_str("USAGE:\n");
        match &self.usage_str {
            Some(u) => {
                let mut piece = String::from_str("\t");
                piece.append(u.as_str());
                piece.append("\n");
                r.append(piece.as_str());
            },
            None => {
                let line = self.usage_line();
                r.append(line.as_str());
            },
        }
        r.append(if more_info { "\nFor more information try --help\n" } else { "" });
        r
    }

    /// The whole help text.
    pub fn help_text(&self) -> (r: String)
        ensures
            r@ == self@.help_text(),
    {
        proof {
            self.lemma_view();
            reveal_strlit("");
            assert(""@ =~= Seq::<char>::empty());
        }
        let flags = self.flags.len() > 0;
        let opts = self.opts.len() > 0;
        let pos = self.positionals.len() > 0;
        let subcmds = self.subcommands.len() > 0;
        let mut r = self.version_text();
        match &self.author {
            Some(a) => {
                let mut piece = a.clone();
                piece.append("\n");
                r.append(piece.as_str());
            },
            None => r.append(""),
        }
        match &self.about {
            Some(a) => {
                let mut piece = a.clone();
                piece.append("\n");
                r.append(piece.as_str());
            },
            None => r.append(""),
        }
        r.append("\n");
        let usage = self.usage_text(false);
        r.append(usage.as_str());
        r.append(if flags || opts || pos || subcmds { "\n" } else { "" });

        let mut lines = String::new();
        let mut i: usize = 0;
        while i < self.flags.len()
            invariant
                i <= self.flags@.len(),
                lines@ == flag_lines(specs_of(self.flags@).take(i as int)),
            decreases self.flags@.len() - i,
        {
            proof {
                assert(specs_of(self.flags@).take(i + 1).drop_last() =~= specs_of(self.flags@).take(i as int));
            }
            let line = flag_line_of(&self.flags[i]);
            lines.append(line.as_str());
            i += 1;
        }
        proof {
            assert(specs_of(self.flags@).take(self.flags@.len() as int) =~= specs_of(self.flags@));
        }
        append_section(&mut r, flags, "FLAGS:", &lines);

        let mut lines = String::new();
        let mut i: usize = 0;
        while i < self.opts.len()
            invariant
                i <= self.opts@.len(),
                lines@ == opt_lines(specs_of(self.opts@).take(i as int)),
            decreases self.opts@.len() - i,
        {
            proof {
                assert(specs_of(self.opts@).take(i + 1).drop_last() =~= specs_of(self.opts@).take(i as int));
            }
            let line = opt_line_of(&self.opts[i]);
            lines.append(line.as_str());
            i += 1;
        }
        proof {
            assert(specs_of(self.opts@).take(self.opts@.len() as int) =~= specs_of(self.opts@));
        }
        append_section(&mut r, opts, "OPTIONS:", &lines);

        let mut lines = String::new();
        let mut i: usize = 0;
        while i < self.positionals.len()
            invariant
                i <= self.positionals@.len(),
                lines@ == positional_lines(specs_of(self.positionals@).take(i as int)),
            decreases self.positionals@.len() - i,
        {
            proof {
                assert(specs_of(self.positionals@).take(i + 1).drop_last() =~= specs_of(self.positionals@).take(
                    i as int,
                ));
            }
            let line = positional_line_of(&self.positionals[i]);
            lines.append(line.as_str());
            i += 1;
        }
        proof {
            assert(specs_of(self.positionals@).take(self.positionals@.len() as int) =~= specs_of(
                self.positionals@,
            ));
        }
        append_section(&mut r, pos, "POSITIONAL ARGUMENTS:", &lines);

        let mut lines = String::new();
        let mut i: usize = 0;
        while i < self.subcommands.len()
            invariant
                i <= self.subcommands@.len(),
                lines@ == subcommand_lines(registries_of(self.subcommands@).take(i as int)),
            decreases self.subcommands@.len() - i,
        {
            proof {
                assert(registries_of(self.subcommands@).take(i + 1).drop_last() =~= registries_of(
                    self.subcommands@,
                ).take(i as int));
            }
            let line = subcommand_line_of(&self.subcommands[i]);
            lines.append(line.as_str());
            i += 1;
        }
        proof {
            assert(registries_of(self.subcommands@).take(self.subcommands@.len() as int) =~= registries_of(
                self.subcommands@,
            ));
        }
        append_section(&mut r, subcmds, "SUBCOMMANDS:", &lines);
        r
    }
}

} // verus!
