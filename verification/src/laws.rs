//! What each token does to a level: the separator, the positional slots, the
//! two forms of an option, the order of values and the counts of flags.
use vstd::prelude::*;
use vstd::string::*;
use crate::arg::{find_long, find_short, longs, shorts, ArgSpec};
use crate::invariants::{final_state, lemma_matched_is_final, lemma_never_dispatches, lemma_scan_invariant};
use crate::machine::{
    dashed, double_dashed, is_long, is_separator, is_short, long_name, long_value, match_flag, parse_from,
    scan, short_builtin, step, step_cluster, step_positional, ErrorKind, Parsed, Scan, State, Step,
};
use crate::matches::Matches;
use crate::registry::{ascending, Registry};
use crate::soundness::law_builtins_keep_wf;
use crate::text::{lemma_first_index_is, lemma_first_index_of};

verus! {

/// The bare separator is consumed and switches the level: it is matched as
/// nothing, and from then on the level takes positionals only.
pub proof fn law_separator_switches(r: Registry, st: State)
    requires
        !st.pos_only,
        st.needs_val_of is None,
    ensures
        step(r, st, "--"@) == Step::Next(State { pos_only: true, ..st }),
{
    reveal(step);
    reveal_strlit("--");
}

/// After the separator every token is a positional or the name of a
/// subcommand, whatever it looks like: no flag and no option is matched any
/// more, and the level never leaves this mode.
pub proof fn law_after_separator(r: Registry, st: State, t: Seq<char>)
    requires
        st.pos_only,
    ensures
        step(r, st, t) == step_positional(r, st, t),
        step(r, st, t) matches Step::Next(st1) ==> {
            &&& st1.pos_only
            &&& st1.matches.flags == st.matches.flags
            &&& st1.matches.opts == st.matches.opts
        },
{
    reveal(step);
    if st.pos_counter < r.positionals.len() {
        crate::matches::lemma_recorded_names(st.matches, r.positionals[st.pos_counter as int].name, false, None, t);
    }
}

/// The separator is permanent: a scan that starts after it ends after it, with
/// the flags and options it started with.
pub proof fn law_separator_is_permanent(r: Registry, st: State, tokens: Seq<Seq<char>>, i: int)
    requires
        st.pos_only,
    ensures
        scan(r, st, tokens, i) matches Scan::Done(st1) ==> st1.pos_only && st1.matches.flags == st.matches.flags
            && st1.matches.opts == st.matches.opts,
        scan(r, st, tokens, i) matches Scan::Dispatch(st1, _, _) ==> st1.pos_only && st1.matches.flags
            == st.matches.flags && st1.matches.opts == st.matches.opts,
{
    let inv = |s: State| s.pos_only && s.matches.flags == st.matches.flags && s.matches.opts == st.matches.opts;
    assert forall|s: State, t: Seq<char>| inv(s) implies (#[trigger] step(r, s, t) matches Step::Next(s1) ==> inv(
        s1,
    )) by {
        law_after_separator(r, s, t);
    }
    lemma_scan_invariant(r, st, tokens, i, inv);
}

/// Of the positional slots `ps`, the first `n` are filled in `m` and no other is.
pub open spec fn first_filled(ps: Seq<ArgSpec>, m: Matches, n: int) -> bool {
    &&& 0 <= n <= ps.len()
    &&& forall|k: int| 0 <= k < ps.len() ==> (m.has_positional((#[trigger] ps[k]).name) <==> k < n)
}

/// The positional slots that are filled are the first ones, by ascending index.
pub open spec fn filled_in_order(r: Registry, st: State) -> bool {
    first_filled(r.positionals, st.matches, st.pos_counter as int)
}

/// A token that is taken as a positional fills the first empty slot, which is
/// the one with the least index among the empty ones; and where no slot is
/// empty, or none is declared, the run fails for an unexpected positional.
pub proof fn law_positionals_fill_in_order(r: Registry, st: State, t: Seq<char>)
    requires
        r.wf(),
        crate::registry::find_sub(r.subcommands, t) >= r.subcommands.len(),
    ensures
        ascending(r.positionals),
        st.pos_counter >= r.positionals.len() ==> (step_positional(r, st, t) matches Step::Stop(Parsed::Failed(f))
            && f.kind == ErrorKind::UnexpectedPositional),
        st.pos_counter < r.positionals.len() && !st.blacklist.contains(r.positionals[st.pos_counter as int].name)
            ==> (step_positional(r, st, t) matches Step::Next(st1) && st1.pos_counter == st.pos_counter + 1
            && st1.matches.positional_value(r.positionals[st.pos_counter as int].name) == Some(t)),
        filled_in_order(r, st) ==> (step_positional(r, st, t) matches Step::Next(st1) ==> filled_in_order(r, st1)),
{
    if st.pos_counter < r.positionals.len() {
        let p = r.positionals[st.pos_counter as int];
        let m = st.matches.with_positional(p.name, t);
        crate::matches::lemma_recorded_names(st.matches, p.name, false, None, t);
        lemma_first_index_of(st.matches.positional_names(), p.name);
        lemma_first_index_of(m.positional_names(), p.name);
        assert(p.is_positional());
        lemma_first_index_of(st.matches.opt_names(), p.name);
        if filled_in_order(r, st) && step_positional(r, st, t) is Next {
            let st1 = step_positional(r, st, t)->Next_0;
            assert forall|k: int| 0 <= k < r.positionals.len() implies (st1.matches.has_positional(
                (#[trigger] r.positionals[k]).name,
            ) <==> k < st1.pos_counter) by {
                if k < st.pos_counter {
                    assert(r.positionals[k].name != p.name);
                } else if k > st.pos_counter {
                    assert(p.name != r.positionals[k].name);
                }
            }
        }
        if !st.blacklist.contains(p.name) {
            let st1 = step_positional(r, st, t)->Next_0;
            assert(st1.matches == m);
            let at = st.matches.positional_at(p.name);
            if at < st.matches.positionals.len() {
                assert(st.matches.positional_names()[at] == p.name);
                assert(m.positional_names() =~= st.matches.positional_names());
            } else {
                assert(m.positional_names() =~= st.matches.positional_names().push(p.name));
                lemma_first_index_is(m.positional_names(), p.name, at);
            }
        }
    }
}

/// A cluster of flags touches nothing but the flags, the excluded and the due names.
proof fn lemma_cluster_fills_in_order(r: Registry, st: State, rest: Seq<char>, whole: Seq<char>, n: Seq<char>)
    ensures
        step_cluster(r, st, rest, whole) matches Step::Next(st1) ==> {
            &&& st1.pos_counter == st.pos_counter
            &&& st1.pos_only == st.pos_only
            &&& st1.needs_val_of == st.needs_val_of
            &&& st1.matches.positionals == st.matches.positionals
            &&& st1.matches.opts == st.matches.opts
        },
    decreases rest.len(),
{
    if rest.len() > 0 {
        let c = rest[0];
        let k = find_short(r.flags, c);
        if short_builtin(r, c) is None && k < r.flags.len() {
            crate::matches::lemma_recorded_names(st.matches, r.flags[k].name, r.flags[k].multiple, None, n);
            if let Step::Next(st1) = match_flag(r, st, r.flags[k], dashed(seq![c])) {
                lemma_cluster_fills_in_order(r, st1, rest.drop_first(), whole, n);
            }
        }
    }
}

/// Every token leaves the filled slots the first ones.
pub proof fn lemma_step_fills_in_order(r: Registry, st: State, t: Seq<char>)
    requires
        r.wf(),
        filled_in_order(r, st),
    ensures
        step(r, st, t) matches Step::Next(st1) ==> filled_in_order(r, st1),
{
    reveal(step);
    lemma_first_index_of(crate::registry::sub_names(r.subcommands), t);
    if st.needs_val_of is Some && !st.pos_only {
        let n = st.needs_val_of->0;
        crate::matches::lemma_recorded_names(st.matches, n, crate::machine::may_repeat(r.opts, n), None, t);
    } else if !st.pos_only && is_separator(t) {
    } else if !st.pos_only && is_long(t) {
        let body = t.skip(2);
        let name = long_name(body);
        let inline = long_value(body);
        if find_long(r.opts, name) < r.opts.len() {
            let o = r.opts[find_long(r.opts, name)];
            crate::matches::lemma_recorded_names(st.matches, o.name, false, inline, t);
        } else if find_long(r.flags, name) < r.flags.len() {
            let f = r.flags[find_long(r.flags, name)];
            crate::matches::lemma_recorded_names(st.matches, f.name, f.multiple, None, t);
        }
    } else if !st.pos_only && is_short(t) {
        let body = t.skip(1);
        if body.len() > 1 {
            lemma_cluster_fills_in_order(r, st, body, body, t);
        } else {
            let c = body[0];
            if find_short(r.flags, c) < r.flags.len() {
                let f = r.flags[find_short(r.flags, c)];
                crate::matches::lemma_recorded_names(st.matches, f.name, f.multiple, None, t);
            } else if find_short(r.opts, c) < r.opts.len() {
                let o = r.opts[find_short(r.opts, c)];
                crate::matches::lemma_recorded_names(st.matches, o.name, false, None, t);
            }
        }
    } else {
        if crate::registry::find_sub(r.subcommands, t) >= r.subcommands.len() {
            law_positionals_fill_in_order(r, st, t);
        }
    }
}

/// Positional slots fill in ascending order of index: in what a run matched,
/// the filled slots are the first ones, as many as positionals were given.
pub proof fn law_slots_fill_in_order(reg: Registry, tokens: Seq<Seq<char>>, start: int, m: Matches)
    requires
        reg.sound(),
        parse_from(reg, tokens, start) == Parsed::Matched(m),
    ensures
        ascending(reg.positionals),
        exists|n: int| #[trigger] first_filled(reg.positionals, m, n),
{
    let r = reg.with_builtins();
    law_builtins_keep_wf(reg);
    lemma_matched_is_final(reg, tokens, start, m);
    let inv = |s: State| filled_in_order(r, s);
    assert forall|s: State, t: Seq<char>| inv(s) implies (#[trigger] step(r, s, t) matches Step::Next(s1) ==> inv(
        s1,
    )) by {
        lemma_step_fills_in_order(r, s, t);
    }
    let st0 = State::initial(r);
    assert(filled_in_order(r, st0)) by {
        assert forall|k: int| 0 <= k < r.positionals.len() implies !st0.matches.has_positional(
            (#[trigger] r.positionals[k]).name,
        ) by {
            lemma_first_index_of(st0.matches.positional_names(), r.positionals[k].name);
        }
    }
    lemma_scan_invariant(r, st0, tokens, start, inv);
    let st = final_state(r, tokens, start);
    assert(filled_in_order(r, st));
    let n = st.pos_counter as int;
    assert(m.positional_names() == st.matches.positional_names());
    assert forall|k: int| 0 <= k < reg.positionals.len() implies (m.has_positional(
        (#[trigger] reg.positionals[k]).name,
    ) <==> k < n) by {
        assert(r.positionals[k] == reg.positionals[k]);
    }
    assert(first_filled(reg.positionals, m, n));
}

/// An option with a short and a long form takes either: `-c` and `--long`
/// do the same to a level. Both go on, to the same state, or both fail, with
/// the same kind of fault.
pub proof fn law_short_and_long_agree(r: Registry, st: State, o: ArgSpec, c: char, l: Seq<char>)
    requires
        r.wf(),
        r.opts.contains(o),
        o.short == Some(c),
        o.long == Some(l),
        c != '-',
        l.len() > 0,
        !l.contains('='),
        !st.pos_only,
        st.needs_val_of is None,
    ensures
        match step(r, st, dashed(seq![c])) {
            Step::Next(by_short) => step(r, st, double_dashed(l)) == Step::Next(by_short),
            Step::Stop(Parsed::Failed(f)) => step(r, st, double_dashed(l)) matches Step::Stop(Parsed::Failed(g))
                && f.kind == g.kind,
            _ => false,
        },
{
    reveal(step);
    reveal_strlit("--");
    reveal_strlit("-");
    let short_token = dashed(seq![c]);
    let long_token = double_dashed(l);
    assert(short_token.skip(1) =~= seq![c]);
    assert(long_token.skip(2) =~= l);
    let k = choose|k: int| 0 <= k < r.opts.len() && r.opts[k] == o;
    assert(r.leaves_builtins(r.opts[k]));
    let all = r.switches();
    assert(all[r.flags.len() + k] == o);
    // no flag has the short or the long form of this option
    assert forall|j: int| 0 <= j < r.flags.len() implies shorts(r.flags)[j] != Some(c) && longs(r.flags)[j]
        != Some(l) by {
        assert(all[j] == r.flags[j]);
    }
    lemma_first_index_is(shorts(r.flags), Some(c), r.flags.len() as int);
    lemma_first_index_is(longs(r.flags), Some(l), r.flags.len() as int);
    // and no other option has
    assert forall|j: int| 0 <= j < k implies shorts(r.opts)[j] != Some(c) && longs(r.opts)[j] != Some(l) by {
        assert(all[r.flags.len() + j] == r.opts[j]);
    }
    lemma_first_index_is(shorts(r.opts), Some(c), k);
    lemma_first_index_is(longs(r.opts), Some(l), k);
    lemma_first_index_of(l, '=');
    assert(long_name(l) =~= l);
}

/// The values of an option stand in the order of the tokens that brought
/// them: a token leaves the values recorded under a name as they are, or adds
/// one at their end, which is the token itself or the part after its `=`.
pub proof fn law_values_keep_token_order(r: Registry, st: State, t: Seq<char>, n: Seq<char>)
    ensures
        step(r, st, t) matches Step::Next(st1) ==> {
            ||| st1.matches.values_of(n) == st.matches.values_of(n)
            ||| st1.matches.values_of(n) == st.matches.values_of(n).push(t)
            ||| (is_long(t) && long_value(t.skip(2)) is Some && st1.matches.values_of(n)
                == st.matches.values_of(n).push(long_value(t.skip(2))->0))
        },
{
    reveal(step);
    if st.needs_val_of is Some && !st.pos_only {
        let x = st.needs_val_of->0;
        crate::matches::lemma_recorded_values(st.matches, x, crate::machine::may_repeat(r.opts, x), None, t, n);
    } else if !st.pos_only && is_separator(t) {
    } else if !st.pos_only && is_long(t) {
        let body = t.skip(2);
        let name = long_name(body);
        let inline = long_value(body);
        if find_long(r.opts, name) < r.opts.len() {
            let o = r.opts[find_long(r.opts, name)];
            crate::matches::lemma_recorded_values(st.matches, o.name, false, inline, t, n);
        } else if find_long(r.flags, name) < r.flags.len() {
            let f = r.flags[find_long(r.flags, name)];
            crate::matches::lemma_recorded_values(st.matches, f.name, f.multiple, None, t, n);
        }
    } else if !st.pos_only && is_short(t) {
        let body = t.skip(1);
        if body.len() > 1 {
            lemma_cluster_fills_in_order(r, st, body, body, t);
        } else {
            let c = body[0];
            if find_short(r.flags, c) < r.flags.len() {
                let f = r.flags[find_short(r.flags, c)];
                crate::matches::lemma_recorded_values(st.matches, f.name, f.multiple, None, t, n);
            } else if find_short(r.opts, c) < r.opts.len() {
                let o = r.opts[find_short(r.opts, c)];
                crate::matches::lemma_recorded_values(st.matches, o.name, false, None, t, n);
            }
        }
    } else {
        if st.pos_counter < r.positionals.len() {
            let p = r.positionals[st.pos_counter as int];
            crate::matches::lemma_recorded_values(st.matches, p.name, false, None, t, n);
        }
    }
}

/// What is recorded early stays in front: the values a level has recorded
/// under a name when a scan starts are the first of those it has when the
/// scan ends.
pub proof fn law_values_only_grow(r: Registry, st: State, tokens: Seq<Seq<char>>, i: int, n: Seq<char>)
    ensures
        scan(r, st, tokens, i) matches Scan::Done(st1) ==> st.matches.values_of(n).is_prefix_of(
            st1.matches.values_of(n),
        ),
        scan(r, st, tokens, i) matches Scan::Dispatch(st1, _, _) ==> st.matches.values_of(n).is_prefix_of(
            st1.matches.values_of(n),
        ),
{
    let base = st.matches.values_of(n);
    let inv = |s: State| base.is_prefix_of(s.matches.values_of(n));
    assert forall|s: State, t: Seq<char>| inv(s) implies (#[trigger] step(r, s, t) matches Step::Next(s1) ==> inv(
        s1,
    )) by {
        law_values_keep_token_order(r, s, t, n);
        if let Step::Next(s1) = step(r, s, t) {
            let before = s.matches.values_of(n);
            let after = s1.matches.values_of(n);
            assert(before.is_prefix_of(after)) by {
                if after != before {
                    assert(after.len() == before.len() + 1);
                    assert(after.subrange(0, before.len() as int) =~= before);
                }
            }
            assert(after.subrange(0, base.len() as int) =~= base) by {
                assert(before.subrange(0, base.len() as int) == base);
            }
        }
    }
    assert(base.subrange(0, base.len() as int) =~= base);
    lemma_scan_invariant(r, st, tokens, i, inv);
}

/// How often the characters `cs` of a cluster name the flag `f`.
pub open spec fn short_mentions(f: ArgSpec, cs: Seq<char>) -> nat
    decreases cs.len(),
{
    if cs.len() == 0 {
        0
    } else {
        (if f.short == Some(cs[0]) {
            1nat
        } else {
            0nat
        }) + short_mentions(f, cs.drop_first())
    }
}

/// How often the token `t` names the flag `f`: once if it is `--long` with the
/// flag's long form, and as often as the flag's short form stands after the
/// dash if it is a short switch or a cluster.
pub open spec fn mentions_in(f: ArgSpec, t: Seq<char>) -> nat {
    if is_long(t) {
        if f.long == Some(long_name(t.skip(2))) {
            1
        } else {
            0
        }
    } else if is_short(t) {
        short_mentions(f, t.skip(1))
    } else {
        0
    }
}

/// How often the tokens from position `i` on name the flag `f`.
pub open spec fn mentions(f: ArgSpec, tokens: Seq<Seq<char>>, i: int) -> nat
    decreases tokens.len() - i,
{
    if i < 0 || i >= tokens.len() {
        0
    } else {
        mentions_in(f, tokens[i]) + mentions(f, tokens, i + 1)
    }
}

/// Whether a level in state `st` reads its next token as a switch: it does
/// unless an option waits for its value or the separator was seen.
pub open spec fn reads_switches(st: State) -> bool {
    st.needs_val_of is None && !st.pos_only
}

/// How often the tokens from position `i` on name the flag `f` where the
/// level reads switches: not where a token is the value of an option, not
/// after the separator, and not from the name of a subcommand on.
pub open spec fn read_mentions(r: Registry, st: State, tokens: Seq<Seq<char>>, i: int, f: ArgSpec) -> nat
    decreases tokens.len() - i,
{
    if i < 0 || i >= tokens.len() {
        0
    } else {
        match step(r, st, tokens[i]) {
            Step::Next(st1) => (if reads_switches(st) {
                mentions_in(f, tokens[i])
            } else {
                0
            }) + read_mentions(r, st1, tokens, i + 1, f),
            _ => 0,
        }
    }
}

/// In a well-formed registry a flag or an option is the only one with its switches.
proof fn lemma_switch_is_unique(r: Registry, f: ArgSpec, x: ArgSpec)
    requires
        r.wf(),
        r.flags.contains(f),
        r.flags.contains(x) || r.opts.contains(x),
    ensures
        f.short is Some && f.short == x.short ==> f == x,
        f.long is Some && f.long == x.long ==> f == x,
        f.name == x.name && r.flags.contains(x) ==> f == x,
{
    let i = choose|i: int| 0 <= i < r.flags.len() && r.flags[i] == f;
    let all = r.switches();
    assert(all[i] == f);
    if r.flags.contains(x) {
        let j = choose|j: int| 0 <= j < r.flags.len() && r.flags[j] == x;
        assert(all[j] == x);
        if i < j {
            assert(r.flags[i].name != r.flags[j].name);
        } else if j < i {
            assert(r.flags[j].name != r.flags[i].name);
        }
    } else {
        let j = choose|j: int| 0 <= j < r.opts.len() && r.opts[j] == x;
        assert(all[r.flags.len() + j] == x);
    }
}

/// A match of the flag `x` counts once for `x` and not at all for another flag.
proof fn lemma_match_flag_counts(r: Registry, st: State, x: ArgSpec, shown: Seq<char>, f: ArgSpec)
    requires
        r.wf(),
        r.flags.contains(f),
        r.flags.contains(x),
        !f.multiple ==> st.matches.flag_count(f.name) <= 1,
    ensures
        match_flag(r, st, x, shown) matches Step::Next(st1) ==> {
            &&& st1.pos_only == st.pos_only
            &&& st1.needs_val_of == st.needs_val_of
            &&& st1.matches.flag_count(f.name) == st.matches.flag_count(f.name) + (if f == x {
                1nat
            } else {
                0nat
            })
            &&& !f.multiple ==> st1.matches.flag_count(f.name) <= 1
        },
{
    lemma_switch_is_unique(r, f, x);
    crate::matches::lemma_recorded_counts(st.matches, x.name, x.multiple, f.name);
    crate::matches::lemma_recorded_names(st.matches, x.name, x.multiple, None, x.name);
}

/// A cluster counts for a flag as often as its characters name it.
proof fn lemma_cluster_counts(r: Registry, st: State, rest: Seq<char>, whole: Seq<char>, f: ArgSpec)
    requires
        r.wf(),
        r.flags.contains(f),
        !f.multiple ==> st.matches.flag_count(f.name) <= 1,
    ensures
        step_cluster(r, st, rest, whole) matches Step::Next(st1) ==> {
            &&& st1.pos_only == st.pos_only
            &&& st1.needs_val_of == st.needs_val_of
            &&& st1.matches.flag_count(f.name) == st.matches.flag_count(f.name) + short_mentions(f, rest)
            &&& !f.multiple ==> st1.matches.flag_count(f.name) <= 1
        },
    decreases rest.len(),
{
    if rest.len() > 0 {
        let c = rest[0];
        let k = find_short(r.flags, c);
        lemma_first_index_of(shorts(r.flags), Some(c));
        if short_builtin(r, c) is None {
            if k < r.flags.len() {
                let x = r.flags[k];
                assert(r.flags.contains(x));
                assert(x.short == Some(c));
                lemma_switch_is_unique(r, f, x);
                lemma_match_flag_counts(r, st, x, dashed(seq![c]), f);
                if let Step::Next(st1) = match_flag(r, st, x, dashed(seq![c])) {
                    lemma_cluster_counts(r, st1, rest.drop_first(), whole, f);
                }
            }
        }
    }
}

/// A token counts for a flag as often as it names it, where the level reads
/// switches, and not at all where it does not; and a flag that may not repeat
/// is never counted beyond one.
pub proof fn law_token_counts_for_flag(r: Registry, st: State, t: Seq<char>, f: ArgSpec)
    requires
        r.wf(),
        r.flags.contains(f),
        !f.multiple ==> st.matches.flag_count(f.name) <= 1,
    ensures
        step(r, st, t) matches Step::Next(st1) ==> {
            &&& st1.matches.flag_count(f.name) == st.matches.flag_count(f.name) + (if reads_switches(st) {
                mentions_in(f, t)
            } else {
                0
            })
            &&& !f.multiple ==> st1.matches.flag_count(f.name) <= 1
        },
{
    reveal(step);
    if st.needs_val_of is Some && !st.pos_only {
        let n = st.needs_val_of->0;
        crate::matches::lemma_recorded_names(st.matches, n, crate::machine::may_repeat(r.opts, n), None, t);
    } else if st.pos_only || !(is_separator(t) || is_long(t) || is_short(t)) {
        if st.pos_counter < r.positionals.len() {
            crate::matches::lemma_recorded_names(st.matches, r.positionals[st.pos_counter as int].name, false, None, t);
        }
    } else if is_separator(t) {
    } else if is_long(t) {
        let name = long_name(t.skip(2));
        let inline = long_value(t.skip(2));
        lemma_first_index_of(longs(r.flags), Some(name));
        lemma_first_index_of(longs(r.opts), Some(name));
        let ko = find_long(r.opts, name);
        let k = find_long(r.flags, name);
        if ko < r.opts.len() {
            let o = r.opts[ko];
            assert(r.opts.contains(o));
            assert(o.long == Some(name));
            lemma_switch_is_unique(r, f, o);
            let j = choose|j: int| 0 <= j < r.flags.len() && r.flags[j] == f;
            assert(r.flags[j].is_flag());
            assert(r.opts[ko].is_option());
            crate::matches::lemma_recorded_names(st.matches, o.name, false, inline, t);
        } else if k < r.flags.len() {
            let x = r.flags[k];
            assert(r.flags.contains(x));
            assert(x.long == Some(name));
            lemma_switch_is_unique(r, f, x);
            lemma_match_flag_counts(r, st, x, double_dashed(name), f);
        }
    } else {
        let body = t.skip(1);
        if body.len() > 1 {
            lemma_cluster_counts(r, st, body, body, f);
        } else {
            let c = body[0];
            assert(body.drop_first().len() == 0);
            assert(short_mentions(f, body) == if f.short == Some(c) { 1nat } else { 0nat }) by {
                assert(short_mentions(f, body.drop_first()) == 0);
            }
            lemma_first_index_of(shorts(r.flags), Some(c));
            lemma_first_index_of(shorts(r.opts), Some(c));
            let k = find_short(r.flags, c);
            let ko = find_short(r.opts, c);
            if k < r.flags.len() {
                let x = r.flags[k];
                assert(r.flags.contains(x));
                assert(x.short == Some(c));
                lemma_switch_is_unique(r, f, x);
                lemma_match_flag_counts(r, st, x, dashed(seq![c]), f);
            } else if ko < r.opts.len() {
                let o = r.opts[ko];
                assert(r.opts.contains(o));
                assert(o.short == Some(c));
                lemma_switch_is_unique(r, f, o);
                let j = choose|j: int| 0 <= j < r.flags.len() && r.flags[j] == f;
                assert(r.flags[j].is_flag());
                assert(r.opts[ko].is_option());
                crate::matches::lemma_recorded_names(st.matches, o.name, false, None, t);
            }
        }
    }
}

/// A scan counts for a flag as often as its tokens name it where switches are read.
proof fn lemma_scan_counts(r: Registry, st: State, tokens: Seq<Seq<char>>, i: int, f: ArgSpec)
    requires
        r.wf(),
        r.flags.contains(f),
        !f.multiple ==> st.matches.flag_count(f.name) <= 1,
    ensures
        !(scan(r, st, tokens, i) is Stop) ==> {
            let st1 = match scan(r, st, tokens, i) {
                Scan::Done(s) => s,
                Scan::Dispatch(s, _, _) => s,
                Scan::Stop(_) => st,
            };
            &&& st1.matches.flag_count(f.name) == st.matches.flag_count(f.name) + read_mentions(r, st, tokens, i, f)
            &&& !f.multiple ==> st1.matches.flag_count(f.name) <= 1
        },
    decreases tokens.len() - i,
{
    if 0 <= i < tokens.len() {
        law_token_counts_for_flag(r, st, tokens[i], f);
        if let Step::Next(st1) = step(r, st, tokens[i]) {
            lemma_scan_counts(r, st1, tokens, i + 1, f);
        }
    }
}

/// Flags are counted as often as they are named: a run that matched has
/// counted each flag once for every time a token names it where the level
/// reads switches, by `--long`, by `-c` or in a cluster; and a flag that may
/// not repeat was counted at most once.
pub proof fn law_flags_are_counted(reg: Registry, tokens: Seq<Seq<char>>, start: int, m: Matches, f: ArgSpec)
    requires
        reg.sound(),
        parse_from(reg, tokens, start) == Parsed::Matched(m),
        reg.with_builtins().flags.contains(f),
    ensures
        m.flag_count(f.name) == read_mentions(
            reg.with_builtins(),
            State::initial(reg.with_builtins()),
            tokens,
            start,
            f,
        ),
        !f.multiple ==> m.flag_count(f.name) <= 1,
{
    let r = reg.with_builtins();
    law_builtins_keep_wf(reg);
    lemma_matched_is_final(reg, tokens, start, m);
    let st0 = State::initial(r);
    lemma_first_index_of(st0.matches.flag_names(), f.name);
    lemma_scan_counts(r, st0, tokens, start, f);
    let st = final_state(r, tokens, start);
    assert(m.flag_count(f.name) == st.matches.flag_count(f.name));
}

/// A level of a command that declares flags only, between two tokens: no
/// option waits for a value, and nothing but flags is recorded.
pub open spec fn among_flags(st: State) -> bool {
    &&& st.needs_val_of is None
    &&& st.matches.opts.len() == 0
    &&& st.matches.positionals.len() == 0
}

/// In a command that declares flags only, every token that is consumed is
/// read as a switch, but for the separator, after which none is consumed.
proof fn lemma_step_among_flags(r: Registry, st: State, t: Seq<char>, f: ArgSpec)
    requires
        r.opts.len() == 0,
        r.positionals.len() == 0,
        among_flags(st),
    ensures
        step(r, st, t) matches Step::Next(st1) ==> {
            &&& among_flags(st1)
            &&& !st.pos_only
            &&& st1.pos_only ==> mentions_in(f, t) == 0
        },
{
    reveal(step);
    lemma_first_index_of(longs(r.opts), Some(long_name(t.skip(2))));
    if st.pos_only {
    } else if is_separator(t) {
    } else if is_long(t) {
        let name = long_name(t.skip(2));
        let k = find_long(r.flags, name);
        if k < r.flags.len() {
            crate::matches::lemma_recorded_names(st.matches, r.flags[k].name, r.flags[k].multiple, None, t);
        }
    } else if is_short(t) {
        let body = t.skip(1);
        if body.len() > 1 {
            lemma_cluster_fills_in_order(r, st, body, body, t);
        } else {
            let c = body[0];
            lemma_first_index_of(shorts(r.opts), Some(c));
            let k = find_short(r.flags, c);
            if k < r.flags.len() {
                crate::matches::lemma_recorded_names(st.matches, r.flags[k].name, r.flags[k].multiple, None, t);
            }
        }
    }
}

/// In a command that declares flags only, what is named where the level
/// reads switches is all that the tokens name.
proof fn lemma_all_mentions_are_read(r: Registry, st: State, tokens: Seq<Seq<char>>, i: int, f: ArgSpec)
    requires
        r.opts.len() == 0,
        r.positionals.len() == 0,
        among_flags(st),
        scan(r, st, tokens, i) is Done,
    ensures
        read_mentions(r, st, tokens, i, f) == mentions(f, tokens, i),
    decreases tokens.len() - i,
{
    if 0 <= i < tokens.len() {
        lemma_step_among_flags(r, st, tokens[i], f);
        if let Step::Next(st1) = step(r, st, tokens[i]) {
            lemma_all_mentions_are_read(r, st1, tokens, i + 1, f);
            if st1.pos_only && i + 1 < tokens.len() {
                // after the separator nothing more can have been consumed
                lemma_step_among_flags(r, st1, tokens[i + 1], f);
            }
        }
    }
}

/// In a command that declares flags only, each flag's count is the number of
/// times the tokens name it: a run that matched has counted each flag once for
/// every `--long`, every `-c` and every place in a cluster that names it; and
/// a flag that may not repeat was named at most once.
pub proof fn law_flags_only_are_counted(reg: Registry, tokens: Seq<Seq<char>>, start: int, m: Matches, f: ArgSpec)
    requires
        reg.sound(),
        reg.opts.len() == 0,
        reg.positionals.len() == 0,
        reg.subcommands.len() == 0,
        parse_from(reg, tokens, start) == Parsed::Matched(m),
        reg.with_builtins().flags.contains(f),
    ensures
        m.occurrences_of(f.name) == mentions(f, tokens, start),
        !f.multiple ==> mentions(f, tokens, start) <= 1,
{
    let r = reg.with_builtins();
    law_flags_are_counted(reg, tokens, start, m, f);
    lemma_matched_is_final(reg, tokens, start, m);
    let st0 = State::initial(r);
    lemma_never_dispatches(r, st0, tokens, start);
    lemma_all_mentions_are_read(r, st0, tokens, start, f);
    let inv = |s: State| among_flags(s);
    assert forall|s: State, t: Seq<char>| inv(s) implies (#[trigger] step(r, s, t) matches Step::Next(s1) ==> inv(
        s1,
    )) by {
        lemma_step_among_flags(r, s, t, f);
    }
    lemma_scan_invariant(r, st0, tokens, start, inv);
    lemma_first_index_of(m.opt_names(), f.name);
    lemma_first_index_of(m.positional_names(), f.name);
}

/// A cluster of flags records no name twice.
proof fn lemma_cluster_distinct(r: Registry, st: State, rest: Seq<char>, whole: Seq<char>)
    requires
        st.matches.distinct(),
    ensures
        step_cluster(r, st, rest, whole) matches Step::Next(st1) ==> st1.matches.distinct(),
    decreases rest.len(),
{
    if rest.len() > 0 {
        let c = rest[0];
        let k = find_short(r.flags, c);
        if short_builtin(r, c) is None && k < r.flags.len() {
            crate::matches::lemma_recorded_distinct(st.matches, r.flags[k].name, r.flags[k].multiple, None, whole);
            if let Step::Next(st1) = match_flag(r, st, r.flags[k], dashed(seq![c])) {
                lemma_cluster_distinct(r, st1, rest.drop_first(), whole);
            }
        }
    }
}

/// No token records a name twice.
proof fn lemma_step_distinct(r: Registry, st: State, t: Seq<char>)
    requires
        st.matches.distinct(),
    ensures
        step(r, st, t) matches Step::Next(st1) ==> st1.matches.distinct(),
{
    reveal(step);
    if st.needs_val_of is Some && !st.pos_only {
        let n = st.needs_val_of->0;
        crate::matches::lemma_recorded_distinct(st.matches, n, crate::machine::may_repeat(r.opts, n), None, t);
    } else if !st.pos_only && is_separator(t) {
    } else if !st.pos_only && is_long(t) {
        let name = long_name(t.skip(2));
        let inline = long_value(t.skip(2));
        if find_long(r.opts, name) < r.opts.len() {
            crate::matches::lemma_recorded_distinct(st.matches, r.opts[find_long(r.opts, name)].name, false, inline, t);
        } else if find_long(r.flags, name) < r.flags.len() {
            let f = r.flags[find_long(r.flags, name)];
            crate::matches::lemma_recorded_distinct(st.matches, f.name, f.multiple, None, t);
        }
    } else if !st.pos_only && is_short(t) {
        let body = t.skip(1);
        if body.len() > 1 {
            lemma_cluster_distinct(r, st, body, body);
        } else {
            let c = body[0];
            if find_short(r.flags, c) < r.flags.len() {
                let f = r.flags[find_short(r.flags, c)];
                crate::matches::lemma_recorded_distinct(st.matches, f.name, f.multiple, None, t);
            } else if find_short(r.opts, c) < r.opts.len() {
                crate::matches::lemma_recorded_distinct(st.matches, r.opts[find_short(r.opts, c)].name, false, None, t);
            }
        }
    } else if st.pos_counter < r.positionals.len() {
        crate::matches::lemma_recorded_distinct(st.matches, r.positionals[st.pos_counter as int].name, false, None, t);
    }
}

/// What a run matched is a mapping from names: among the flags of its level
/// no name is recorded twice, nor among the options, nor among the positionals.
pub proof fn law_matches_are_keyed_by_name(reg: Registry, tokens: Seq<Seq<char>>, start: int, m: Matches)
    requires
        parse_from(reg, tokens, start) == Parsed::Matched(m),
    ensures
        m.distinct(),
{
    let r = reg.with_builtins();
    lemma_matched_is_final(reg, tokens, start, m);
    let inv = |s: State| s.matches.distinct();
    assert forall|s: State, t: Seq<char>| inv(s) implies (#[trigger] step(r, s, t) matches Step::Next(s1) ==> inv(
        s1,
    )) by {
        lemma_step_distinct(r, s, t);
    }
    lemma_scan_invariant(r, State::initial(r), tokens, start, inv);
    let st = final_state(r, tokens, start);
    assert(m.flag_names() == st.matches.flag_names());
    assert(m.opt_names() == st.matches.opt_names());
    assert(m.positional_names() == st.matches.positional_names());
}

/// The matches below a level are those of the subcommand's own run: where a
/// run matched under a subcommand, a token of the level is the subcommand's
/// name, and the subcommand, run over the tokens after it, matched what hangs
/// below.
pub proof fn law_subcommand_runs_on_its_own(reg: Registry, tokens: Seq<Seq<char>>, start: int, m: Matches)
    requires
        parse_from(reg, tokens, start) == Parsed::Matched(m),
        m.subcommand is Some,
    ensures
        exists|k: int, next: int|
            {
                &&& 0 <= k < reg.with_builtins().subcommands.len()
                &&& 0 <= start < next <= tokens.len()
                &&& tokens[next - 1] == reg.with_builtins().subcommands[k].name
                &&& m.subcommand->0.name == reg.with_builtins().subcommands[k].name
                &&& #[trigger] parse_from(reg.with_builtins().subcommands[k], tokens, next) == Parsed::Matched(
                    m.subcommand->0.matches,
                )
            },
{
    let r = reg.with_builtins();
    lemma_matched_is_final(reg, tokens, start, m);
    let st0 = State::initial(r);
    lemma_scan_has_no_subcommand(r, st0, tokens, start);
    lemma_dispatch_is_named(r, st0, tokens, start);
    match scan(r, st0, tokens, start) {
        Scan::Dispatch(st, k, next) => {
            assert(parse_from(r.subcommands[k], tokens, next) is Matched);
        },
        _ => {},
    }
}

/// A level records no subcommand by itself.
proof fn lemma_step_has_no_subcommand(r: Registry, st: State, t: Seq<char>)
    requires
        st.matches.subcommand is None,
    ensures
        step(r, st, t) matches Step::Next(st1) ==> st1.matches.subcommand is None,
{
    reveal(step);
    if !st.pos_only && st.needs_val_of is None && is_short(t) && t.skip(1).len() > 1 {
        lemma_cluster_has_no_subcommand(r, st, t.skip(1), t.skip(1));
    }
}

/// A cluster of flags records no subcommand.
proof fn lemma_cluster_has_no_subcommand(r: Registry, st: State, rest: Seq<char>, whole: Seq<char>)
    requires
        st.matches.subcommand is None,
    ensures
        step_cluster(r, st, rest, whole) matches Step::Next(st1) ==> st1.matches.subcommand is None,
    decreases rest.len(),
{
    if rest.len() > 0 {
        let c = rest[0];
        let k = find_short(r.flags, c);
        if short_builtin(r, c) is None && k < r.flags.len() {
            if let Step::Next(st1) = match_flag(r, st, r.flags[k], dashed(seq![c])) {
                lemma_cluster_has_no_subcommand(r, st1, rest.drop_first(), whole);
            }
        }
    }
}

/// A scan ends with no subcommand recorded.
proof fn lemma_scan_has_no_subcommand(r: Registry, st: State, tokens: Seq<Seq<char>>, i: int)
    requires
        st.matches.subcommand is None,
    ensures
        scan(r, st, tokens, i) matches Scan::Done(st1) ==> st1.matches.subcommand is None,
        scan(r, st, tokens, i) matches Scan::Dispatch(st1, _, _) ==> st1.matches.subcommand is None,
{
    let inv = |s: State| s.matches.subcommand is None;
    assert forall|s: State, t: Seq<char>| inv(s) implies (#[trigger] step(r, s, t) matches Step::Next(s1) ==> inv(
        s1,
    )) by {
        lemma_step_has_no_subcommand(r, s, t);
    }
    lemma_scan_invariant(r, st, tokens, i, inv);
}

/// Where a scan ends in a subcommand, the token before the subcommand's own
/// is its name.
proof fn lemma_dispatch_is_named(r: Registry, st: State, tokens: Seq<Seq<char>>, i: int)
    ensures
        scan(r, st, tokens, i) matches Scan::Dispatch(_, k, next) ==> {
            &&& 0 <= k < r.subcommands.len()
            &&& 0 <= i < next <= tokens.len()
            &&& tokens[next - 1] == r.subcommands[k].name
        },
    decreases tokens.len() - i,
{
    if 0 <= i < tokens.len() {
        let t = tokens[i];
        match step(r, st, t) {
            Step::Next(st1) => {
                lemma_dispatch_is_named(r, st1, tokens, i + 1);
            },
            Step::Dispatch(k) => {
                reveal(step);
                crate::invariants::lemma_dispatch_in_range(r, st, t);
                lemma_first_index_of(crate::registry::sub_names(r.subcommands), t);
                if !st.pos_only && st.needs_val_of is None && is_short(t) && t.skip(1).len() > 1 {
                    crate::invariants::lemma_cluster_never_dispatches(r, st, t.skip(1), t.skip(1));
                }
            },
            _ => {},
        }
    }
}

} // verus!
