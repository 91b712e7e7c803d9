//! What a run keeps true from token to token, and what follows for its outcome.
use vstd::prelude::*;
use vstd::string::*;
use crate::arg::{find_long, find_short, longs, shorts, ArgSpec};
use crate::machine::{
    dashed, double_dashed, finish, first_conflict, is_long, is_separator, is_short, long_name, long_value,
    match_flag, match_opt, parse_from, scan, short_builtin, step, step_cluster, step_positional, weight,
    with_unmet, ErrorKind, Parsed, Scan, State, Step,
};
use crate::matches::Matches;
use crate::registry::Registry;
use crate::soundness::law_builtins_keep_wf;
use crate::text::{lemma_first_index_of, lemma_with_names_contains, lemma_without_name_contains, without_name};

verus! {

/// What a run keeps true of its state from token to token: whatever a
/// matched argument excludes is excluded, and whatever it depends on is
/// matched or still due.
pub open spec fn kept(r: Registry, st: State) -> bool {
    &&& forall|a: ArgSpec, b: Seq<char>|
        r.declares(a) && st.matches.records(a) && #[trigger] a.blacklist.contains(b) ==> st.blacklist.contains(b)
    &&& forall|a: ArgSpec, b: Seq<char>|
        r.declares(a) && st.matches.records(a) && #[trigger] a.requires.contains(b) ==> st.matches.is_present(b)
            || st.required.contains(b)
}

/// Names that are due stay due while dependencies are added.
proof fn lemma_with_unmet(required: Seq<Seq<char>>, deps: Seq<Seq<char>>, m: Matches, n: Seq<char>)
    ensures
        required.contains(n) ==> with_unmet(required, deps, m).contains(n),
        deps.contains(n) && !m.is_present(n) ==> with_unmet(required, deps, m).contains(n),
    decreases deps.len(),
{
    if deps.len() > 0 {
        let front = deps.drop_last();
        lemma_with_unmet(required, front, m, n);
        let before = with_unmet(required, front, m);
        crate::matches::lemma_contains_push(before, deps.last(), n);
        if deps.contains(n) && !m.is_present(n) {
            let i = choose|i: int| 0 <= i < deps.len() && deps[i] == n;
            if i < front.len() {
                assert(front[i] == n);
            }
        }
    }
}

/// An argument that is declared in a well-formed registry is the only one of
/// its kind under its name.
proof fn lemma_declared_once(r: Registry, a: ArgSpec, x: ArgSpec)
    requires
        r.wf(),
        r.declares(a),
        r.declares(x),
        a.name == x.name,
        a.is_positional() == x.is_positional(),
        a.is_option() == x.is_option(),
    ensures
        a == x,
{
    if r.flags.contains(a) {
        let i = choose|i: int| 0 <= i < r.flags.len() && r.flags[i] == a;
        assert(r.flags[i].is_flag());
        if r.flags.contains(x) {
            let j = choose|j: int| 0 <= j < r.flags.len() && r.flags[j] == x;
            if i < j {
                assert(r.flags[i].name != r.flags[j].name);
            } else if j < i {
                assert(r.flags[j].name != r.flags[i].name);
            }
        } else if r.opts.contains(x) {
            let j = choose|j: int| 0 <= j < r.opts.len() && r.opts[j] == x;
            assert(r.opts[j].is_option());
        } else {
            let j = choose|j: int| 0 <= j < r.positionals.len() && r.positionals[j] == x;
            assert(r.positionals[j].is_positional());
        }
    } else if r.opts.contains(a) {
        let i = choose|i: int| 0 <= i < r.opts.len() && r.opts[i] == a;
        assert(r.opts[i].is_option());
        if r.opts.contains(x) {
            let j = choose|j: int| 0 <= j < r.opts.len() && r.opts[j] == x;
            if i < j {
                assert(r.opts[i].name != r.opts[j].name);
            } else if j < i {
                assert(r.opts[j].name != r.opts[i].name);
            }
        } else if r.flags.contains(x) {
            let j = choose|j: int| 0 <= j < r.flags.len() && r.flags[j] == x;
            assert(r.flags[j].is_flag());
        } else {
            let j = choose|j: int| 0 <= j < r.positionals.len() && r.positionals[j] == x;
            assert(r.positionals[j].is_positional());
        }
    } else {
        let i = choose|i: int| 0 <= i < r.positionals.len() && r.positionals[i] == a;
        assert(r.positionals[i].is_positional());
        if r.positionals.contains(x) {
            let j = choose|j: int| 0 <= j < r.positionals.len() && r.positionals[j] == x;
            if i < j {
                assert(r.positionals[i].name != r.positionals[j].name);
            } else if j < i {
                assert(r.positionals[j].name != r.positionals[i].name);
            }
        } else if r.flags.contains(x) {
            let j = choose|j: int| 0 <= j < r.flags.len() && r.flags[j] == x;
            assert(r.flags[j].is_flag());
        } else {
            let j = choose|j: int| 0 <= j < r.opts.len() && r.opts[j] == x;
            assert(r.opts[j].is_option());
        }
    }
}

/// Taking note of a match of `x` keeps what a run keeps true, `m` being the
/// matches before with `x` recorded among those of its kind.
proof fn lemma_settle_keeps(r: Registry, st: State, x: ArgSpec, m: Matches)
    requires
        r.wf(),
        kept(r, st),
        r.declares(x),
        m.records(x),
        forall|a: ArgSpec| #[trigger] m.records(a) ==> st.matches.records(a) || (a.name == x.name && a.is_positional() == x.is_positional() && a.is_option() == x.is_option()),
        forall|n: Seq<char>| st.matches.is_present(n) ==> #[trigger] m.is_present(n),
    ensures
        kept(r, st.settle(x, m)),
{
    let q = st.settle(x, m);
    assert forall|a: ArgSpec, b: Seq<char>|
        r.declares(a) && q.matches.records(a) && #[trigger] a.blacklist.contains(b) implies q.blacklist.contains(b) by {
        lemma_with_names_contains(st.blacklist, x.blacklist, b);
        if !st.matches.records(a) {
            lemma_declared_once(r, a, x);
        }
    }
    assert forall|a: ArgSpec, b: Seq<char>|
        r.declares(a) && q.matches.records(a) && #[trigger] a.requires.contains(b) implies q.matches.is_present(b)
            || q.required.contains(b) by {
        let base = without_name(st.required, x.name);
        lemma_with_unmet(base, x.requires, m, b);
        lemma_without_name_contains(st.required, x.name, b);
        if !st.matches.records(a) {
            lemma_declared_once(r, a, x);
        } else if !st.matches.is_present(b) {
            if b == x.name {
                assert(m.is_present(b));
            }
        }
    }
}

/// A match of a declared flag leaves true what a run keeps true.
proof fn lemma_match_flag_keeps(r: Registry, st: State, f: ArgSpec, shown: Seq<char>)
    requires
        r.wf(),
        kept(r, st),
        r.flags.contains(f),
    ensures
        match_flag(r, st, f, shown) matches Step::Next(st1) ==> kept(r, st1),
{
    let j = choose|j: int| 0 <= j < r.flags.len() && r.flags[j] == f;
    assert(r.flags[j].is_flag());
    let m = st.matches.with_flag(f.name, f.multiple);
    crate::matches::lemma_recorded_names(st.matches, f.name, f.multiple, None, f.name);
    if match_flag(r, st, f, shown) is Next {
        assert(m.has_flag(f.name));
        lemma_settle_keeps(r, st, f, m);
    }
}

/// A match of a declared option leaves true what a run keeps true.
proof fn lemma_match_opt_keeps(
    r: Registry,
    st: State,
    o: ArgSpec,
    inline: Option<Seq<char>>,
    shown_excluded: Seq<char>,
    shown_repeated: Seq<char>,
)
    requires
        r.wf(),
        kept(r, st),
        r.opts.contains(o),
    ensures
        match_opt(r, st, o, inline, shown_excluded, shown_repeated) matches Step::Next(st1) ==> kept(r, st1),
{
    let j = choose|j: int| 0 <= j < r.opts.len() && r.opts[j] == o;
    assert(r.opts[j].is_option());
    let m = st.matches.with_opt(o.name, inline);
    crate::matches::lemma_recorded_names(st.matches, o.name, false, inline, o.name);
    if match_opt(r, st, o, inline, shown_excluded, shown_repeated) is Next {
        assert(m.has_opt(o.name));
        lemma_settle_keeps(r, st, o, m);
    }
}

/// A cluster of flags leaves true what a run keeps true.
proof fn lemma_cluster_keeps(r: Registry, st: State, rest: Seq<char>, whole: Seq<char>)
    requires
        r.wf(),
        kept(r, st),
    ensures
        step_cluster(r, st, rest, whole) matches Step::Next(st1) ==> kept(r, st1),
    decreases rest.len(),
{
    if rest.len() > 0 {
        let c = rest[0];
        let k = find_short(r.flags, c);
        lemma_first_index_of(shorts(r.flags), Some(c));
        if short_builtin(r, c) is None && k < r.flags.len() {
            assert(r.flags.contains(r.flags[k]));
            lemma_match_flag_keeps(r, st, r.flags[k], dashed(seq![c]));
            if let Step::Next(st1) = match_flag(r, st, r.flags[k], dashed(seq![c])) {
                lemma_cluster_keeps(r, st1, rest.drop_first(), whole);
            }
        }
    }
}

/// Each token leaves true what a run keeps true.
pub proof fn lemma_step_keeps(r: Registry, st: State, t: Seq<char>)
    requires
        r.wf(),
        kept(r, st),
    ensures
        step(r, st, t) matches Step::Next(st1) ==> kept(r, st1),
{
    reveal(step);
    if st.needs_val_of is Some && !st.pos_only {
        let n = st.needs_val_of->0;
        crate::matches::lemma_recorded_names(st.matches, n, crate::machine::may_repeat(r.opts, n), None, t);
    } else if !st.pos_only && is_separator(t) {
    } else if !st.pos_only && is_long(t) {
        let body = t.skip(2);
        let name = long_name(body);
        let inline = long_value(body);
        let shown = double_dashed(name);
        lemma_first_index_of(longs(r.opts), Some(name));
        lemma_first_index_of(longs(r.flags), Some(name));
        if find_long(r.opts, name) < r.opts.len() {
            let o = r.opts[find_long(r.opts, name)];
            assert(r.opts.contains(o));
            lemma_match_opt_keeps(r, st, o, inline, shown, shown);
        } else if find_long(r.flags, name) < r.flags.len() {
            let f = r.flags[find_long(r.flags, name)];
            assert(r.flags.contains(f));
            lemma_match_flag_keeps(r, st, f, shown);
        }
    } else if !st.pos_only && is_short(t) {
        let body = t.skip(1);
        if body.len() > 1 {
            lemma_cluster_keeps(r, st, body, body);
        } else {
            let c = body[0];
            lemma_first_index_of(shorts(r.opts), Some(c));
            lemma_first_index_of(shorts(r.flags), Some(c));
            if find_short(r.flags, c) < r.flags.len() {
                let f = r.flags[find_short(r.flags, c)];
                assert(r.flags.contains(f));
                lemma_match_flag_keeps(r, st, f, dashed(seq![c]));
            } else if find_short(r.opts, c) < r.opts.len() {
                let o = r.opts[find_short(r.opts, c)];
                assert(r.opts.contains(o));
                lemma_match_opt_keeps(r, st, o, None, double_dashed(seq![c]), dashed(seq![c]));
            }
        }
    } else {
        if st.pos_counter < r.positionals.len() {
            let p = r.positionals[st.pos_counter as int];
            assert(r.positionals.contains(p));
            assert(p.is_positional());
            let m = st.matches.with_positional(p.name, t);
            crate::matches::lemma_recorded_names(st.matches, p.name, false, None, t);
            if step_positional(r, st, t) is Next {
                assert(m.has_positional(p.name));
                lemma_settle_keeps(r, st, p, m);
            }
        }
    }
}

/// A scan ends in a state of which what a run keeps true is true.
pub proof fn lemma_scan_keeps(r: Registry, st: State, tokens: Seq<Seq<char>>, i: int)
    requires
        r.wf(),
        kept(r, st),
    ensures
        scan(r, st, tokens, i) matches Scan::Done(st1) ==> kept(r, st1),
        scan(r, st, tokens, i) matches Scan::Dispatch(st1, _, _) ==> kept(r, st1),
    decreases tokens.len() - i,
{
    if 0 <= i < tokens.len() {
        lemma_step_keeps(r, st, tokens[i]);
        if let Step::Next(st1) = step(r, st, tokens[i]) {
            lemma_scan_keeps(r, st1, tokens, i + 1);
        }
    }
}

/// Where no excluded name was matched, nothing that is excluded is present.
proof fn lemma_no_conflict(r: Registry, m: Matches, excluded: Seq<Seq<char>>, b: Seq<char>)
    requires
        first_conflict(r, m, excluded) is None,
        excluded.contains(b),
    ensures
        !m.is_present(b),
    decreases excluded.len(),
{
    if excluded[0] != b {
        let i = choose|i: int| 0 <= i < excluded.len() && excluded[i] == b;
        assert(excluded.drop_first()[i - 1] == b);
        lemma_no_conflict(r, m, excluded.drop_first(), b);
    }
}

/// A cluster never ends a run with matches.
proof fn lemma_cluster_stops_unmatched(r: Registry, st: State, rest: Seq<char>, whole: Seq<char>)
    ensures
        step_cluster(r, st, rest, whole) matches Step::Stop(p) ==> !(p is Matched),
    decreases rest.len(),
{
    if rest.len() > 0 {
        let c = rest[0];
        let k = find_short(r.flags, c);
        if short_builtin(r, c) is None && k < r.flags.len() {
            if let Step::Next(st1) = match_flag(r, st, r.flags[k], dashed(seq![c])) {
                lemma_cluster_stops_unmatched(r, st1, rest.drop_first(), whole);
            }
        }
    }
}

/// A token never ends a run with matches: a run that stops at a token stops
/// for help, for the version or for a fault.
pub proof fn lemma_step_stops_unmatched(r: Registry, st: State, t: Seq<char>)
    ensures
        step(r, st, t) matches Step::Stop(p) ==> !(p is Matched),
{
    reveal(step);
    if !st.pos_only && st.needs_val_of is None && is_short(t) && t.skip(1).len() > 1 {
        lemma_cluster_stops_unmatched(r, st, t.skip(1), t.skip(1));
    }
}

/// A scan never stops with matches: it stops for help, for the version or for a fault.
pub proof fn lemma_scan_stops_unmatched(r: Registry, st: State, tokens: Seq<Seq<char>>, i: int)
    ensures
        scan(r, st, tokens, i) matches Scan::Stop(p) ==> !(p is Matched),
    decreases tokens.len() - i,
{
    if 0 <= i < tokens.len() {
        lemma_step_stops_unmatched(r, st, tokens[i]);
        if let Step::Next(st1) = step(r, st, tokens[i]) {
            lemma_scan_stops_unmatched(r, st1, tokens, i + 1);
        }
    }
}

/// The state in which a run that matched came to the end of its level.
pub open spec fn final_state(r: Registry, tokens: Seq<Seq<char>>, start: int) -> State {
    match scan(r, State::initial(r), tokens, start) {
        Scan::Done(st) => st,
        Scan::Dispatch(st, _, _) => st,
        Scan::Stop(_) => State::initial(r),
    }
}

/// What a run matched at its own level is what its scan recorded, and the
/// level's closing checks found no fault with it.
pub proof fn lemma_matched_is_final(reg: Registry, tokens: Seq<Seq<char>>, start: int, m: Matches)
    requires
        parse_from(reg, tokens, start) == Parsed::Matched(m),
    ensures
        !(scan(reg.with_builtins(), State::initial(reg.with_builtins()), tokens, start) is Stop),
        finish(reg.with_builtins(), final_state(reg.with_builtins(), tokens, start)) is None,
        m.flags == final_state(reg.with_builtins(), tokens, start).matches.flags,
        m.opts == final_state(reg.with_builtins(), tokens, start).matches.opts,
        m.positionals == final_state(reg.with_builtins(), tokens, start).matches.positionals,
{
    let r = reg.with_builtins();
    lemma_scan_stops_unmatched(r, State::initial(r), tokens, start);
    match scan(r, State::initial(r), tokens, start) {
        Scan::Stop(p) => {
            assert(parse_from(reg, tokens, start) == p);
        },
        Scan::Done(st) => {
            assert(finish(r, st) is None);
        },
        Scan::Dispatch(st, k, next) => {
            assert(finish(r, st) is None);
            if start < next <= tokens.len() && 0 <= k < r.subcommands.len() {
                let sub = r.subcommands[k];
                match parse_from(sub, tokens, next) {
                    Parsed::Matched(below) => {
                        assert(m == st.matches.with_subcommand(sub.name, below));
                    },
                    _ => {},
                }
            }
        },
    }
}

/// Arguments that exclude each other are never matched together: where `a`
/// excludes `b`, a run that matched `a` has matched nothing under the name
/// `b`, whichever of the two came first among the tokens.
pub proof fn law_excluded_are_not_matched(reg: Registry, tokens: Seq<Seq<char>>, start: int, m: Matches, a: ArgSpec, b: Seq<char>)
    requires
        reg.sound(),
        parse_from(reg, tokens, start) == Parsed::Matched(m),
        reg.with_builtins().declares(a),
        a.blacklist.contains(b),
        m.records(a),
    ensures
        !m.is_present(b),
{
    let r = reg.with_builtins();
    law_builtins_keep_wf(reg);
    lemma_matched_is_final(reg, tokens, start, m);
    lemma_scan_keeps(r, State::initial(r), tokens, start);
    let st = final_state(r, tokens, start);
    assert(st.matches.records(a));
    assert(st.blacklist.contains(b));
    lemma_no_conflict(r, st.matches, st.blacklist, b);
}

/// The dependencies of whatever was matched are matched too: where `a`
/// depends on `b`, a run that matched `a` has matched something under the
/// name `b`, though `b` alone may not be required.
pub proof fn law_dependencies_are_matched(reg: Registry, tokens: Seq<Seq<char>>, start: int, m: Matches, a: ArgSpec, b: Seq<char>)
    requires
        reg.sound(),
        parse_from(reg, tokens, start) == Parsed::Matched(m),
        reg.with_builtins().declares(a),
        a.requires.contains(b),
        m.records(a),
    ensures
        m.is_present(b),
{
    let r = reg.with_builtins();
    law_builtins_keep_wf(reg);
    lemma_matched_is_final(reg, tokens, start, m);
    lemma_scan_keeps(r, State::initial(r), tokens, start);
    let st = final_state(r, tokens, start);
    assert(st.matches.records(a));
    assert(st.matches.is_present(b) || st.required.contains(b));
}

/// A level that comes to its end with a dependency unmet fails for a missing
/// requirement: where `a` depends on `b`, `a` was matched and nothing was
/// matched under the name `b` when the tokens ran out or a subcommand was
/// named, and no option is left waiting for its value, the outcome is the
/// fault `MissingRequired`, though `b` alone may not be required.
pub proof fn law_unmet_dependency_fails(reg: Registry, tokens: Seq<Seq<char>>, start: int, a: ArgSpec, b: Seq<char>)
    requires
        reg.sound(),
        !(scan(reg.with_builtins(), State::initial(reg.with_builtins()), tokens, start) is Stop),
        final_state(reg.with_builtins(), tokens, start).needs_val_of is None,
        reg.with_builtins().declares(a),
        a.requires.contains(b),
        final_state(reg.with_builtins(), tokens, start).matches.records(a),
        !final_state(reg.with_builtins(), tokens, start).matches.is_present(b),
    ensures
        parse_from(reg, tokens, start) matches Parsed::Failed(f) && f.kind == ErrorKind::MissingRequired,
{
    let r = reg.with_builtins();
    law_builtins_keep_wf(reg);
    lemma_scan_keeps(r, State::initial(r), tokens, start);
    let st = final_state(r, tokens, start);
    assert(st.required.contains(b));
}

/// What is true of a state and stays true over every token is true of the
/// state in which a scan ends.
pub proof fn lemma_scan_invariant(
    r: Registry,
    st: State,
    tokens: Seq<Seq<char>>,
    i: int,
    inv: spec_fn(State) -> bool,
)
    requires
        inv(st),
        forall|s: State, t: Seq<char>| inv(s) ==> (#[trigger] step(r, s, t) matches Step::Next(s1) ==> inv(s1)),
    ensures
        scan(r, st, tokens, i) matches Scan::Done(s1) ==> inv(s1),
        scan(r, st, tokens, i) matches Scan::Dispatch(s1, _, _) ==> inv(s1),
    decreases tokens.len() - i,
{
    if 0 <= i < tokens.len() {
        if let Step::Next(st1) = step(r, st, tokens[i]) {
            lemma_scan_invariant(r, st1, tokens, i + 1, inv);
        }
    }
}

/// A command without subcommands never hands its tokens on.
pub proof fn lemma_never_dispatches(r: Registry, st: State, tokens: Seq<Seq<char>>, i: int)
    requires
        r.subcommands.len() == 0,
    ensures
        !(scan(r, st, tokens, i) is Dispatch),
    decreases tokens.len() - i,
{
    if 0 <= i < tokens.len() {
        lemma_dispatch_in_range(r, st, tokens[i]);
        if let Step::Next(st1) = step(r, st, tokens[i]) {
            lemma_never_dispatches(r, st1, tokens, i + 1);
        }
    }
}

/// What a level excludes it excludes to its end: a token adds to the
/// excluded names and takes none away.
pub proof fn law_exclusions_only_grow(r: Registry, st: State, t: Seq<char>, b: Seq<char>)
    requires
        st.blacklist.contains(b),
    ensures
        step(r, st, t) matches Step::Next(st1) ==> st1.blacklist.contains(b),
{
    reveal(step);
    if !st.pos_only && st.needs_val_of is None && is_long(t) {
        let name = long_name(t.skip(2));
        if find_long(r.opts, name) < r.opts.len() {
            lemma_with_names_contains(st.blacklist, r.opts[find_long(r.opts, name)].blacklist, b);
        } else if find_long(r.flags, name) < r.flags.len() {
            lemma_with_names_contains(st.blacklist, r.flags[find_long(r.flags, name)].blacklist, b);
        }
    } else if !st.pos_only && st.needs_val_of is None && is_short(t) {
        let body = t.skip(1);
        if body.len() > 1 {
            lemma_cluster_exclusions_grow(r, st, body, body, b);
        } else {
            let c = body[0];
            if find_short(r.flags, c) < r.flags.len() {
                lemma_with_names_contains(st.blacklist, r.flags[find_short(r.flags, c)].blacklist, b);
            } else if find_short(r.opts, c) < r.opts.len() {
                lemma_with_names_contains(st.blacklist, r.opts[find_short(r.opts, c)].blacklist, b);
            }
        }
    } else if st.pos_counter < r.positionals.len() {
        lemma_with_names_contains(st.blacklist, r.positionals[st.pos_counter as int].blacklist, b);
    }
}

/// A cluster of flags takes no name out of the excluded ones.
proof fn lemma_cluster_exclusions_grow(r: Registry, st: State, rest: Seq<char>, whole: Seq<char>, b: Seq<char>)
    requires
        st.blacklist.contains(b),
    ensures
        step_cluster(r, st, rest, whole) matches Step::Next(st1) ==> st1.blacklist.contains(b),
    decreases rest.len(),
{
    if rest.len() > 0 {
        let c = rest[0];
        let k = find_short(r.flags, c);
        if short_builtin(r, c) is None && k < r.flags.len() {
            lemma_with_names_contains(st.blacklist, r.flags[k].blacklist, b);
            if let Step::Next(st1) = match_flag(r, st, r.flags[k], dashed(seq![c])) {
                lemma_cluster_exclusions_grow(r, st1, rest.drop_first(), whole, b);
            }
        }
    }
}

/// The weight of the tokens only grows with their number.
pub proof fn lemma_weight_grows(tokens: Seq<Seq<char>>, i: int, j: int)
    requires
        i <= j,
    ensures
        0 <= weight(tokens, i) <= weight(tokens, j),
        0 <= i < j ==> weight(tokens, i) + tokens[i].len() + 1 <= weight(tokens, j),
    decreases j - i, j,
{
    if i < j {
        lemma_weight_grows(tokens, i, j - 1);
    } else if i > 0 {
        lemma_weight_grows(tokens, i - 1, i - 1);
    }
}

/// A token names a subcommand only if there is one under its index.
pub proof fn lemma_dispatch_in_range(r: Registry, st: State, t: Seq<char>)
    ensures
        step(r, st, t) matches Step::Dispatch(k) ==> 0 <= k < r.subcommands.len(),
{
    reveal(step);
    crate::text::lemma_first_index_of(crate::registry::sub_names(r.subcommands), t);
    if !st.pos_only && st.needs_val_of is None && is_short(t) && t.skip(1).len() > 1 {
        lemma_cluster_never_dispatches(r, st, t.skip(1), t.skip(1));
    }
}

/// A cluster of flags never names a subcommand.
pub proof fn lemma_cluster_never_dispatches(r: Registry, st: State, rest: Seq<char>, whole: Seq<char>)
    ensures
        !(step_cluster(r, st, rest, whole) is Dispatch),
    decreases rest.len(),
{
    if rest.len() > 0 {
        let c = rest[0];
        let k = crate::arg::find_short(r.flags, c);
        if short_builtin(r, c) is None && k < r.flags.len() {
            if let Step::Next(st1) = match_flag(r, st, r.flags[k], dashed(seq![c])) {
                lemma_cluster_never_dispatches(r, st1, rest.drop_first(), whole);
            }
        }
    }
}

/// An option that waits for its value is declared and recorded, and the
/// separator has not been seen.
pub open spec fn waits_well(r: Registry, st: State) -> bool {
    st.needs_val_of matches Some(n) ==> {
        &&& !st.pos_only
        &&& crate::arg::find_named(r.opts, n) < r.opts.len()
        &&& st.matches.has_opt(n)
    }
}

/// A cluster of flags leaves no option waiting.
proof fn lemma_cluster_waits_well(r: Registry, st: State, rest: Seq<char>, whole: Seq<char>)
    requires
        st.needs_val_of is None,
    ensures
        step_cluster(r, st, rest, whole) matches Step::Next(st1) ==> st1.needs_val_of is None,
    decreases rest.len(),
{
    if rest.len() > 0 {
        let c = rest[0];
        let k = find_short(r.flags, c);
        if short_builtin(r, c) is None && k < r.flags.len() {
            if let Step::Next(st1) = match_flag(r, st, r.flags[k], dashed(seq![c])) {
                lemma_cluster_waits_well(r, st1, rest.drop_first(), whole);
            }
        }
    }
}

/// Whatever a token does, an option that waits afterwards is a declared one
/// that the token has just named, and the value that follows will be its own.
pub proof fn law_waiting_option_is_recorded(r: Registry, st: State, t: Seq<char>)
    requires
        waits_well(r, st),
    ensures
        step(r, st, t) matches Step::Next(st1) ==> waits_well(r, st1),
        st.needs_val_of matches Some(n) ==> (step(r, st, t) matches Step::Next(st1) && st1.needs_val_of is None
            && st1.matches.values_of(n) == st.matches.values_of(n).push(t)),
{
    reveal(step);
    if st.needs_val_of is Some {
        let n = st.needs_val_of->0;
        crate::matches::lemma_recorded_values(st.matches, n, crate::machine::may_repeat(r.opts, n), None, t, n);
    } else if st.pos_only {
    } else if is_separator(t) {
    } else if is_long(t) {
        let name = long_name(t.skip(2));
        let inline = long_value(t.skip(2));
        lemma_first_index_of(longs(r.opts), Some(name));
        let k = find_long(r.opts, name);
        if k < r.opts.len() {
            let o = r.opts[k];
            crate::matches::lemma_recorded_names(st.matches, o.name, false, inline, t);
            lemma_first_index_of(crate::arg::names(r.opts), o.name);
            assert(crate::arg::names(r.opts)[k] == o.name);
        }
    } else if is_short(t) {
        let body = t.skip(1);
        if body.len() > 1 {
            lemma_cluster_waits_well(r, st, body, body);
        } else {
            let c = body[0];
            lemma_first_index_of(shorts(r.opts), Some(c));
            let k = find_short(r.opts, c);
            if find_short(r.flags, c) >= r.flags.len() && k < r.opts.len() {
                let o = r.opts[k];
                crate::matches::lemma_recorded_names(st.matches, o.name, false, None, t);
                lemma_first_index_of(crate::arg::names(r.opts), o.name);
                assert(crate::arg::names(r.opts)[k] == o.name);
            }
        }
    }
}

/// Taking note of a match takes no name out of the due ones but the matched one.
proof fn lemma_settle_required(st: State, x: ArgSpec, m: Matches, n: Seq<char>)
    requires
        st.required.contains(n),
        n != x.name,
    ensures
        st.settle(x, m).required.contains(n),
{
    lemma_without_name_contains(st.required, x.name, n);
    lemma_with_unmet(without_name(st.required, x.name), x.requires, m, n);
}

/// A name that is due stays due until it is matched: no token takes it out
/// of the required names but one that matches something under it.
pub proof fn law_required_stay_until_matched(r: Registry, st: State, t: Seq<char>, n: Seq<char>)
    requires
        st.required.contains(n) || st.matches.is_present(n),
    ensures
        step(r, st, t) matches Step::Next(st1) ==> st1.required.contains(n) || st1.matches.is_present(n),
{
    reveal(step);
    if st.needs_val_of is Some && !st.pos_only {
        let x = st.needs_val_of->0;
        crate::matches::lemma_recorded_names(st.matches, x, crate::machine::may_repeat(r.opts, x), None, t);
    } else if !st.pos_only && is_separator(t) {
    } else if !st.pos_only && is_long(t) {
        let name = long_name(t.skip(2));
        let inline = long_value(t.skip(2));
        if find_long(r.opts, name) < r.opts.len() {
            let o = r.opts[find_long(r.opts, name)];
            crate::matches::lemma_recorded_names(st.matches, o.name, false, inline, t);
            if st.required.contains(n) && n != o.name {
                lemma_settle_required(st, o, st.matches.with_opt(o.name, inline), n);
            }
        } else if find_long(r.flags, name) < r.flags.len() {
            let f = r.flags[find_long(r.flags, name)];
            crate::matches::lemma_recorded_names(st.matches, f.name, f.multiple, None, t);
            if st.required.contains(n) && n != f.name {
                lemma_settle_required(st, f, st.matches.with_flag(f.name, f.multiple), n);
            }
        }
    } else if !st.pos_only && is_short(t) {
        let body = t.skip(1);
        if body.len() > 1 {
            lemma_cluster_required_any(r, st, body, body, n);
        } else {
            let c = body[0];
            if find_short(r.flags, c) < r.flags.len() {
                let f = r.flags[find_short(r.flags, c)];
                crate::matches::lemma_recorded_names(st.matches, f.name, f.multiple, None, t);
                if st.required.contains(n) && n != f.name {
                    lemma_settle_required(st, f, st.matches.with_flag(f.name, f.multiple), n);
                }
            } else if find_short(r.opts, c) < r.opts.len() {
                let o = r.opts[find_short(r.opts, c)];
                crate::matches::lemma_recorded_names(st.matches, o.name, false, None, t);
                if st.required.contains(n) && n != o.name {
                    lemma_settle_required(st, o, st.matches.with_opt(o.name, None), n);
                }
            }
        }
    } else if st.pos_counter < r.positionals.len() {
        let p = r.positionals[st.pos_counter as int];
        crate::matches::lemma_recorded_names(st.matches, p.name, false, None, t);
        if st.required.contains(n) && n != p.name {
            lemma_settle_required(st, p, st.matches.with_positional(p.name, t), n);
        }
    }
}

/// A cluster of flags leaves a name due or matched that was due or matched.
proof fn lemma_cluster_required_any(r: Registry, st: State, rest: Seq<char>, whole: Seq<char>, n: Seq<char>)
    requires
        st.required.contains(n) || st.matches.is_present(n),
    ensures
        step_cluster(r, st, rest, whole) matches Step::Next(st1) ==> st1.required.contains(n)
            || st1.matches.is_present(n),
    decreases rest.len(),
{
    if rest.len() > 0 {
        let c = rest[0];
        let k = find_short(r.flags, c);
        if short_builtin(r, c) is None && k < r.flags.len() {
            let f = r.flags[k];
            crate::matches::lemma_recorded_names(st.matches, f.name, f.multiple, None, n);
            if st.required.contains(n) && n != f.name {
                lemma_settle_required(st, f, st.matches.with_flag(f.name, f.multiple), n);
            }
            if let Step::Next(st1) = match_flag(r, st, f, dashed(seq![c])) {
                lemma_cluster_required_any(r, st1, rest.drop_first(), whole, n);
            }
        }
    }
}

} // verus!
