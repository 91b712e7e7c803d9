//! What holds of every registry that declarations have assembled.
use vstd::prelude::*;
use vstd::string::*;
use crate::arg::{find_named, names, ArgSpec};
use crate::registry::{
    distinct_names, distinct_switches, help_flag, lemma_slot_for, slot_for, upsert_arg, version_flag,
    DefinitionError, Registry,
};
use crate::text::lemma_first_index_of;

verus! {

/// A registry with nothing declared is sound.
pub proof fn law_new_registry_is_sound(n: Seq<char>)
    ensures
        Registry::named(n).sound(),
{
}

/// Declaring an argument that passes the checks keeps a registry sound.
pub proof fn law_declaring_keeps_sound(r: Registry, a: ArgSpec)
    requires
        r.sound(),
        r.definition_error(a) is None,
    ensures
        r.with_arg(a).sound(),
{
    let q = r.with_arg(a);
    lemma_declared_stay_distinct(r, a);
    assert forall|i: int| 0 <= i < r.flags.len() implies r.flags[i].name != a.name by {
        assert(r.arg_list.contains(r.flags[i].name));
    }
    assert forall|i: int| 0 <= i < r.opts.len() implies r.opts[i].name != a.name by {
        assert(r.arg_list.contains(r.opts[i].name));
    }
    assert forall|i: int| 0 <= i < r.positionals.len() implies r.positionals[i].name != a.name by {
        assert(r.arg_list.contains(r.positionals[i].name));
    }
    assert forall|i: int| 0 <= i < r.switches().len() implies !(a.short is Some && r.switches()[i].short
        == a.short) && !(a.long is Some && r.switches()[i].long == a.long) by {
        let s = r.switches()[i];
        if s.short is Some {
            assert(r.short_list.contains(s.short->0));
        }
        if s.long is Some {
            assert(r.long_list.contains(s.long->0));
        }
    }
    // every listed name, short and long stays listed
    assert forall|n: Seq<char>| r.arg_list.contains(n) implies q.arg_list.contains(n) by {
        let i = choose|i: int| 0 <= i < r.arg_list.len() && r.arg_list[i] == n;
        assert(q.arg_list[i] == n);
    }
    assert(q.arg_list[r.arg_list.len() as int] == a.name);
    assert forall|c: char| r.short_list.contains(c) implies q.short_list.contains(c) by {
        let i = choose|i: int| 0 <= i < r.short_list.len() && r.short_list[i] == c;
        assert(q.short_list[i] == c);
    }
    assert forall|l: Seq<char>| r.long_list.contains(l) implies q.long_list.contains(l) by {
        let i = choose|i: int| 0 <= i < r.long_list.len() && r.long_list[i] == l;
        assert(q.long_list[i] == l);
    }
    if a.short is Some {
        assert(q.short_list[r.short_list.len() as int] == a.short->0);
    }
    if a.long is Some {
        assert(q.long_list[r.long_list.len() as int] == a.long->0);
    }
    if a.is_positional() {
        let i = a.index->0;
        let k = slot_for(r.positionals, i);
        lemma_slot_for(r.positionals, i);
        let ps = r.positionals;
        let qs = q.positionals;
        assert(q.switches() =~= r.switches());
        if k < ps.len() && ps[k].index == Some(i) {
            assert forall|x: int, y: int| 0 <= x < y < qs.len() implies (#[trigger] qs[x]).index is Some && (
            #[trigger] qs[y]).index is Some && qs[x].index->0 < qs[y].index->0 && qs[x].name != qs[y].name by {
                assert(ps[x].index->0 < ps[y].index->0);
                assert(ps[x].name != ps[y].name);
            }
            assert forall|x: int| 0 <= x < qs.len() implies q.arg_list.contains((#[trigger] qs[x]).name) by {
                if x != k {
                    assert(qs[x] == ps[x]);
                    assert(r.arg_list.contains(ps[x].name));
                }
            }
            assert forall|x: int| 0 <= x < qs.len() implies (#[trigger] qs[x]).is_positional() && !qs[x].has_switch()
                && !qs[x].multiple && !qs[x].takes_value by {
                if x != k {
                    assert(qs[x] == ps[x]);
                }
            }
        } else {
            assert forall|x: int, y: int| 0 <= x < y < qs.len() implies (#[trigger] qs[x]).index is Some && (
            #[trigger] qs[y]).index is Some && qs[x].index->0 < qs[y].index->0 && qs[x].name != qs[y].name by {
                let px = if x < k { x } else { x - 1 };
                let py = if y < k { y } else { y - 1 };
                if x != k && y != k {
                    assert(qs[x] == ps[px]);
                    assert(qs[y] == ps[py]);
                    assert(ps[px].index->0 < ps[py].index->0);
                    assert(ps[px].name != ps[py].name);
                } else if x == k {
                    assert(qs[y] == ps[py]);
                    assert(ps[k].index->0 <= ps[py].index->0) by {
                        if k < py {
                            assert(ps[k].index->0 < ps[py].index->0);
                        }
                    }
                } else {
                    assert(qs[x] == ps[px]);
                    assert(ps[px].is_positional());
                }
            }
            assert forall|x: int| 0 <= x < qs.len() implies q.arg_list.contains((#[trigger] qs[x]).name) by {
                let px = if x < k { x } else { x - 1 };
                if x != k {
                    assert(qs[x] == ps[px]);
                    assert(r.arg_list.contains(ps[px].name));
                }
            }
            assert forall|x: int| 0 <= x < qs.len() implies (#[trigger] qs[x]).is_positional() && !qs[x].has_switch()
                && !qs[x].multiple && !qs[x].takes_value by {
                let px = if x < k { x } else { x - 1 };
                if x != k {
                    assert(qs[x] == ps[px]);
                }
            }
        }
        assert forall|x: int| 0 <= x < q.opts.len() implies q.leaves_builtins(#[trigger] q.opts[x]) by {
            assert(r.leaves_builtins(r.opts[x]));
        }
        assert forall|x: int| 0 <= x < q.flags.len() implies q.leaves_builtins(#[trigger] q.flags[x]) by {
            assert(r.leaves_builtins(r.flags[x]));
        }
        assert forall|x: int| 0 <= x < q.switches().len() implies ((#[trigger] q.switches()[x]).short is Some
            ==> q.short_list.contains(q.switches()[x].short->0)) && (q.switches()[x].long is Some
            ==> q.long_list.contains(q.switches()[x].long->0)) by {
            let s = r.switches()[x];
            if s.short is Some {
                assert(r.short_list.contains(s.short->0));
            }
            if s.long is Some {
                assert(r.long_list.contains(s.long->0));
            }
        }
        assert forall|x: int| 0 <= x < q.flags.len() implies q.arg_list.contains((#[trigger] q.flags[x]).name) by {
            assert(r.arg_list.contains(r.flags[x].name));
        }
        assert forall|x: int| 0 <= x < q.opts.len() implies q.arg_list.contains((#[trigger] q.opts[x]).name) by {
            assert(r.arg_list.contains(r.opts[x].name));
        }
    } else {
        let rs = r.switches();
        let qs = q.switches();
        // the new switch stands after the flags, or after the options
        let at = if a.is_flag() { r.flags.len() as int } else { rs.len() as int };
        assert(qs =~= rs.insert(at, a));
        assert forall|x: int, y: int| 0 <= x < y < qs.len() implies !((#[trigger] qs[x]).short is Some
            && qs[x].short == (#[trigger] qs[y]).short) && !(qs[x].long is Some && qs[x].long == qs[y].long) by {
            let px = if x < at { x } else { x - 1 };
            let py = if y < at { y } else { y - 1 };
            if x != at && y != at {
                assert(qs[x] == rs[px]);
                assert(qs[y] == rs[py]);
            } else if x == at {
                assert(qs[y] == rs[py]);
            } else {
                assert(qs[x] == rs[px]);
            }
        }
        assert forall|x: int| 0 <= x < qs.len() implies ((#[trigger] qs[x]).short is Some ==> q.short_list.contains(
            qs[x].short->0,
        )) && (qs[x].long is Some ==> q.long_list.contains(qs[x].long->0)) by {
            let px = if x < at { x } else { x - 1 };
            if x != at {
                assert(qs[x] == rs[px]);
                if rs[px].short is Some {
                    assert(r.short_list.contains(rs[px].short->0));
                }
                if rs[px].long is Some {
                    assert(r.long_list.contains(rs[px].long->0));
                }
            }
        }
        assert forall|x: int| 0 <= x < q.flags.len() implies q.leaves_builtins(#[trigger] q.flags[x]) && q.flags[x].is_flag()
            && q.flags[x].has_switch() && !q.flags[x].required && q.arg_list.contains(q.flags[x].name) by {
            if x < r.flags.len() {
                assert(q.flags[x] == r.flags[x]);
                assert(r.leaves_builtins(r.flags[x]));
                assert(r.arg_list.contains(r.flags[x].name));
            }
        }
        assert forall|x: int| 0 <= x < q.opts.len() implies q.leaves_builtins(#[trigger] q.opts[x]) && q.opts[x].is_option()
            && q.opts[x].has_switch() && q.arg_list.contains(q.opts[x].name) by {
            if x < r.opts.len() {
                assert(q.opts[x] == r.opts[x]);
                assert(r.leaves_builtins(r.opts[x]));
                assert(r.arg_list.contains(r.opts[x].name));
            }
        }
        assert forall|x: int| 0 <= x < q.positionals.len() implies q.arg_list.contains(
            (#[trigger] q.positionals[x]).name,
        ) by {
            assert(r.arg_list.contains(r.positionals[x].name));
        }
        assert forall|x: int, y: int| 0 <= x < y < q.flags.len() implies (#[trigger] q.flags[x]).name != (
        #[trigger] q.flags[y]).name by {
            if y < r.flags.len() {
                assert(r.flags[x].name != r.flags[y].name);
            }
        }
        assert forall|x: int, y: int| 0 <= x < y < q.opts.len() implies (#[trigger] q.opts[x]).name != (
        #[trigger] q.opts[y]).name by {
            if y < r.opts.len() {
                assert(r.opts[x].name != r.opts[y].name);
            }
        }
    }
}

/// An argument whose name is not in use has the name of no declared argument.
proof fn lemma_declared_stay_distinct(r: Registry, a: ArgSpec)
    requires
        r.sound(),
        r.definition_error(a) is None,
    ensures
        distinct_names(r.with_arg(a).declared()),
{
    let q = r.with_arg(a);
    let old = r.declared();
    let new = q.declared();
    let nf = r.flags.len() as int;
    let no = r.opts.len() as int;
    assert forall|i: int| 0 <= i < old.len() implies (#[trigger] old[i]).name != a.name by {
        if i < nf {
            assert(r.arg_list.contains(r.flags[i].name));
        } else if i < nf + no {
            assert(r.arg_list.contains(r.opts[i - nf].name));
        } else {
            assert(r.arg_list.contains(r.positionals[i - nf - no].name));
        }
    }
    if a.is_positional() {
        let i = a.index->0;
        let k = slot_for(r.positionals, i);
        lemma_slot_for(r.positionals, i);
        let at = nf + no + k;
        if k < r.positionals.len() && r.positionals[k].index == Some(i) {
            assert(new =~= old.update(at, a));
            assert forall|x: int, y: int| 0 <= x < y < new.len() implies (#[trigger] new[x]).name != (
            #[trigger] new[y]).name by {
                assert(old[x].name != old[y].name);
            }
        } else {
            assert(new =~= old.insert(at, a));
            lemma_insert_stays_distinct(old, at, a);
        }
    } else if a.is_option() {
        assert(new =~= old.insert(nf + no, a));
        lemma_insert_stays_distinct(old, nf + no, a);
    } else {
        assert(new =~= old.insert(nf, a));
        lemma_insert_stays_distinct(old, nf, a);
    }
}

/// Names stay distinct when an argument with a new name is put among them.
proof fn lemma_insert_stays_distinct(args: Seq<ArgSpec>, at: int, a: ArgSpec)
    requires
        distinct_names(args),
        0 <= at <= args.len(),
        forall|i: int| 0 <= i < args.len() ==> (#[trigger] args[i]).name != a.name,
    ensures
        distinct_names(args.insert(at, a)),
{
    let new = args.insert(at, a);
    assert forall|x: int, y: int| 0 <= x < y < new.len() implies (#[trigger] new[x]).name != (#[trigger] new[y]).name by {
        let px = if x < at { x } else { x - 1 };
        let py = if y < at { y } else { y - 1 };
        if x != at && y != at {
            assert(new[x] == args[px]);
            assert(new[y] == args[py]);
            assert(args[px].name != args[py].name);
        } else if x == at {
            assert(new[y] == args[py]);
        } else {
            assert(new[x] == args[px]);
        }
    }
}

/// Declaring one argument after another, each passing the checks, keeps a
/// registry sound.
pub proof fn law_declaring_all_keeps_sound(r: Registry, args: Seq<ArgSpec>)
    requires
        r.sound(),
        r.accepts_all(args),
    ensures
        r.with_args(args).sound(),
    decreases args.len(),
{
    if args.len() > 0 {
        law_declaring_all_keeps_sound(r, args.drop_last());
        law_declaring_keeps_sound(r.with_args(args.drop_last()), args.last());
    }
}

/// Whatever leaves the arguments and the built-in claims of a sound registry
/// alone leaves it sound: its texts and its subcommands are free.
pub proof fn law_texts_and_subcommands_are_free(r: Registry, q: Registry)
    requires
        r.sound(),
        q.flags == r.flags,
        q.opts == r.opts,
        q.positionals == r.positionals,
        q.arg_list == r.arg_list,
        q.short_list == r.short_list,
        q.long_list == r.long_list,
        q.needs_long_help == r.needs_long_help,
        q.needs_long_version == r.needs_long_version,
        q.needs_short_help == r.needs_short_help,
        q.needs_short_version == r.needs_short_version,
    ensures
        q.sound(),
{
    assert(q.switches() == r.switches());
    assert(q.declared() == r.declared());
    assert forall|i: int| 0 <= i < q.opts.len() implies q.leaves_builtins(#[trigger] q.opts[i]) by {
        assert(r.leaves_builtins(r.opts[i]));
    }
    assert forall|i: int| 0 <= i < q.flags.len() implies q.leaves_builtins(#[trigger] q.flags[i]) by {
        assert(r.leaves_builtins(r.flags[i]));
    }
}

/// Adding subcommands keeps a registry sound.
pub proof fn law_subcommands_keep_sound(r: Registry, subs: Seq<Registry>)
    requires
        r.sound(),
    ensures
        r.with_subcommands(subs).sound(),
    decreases subs.len(),
{
    if subs.len() > 0 {
        law_subcommands_keep_sound(r, subs.drop_last());
        let before = r.with_subcommands(subs.drop_last());
        law_texts_and_subcommands_are_free(before, before.with_subcommand(subs.last()));
    }
}

/// Putting a flag with unused switches among the flags, in place of its
/// namesake if there is one, keeps names and switches distinct.
proof fn lemma_upsert_flag(flags: Seq<ArgSpec>, opts: Seq<ArgSpec>, f: ArgSpec)
    requires
        distinct_names(flags),
        distinct_switches(flags + opts),
        forall|i: int|
            0 <= i < (flags + opts).len() ==> {
                &&& !(f.short is Some && (#[trigger] (flags + opts)[i]).short == f.short)
                &&& !(f.long is Some && (flags + opts)[i].long == f.long)
            },
    ensures
        distinct_names(upsert_arg(flags, f)),
        distinct_switches(upsert_arg(flags, f) + opts),
        forall|i: int|
            0 <= i < upsert_arg(flags, f).len() ==> #[trigger] upsert_arg(flags, f)[i] == f || flags.contains(
                upsert_arg(flags, f)[i],
            ),
        upsert_arg(flags, f).contains(f),
{
    let k = find_named(flags, f.name);
    lemma_first_index_of(names(flags), f.name);
    let up = upsert_arg(flags, f);
    let all = flags + opts;
    let new = up + opts;
    if k < flags.len() {
        assert(up[k] == f);
        assert forall|x: int, y: int| 0 <= x < y < up.len() implies (#[trigger] up[x]).name != (#[trigger] up[y]).name by {
            assert(names(flags)[k] == f.name);
            assert(flags[x].name != flags[y].name);
        }
        assert forall|x: int, y: int| 0 <= x < y < new.len() implies !((#[trigger] new[x]).short is Some
            && new[x].short == (#[trigger] new[y]).short) && !(new[x].long is Some && new[x].long == new[y].long) by {
            if x != k {
                assert(new[x] == all[x]);
            }
            if y != k {
                assert(new[y] == all[y]);
            }
        }
        assert forall|i: int| 0 <= i < up.len() implies #[trigger] up[i] == f || flags.contains(up[i]) by {
            if i != k {
                assert(flags[i] == up[i]);
            }
        }
    } else {
        assert(up[flags.len() as int] == f);
        assert forall|x: int, y: int| 0 <= x < y < up.len() implies (#[trigger] up[x]).name != (#[trigger] up[y]).name by {
            if y < flags.len() {
                assert(flags[x].name != flags[y].name);
            } else {
                assert(names(flags)[x] == flags[x].name);
            }
        }
        assert forall|x: int, y: int| 0 <= x < y < new.len() implies !((#[trigger] new[x]).short is Some
            && new[x].short == (#[trigger] new[y]).short) && !(new[x].long is Some && new[x].long == new[y].long) by {
            let at = flags.len() as int;
            let px = if x < at { x } else { x - 1 };
            let py = if y < at { y } else { y - 1 };
            if x != at {
                assert(new[x] == all[px]);
            }
            if y != at {
                assert(new[y] == all[py]);
            }
        }
        assert forall|i: int| 0 <= i < up.len() implies #[trigger] up[i] == f || flags.contains(up[i]) by {
            if i < flags.len() {
                assert(flags[i] == up[i]);
            }
        }
    }
}

/// The registry a run works with is well formed whenever the declared one is sound.
pub proof fn law_builtins_keep_wf(reg: Registry)
    requires
        reg.sound(),
    ensures
        reg.with_builtins().wf(),
{
    reveal_strlit("help");
    reveal_strlit("version");
    let r = reg.with_builtins();
    let help = help_flag(reg.needs_short_help);
    let version = version_flag(reg.needs_short_version);
    assert(help.long != version.long) by {
        assert("help"@.len() != "version"@.len());
    }
    let all = reg.flags + reg.opts;
    assert forall|i: int| 0 <= i < all.len() implies reg.leaves_builtins(#[trigger] all[i]) by {
        if i < reg.flags.len() {
            assert(reg.leaves_builtins(reg.flags[i]));
        } else {
            assert(reg.leaves_builtins(reg.opts[i - reg.flags.len()]));
        }
    }
    let flags1 = if reg.needs_long_help {
        upsert_arg(reg.flags, help)
    } else {
        reg.flags
    };
    if reg.needs_long_help {
        assert forall|i: int| 0 <= i < all.len() implies !(help.short is Some && (#[trigger] all[i]).short
            == help.short) && !(help.long is Some && all[i].long == help.long) by {
            assert(reg.leaves_builtins(all[i]));
        }
        lemma_upsert_flag(reg.flags, reg.opts, help);
    }
    let all1 = flags1 + reg.opts;
    assert forall|i: int| 0 <= i < flags1.len() implies #[trigger] flags1[i] == help || reg.flags.contains(flags1[i]) by {
        if !reg.needs_long_help {
            assert(reg.flags[i] == flags1[i]);
        }
    }
    if reg.needs_long_version {
        assert forall|i: int| 0 <= i < all1.len() implies !(version.short is Some && (#[trigger] all1[i]).short
            == version.short) && !(version.long is Some && all1[i].long == version.long) by {
            if i < flags1.len() {
                if flags1[i] != help {
                    assert(reg.flags.contains(flags1[i]));
                    let j = choose|j: int| 0 <= j < reg.flags.len() && reg.flags[j] == flags1[i];
                    assert(reg.leaves_builtins(reg.flags[j]));
                }
            } else {
                assert(reg.leaves_builtins(reg.opts[i - flags1.len()]));
            }
        }
        lemma_upsert_flag(flags1, reg.opts, version);
    }
    assert forall|i: int| 0 <= i < r.flags.len() implies (#[trigger] r.flags[i]).is_flag() && r.flags[i].has_switch()
        && !r.flags[i].required by {
        let f = r.flags[i];
        if f != help && f != version {
            if reg.needs_long_version {
                assert(flags1.contains(f));
            } else {
                assert(flags1[i] == f);
            }
            let j1 = choose|j: int| 0 <= j < flags1.len() && flags1[j] == f;
            assert(reg.flags.contains(flags1[j1]));
            let j = choose|j: int| 0 <= j < reg.flags.len() && reg.flags[j] == f;
            assert(reg.flags[j].is_flag());
        }
    }
    assert forall|i: int| 0 <= i < r.opts.len() implies r.leaves_builtins(#[trigger] r.opts[i]) by {
        assert(reg.leaves_builtins(reg.opts[i]));
    }
}

/// Whatever is declared under a name that no built-in uses is still declared
/// in the registry a run works with.
pub proof fn law_declared_stay_declared(reg: Registry, a: ArgSpec)
    requires
        reg.declares(a),
        a.name != "builtin_help"@,
        a.name != "builtin_version"@,
    ensures
        reg.with_builtins().declares(a),
{
    let help = help_flag(reg.needs_short_help);
    let version = version_flag(reg.needs_short_version);
    let flags1 = if reg.needs_long_help {
        upsert_arg(reg.flags, help)
    } else {
        reg.flags
    };
    if reg.flags.contains(a) {
        lemma_upsert_keeps_others(reg.flags, help, a);
        lemma_upsert_keeps_others(flags1, version, a);
    }
}

/// Putting an argument in place of its namesake leaves those of other names.
proof fn lemma_upsert_keeps_others(args: Seq<ArgSpec>, f: ArgSpec, a: ArgSpec)
    requires
        args.contains(a),
        a.name != f.name,
    ensures
        upsert_arg(args, f).contains(a),
{
    let i = choose|i: int| 0 <= i < args.len() && args[i] == a;
    lemma_first_index_of(names(args), f.name);
    let k = find_named(args, f.name);
    if k < args.len() {
        assert(names(args)[k] == f.name);
    }
    assert(upsert_arg(args, f)[i] == a);
}

/// No two arguments have the same short form: once an argument with the short
/// form `c` is declared, a declaration of another with that short form is
/// refused, before anything is run.
pub proof fn law_short_forms_are_unique(r: Registry, a: ArgSpec, b: ArgSpec, c: char)
    requires
        a.short == Some(c),
        b.short == Some(c),
    ensures
        r.with_arg(a).definition_error(b) is Some,
        !r.with_arg(a).arg_list.contains(b.name) ==> r.with_arg(a).definition_error(b) == Some(
            DefinitionError::DuplicateShort,
        ),
{
    let q = r.with_arg(a);
    assert(q.short_list[r.short_list.len() as int] == c);
}

/// In a sound registry the short form of a declared flag or option is taken:
/// a declaration of another argument with that short form is refused.
pub proof fn law_used_short_is_refused(r: Registry, a: ArgSpec, b: ArgSpec)
    requires
        r.sound(),
        r.flags.contains(a) || r.opts.contains(a),
        a.short is Some,
        b.short == a.short,
    ensures
        r.definition_error(b) is Some,
{
    if r.flags.contains(a) {
        let i = choose|i: int| 0 <= i < r.flags.len() && r.flags[i] == a;
        assert(r.switches()[i] == a);
    } else {
        let i = choose|i: int| 0 <= i < r.opts.len() && r.opts[i] == a;
        assert(r.switches()[r.flags.len() + i] == a);
    }
}

/// Names are unique within a registry: no two declared arguments, of
/// whatever kind, have the same name.
pub proof fn law_names_are_unique(r: Registry, a: ArgSpec, b: ArgSpec)
    requires
        r.sound(),
        r.declares(a),
        r.declares(b),
        a.name == b.name,
    ensures
        a == b,
{
    let all = r.declared();
    let nf = r.flags.len() as int;
    let no = r.opts.len() as int;
    let i = if r.flags.contains(a) {
        choose|i: int| 0 <= i < r.flags.len() && r.flags[i] == a
    } else if r.opts.contains(a) {
        nf + choose|i: int| 0 <= i < r.opts.len() && r.opts[i] == a
    } else {
        nf + no + choose|i: int| 0 <= i < r.positionals.len() && r.positionals[i] == a
    };
    let j = if r.flags.contains(b) {
        choose|j: int| 0 <= j < r.flags.len() && r.flags[j] == b
    } else if r.opts.contains(b) {
        nf + choose|j: int| 0 <= j < r.opts.len() && r.opts[j] == b
    } else {
        nf + no + choose|j: int| 0 <= j < r.positionals.len() && r.positionals[j] == b
    };
    assert(all[i] == a);
    assert(all[j] == b);
    if i < j {
        assert(all[i].name != all[j].name);
    } else if j < i {
        assert(all[j].name != all[i].name);
    }
}

/// Each kind has its shape: a declared flag has a switch, takes no value and
/// is never required; a declared option has a switch and takes a value; a
/// declared positional has an index and neither a switch nor a value of its
/// own, and occurs once.
pub proof fn law_kinds_have_their_shape(r: Registry, a: ArgSpec)
    requires
        r.sound(),
        r.declares(a),
    ensures
        r.flags.contains(a) ==> a.is_flag() && a.has_switch() && !a.required,
        r.opts.contains(a) ==> a.is_option() && a.has_switch(),
        r.positionals.contains(a) ==> a.is_positional() && !a.has_switch() && !a.multiple && !a.takes_value,
{
    if r.flags.contains(a) {
        let i = choose|i: int| 0 <= i < r.flags.len() && r.flags[i] == a;
        assert(r.flags[i].is_flag());
    }
    if r.opts.contains(a) {
        let i = choose|i: int| 0 <= i < r.opts.len() && r.opts[i] == a;
        assert(r.opts[i].is_option());
    }
    if r.positionals.contains(a) {
        let i = choose|i: int| 0 <= i < r.positionals.len() && r.positionals[i] == a;
        assert(r.positionals[i].is_positional());
    }
}

} // verus!
