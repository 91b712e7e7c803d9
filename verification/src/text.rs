//! Owned text and ordered name lists, with their mathematical views.
use vstd::prelude::*;
use vstd::string::*;

verus! {

/// The characters of each string of `v`, in order.
pub open spec fn names_of(v: Seq<String>) -> Seq<Seq<char>> {
    v.map_values(|s: String| s@)
}

/// The characters of an optional string.
pub open spec fn opt_text(o: Option<String>) -> Option<Seq<char>> {
    match o {
        Some(s) => Some(s@),
        None => None,
    }
}

/// The predicate "differs from `n`".
pub open spec fn differs_from(n: Seq<char>) -> spec_fn(Seq<char>) -> bool {
    |x: Seq<char>| x != n
}

/// `s` with `n` added at the end unless it is already there.
pub open spec fn with_name(s: Seq<Seq<char>>, n: Seq<char>) -> Seq<Seq<char>> {
    if s.contains(n) {
        s
    } else {
        s.push(n)
    }
}

/// `s` with every occurrence of `n` taken out.
pub open spec fn without_name(s: Seq<Seq<char>>, n: Seq<char>) -> Seq<Seq<char>> {
    s.filter(differs_from(n))
}

/// `s` followed by the names of `more` it does not hold yet, each added once.
pub open spec fn with_names(s: Seq<Seq<char>>, more: Seq<Seq<char>>) -> Seq<Seq<char>>
    decreases more.len(),
{
    if more.len() == 0 {
        s
    } else {
        with_name(with_names(s, more.drop_last()), more.last())
    }
}

/// The index of the first `x` in `s`, or the length of `s` when there is none.
pub open spec fn first_index_of<A>(s: Seq<A>, x: A) -> int
    decreases s.len(),
{
    if s.len() == 0 {
        0
    } else if s[0] == x {
        0
    } else {
        1 + first_index_of(s.drop_first(), x)
    }
}

/// Where the first `x` of `s` stands: within `s` or at its end, after no other
/// `x`, and at an `x` exactly when `s` holds one.
pub proof fn lemma_first_index_of<A>(s: Seq<A>, x: A)
    ensures
        0 <= first_index_of(s, x) <= s.len(),
        forall|j: int| 0 <= j < first_index_of(s, x) ==> s[j] != x,
        first_index_of(s, x) < s.len() ==> s[first_index_of(s, x)] == x,
        first_index_of(s, x) < s.len() <==> s.contains(x),
    decreases s.len(),
{
    if s.len() > 0 && s[0] != x {
        let rest = s.drop_first();
        lemma_first_index_of(rest, x);
        assert forall|j: int| 0 <= j < first_index_of(s, x) implies s[j] != x by {
            if j > 0 {
                assert(s[j] == rest[j - 1]);
            }
        }
        if s.contains(x) {
            let i = choose|i: int| 0 <= i < s.len() && s[i] == x;
            assert(rest[i - 1] == x);
        }
        if rest.contains(x) {
            let i = choose|i: int| 0 <= i < rest.len() && rest[i] == x;
            assert(s[i + 1] == x);
        }
    } else if s.len() > 0 {
        assert(s[0] == x);
    }
}

/// The first index at which `x` stands is the only one with no `x` before it.
pub proof fn lemma_first_index_is<A>(s: Seq<A>, x: A, k: int)
    requires
        0 <= k <= s.len(),
        forall|j: int| 0 <= j < k ==> s[j] != x,
        k < s.len() ==> s[k] == x,
    ensures
        first_index_of(s, x) == k,
{
    lemma_first_index_of(s, x);
}

/// The names of a list with one more string are the names before with one more.
pub proof fn lemma_names_push(v: Seq<String>, s: String)
    ensures
        names_of(v.push(s)) == names_of(v).push(s@),
{
    assert(names_of(v.push(s)) =~= names_of(v).push(s@));
}

/// After names are added, a list holds what it held and what was added.
pub proof fn lemma_with_names_contains(s: Seq<Seq<char>>, more: Seq<Seq<char>>, n: Seq<char>)
    ensures
        with_names(s, more).contains(n) <==> s.contains(n) || more.contains(n),
    decreases more.len(),
{
    if more.len() > 0 {
        let front = more.drop_last();
        lemma_with_names_contains(s, front, n);
        let mid = with_names(s, front);
        if !mid.contains(more.last()) {
            assert(mid.push(more.last()).last() == more.last());
            if mid.contains(n) {
                let i = choose|i: int| 0 <= i < mid.len() && mid[i] == n;
                assert(mid.push(more.last())[i] == n);
            }
        }
        if more.contains(n) {
            let i = choose|i: int| 0 <= i < more.len() && more[i] == n;
            if i < front.len() {
                assert(front[i] == n);
            }
        }
        if front.contains(n) {
            let i = choose|i: int| 0 <= i < front.len() && front[i] == n;
            assert(more[i] == n);
        }
    }
}

/// After a name is taken out, a list holds what it held but for that name.
pub proof fn lemma_without_name_contains(s: Seq<Seq<char>>, n: Seq<char>, x: Seq<char>)
    ensures
        without_name(s, n).contains(x) <==> s.contains(x) && x != n,
{
    let f = without_name(s, n);
    if f.contains(x) {
        let i = choose|i: int| 0 <= i < f.len() && f[i] == x;
        s.lemma_filter_contains_rev(differs_from(n), x);
        s.lemma_filter_pred(differs_from(n), i);
    }
    if s.contains(x) && x != n {
        let i = choose|i: int| 0 <= i < s.len() && s[i] == x;
        s.lemma_filter_contains(differs_from(n), i);
    }
}

/// Appends one character to `s` with `String::push`: afterwards `s` holds its old
/// characters followed by `c`.
#[verifier::external_body]
pub(crate) fn push_char(s: &mut String, c: char)
    ensures
        final(s)@ == old(s)@.push(c),
{
    s.push(c)
}

/// The characters of `t`, one by one.
pub(crate) fn to_chars(t: &str) -> (r: Vec<char>)
    ensures
        r@ == t@,
{
    let mut out: Vec<char> = Vec::new();
    for c in it: t.chars()
        invariant
            out@ == it.seq().take(it.index()),
            it.seq() == t@,
    {
        out.push(c);
    }
    out
}

/// The string made of the characters `chars[from..to]`.
pub(crate) fn text_of(chars: &Vec<char>, from: usize, to: usize) -> (r: String)
    requires
        from <= to <= chars@.len(),
    ensures
        r@ == chars@.subrange(from as int, to as int),
{
    let mut out = String::new();
    let mut i: usize = from;
    while i < to
        invariant
            from <= i <= to <= chars@.len(),
            out@ == chars@.subrange(from as int, i as int),
        decreases to - i,
    {
        push_char(&mut out, chars[i]);
        assert(chars@.subrange(from as int, i + 1) =~= chars@.subrange(from as int, i as int).push(
            chars@[i as int],
        ));
        i += 1;
    }
    out
}

/// A copy of `v`.
pub(crate) fn clone_names(v: &Vec<String>) -> (r: Vec<String>)
    ensures
        names_of(r@) == names_of(v@),
{
    let mut out: Vec<String> = Vec::new();
    let mut i: usize = 0;
    while i < v.len()
        invariant
            i <= v.len(),
            out@.len() == i,
            forall|j: int| 0 <= j < i ==> out@[j]@ == v@[j]@,
        decreases v.len() - i,
    {
        out.push(v[i].clone());
        i += 1;
    }
    assert(names_of(out@) =~= names_of(v@));
    out
}

/// Whether `n` is one of the names of `v`.
pub(crate) fn contains_name(v: &Vec<String>, n: &String) -> (r: bool)
    ensures
        r == names_of(v@).contains(n@),
{
    let mut i: usize = 0;
    while i < v.len()
        invariant
            i <= v.len(),
            forall|j: int| 0 <= j < i ==> names_of(v@)[j] != n@,
        decreases v.len() - i,
    {
        if v[i] == *n {
            assert(names_of(v@)[i as int] == n@);
            return true;
        }
        i += 1;
    }
    false
}

/// Whether `c` is one of the characters of `v`.
pub(crate) fn contains_char(v: &Vec<char>, c: char) -> (r: bool)
    ensures
        r == v@.contains(c),
{
    let mut i: usize = 0;
    while i < v.len()
        invariant
            i <= v.len(),
            forall|j: int| 0 <= j < i ==> v@[j] != c,
        decreases v.len() - i,
    {
        if v[i] == c {
            return true;
        }
        i += 1;
    }
    false
}

/// Adds `n` unless `v` already holds it.
pub(crate) fn insert_name(v: &mut Vec<String>, n: String)
    ensures
        names_of(final(v)@) == with_name(names_of(old(v)@), n@),
{
    if !contains_name(v, &n) {
        proof {
            lemma_names_push(v@, n);
        }
        v.push(n);
    }
}

/// Adds each name of `more` that `v` does not hold yet.
pub(crate) fn insert_names(v: &mut Vec<String>, more: &Vec<String>)
    ensures
        names_of(final(v)@) == with_names(names_of(old(v)@), names_of(more@)),
{
    let mut i: usize = 0;
    while i < more.len()
        invariant
            i <= more.len(),
            names_of(v@) == with_names(names_of(old(v)@), names_of(more@).take(i as int)),
        decreases more.len() - i,
    {
        insert_name(v, more[i].clone());
        assert(names_of(more@).take(i + 1).drop_last() =~= names_of(more@).take(i as int));
        i += 1;
    }
    assert(names_of(more@).take(more.len() as int) =~= names_of(more@));
}

/// Takes every occurrence of `n` out of `v`.
pub(crate) fn remove_name(v: &Vec<String>, n: &String) -> (r: Vec<String>)
    ensures
        names_of(r@) == without_name(names_of(v@), n@),
{
    let mut out: Vec<String> = Vec::new();
    let mut i: usize = 0;
    proof {
        reveal(Seq::filter);
        assert(names_of(v@).take(0).filter(differs_from(n@)) =~= Seq::<Seq<char>>::empty());
        assert(names_of(out@) =~= Seq::<Seq<char>>::empty());
    }
    while i < v.len()
        invariant
            i <= v.len(),
            names_of(out@) == without_name(names_of(v@).take(i as int), n@),
        decreases v.len() - i,
    {
        proof {
            let pre = names_of(v@).take(i as int);
            let next = names_of(v@).take(i + 1);
            assert(next =~= pre.push(v@[i as int]@));
            pre.lemma_filter_push(v@[i as int]@, differs_from(n@));
        }
        if !(v[i] == *n) {
            proof {
                lemma_names_push(out@, v@[i as int]);
            }
            out.push(v[i].clone());
        }
        i += 1;
    }
    assert(names_of(v@).take(v.len() as int) =~= names_of(v@));
    out
}

/// The index of the first `c` in `chars`, or their number when there is none.
pub(crate) fn find_char(chars: &Vec<char>, from: usize, c: char) -> (r: usize)
    requires
        from <= chars@.len(),
    ensures
        r == from + first_index_of(chars@.skip(from as int), c),
        from <= r <= chars@.len(),
{
    let mut i: usize = from;
    while i < chars.len() && chars[i] != c
        invariant
            from <= i <= chars@.len(),
            forall|j: int| from <= j < i ==> chars@[j] != c,
        decreases chars@.len() - i,
    {
        i += 1;
    }
    proof {
        lemma_first_index_is(chars@.skip(from as int), c, i - from);
    }
    i
}

} // verus!
