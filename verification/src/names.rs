//! Tables of names: what each name stands for, held as a list of entries in
//! the order they were made, each name at most once.
use crate::text::same_text;
use vstd::prelude::*;

verus! {

/// What a table of names holds: each name and what it stands for, seen
/// through `f`. Where a name occurs twice, the later entry counts.
pub open spec fn table<V, W>(t: Seq<(String, V)>, f: spec_fn(V) -> W) -> Map<Seq<char>, W>
    decreases t.len(),
{
    if t.len() == 0 {
        Map::empty()
    } else {
        table(t.drop_last(), f).insert(t.last().0@, f(t.last().1))
    }
}

/// No name occurs twice in `t`.
pub open spec fn distinct_names<V>(t: Seq<(String, V)>) -> bool {
    forall|i: int, j: int| 0 <= i < j < t.len() ==> t[i].0@ != t[j].0@
}

/// What a table of names to names holds.
pub open spec fn bindings(t: Seq<(String, String)>) -> Map<Seq<char>, Seq<char>> {
    table(t, |s: String| s@)
}

/// A name is in a table exactly where an entry has it, and then stands for
/// that entry's value.
pub proof fn lemma_table<V, W>(t: Seq<(String, V)>, f: spec_fn(V) -> W)
    requires
        distinct_names(t),
    ensures
        forall|k: Seq<char>| #[trigger] table(t, f).dom().contains(k) <==> exists|i: int| 0 <= i < t.len() && t[i].0@ == k,
        forall|i: int| 0 <= i < t.len() ==> #[trigger] table(t, f)[t[i].0@] == f(t[i].1),
    decreases t.len(),
{
    if t.len() > 0 {
        let s = t.drop_last();
        let n = t.len() - 1;
        assert forall|a: int, b: int| 0 <= a < b < s.len() implies s[a].0@ != s[b].0@ by {
            assert(s[a] == t[a] && s[b] == t[b]);
        }
        lemma_table(s, f);
        let last = t[n];
        assert(table(t, f) == table(s, f).insert(last.0@, f(last.1)));
        assert forall|k: Seq<char>| #[trigger] table(t, f).dom().contains(k) <==> exists|i: int| 0 <= i < t.len() && t[i].0@ == k by {
            if table(t, f).dom().contains(k) {
                if k == last.0@ {
                    assert(t[n].0@ == k);
                } else {
                    assert(table(s, f).dom().contains(k));
                    let i = choose|i: int| 0 <= i < s.len() && s[i].0@ == k;
                    assert(t[i] == s[i]);
                }
            }
            if exists|i: int| 0 <= i < t.len() && t[i].0@ == k {
                let i = choose|i: int| 0 <= i < t.len() && t[i].0@ == k;
                if i < n {
                    assert(s[i] == t[i]);
                    assert(table(s, f).dom().contains(s[i].0@));
                }
            }
        }
        assert forall|i: int| 0 <= i < t.len() implies #[trigger] table(t, f)[t[i].0@] == f(t[i].1) by {
            if i < n {
                assert(s[i] == t[i]);
                assert(t[i].0@ != last.0@);
                assert(table(s, f)[s[i].0@] == f(s[i].1));
            }
        }
    }
}

/// Replacing the value of an entry replaces what its name stands for.
pub proof fn lemma_table_update<V, W>(t: Seq<(String, V)>, f: spec_fn(V) -> W, i: int, e: (String, V))
    requires
        distinct_names(t),
        0 <= i < t.len(),
        e.0@ == t[i].0@,
    ensures
        distinct_names(t.update(i, e)),
        table(t.update(i, e), f) == table(t, f).insert(e.0@, f(e.1)),
{
    let u = t.update(i, e);
    assert forall|a: int, b: int| 0 <= a < b < u.len() implies u[a].0@ != u[b].0@ by {
        assert(t[a].0@ != t[b].0@);
    }
    lemma_table(t, f);
    lemma_table(u, f);
    assert(table(u, f) =~= table(t, f).insert(e.0@, f(e.1))) by {
        assert forall|k: Seq<char>| table(u, f).dom().contains(k) <==> table(t, f).insert(e.0@, f(e.1)).dom().contains(k) by {
            if table(u, f).dom().contains(k) {
                let j = choose|j: int| 0 <= j < u.len() && u[j].0@ == k;
                assert(t[j].0@ == k);
            }
            if table(t, f).dom().contains(k) {
                let j = choose|j: int| 0 <= j < t.len() && t[j].0@ == k;
                assert(u[j].0@ == k);
            }
            if k == e.0@ {
                assert(u[i].0@ == k);
            }
        }
        assert forall|k: Seq<char>| #[trigger] table(u, f).dom().contains(k) implies table(u, f)[k] == table(t, f).insert(e.0@, f(e.1))[k] by {
            let j = choose|j: int| 0 <= j < u.len() && u[j].0@ == k;
            assert(table(u, f)[u[j].0@] == f(u[j].1));
            if j != i {
                assert(table(t, f)[t[j].0@] == f(t[j].1));
            }
        }
    }
}

/// Appending a new name to a table binds it and keeps the names distinct.
pub proof fn lemma_table_push<V, W>(t: Seq<(String, V)>, f: spec_fn(V) -> W, e: (String, V))
    requires
        distinct_names(t),
        forall|i: int| 0 <= i < t.len() ==> t[i].0@ != e.0@,
    ensures
        distinct_names(t.push(e)),
        table(t.push(e), f) == table(t, f).insert(e.0@, f(e.1)),
{
    assert(t.push(e).drop_last() =~= t);
}

/// Where `key` is in `t`.
pub fn find_name<V>(t: &Vec<(String, V)>, key: &str) -> (r: Option<usize>)
    ensures
        r matches Some(i) ==> i < t@.len() && t@[i as int].0@ == key@,
        r is None ==> forall|i: int| 0 <= i < t@.len() ==> t@[i].0@ != key@,
{
    let mut i: usize = 0;
    while i < t.len()
        invariant
            i <= t@.len(),
            forall|j: int| 0 <= j < i ==> t@[j].0@ != key@,
        decreases t@.len() - i,
    {
        if same_text(t[i].0.as_str(), key) {
            return Some(i);
        }
        i += 1;
    }
    None
}

/// Binds `key` to `value` in a table of names, replacing what it stood for;
/// answers whether it stood for something before (`HashMap::insert`).
pub fn bind(t: &mut Vec<(String, String)>, key: &str, value: String) -> (was: bool)
    requires
        distinct_names(old(t)@),
    ensures
        distinct_names(final(t)@),
        bindings(final(t)@) == bindings(old(t)@).insert(key@, value@),
        was == bindings(old(t)@).dom().contains(key@),
{
    proof {
        lemma_table(t@, |s: String| s@);
    }
    match find_name(t, key) {
        Some(i) => {
            let ghost before = t@;
            let e = (t[i].0.clone(), value);
            t.set(i, e);
            proof {
                lemma_table_update(before, |s: String| s@, i as int, e);
                assert(before[i as int].0@ == key@);
            }
            true
        },
        None => {
            let e = (key.to_owned(), value);
            let ghost before = t@;
            t.push(e);
            proof {
                lemma_table_push(before, |s: String| s@, e);
            }
            false
        },
    }
}

/// What `key` stands for in a table of names.
pub fn lookup(t: &Vec<(String, String)>, key: &str) -> (r: Option<String>)
    requires
        distinct_names(t@),
    ensures
        r is Some <==> bindings(t@).dom().contains(key@),
        r matches Some(v) ==> v@ == bindings(t@)[key@],
{
    proof {
        lemma_table(t@, |s: String| s@);
    }
    match find_name(t, key) {
        Some(i) => Some(t[i].1.clone()),
        None => None,
    }
}

} // verus!
