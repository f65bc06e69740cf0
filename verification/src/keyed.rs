//! String-keyed association lists: the small per-session and
//! per-provider tables the event detector keeps between ticks.
//!
//! A table is a `Vec<(String, V)>`; its meaning is the map from each key
//! to the value of the *last* entry carrying that key ([`as_map`]).
use vstd::prelude::*;

verus! {

/// The value bound to `k` by the last entry of `s` that carries `k`.
pub open spec fn lookup<V>(s: Seq<(String, V)>, k: Seq<char>) -> Option<V>
    decreases s.len(),
{
    if s.len() == 0 {
        None
    } else if s.last().0@ == k {
        Some(s.last().1)
    } else {
        lookup(s.drop_last(), k)
    }
}

/// The map a table stands for.
pub open spec fn as_map<V>(s: Seq<(String, V)>) -> Map<Seq<char>, V> {
    Map::new(|k: Seq<char>| lookup(s, k) is Some, |k: Seq<char>| lookup(s, k)->0)
}

proof fn lemma_lookup_prefix<V>(s: Seq<(String, V)>, i: int, k: Seq<char>)
    requires
        0 <= i <= s.len(),
        forall|j: int| i <= j < s.len() ==> (#[trigger] s[j]).0@ != k,
    ensures
        lookup(s, k) == lookup(s.subrange(0, i), k),
    decreases s.len() - i,
{
    if i < s.len() {
        assert(s.drop_last().subrange(0, i) =~= s.subrange(0, i));
        lemma_lookup_prefix(s.drop_last(), i, k);
    } else {
        assert(s.subrange(0, i) =~= s);
    }
}

proof fn lemma_lookup_remove<V>(s: Seq<(String, V)>, i: int, k: Seq<char>)
    requires
        0 <= i < s.len(),
        s[i].0@ != k,
    ensures
        lookup(s.remove(i), k) == lookup(s, k),
    decreases s.len(),
{
    if i == s.len() - 1 {
        assert(s.remove(i) =~= s.drop_last());
    } else {
        assert(s.remove(i).last() == s.last());
        assert(s.remove(i).drop_last() =~= s.drop_last().remove(i));
        if s.last().0@ != k {
            lemma_lookup_remove(s.drop_last(), i, k);
        }
    }
}

proof fn lemma_lookup_push<V>(s: Seq<(String, V)>, e: (String, V), k: Seq<char>)
    ensures
        lookup(s.push(e), k) == (if e.0@ == k {
            Some(e.1)
        } else {
            lookup(s, k)
        }),
{
    assert(s.push(e).drop_last() =~= s);
}

/// Index of the last entry carrying `k`, if any.
pub fn find_last<V>(s: &Vec<(String, V)>, k: &String) -> (r: Option<usize>)
    ensures
        match r {
            Some(i) => i < s.len() && s@[i as int].0@ == k@ && lookup(s@, k@) == Some(
                s@[i as int].1,
            ),
            None => lookup(s@, k@) is None,
        },
{
    let mut i = s.len();
    while i > 0
        invariant
            i <= s.len(),
            forall|j: int| i <= j < s.len() ==> (#[trigger] s@[j]).0@ != k@,
        decreases i,
    {
        if s[i - 1].0 == *k {
            proof {
                lemma_lookup_prefix(s@, i as int, k@);
                assert(s@.subrange(0, i as int).drop_last() =~= s@.subrange(0, i - 1));
            }
            return Some(i - 1);
        }
        i = i - 1;
    }
    proof {
        lemma_lookup_prefix(s@, 0, k@);
    }
    None
}

pub proof fn lemma_as_map_get<V>(s: Seq<(String, V)>, k: Seq<char>)
    ensures
        #[trigger] as_map(s).get(k) == lookup(s, k),
{
}

pub proof fn lemma_lookup_some_has_entry<V>(s: Seq<(String, V)>, k: Seq<char>)
    requires
        lookup(s, k) is Some,
    ensures
        exists|j: int| 0 <= j < s.len() && (#[trigger] s[j]).0@ == k,
    decreases s.len(),
{
    if s.last().0@ == k {
        assert(s[s.len() - 1].0@ == k);
    } else {
        lemma_lookup_some_has_entry(s.drop_last(), k);
        let j = choose|j: int| 0 <= j < s.drop_last().len() && (#[trigger] s.drop_last()[j]).0@ == k;
        assert(s[j] == s.drop_last()[j]);
    }
}

/// Copy of the value bound to `k`.
pub fn get_copy<V: Copy>(s: &Vec<(String, V)>, k: &String) -> (r: Option<V>)
    ensures
        r == lookup(s@, k@),
        r == as_map(s@).get(k@),
{
    match find_last(s, k) {
        Some(i) => Some(s[i].1),
        None => None,
    }
}

/// Unbinds `k`.
pub fn remove_key<V>(s: &mut Vec<(String, V)>, k: &String)
    ensures
        as_map(final(s)@) == as_map(old(s)@).remove(k@),
{
    let ghost orig = s@;
    loop
        invariant
            forall|k2: Seq<char>| k2 != k@ ==> lookup(s@, k2) == lookup(orig, k2),
        ensures
            lookup(s@, k@) is None,
            forall|k2: Seq<char>| k2 != k@ ==> lookup(s@, k2) == lookup(orig, k2),
        decreases s.len(),
    {
        match find_last(s, k) {
            Some(i) => {
                let ghost before = s@;
                let _ = s.remove(i);
                proof {
                    assert forall|k2: Seq<char>| k2 != k@ implies lookup(s@, k2) == lookup(
                        orig,
                        k2,
                    ) by {
                        lemma_lookup_remove(before, i as int, k2);
                    }
                }
            },
            None => {
                break ;
            },
        }
    }
    assert(as_map(s@) =~= as_map(orig).remove(k@));
}

/// Binds `k` to `v`, replacing any earlier binding.
pub fn insert<V>(s: &mut Vec<(String, V)>, k: String, v: V)
    ensures
        as_map(final(s)@) == as_map(old(s)@).insert(k@, v),
{
    remove_key(s, &k);
    let ghost mid = s@;
    let ghost kv = k@;
    s.push((k, v));
    proof {
        assert forall|k2: Seq<char>| #[trigger] lookup(s@, k2) == (if k2 == kv {
            Some(v)
        } else {
            lookup(mid, k2)
        }) by {
            lemma_lookup_push(mid, s@.last(), k2);
            assert(s@ == mid.push(s@.last()));
        }
        assert(as_map(s@) =~= as_map(mid).insert(kv, v));
    }
}

/// Removes the binding of `k` and returns the value it had.
pub fn take<V>(s: &mut Vec<(String, V)>, k: &String) -> (r: Option<V>)
    ensures
        r == lookup(old(s)@, k@),
        r == as_map(old(s)@).get(k@),
        as_map(final(s)@) == as_map(old(s)@).remove(k@),
{
    let ghost orig = s@;
    match find_last(s, k) {
        Some(i) => {
            let e = s.remove(i);
            proof {
                assert forall|k2: Seq<char>| k2 != k@ implies lookup(s@, k2) == lookup(
                    orig,
                    k2,
                ) by {
                    lemma_lookup_remove(orig, i as int, k2);
                }
            }
            let ghost mid = s@;
            remove_key(s, k);
            proof {
                assert(as_map(mid).remove(k@) =~= as_map(orig).remove(k@));
            }
            Some(e.1)
        },
        None => {
            assert(as_map(orig).remove(k@) =~= as_map(orig));
            None
        },
    }
}

} // verus!
