//! Lists of names without repetition, the executable stand-in for sets of
//! state names.

use vstd::prelude::*;
use crate::model::meets;

verus! {

/// The names held by a list of strings.
pub open spec fn names(v: Seq<String>) -> Seq<Seq<char>> {
    v.map_values(|s: String| s@)
}

/// The set of names that occur in a list of strings.
pub open spec fn name_set(v: Seq<String>) -> Set<Seq<char>> {
    Set::new(|x: Seq<char>| names(v).contains(x))
}

/// The triples held by a list of transitions.
pub open spec fn triples(v: Seq<(String, String, String)>) -> Seq<
    (Seq<char>, Seq<char>, Seq<char>),
> {
    v.map_values(|t: (String, String, String)| (t.0@, t.1@, t.2@))
}

/// The set of triples that occur in a list of transitions.
pub open spec fn triple_set(v: Seq<(String, String, String)>) -> Set<
    (Seq<char>, Seq<char>, Seq<char>),
> {
    Set::new(|t: (Seq<char>, Seq<char>, Seq<char>)| triples(v).contains(t))
}

/// A name set is the set of its list, hence finite.
pub proof fn lemma_name_set_finite(v: Seq<String>)
    ensures
        name_set(v) == names(v).to_set(),
        name_set(v).finite(),
{
    broadcast use vstd::seq_lib::group_seq_properties;

    assert(name_set(v) =~= names(v).to_set());
}

/// A list without repetition has as many entries as its set has members.
pub proof fn lemma_name_set_len(v: Seq<String>)
    requires
        names(v).no_duplicates(),
    ensures
        name_set(v).finite(),
        name_set(v).len() == v.len(),
{
    lemma_name_set_finite(v);
    names(v).unique_seq_to_set();
}

/// Does `s` occur in `v`?
pub fn contains_name(v: &Vec<String>, s: &String) -> (found: bool)
    ensures
        found == names(v@).contains(s@),
        found == name_set(v@).contains(s@),
{
    let mut i: usize = 0;
    while i < v.len()
        invariant
            i <= v.len(),
            forall|j: int| 0 <= j < i ==> names(v@)[j] != s@,
        decreases v.len() - i,
    {
        if v[i] == *s {
            assert(names(v@)[i as int] == s@);
            return true;
        }
        i += 1;
    }
    false
}

/// Appends `s` to `v` unless it is already there.
pub fn insert_name(v: &mut Vec<String>, s: String)
    requires
        names(old(v)@).no_duplicates(),
    ensures
        names(final(v)@).no_duplicates(),
        names(final(v)@) == if names(old(v)@).contains(s@) {
            names(old(v)@)
        } else {
            names(old(v)@).push(s@)
        },
        name_set(final(v)@) == name_set(old(v)@).insert(s@),
{
    let present = contains_name(v, &s);
    if !present {
        v.push(s);
        assert(names(v@) =~= names(old(v)@).push(s@));
        assert forall|x: Seq<char>| names(v@).contains(x) implies names(old(v)@).contains(x) || x
            == s@ by {
            let i = choose|i: int| 0 <= i < names(v@).len() && names(v@)[i] == x;
            if i < old(v)@.len() {
                assert(names(old(v)@)[i] == x);
            }
        }
        assert forall|x: Seq<char>| names(old(v)@).contains(x) || x == s@ implies names(
            v@,
        ).contains(x) by {
            if names(old(v)@).contains(x) {
                let i = choose|i: int| 0 <= i < names(old(v)@).len() && names(old(v)@)[i] == x;
                assert(names(v@)[i] == x);
            } else {
                assert(names(v@)[old(v)@.len() as int] == x);
            }
        }
    }
    assert(name_set(v@) =~= name_set(old(v)@).insert(s@));
}

/// Appends the transition to `v` unless it is already there.
pub fn insert_triple(
    v: &mut Vec<(String, String, String)>,
    source: String,
    symbol: String,
    dest: String,
)
    requires
        triples(old(v)@).no_duplicates(),
    ensures
        triples(final(v)@).no_duplicates(),
        triples(final(v)@) == if triples(old(v)@).contains((source@, symbol@, dest@)) {
            triples(old(v)@)
        } else {
            triples(old(v)@).push((source@, symbol@, dest@))
        },
        triple_set(final(v)@) == triple_set(old(v)@).insert((source@, symbol@, dest@)),
{
    let ghost t = (source@, symbol@, dest@);
    let ghost before = triples(v@);
    let mut i: usize = 0;
    let mut present = false;
    while i < v.len() && !present
        invariant
            i <= v.len(),
            *v == *old(v),
            before == triples(v@),
            t == (source@, symbol@, dest@),
            !present ==> forall|j: int| 0 <= j < i ==> before[j] != t,
            present ==> before.contains(t),
        decreases v.len() - i + if present { 0int } else { 1int },
    {
        let cur = &v[i];
        if cur.0 == source && cur.1 == symbol && cur.2 == dest {
            assert(before[i as int] == t);
            present = true;
        } else {
            i += 1;
        }
    }
    if present {
        assert(triple_set(v@) =~= triple_set(old(v)@).insert(t));
    } else {
        assert(before == triples(old(v)@));
        assert(!before.contains(t));
        v.push((source, symbol, dest));
        assert(triples(v@) =~= before.push(t));
        assert forall|x: (Seq<char>, Seq<char>, Seq<char>)| triples(v@).contains(x) implies (
        before.contains(x) || x == t) by {
            let k = choose|k: int| 0 <= k < triples(v@).len() && triples(v@)[k] == x;
            if k < before.len() {
                assert(before[k] == x);
            }
        }
        assert forall|x: (Seq<char>, Seq<char>, Seq<char>)|
            before.contains(x) || x == t implies triples(v@).contains(x) by {
            if before.contains(x) {
                let k = choose|k: int| 0 <= k < before.len() && before[k] == x;
                assert(triples(v@)[k] == x);
            } else {
                assert(triples(v@)[before.len() as int] == x);
            }
        }
        assert(triple_set(v@) =~= triple_set(old(v)@).insert(t));
    }
}

/// A fresh list holding the same names in the same order.
pub fn copy_names(v: &Vec<String>) -> (r: Vec<String>)
    ensures
        names(r@) == names(v@),
{
    let mut r: Vec<String> = Vec::new();
    let mut i: usize = 0;
    while i < v.len()
        invariant
            i <= v.len(),
            names(r@) == names(v@).take(i as int),
        decreases v.len() - i,
    {
        let ghost before = r@;
        r.push(v[i].clone());
        assert(names(r@) =~= names(before).push(v@[i as int]@));
        assert(names(v@).take(i + 1) =~= names(v@).take(i as int).push(v@[i as int]@));
        i += 1;
    }
    assert(names(v@).take(v.len() as int) =~= names(v@));
    r
}

/// Adds to `acc` every name of `v` that it does not hold yet.
pub fn merge_names(acc: &mut Vec<String>, v: &Vec<String>)
    requires
        names(old(acc)@).no_duplicates(),
    ensures
        names(final(acc)@).no_duplicates(),
        name_set(final(acc)@) == name_set(old(acc)@).union(name_set(v@)),
{
    let mut i: usize = 0;
    while i < v.len()
        invariant
            i <= v.len(),
            names(acc@).no_duplicates(),
            forall|x: Seq<char>| #[trigger]
                name_set(acc@).contains(x) ==> name_set(old(acc)@).contains(x) || name_set(
                    v@,
                ).contains(x),
            forall|x: Seq<char>| #[trigger]
                name_set(old(acc)@).contains(x) ==> name_set(acc@).contains(x),
            forall|j: int| 0 <= j < i ==> name_set(acc@).contains(#[trigger] names(v@)[j]),
        decreases v.len() - i,
    {
        assert(names(v@)[i as int] == v@[i as int]@);
        insert_name(acc, v[i].clone());
        i += 1;
    }
    assert(name_set(acc@) =~= name_set(old(acc)@).union(name_set(v@)));
}

/// Do the two lists share a name?
pub fn share_name(a: &Vec<String>, b: &Vec<String>) -> (found: bool)
    ensures
        found == meets(name_set(a@), name_set(b@)),
{
    let mut i: usize = 0;
    while i < a.len()
        invariant
            i <= a.len(),
            forall|j: int| 0 <= j < i ==> !name_set(b@).contains(#[trigger] names(a@)[j]),
        decreases a.len() - i,
    {
        if contains_name(b, &a[i]) {
            assert(names(a@)[i as int] == a@[i as int]@);
            assert(name_set(a@).contains(a@[i as int]@));
            return true;
        }
        i += 1;
    }
    false
}

} // verus!
