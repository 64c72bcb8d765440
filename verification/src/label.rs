//! Names for merged states: a set of names is listed in a fixed order and the
//! list is written out as one string, so that equal sets get equal names and
//! different sets get different names.

use vstd::prelude::*;
use crate::names::{names, name_set, contains_name};

verus! {

/// One character as it is written inside a merged name: a comma or a
/// backslash is followed by a backslash, any other character stands alone.
pub open spec fn quoted(c: char) -> Seq<char> {
    if c == ',' || c == '\\' {
        seq![c, '\\']
    } else {
        seq![c]
    }
}

/// A name as it is written inside a merged name.
pub open spec fn quote(m: Seq<char>) -> Seq<char>
    decreases m.len(),
{
    if m.len() == 0 {
        Seq::empty()
    } else {
        quote(m.drop_last()) + quoted(m.last())
    }
}

/// The merged name of a list of names: each name quoted and closed by a comma.
pub open spec fn label(ms: Seq<Seq<char>>) -> Seq<char>
    decreases ms.len(),
{
    if ms.len() == 0 {
        Seq::empty()
    } else {
        label(ms.drop_last()) + quote(ms.last()) + seq![',']
    }
}

/// The text is empty or ends in a closing comma.
pub open spec fn sealed(x: Seq<char>) -> bool {
    x.len() == 0 || x.last() == ','
}

/// The names of `order` that belong to `s`, in the order of `order`.
pub open spec fn pick(order: Seq<Seq<char>>, s: Set<Seq<char>>) -> Seq<Seq<char>>
    decreases order.len(),
{
    if order.len() == 0 {
        Seq::empty()
    } else if s.contains(order.last()) {
        pick(order.drop_last(), s).push(order.last())
    } else {
        pick(order.drop_last(), s)
    }
}

/// Every set of names drawn from `order`.
pub open spec fn subsets(order: Seq<Seq<char>>) -> Set<Set<Seq<char>>>
    decreases order.len(),
{
    if order.len() == 0 {
        set![Set::<Seq<char>>::empty()]
    } else {
        let rest = subsets(order.drop_last());
        rest.union(rest.map(|s: Set<Seq<char>>| s.insert(order.last())))
    }
}

proof fn lemma_quote_end(m: Seq<char>)
    requires
        m.len() > 0,
    ensures
        quote(m).len() > 0,
        quote(m).last() != ',',
        quote(m).last() == (if m.last() == ',' || m.last() == '\\' {
            '\\'
        } else {
            m.last()
        }),
{
}

/// A quoted name can be read back from the end of a text: two sealed texts
/// followed by quoted names agree only where both the texts and the names do.
pub proof fn lemma_quote_unique(x: Seq<char>, m: Seq<char>, y: Seq<char>, n: Seq<char>)
    requires
        sealed(x),
        sealed(y),
        x + quote(m) == y + quote(n),
    ensures
        x == y,
        m == n,
    decreases m.len(),
{
    if m.len() == 0 {
        assert(x + quote(m) =~= x);
        if n.len() > 0 {
            lemma_quote_end(n);
            assert((y + quote(n)).last() == quote(n).last());
        }
        assert(y + quote(n) =~= y);
        assert(m =~= n);
    } else if n.len() == 0 {
        lemma_quote_end(m);
        assert((x + quote(m)).last() == quote(m).last());
        assert(y + quote(n) =~= y);
    } else {
        lemma_quote_end(m);
        lemma_quote_end(n);
        let a = x + quote(m.drop_last());
        let b = y + quote(n.drop_last());
        let whole = x + quote(m);
        assert(whole =~= a + quoted(m.last()));
        assert(whole =~= b + quoted(n.last()));
        assert(whole.last() == quote(m).last());
        assert(whole.last() == quote(n).last());
        let len = whole.len() as int;
        if m.last() == ',' || m.last() == '\\' {
            assert(n.last() == ',' || n.last() == '\\');
            assert((a + quoted(m.last()))[len - 2] == m.last());
            assert((b + quoted(n.last()))[len - 2] == n.last());
            assert(a =~= whole.take(len - 2));
            assert(b =~= whole.take(len - 2));
        } else {
            assert(!(n.last() == ',' || n.last() == '\\'));
            assert(a =~= whole.take(len - 1));
            assert(b =~= whole.take(len - 1));
        }
        lemma_quote_unique(x, m.drop_last(), y, n.drop_last());
        assert(m =~= m.drop_last().push(m.last()));
        assert(n =~= n.drop_last().push(n.last()));
    }
}

/// Different lists of names have different merged names.
pub proof fn lemma_label_unique(a: Seq<Seq<char>>, b: Seq<Seq<char>>)
    requires
        label(a) == label(b),
    ensures
        a == b,
    decreases a.len(),
{
    if a.len() == 0 {
        assert(a =~= b);
    } else if b.len() == 0 {
    } else {
        let x = label(a.drop_last());
        let y = label(b.drop_last());
        assert(label(a).drop_last() =~= x + quote(a.last()));
        assert(label(b).drop_last() =~= y + quote(b.last()));
        lemma_quote_unique(x, a.last(), y, b.last());
        lemma_label_unique(a.drop_last(), b.drop_last());
        assert(a =~= a.drop_last().push(a.last()));
        assert(b =~= b.drop_last().push(b.last()));
    }
}

/// `pick` keeps exactly the names of `order` that belong to `s`.
pub proof fn lemma_pick_members(order: Seq<Seq<char>>, s: Set<Seq<char>>)
    ensures
        forall|x: Seq<char>| #[trigger]
            pick(order, s).contains(x) <==> order.contains(x) && s.contains(x),
    decreases order.len(),
{
    if order.len() > 0 {
        let front = order.drop_last();
        lemma_pick_members(front, s);
        assert forall|x: Seq<char>| #[trigger]
            pick(order, s).contains(x) <==> order.contains(x) && s.contains(x) by {
            if pick(order, s).contains(x) {
                let i = choose|i: int| 0 <= i < pick(order, s).len() && pick(order, s)[i] == x;
                if i < pick(front, s).len() {
                    assert(pick(front, s)[i] == x);
                    assert(pick(front, s).contains(x));
                    let j = choose|j: int| 0 <= j < front.len() && front[j] == x;
                    assert(order[j] == x);
                } else {
                    assert(order[order.len() - 1] == x);
                }
            }
            if order.contains(x) && s.contains(x) {
                let j = choose|j: int| 0 <= j < order.len() && order[j] == x;
                if j < front.len() {
                    assert(front[j] == x);
                    assert(pick(front, s).contains(x));
                    let i = choose|i: int| 0 <= i < pick(front, s).len() && pick(front, s)[i] == x;
                    assert(pick(order, s)[i] == x);
                } else {
                    assert(pick(order, s)[pick(order, s).len() - 1] == x);
                }
            }
        }
    }
}

/// Two sets drawn from `order` with the same picked list are the same set.
pub proof fn lemma_pick_unique(order: Seq<Seq<char>>, s: Set<Seq<char>>, t: Set<Seq<char>>)
    requires
        forall|x: Seq<char>| s.contains(x) ==> order.contains(x),
        forall|x: Seq<char>| t.contains(x) ==> order.contains(x),
        pick(order, s) == pick(order, t),
    ensures
        s == t,
{
    lemma_pick_members(order, s);
    lemma_pick_members(order, t);
    assert forall|x: Seq<char>| s.contains(x) <==> t.contains(x) by {
        if s.contains(x) {
            assert(pick(order, s).contains(x));
        }
        if t.contains(x) {
            assert(pick(order, t).contains(x));
        }
    }
    assert(s =~= t);
}

/// There are finitely many sets of names drawn from a list, and `subsets`
/// holds each of them.
pub proof fn lemma_subsets(order: Seq<Seq<char>>)
    ensures
        subsets(order).finite(),
        forall|s: Set<Seq<char>>|
            (forall|x: Seq<char>| s.contains(x) ==> order.contains(x)) ==> #[trigger] subsets(
                order,
            ).contains(s),
    decreases order.len(),
{
    if order.len() == 0 {
        assert forall|s: Set<Seq<char>>|
            (forall|x: Seq<char>| s.contains(x) ==> order.contains(x)) implies #[trigger] subsets(
            order,
        ).contains(s) by {
            assert forall|x: Seq<char>| !s.contains(x) by {
                if s.contains(x) {
                    assert(order.contains(x));
                }
            }
            assert(s =~= Set::<Seq<char>>::empty());
        }
    } else {
        let front = order.drop_last();
        let last = order.last();
        let rest = subsets(front);
        let grow = |s: Set<Seq<char>>| s.insert(last);
        lemma_subsets(front);
        rest.lemma_map_finite(grow);
        assert forall|s: Set<Seq<char>>|
            (forall|x: Seq<char>| s.contains(x) ==> order.contains(x)) implies #[trigger] subsets(
            order,
        ).contains(s) by {
            let small = s.remove(last);
            assert forall|x: Seq<char>| small.contains(x) implies front.contains(x) by {
                assert(order.contains(x));
                let j = choose|j: int| 0 <= j < order.len() && order[j] == x;
                assert(front[j] == x);
            }
            assert(rest.contains(small));
            if s.contains(last) {
                assert(s =~= grow(small));
                assert(rest.map(grow).contains(s));
            } else {
                assert(s =~= small);
            }
        }
    }
}

/// The names of `order` that occur in `set`, in the order of `order`.
pub fn pick_names(order: &Vec<String>, set: &Vec<String>) -> (r: Vec<String>)
    ensures
        names(r@) == pick(names(order@), name_set(set@)),
{
    let mut r: Vec<String> = Vec::new();
    let mut i: usize = 0;
    while i < order.len()
        invariant
            i <= order.len(),
            names(r@) == pick(names(order@).take(i as int), name_set(set@)),
        decreases order.len() - i,
    {
        let ghost before = r@;
        assert(names(order@).take(i + 1).drop_last() =~= names(order@).take(i as int));
        assert(names(order@).take(i + 1).last() == order@[i as int]@);
        if contains_name(set, &order[i]) {
            r.push(order[i].clone());
            assert(names(r@) =~= names(before).push(order@[i as int]@));
        }
        i += 1;
    }
    assert(names(order@).take(order.len() as int) =~= names(order@));
    r
}

/// Writes out the merged name of a list of names.
pub fn make_label(members: &Vec<String>) -> (r: String)
    ensures
        r@ == label(names(members@)),
{
    let mut out = String::new();
    let mut i: usize = 0;
    while i < members.len()
        invariant
            i <= members.len(),
            out@ == label(names(members@).take(i as int)),
        decreases members.len() - i,
    {
        let member = members[i].as_str();
        let n = member.unicode_len();
        let ghost head = out@;
        let mut j: usize = 0;
        while j < n
            invariant
                j <= n,
                n == member@.len(),
                out@ == head + quote(member@.take(j as int)),
            decreases n - j,
        {
            let c = member.get_char(j);
            let ghost before = out@;
            out.append(member.substring_char(j, j + 1));
            assert(member@.subrange(j as int, j + 1) =~= seq![c]);
            if c == ',' || c == '\\' {
                proof {
                    reveal_strlit("\\");
                }
                out.append("\\");
                assert("\\"@ =~= seq!['\\']);
            }
            proof {
                let read = member@.take(j + 1);
                assert(read.drop_last() =~= member@.take(j as int));
                assert(read.last() == c);
                assert(out@ =~= head + (quote(member@.take(j as int)) + quoted(c)));
            }
            j += 1;
        }
        proof {
            reveal_strlit(",");
        }
        out.append(",");
        proof {
            assert(","@ =~= seq![',']);
            assert(member@.take(n as int) =~= member@);
            let read = names(members@).take(i + 1);
            assert(read.drop_last() =~= names(members@).take(i as int));
            assert(read.last() == member@);
            assert(out@ =~= label(read.drop_last()) + quote(read.last()) + seq![',']);
        }
        i += 1;
    }
    assert(names(members@).take(members.len() as int) =~= names(members@));
    out
}

} // verus!
