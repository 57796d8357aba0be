//! A node of the data tree.

use vstd::prelude::*;
use crate::codec::put_bytes;
use crate::protocol::Stat;
use crate::text::{lemma_lex_asymmetric, lemma_lex_irreflexive, lemma_lex_total, lemma_lex_transitive, lemma_utf8_injective, str_eq, text_less, text_lt, utf8_of};

verus! {

/// A node: its metadata, its data, and the names of its children in
/// ascending text order.
pub struct Node {
    pub stat: Stat,
    pub data: Vec<u8>,
    pub children: Vec<String>,
}

/// A node as a specification value.
pub struct NodeView {
    pub stat: Stat,
    pub data: Seq<u8>,
    pub children: Seq<Seq<char>>,
}

impl View for Node {
    type V = NodeView;

    open spec fn view(&self) -> NodeView {
        NodeView {
            stat: self.stat,
            data: self.data@,
            children: self.children@.map_values(|c: String| c@),
        }
    }
}

/// Names in strictly ascending text order (so none occurs twice).
pub open spec fn children_sorted(cs: Seq<Seq<char>>) -> bool {
    forall|i: int, j: int| 0 <= i < j < cs.len() ==> text_lt(#[trigger] cs[i], #[trigger] cs[j])
}

/// How many names come before `c` in text order.
pub open spec fn count_before(cs: Seq<Seq<char>>, c: Seq<char>) -> int
    decreases cs.len(),
{
    if cs.len() == 0 {
        0
    } else {
        count_before(cs.drop_last(), c) + if text_lt(cs.last(), c) {
            1int
        } else {
            0int
        }
    }
}

/// `cs` with `c` added at its place in text order, unless already there.
pub open spec fn sorted_insert(cs: Seq<Seq<char>>, c: Seq<char>) -> Seq<Seq<char>> {
    if cs.contains(c) {
        cs
    } else {
        cs.insert(count_before(cs, c), c)
    }
}

/// `cs` without `c`.
pub open spec fn remove_value(cs: Seq<Seq<char>>, c: Seq<char>) -> Seq<Seq<char>>
    decreases cs.len(),
{
    if cs.len() == 0 {
        cs
    } else if cs.last() == c {
        remove_value(cs.drop_last(), c)
    } else {
        remove_value(cs.drop_last(), c).push(cs.last())
    }
}

/// Text order is a strict total order.
pub proof fn lemma_text_order(a: Seq<char>, b: Seq<char>, c: Seq<char>)
    ensures
        !text_lt(a, a),
        !(text_lt(a, b) && text_lt(b, a)),
        text_lt(a, b) && text_lt(b, c) ==> text_lt(a, c),
        a != b ==> text_lt(a, b) || text_lt(b, a),
{
    lemma_lex_irreflexive(utf8_of(a));
    lemma_lex_asymmetric(utf8_of(a), utf8_of(b));
    if text_lt(a, b) && text_lt(b, c) {
        lemma_lex_transitive(utf8_of(a), utf8_of(b), utf8_of(c));
    }
    if a != b {
        lemma_utf8_injective(a, b);
        lemma_lex_total(utf8_of(a), utf8_of(b));
    }
}

/// In a sorted list the names before `c` are a prefix: exactly the first
/// `count_before` of them.
pub proof fn lemma_count_before_prefix(cs: Seq<Seq<char>>, c: Seq<char>, p: int)
    requires
        children_sorted(cs),
        0 <= p <= cs.len(),
        forall|j: int| 0 <= j < p ==> text_lt(#[trigger] cs[j], c),
        p < cs.len() ==> !text_lt(cs[p], c),
    ensures
        count_before(cs, c) == p,
    decreases cs.len(),
{
    if cs.len() > 0 {
        let d = cs.drop_last();
        assert forall|i: int, j: int| 0 <= i < j < d.len() implies text_lt(#[trigger] d[i], #[trigger] d[j]) by {
            assert(d[i] == cs[i] && d[j] == cs[j]);
        }
        if p == cs.len() {
            assert forall|j: int| 0 <= j < p - 1 implies text_lt(#[trigger] d[j], c) by {
                assert(d[j] == cs[j]);
            }
            lemma_count_before_prefix(d, c, p - 1);
            assert(text_lt(cs[p - 1], c));
        } else {
            assert forall|j: int| 0 <= j < p implies text_lt(#[trigger] d[j], c) by {
                assert(d[j] == cs[j]);
            }
            if p < d.len() {
                assert(d[p] == cs[p]);
            }
            lemma_count_before_prefix(d, c, p);
            // The last name is not before `c`: it is not before `cs[p]`'s successor chain.
            let last = cs.len() - 1;
            if last > p {
                lemma_text_order(cs[p], cs[last], c);
                lemma_text_order(cs[last], c, cs[p]);
                if text_lt(cs[last], c) {
                    lemma_text_order(cs[p], cs[last], c);
                }
            }
        }
    }
}

/// Inserting keeps a sorted list sorted and adds exactly `c`.
pub proof fn lemma_sorted_insert(cs: Seq<Seq<char>>, c: Seq<char>)
    requires
        children_sorted(cs),
    ensures
        children_sorted(sorted_insert(cs, c)),
        forall|x: Seq<char>| #[trigger] sorted_insert(cs, c).contains(x) == (cs.contains(x) || x == c),
{
    if !cs.contains(c) {
        let k = count_before(cs, c);
        // Find the first name not before `c`.
        let p = choose_split(cs, c);
        lemma_count_before_prefix(cs, c, p);
        let t = cs.insert(k, c);
        assert forall|i: int, j: int| 0 <= i < j < t.len() implies text_lt(#[trigger] t[i], #[trigger] t[j]) by {
            if j < k {
                assert(t[i] == cs[i] && t[j] == cs[j]);
            } else if j == k {
                assert(t[i] == cs[i]);
            } else if i == k {
                assert(t[j] == cs[j - 1]);
                if j - 1 > k {
                    lemma_text_order(cs[k], cs[j - 1], c);
                }
                assert(!text_lt(cs[j - 1], c));
                assert(cs[j - 1] != c);
                lemma_text_order(c, cs[j - 1], c);
                if k < j - 1 {
                    assert(text_lt(cs[k], cs[j - 1]));
                }
            } else if i < k {
                assert(t[i] == cs[i] && t[j] == cs[j - 1]);
            } else {
                assert(t[i] == cs[i - 1] && t[j] == cs[j - 1]);
            }
        }
        assert forall|x: Seq<char>| #[trigger] t.contains(x) == (cs.contains(x) || x == c) by {
            if t.contains(x) {
                let j = choose|j: int| 0 <= j < t.len() && t[j] == x;
                if j < k {
                    assert(cs[j] == x);
                } else if j > k {
                    assert(cs[j - 1] == x);
                }
            }
            if cs.contains(x) {
                let j = choose|j: int| 0 <= j < cs.len() && cs[j] == x;
                if j < k {
                    assert(t[j] == x);
                } else {
                    assert(t[j + 1] == x);
                }
            }
            if x == c {
                assert(t[k] == c);
            }
        }
    }
}

/// The position of the first name not before `c`.
pub proof fn choose_split(cs: Seq<Seq<char>>, c: Seq<char>) -> (p: int)
    ensures
        0 <= p <= cs.len(),
        forall|j: int| 0 <= j < p ==> text_lt(#[trigger] cs[j], c),
        p < cs.len() ==> !text_lt(cs[p], c),
    decreases cs.len(),
{
    if cs.len() == 0 {
        0
    } else if !text_lt(cs[0], c) {
        0
    } else {
        let q = choose_split(cs.drop_first(), c);
        assert forall|j: int| 0 <= j < q + 1 implies text_lt(#[trigger] cs[j], c) by {
            if j > 0 {
                assert(cs[j] == cs.drop_first()[j - 1]);
            }
        }
        if q + 1 < cs.len() {
            assert(cs[q + 1] == cs.drop_first()[q]);
        }
        q + 1
    }
}

/// Removing keeps a sorted list sorted and takes away exactly `c`.
pub proof fn lemma_remove_value(cs: Seq<Seq<char>>, c: Seq<char>)
    requires
        children_sorted(cs),
    ensures
        children_sorted(remove_value(cs, c)),
        forall|x: Seq<char>| #[trigger] remove_value(cs, c).contains(x) == (cs.contains(x) && x != c),
        forall|x: Seq<char>| remove_value(cs, c).contains(x) ==> exists|j: int| 0 <= j < cs.len() && cs[j] == x,
    decreases cs.len(),
{
    if cs.len() > 0 {
        let d = cs.drop_last();
        assert forall|i: int, j: int| 0 <= i < j < d.len() implies text_lt(#[trigger] d[i], #[trigger] d[j]) by {
            assert(d[i] == cs[i] && d[j] == cs[j]);
        }
        lemma_remove_value(d, c);
        let r = remove_value(d, c);
        assert forall|x: Seq<char>| #[trigger] d.contains(x) implies cs.contains(x) by {
            {
                let j = choose|j: int| 0 <= j < d.len() && d[j] == x;
                assert(cs[j] == x);
            }
        }
        assert forall|x: Seq<char>| #[trigger] cs.contains(x) implies d.contains(x) || x == cs.last() by {
            {
                let j = choose|j: int| 0 <= j < cs.len() && cs[j] == x;
                if j < d.len() {
                    assert(d[j] == x);
                }
            }
        }
        if cs.last() != c {
            let t = r.push(cs.last());
            assert forall|i: int, j: int| 0 <= i < j < t.len() implies text_lt(#[trigger] t[i], #[trigger] t[j]) by {
                if j == r.len() {
                    assert(r.contains(t[i]));
                    let k = choose|k: int| 0 <= k < d.len() && d[k] == t[i];
                    assert(cs[k] == t[i]);
                }
            }
            assert forall|x: Seq<char>| #[trigger] t.contains(x) == (cs.contains(x) && x != c) by {
                if t.contains(x) {
                    let j = choose|j: int| 0 <= j < t.len() && t[j] == x;
                    if j < r.len() {
                        assert(r.contains(x));
                    } else {
                        assert(cs[cs.len() - 1] == x);
                    }
                }
                if cs.contains(x) && x != c {
                    if x == cs.last() {
                        assert(t[r.len() as int] == x);
                    } else {
                        assert(r.contains(x));
                        let j = choose|j: int| 0 <= j < r.len() && r[j] == x;
                        assert(t[j] == x);
                    }
                }
            }
            assert forall|x: Seq<char>| t.contains(x) implies exists|j: int| 0 <= j < cs.len() && cs[j] == x by {
                assert(cs.contains(x));
            }
        } else {
            assert forall|x: Seq<char>| #[trigger] r.contains(x) == (cs.contains(x) && x != c) by {
                if cs.contains(x) && x != c {
                    assert(d.contains(x));
                }
            }
            assert forall|x: Seq<char>| r.contains(x) implies exists|j: int| 0 <= j < cs.len() && cs[j] == x by {
                assert(cs.contains(x));
            }
        }
    }
}

impl Node {
    /// Adds `name` to the children, keeping them in text order; a name
    /// already there is kept once.
    pub fn insert_child(&mut self, name: String)
        requires
            children_sorted(old(self)@.children),
        ensures
            final(self)@ == (NodeView {
                children: sorted_insert(old(self)@.children, name@),
                ..old(self)@
            }),
    {
        let ghost cs = self@.children;
        let n = self.children.len();
        let mut p: usize = 0;
        while p < n && text_less(self.children[p].as_str(), name.as_str())
            invariant
                p <= n,
                n == self.children@.len(),
                cs == self@.children,
                forall|j: int| 0 <= j < p ==> text_lt(#[trigger] cs[j], name@),
            decreases n - p,
        {
            p = p + 1;
        }
        proof {
            lemma_count_before_prefix(cs, name@, p as int);
        }
        if p < n && str_eq(self.children[p].as_str(), name.as_str()) {
            assert(cs.contains(name@)) by {
                assert(cs[p as int] == name@);
            }
            return;
        }
        proof {
            if cs.contains(name@) {
                let j = choose|j: int| 0 <= j < cs.len() && cs[j] == name@;
                lemma_text_order(name@, name@, name@);
                if j < p {
                    assert(text_lt(cs[j], name@));
                } else if j > p {
                    assert(text_lt(cs[p as int], cs[j]));
                    lemma_text_order(cs[p as int], name@, name@);
                    lemma_text_order(name@, cs[p as int], name@);
                }
            }
        }
        let ghost name_view = name@;
        self.children.insert(p, name);
        assert(self@.children =~= cs.insert(p as int, name_view));
    }

    /// Removes `name` from the children, if there.
    pub fn remove_child(&mut self, name: &str)
        requires
            children_sorted(old(self)@.children),
        ensures
            final(self)@ == (NodeView { children: remove_value(old(self)@.children, name@), ..old(self)@ }),
    {
        let ghost cs = self@.children;
        let n = self.children.len();
        for i in 0..n
            invariant
                n == self.children@.len(),
                cs == self@.children,
                *self == *old(self),
                children_sorted(cs),
                forall|j: int| 0 <= j < i ==> cs[j] != name@,
        {
            if str_eq(self.children[i].as_str(), name) {
                self.children.remove(i);
                proof {
                    lemma_remove_value_at(cs, name@, i as int);
                }
                assert(self@.children =~= cs.remove(i as int));
                return;
            }
        }
        proof {
            lemma_remove_absent(cs, name@);
        }
    }
}

/// Removing a name that is absent changes nothing.
proof fn lemma_remove_absent(cs: Seq<Seq<char>>, c: Seq<char>)
    requires
        forall|j: int| 0 <= j < cs.len() ==> cs[j] != c,
    ensures
        remove_value(cs, c) == cs,
    decreases cs.len(),
{
    if cs.len() > 0 {
        lemma_remove_absent(cs.drop_last(), c);
        assert(cs.drop_last().push(cs.last()) =~= cs);
    }
}

/// In a list where `c` occurs only at `i`, removing `c` removes position `i`.
pub proof fn lemma_remove_value_at(cs: Seq<Seq<char>>, c: Seq<char>, i: int)
    requires
        children_sorted(cs),
        0 <= i < cs.len(),
        cs[i] == c,
    ensures
        remove_value(cs, c) == cs.remove(i),
    decreases cs.len(),
{
    let d = cs.drop_last();
    if i == cs.len() - 1 {
        assert forall|j: int| 0 <= j < d.len() implies d[j] != c by {
            assert(d[j] == cs[j]);
            lemma_text_order(cs[j], c, c);
        }
        lemma_remove_absent(d, c);
        assert(cs.remove(i) =~= d);
    } else {
        assert forall|a: int, b: int| 0 <= a < b < d.len() implies text_lt(#[trigger] d[a], #[trigger] d[b]) by {
            assert(d[a] == cs[a] && d[b] == cs[b]);
        }
        assert(cs.last() != c) by {
            lemma_text_order(c, cs.last(), c);
        }
        lemma_remove_value_at(d, c, i);
        assert(d.remove(i).push(cs.last()) =~= cs.remove(i));
    }
}

impl Clone for Node {
    fn clone(&self) -> (r: Self)
        ensures
            r@ == self@,
    {
        let mut data: Vec<u8> = Vec::new();
        put_bytes(&mut data, self.data.as_slice());
        let mut children: Vec<String> = Vec::new();
        let n = self.children.len();
        for i in 0..n
            invariant
                n == self.children@.len(),
                children@.len() == i,
                forall|j: int| 0 <= j < i ==> (#[trigger] children@[j])@ == self.children@[j]@,
        {
            let c = self.children[i].clone();
            children.push(c);
        }
        let r = Node { stat: self.stat, data, children };
        assert(r@.children =~= self@.children);
        r
    }
}

} // verus!
