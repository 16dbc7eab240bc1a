//! Texts in their order.

use vstd::prelude::*;
use vstd::relations::{
    antisymmetric, reflexive, sorted_by, strongly_connected, total_ordering, transitive,
};
use vstd::seq_lib::lemma_sorted_unique;
use crate::text::{
    before, lemma_before_irreflexive, lemma_before_total, lemma_before_transitive, less, texts,
};

verus! {

/// `a` does not come after `b`.
pub open spec fn at_most(a: Seq<char>, b: Seq<char>) -> bool {
    a == b || before(a, b)
}

/// The order of texts.
pub open spec fn text_order() -> spec_fn(Seq<char>, Seq<char>) -> bool {
    |a: Seq<char>, b: Seq<char>| at_most(a, b)
}

/// The texts in their order.
pub open spec fn sorted_texts(s: Seq<Seq<char>>) -> Seq<Seq<char>> {
    s.sort_by(text_order())
}

/// The order of texts is total.
pub proof fn lemma_text_order()
    ensures
        total_ordering(text_order()),
{
    let leq = text_order();
    assert(reflexive(leq));
    assert(antisymmetric(leq)) by {
        assert forall|a: Seq<char>, b: Seq<char>| #[trigger] leq(a, b) && #[trigger] leq(
            b,
            a,
        ) implies a == b by {
            if a != b {
                lemma_before_transitive(a, b, a);
                lemma_before_irreflexive(a);
            }
        }
    }
    assert(transitive(leq)) by {
        assert forall|a: Seq<char>, b: Seq<char>, c: Seq<char>| #[trigger] leq(a, b) && #[trigger]
            leq(b, c) implies leq(a, c) by {
            if a != b && b != c {
                lemma_before_transitive(a, b, c);
            }
        }
    }
    assert(strongly_connected(leq)) by {
        assert forall|a: Seq<char>, b: Seq<char>| #[trigger] leq(a, b) || #[trigger] leq(b, a) by {
            if a != b {
                lemma_before_total(a, b);
            }
        }
    }
}

/// A text put where it belongs among texts in their order.
proof fn lemma_inserted(s: Seq<Seq<char>>, t: Seq<char>, i: int)
    requires
        sorted_by(s, text_order()),
        0 <= i <= s.len(),
        i > 0 ==> at_most(s[i - 1], t),
        i < s.len() ==> at_most(t, s[i]),
    ensures
        sorted_by(s.insert(i, t), text_order()),
        s.insert(i, t).to_multiset() == s.to_multiset().insert(t),
{
    broadcast use vstd::seq_lib::group_to_multiset_ensures;

    lemma_text_order();
    let leq = text_order();
    let r = s.insert(i, t);
    assert forall|x: int, y: int| 0 <= x < y < r.len() implies #[trigger] leq(r[x], r[y]) by {
        if y < i {
            assert(leq(s[x], s[y]));
        } else if x > i {
            assert(leq(s[x - 1], s[y - 1]));
        } else if x == i {
            assert(r[y] == s[y - 1]);
            if y - 1 > i {
                assert(leq(s[i], s[y - 1]));
            }
            assert(leq(t, s[i]));
        } else if y == i {
            assert(r[x] == s[x]);
            if x < i - 1 {
                assert(leq(s[x], s[i - 1]));
            }
            assert(leq(s[i - 1], t));
        } else {
            assert(leq(s[x], s[y - 1]));
        }
    }
    assert(r =~= s.take(i).push(t) + s.skip(i));
    assert(s =~= s.take(i) + s.skip(i));
    vstd::seq_lib::lemma_multiset_commutative(s.take(i).push(t), s.skip(i));
    vstd::seq_lib::lemma_multiset_commutative(s.take(i), s.skip(i));
    assert(r.to_multiset() =~= s.to_multiset().insert(t));
}

/// The strings in their order.
pub fn sort_texts(v: &Vec<String>) -> (r: Vec<String>)
    ensures
        texts(r@) == sorted_texts(texts(v@)),
{
    let ghost all = texts(v@);
    let mut out: Vec<String> = Vec::new();
    let mut i: usize = 0;
    proof {
        broadcast use vstd::seq_lib::group_to_multiset_ensures;

        assert(texts(out@) =~= Seq::empty());
        assert(all.take(0) =~= Seq::empty());
        assert(sorted_by(texts(out@), text_order()));
    }
    while i < v.len()
        invariant
            all == texts(v@),
            i <= v@.len(),
            sorted_by(texts(out@), text_order()),
            texts(out@).to_multiset() == all.take(i as int).to_multiset(),
        decreases v.len() - i,
    {
        let ghost s = texts(out@);
        let ghost t = all[i as int];
        let mut k: usize = out.len();
        while k > 0 && less(v[i].as_str(), out[k - 1].as_str())
            invariant
                i < v@.len(),
                k <= out@.len(),
                s == texts(out@),
                t == v@[i as int]@,
                k < s.len() ==> before(t, s[k as int]),
            decreases k,
        {
            k -= 1;
        }
        proof {
            broadcast use vstd::seq_lib::group_to_multiset_ensures;

            if k > 0 && s[k - 1] != t {
                lemma_before_total(s[k - 1], t);
            }
            lemma_inserted(s, t, k as int);
            assert(all.take(i + 1) =~= all.take(i as int).push(t));
        }
        out.insert(k, v[i].clone());
        assert(texts(out@) =~= s.insert(k as int, t));
        i += 1;
    }
    proof {
        assert(all.take(all.len() as int) =~= all);
        lemma_text_order();
        all.lemma_sort_by_ensures(text_order());
        lemma_sorted_unique(texts(out@), sorted_texts(all), text_order());
    }
    out
}

/// Texts in the same number come out the same, however they stand.
pub proof fn law_sorting_forgets_the_order(s: Seq<Seq<char>>, t: Seq<Seq<char>>)
    ensures
        sorted_texts(s) == sorted_texts(t) <==> s.to_multiset() == t.to_multiset(),
{
    lemma_text_order();
    s.lemma_sort_by_ensures(text_order());
    t.lemma_sort_by_ensures(text_order());
    if s.to_multiset() == t.to_multiset() {
        lemma_sorted_unique(sorted_texts(s), sorted_texts(t), text_order());
    }
}

/// Texts that are sorted are the same texts, each as often, and none stands behind one that comes
/// after it.
pub proof fn law_sorted_texts_ascend(s: Seq<Seq<char>>, i: int, j: int)
    ensures
        sorted_texts(s).to_multiset() == s.to_multiset(),
        sorted_texts(s).len() == s.len(),
        0 <= i < j < s.len() ==> !before(sorted_texts(s)[j], sorted_texts(s)[i]),
{
    broadcast use vstd::seq_lib::group_to_multiset_ensures;

    lemma_text_order();
    s.lemma_sort_by_ensures(text_order());
    let r = sorted_texts(s);
    assert(r.len() == r.to_multiset().len());
    assert(s.len() == s.to_multiset().len());
    if 0 <= i < j < s.len() {
        let leq = text_order();
        assert(leq(r[i], r[j]));
        assert(at_most(r[i], r[j]));
        if before(r[j], r[i]) {
            if r[i] != r[j] {
                lemma_before_transitive(r[i], r[j], r[i]);
            }
            lemma_before_irreflexive(r[i]);
        }
    }
}

} // verus!
