//! Maps from text, kept in the order of their keys.

use vstd::prelude::*;
use crate::text::{
    before, lemma_before_irreflexive, lemma_before_total, lemma_before_transitive, less, same,
};

verus! {

/// The keys increase strictly, so no key occurs twice.
pub open spec fn ordered<W>(s: Seq<(Seq<char>, W)>) -> bool {
    forall|i: int, j: int| 0 <= i < j < s.len() ==> before(#[trigger] s[i].0, #[trigger] s[j].0)
}

/// The value under `k`, if there is one.
pub open spec fn lookup<W>(s: Seq<(Seq<char>, W)>, k: Seq<char>) -> Option<W>
    decreases s.len(),
{
    if s.len() == 0 {
        None
    } else if s.last().0 == k {
        Some(s.last().1)
    } else {
        lookup(s.drop_last(), k)
    }
}

/// The entries with `w` under `k`, in place of what was there, or at the place of the key.
pub open spec fn put<W>(s: Seq<(Seq<char>, W)>, k: Seq<char>, w: W) -> Seq<(Seq<char>, W)>
    decreases s.len(),
{
    if s.len() == 0 {
        seq![(k, w)]
    } else if s.last().0 == k {
        s.drop_last().push((k, w))
    } else if before(k, s.last().0) {
        put(s.drop_last(), k, w).push(s.last())
    } else {
        s.push((k, w))
    }
}

/// The entries without that of `k`.
pub open spec fn dropped<W>(s: Seq<(Seq<char>, W)>, k: Seq<char>) -> Seq<(Seq<char>, W)> {
    s.filter(|e: (Seq<char>, W)| e.0 != k)
}

/// All entries of `t`, each put over what stands in `s`.
pub open spec fn put_all<W>(
    s: Seq<(Seq<char>, W)>,
    t: Seq<(Seq<char>, W)>,
) -> Seq<(Seq<char>, W)>
    decreases t.len(),
{
    if t.len() == 0 {
        s
    } else {
        put(put_all(s, t.drop_last()), t.last().0, t.last().1)
    }
}

/// The keys, in order.
pub open spec fn keys<W>(s: Seq<(Seq<char>, W)>) -> Seq<Seq<char>> {
    s.map_values(|e: (Seq<char>, W)| e.0)
}

/// A map from text that walks its entries in the order of the keys.
#[derive(Debug)]
pub struct StringMap<V: View> {
    entries: Vec<(String, V)>,
}

impl<V: View> View for StringMap<V> {
    type V = Seq<(Seq<char>, V::V)>;

    closed spec fn view(&self) -> Seq<(Seq<char>, V::V)> {
        entries_view(self.entries@)
    }
}

spec fn entries_view<V: View>(s: Seq<(String, V)>) -> Seq<(Seq<char>, V::V)> {
    s.map_values(|e: (String, V)| (e.0@, e.1@))
}

impl<V: View> StringMap<V> {
    #[verifier::type_invariant]
    spec fn keys_increase(&self) -> bool {
        ordered(self@)
    }

    pub fn new() -> (r: Self)
        ensures
            r@ == Seq::<(Seq<char>, V::V)>::empty(),
    {
        let entries: Vec<(String, V)> = Vec::new();
        assert(entries_view(entries@) =~= Seq::empty());
        StringMap { entries }
    }

    pub fn len(&self) -> (r: usize)
        ensures
            r == self@.len(),
    {
        self.entries.len()
    }

    /// The key at place `i` in the order of the keys.
    pub fn key(&self, i: usize) -> (r: &String)
        requires
            i < self@.len(),
        ensures
            r@ == self@[i as int].0,
    {
        &self.entries[i].0
    }

    /// The value at place `i` in the order of the keys.
    pub fn value(&self, i: usize) -> (r: &V)
        requires
            i < self@.len(),
        ensures
            r@ == self@[i as int].1,
    {
        &self.entries[i].1
    }

    pub fn get(&self, k: &str) -> (r: Option<&V>)
        ensures
            match r {
                Some(v) => lookup(self@, k@) == Some(v@),
                None => lookup(self@, k@) is None,
            },
    {
        let mut i: usize = self.entries.len();
        assert(self@.take(self@.len() as int) =~= self@);
        while i > 0
            invariant
                i <= self.entries@.len(),
                self@ == entries_view(self.entries@),
                lookup(self@.take(i as int), k@) == lookup(self@, k@),
            decreases i,
        {
            proof {
                assert(self@.take(i as int).last() == self@[i - 1]);
                assert(self@.take(i as int).drop_last() =~= self@.take(i - 1));
            }
            if same(self.entries[i - 1].0.as_str(), k) {
                return Some(&self.entries[i - 1].1);
            }
            i -= 1;
        }
        None
    }

    pub fn contains_key(&self, k: &str) -> (r: bool)
        ensures
            r == (lookup(self@, k@) is Some),
    {
        self.get(k).is_some()
    }

    pub fn insert(&mut self, k: String, v: V)
        ensures
            final(self)@ == put(old(self)@, k@, v@),
    {
        proof {
            use_type_invariant(&*self);
        }
        let ghost before_call = self@;
        let mut entries: Vec<(String, V)> = Vec::new();
        assert(entries_view(entries@) =~= Seq::empty());
        std::mem::swap(&mut entries, &mut self.entries);
        let ghost s = entries_view(entries@);
        let mut i: usize = entries.len();
        while i > 0 && less(k.as_str(), entries[i - 1].0.as_str())
            invariant
                i <= entries@.len(),
                s == entries_view(entries@),
                forall|j: int| i <= j < s.len() ==> before(k@, #[trigger] s[j].0),
            decreases i,
        {
            i -= 1;
        }
        proof {
            lemma_put_at(s, k@, v@, i as int);
            lemma_put_ordered(s, k@, v@);
        }
        if i > 0 && same(k.as_str(), entries[i - 1].0.as_str()) {
            let ghost key = k@;
            let ghost val = v@;
            entries[i - 1] = (k, v);
            assert(entries_view(entries@) =~= s.update(i - 1, (key, val)));
        } else {
            let ghost key = k@;
            let ghost val = v@;
            entries.insert(i, (k, v));
            assert(entries_view(entries@) =~= s.insert(i as int, (key, val)));
        }
        self.entries = entries;
    }
}

impl<V: View> StringMap<V> {
    /// Takes the entry of `k` out, if there is one.
    pub fn remove(&mut self, k: &str)
        ensures
            final(self)@ == dropped(old(self)@, k@),
    {
        proof {
            use_type_invariant(&*self);
        }
        let ghost pred = |e: (Seq<char>, V::V)| e.0 != k@;
        let mut rest: Vec<(String, V)> = Vec::new();
        assert(entries_view(rest@) =~= Seq::empty());
        std::mem::swap(&mut rest, &mut self.entries);
        let ghost s = entries_view(rest@);
        let mut kept: Vec<(String, V)> = Vec::new();
        let mut i: usize = rest.len();
        let ghost n = s.len();
        proof {
            assert(entries_view(kept@) =~= Seq::empty());
            assert(s.skip(n as int) =~= Seq::empty());
            assert(s.skip(n as int).filter(pred) =~= Seq::empty());
            assert(s.take(n as int) =~= s);
        }
        while i > 0
            invariant
                i == rest@.len(),
                i <= n == s.len(),
                entries_view(rest@) == s.take(i as int),
                entries_view(kept@) == s.skip(i as int).filter(pred).reverse(),
                pred == (|e: (Seq<char>, V::V)| e.0 != k@),
            decreases i,
        {
            let ghost shorter = s.skip(i as int);
            let ghost old_kept = entries_view(kept@);
            let entry = rest.pop().unwrap();
            proof {
                assert(s.take(i as int)[i - 1] == (entry.0@, entry.1@));
                assert(entries_view(rest@) =~= s.take(i - 1));
                assert(s.skip(i - 1) =~= seq![s[i - 1]] + shorter);
                lemma_filter_front(s[i - 1], shorter, pred);
            }
            if !same(entry.0.as_str(), k) {
                kept.push(entry);
                assert(entries_view(kept@) =~= old_kept.push(s[i - 1]));
                assert(entries_view(kept@) =~= s.skip(i - 1).filter(pred).reverse());
            }
            i -= 1;
        }
        assert(s.skip(0) =~= s);
        let mut result: Vec<(String, V)> = Vec::new();
        let ghost want = s.filter(pred);
        assert(entries_view(kept@) =~= want.reverse());
        assert(entries_view(result@) =~= Seq::empty());
        assert(want.take(0) =~= Seq::empty());
        while kept.len() > 0
            invariant
                result@.len() + kept@.len() == want.len(),
                entries_view(kept@) == want.skip(result@.len() as int).reverse(),
                entries_view(result@) == want.take(result@.len() as int),
            decreases kept.len(),
        {
            let ghost m = result@.len() as int;
            let ghost old_result = entries_view(result@);
            let ghost all = entries_view(kept@);
            let entry = kept.pop().unwrap();
            proof {
                assert(all.last() == (entry.0@, entry.1@));
                assert(all.last() == want[m]);
                assert(entries_view(kept@) =~= all.drop_last());
                assert(all.drop_last() =~= want.skip(m + 1).reverse());
            }
            result.push(entry);
            assert(entries_view(result@) =~= old_result.push(want[m]));
            assert(want.take(m + 1) =~= want.take(m).push(want[m]));
        }
        assert(want.take(want.len() as int) =~= want);
        proof {
            lemma_filter_ordered(s, pred);
        }
        self.entries = result;
    }
}

impl StringMap<String> {
    /// A map with the same texts.
    pub fn copy_texts(&self) -> (r: StringMap<String>)
        ensures
            r@ == self@,
    {
        proof {
            use_type_invariant(self);
        }
        let mut entries: Vec<(String, String)> = Vec::new();
        let mut i: usize = 0;
        assert(entries_view(entries@) =~= self@.take(0));
        while i < self.entries.len()
            invariant
                i <= self.entries@.len(),
                entries@.len() == i,
                entries_view(entries@) == self@.take(i as int),
            decreases self.entries.len() - i,
        {
            let ghost done = entries_view(entries@);
            entries.push((self.entries[i].0.clone(), self.entries[i].1.clone()));
            assert(entries_view(entries@) =~= done.push(self@[i as int]));
            assert(self@.take(i + 1) =~= self@.take(i as int).push(self@[i as int]));
            i += 1;
        }
        assert(entries_view(entries@) =~= self@);
        StringMap { entries }
    }

    /// Puts every entry of `other` over what stands here.
    pub fn extend_texts(&mut self, other: &StringMap<String>)
        ensures
            final(self)@ == put_all(old(self)@, other@),
    {
        let ghost start = self@;
        let mut i: usize = 0;
        assert(other@.take(0) =~= Seq::empty());
        while i < other.len()
            invariant
                i <= other@.len(),
                self@ == put_all(start, other@.take(i as int)),
            decreases other@.len() - i,
        {
            assert(other@.take(i + 1).drop_last() =~= other@.take(i as int));
            self.insert(other.key(i).clone(), other.value(i).clone());
            i += 1;
        }
        assert(other@.take(other@.len() as int) =~= other@);
    }

    /// Puts one text under another.
    pub fn set(&mut self, k: &str, v: &str)
        ensures
            final(self)@ == put(old(self)@, k@, v@),
    {
        self.insert(k.to_owned(), v.to_owned());
    }
}

impl<V: View> StringMap<V> {
    /// The values as they are held, in the order of their keys.
    pub closed spec fn values(self) -> Seq<V> {
        self.entries@.map_values(|e: (String, V)| e.1)
    }
}

impl<V: View + Clone> Clone for StringMap<V> {
    fn clone(&self) -> (r: Self)
        ensures
            keys(r@) == keys(self@),
            r.values().len() == self.values().len() == r@.len(),
            forall|i: int|
                0 <= i < r@.len() ==> cloned(self.values()[i], #[trigger] r.values()[i]) && r@[i].1
                    == r.values()[i]@,
    {
        proof {
            use_type_invariant(self);
        }
        let mut entries: Vec<(String, V)> = Vec::new();
        let mut i: usize = 0;
        while i < self.entries.len()
            invariant
                i <= self.entries@.len(),
                entries@.len() == i,
                forall|j: int|
                    0 <= j < i ==> #[trigger] entries@[j].0@ == self.entries@[j].0@ && cloned(
                        self.entries@[j].1,
                        entries@[j].1,
                    ),
            decreases self.entries.len() - i,
        {
            let value = self.entries[i].1.clone();
            assert(cloned(self.entries@[i as int].1, value));
            entries.push((self.entries[i].0.clone(), value));
            i += 1;
        }
        proof {
            let a = entries_view(entries@);
            assert(keys(a) =~= keys(self@));
            assert forall|x: int, y: int| 0 <= x < y < a.len() implies before(
                #[trigger] a[x].0,
                #[trigger] a[y].0,
            ) by {
                assert(a[x].0 == self@[x].0);
                assert(a[y].0 == self@[y].0);
            }
        }
        let r = StringMap { entries };
        assert forall|i: int| 0 <= i < r@.len() implies cloned(
            self.values()[i],
            #[trigger] r.values()[i],
        ) && r@[i].1 == r.values()[i]@ by {
            assert(entries@[i].0@ == self.entries@[i].0@);
        }
        r
    }
}

/// Filtering with one more entry in front.
#[verifier::rlimit(50)]
#[verifier::spinoff_prover]
proof fn lemma_filter_front<A>(x: A, s: Seq<A>, pred: spec_fn(A) -> bool)
    ensures
        (seq![x] + s).filter(pred) == if pred(x) {
            seq![x] + s.filter(pred)
        } else {
            s.filter(pred)
        },
    decreases s.len(),
{
    reveal(Seq::filter);
    let t = seq![x] + s;
    if s.len() == 0 {
        assert(t.drop_last() =~= Seq::empty());
        assert(t.drop_last().filter(pred) =~= Seq::empty());
        assert(t.last() == x);
        assert(s.filter(pred) =~= Seq::empty());
        assert(t.filter(pred) =~= if pred(x) { seq![x] + s.filter(pred) } else { s.filter(pred) });
    } else {
        lemma_filter_front(x, s.drop_last(), pred);
        assert(t.drop_last() =~= seq![x] + s.drop_last());
        assert(t.last() == s.last());
        assert(t.filter(pred) =~= if pred(x) { seq![x] + s.filter(pred) } else { s.filter(pred) });
    }
}

/// Filtering keeps exactly the elements of which the predicate holds.
pub proof fn lemma_filter_members<A>(s: Seq<A>, pred: spec_fn(A) -> bool)
    ensures
        forall|x: A| #[trigger] s.filter(pred).contains(x) <==> s.contains(x) && pred(x),
    decreases s.len(),
{
    reveal(Seq::filter);
    if s.len() == 0 {
        assert(s.filter(pred) =~= Seq::empty());
    } else {
        let t = s.drop_last();
        lemma_filter_members(t, pred);
        assert forall|x: A| #[trigger] s.filter(pred).contains(x) <==> s.contains(x) && pred(x) by {
            assert(s =~= t.push(s.last()));
            if t.contains(x) {
                let i = choose|i: int| 0 <= i < t.len() && t[i] == x;
                assert(s[i] == x);
            }
            if s.contains(x) && x != s.last() {
                let i = choose|i: int| 0 <= i < s.len() && s[i] == x;
                assert(t[i] == x);
            }
            assert(s[s.len() - 1] == s.last());
            let f = t.filter(pred);
            if pred(s.last()) {
                assert(s.filter(pred) =~= f.push(s.last()));
                if f.contains(x) {
                    let i = choose|i: int| 0 <= i < f.len() && f[i] == x;
                    assert(f.push(s.last())[i] == x);
                }
                if f.push(s.last()).contains(x) && x != s.last() {
                    let i = choose|i: int|
                        0 <= i < f.push(s.last()).len() && f.push(s.last())[i] == x;
                    assert(f[i] == x);
                }
                assert(f.push(s.last())[f.len() as int] == s.last());
            } else {
                assert(s.filter(pred) =~= f);
            }
        }
    }
}

/// Leaving entries out keeps the keys in order.
pub proof fn lemma_filter_ordered<W>(
    s: Seq<(Seq<char>, W)>,
    pred: spec_fn((Seq<char>, W)) -> bool,
)
    requires
        ordered(s),
    ensures
        ordered(s.filter(pred)),
        forall|i: int|
            0 <= i < s.filter(pred).len() ==> s.contains(#[trigger] s.filter(pred)[i]),
    decreases s.len(),
{
    reveal(Seq::filter);
    if s.len() > 0 {
        let t = s.drop_last();
        lemma_filter_ordered(t, pred);
        let f = t.filter(pred);
        assert forall|i: int| 0 <= i < f.len() implies s.contains(#[trigger] f[i]) && before(
            f[i].0,
            s.last().0,
        ) by {
            assert(t.contains(f[i]));
            let j = choose|j: int| 0 <= j < t.len() && t[j] == f[i];
            assert(s[j] == f[i]);
            assert(before(s[j].0, s[s.len() - 1].0));
        }
        if pred(s.last()) {
            assert(s.filter(pred) =~= f.push(s.last()));
            assert(s[s.len() - 1] == s.last());
        } else {
            assert(s.filter(pred) =~= f);
        }
    }
}

/// Where a key goes: in the place of the same key, or in front of the first greater one.
proof fn lemma_put_at<W>(s: Seq<(Seq<char>, W)>, k: Seq<char>, w: W, i: int)
    requires
        0 <= i <= s.len(),
        forall|j: int| i <= j < s.len() ==> before(k, #[trigger] s[j].0),
        i > 0 ==> !before(k, s[i - 1].0),
    ensures
        i > 0 && s[i - 1].0 == k ==> put(s, k, w) == s.update(i - 1, (k, w)),
        !(i > 0 && s[i - 1].0 == k) ==> put(s, k, w) == s.insert(i, (k, w)),
    decreases s.len(),
{
    if i < s.len() {
        lemma_before_irreflexive(k);
        assert(before(k, s[s.len() - 1].0));
        lemma_put_at(s.drop_last(), k, w, i);
        if i > 0 && s[i - 1].0 == k {
            assert(s.drop_last().update(i - 1, (k, w)).push(s.last()) =~= s.update(i - 1, (k, w)));
        } else {
            assert(s.drop_last().insert(i, (k, w)).push(s.last()) =~= s.insert(i, (k, w)));
        }
    } else if i > 0 && s[i - 1].0 == k {
        assert(s.drop_last().push((k, w)) =~= s.update(i - 1, (k, w)));
    } else {
        if s.len() == 0 {
            assert(seq![(k, w)] =~= s.insert(i, (k, w)));
        } else {
            assert(s.push((k, w)) =~= s.insert(i, (k, w)));
        }
    }
}

/// Putting an entry keeps the keys in order.
pub proof fn lemma_put_ordered<W>(s: Seq<(Seq<char>, W)>, k: Seq<char>, w: W)
    requires
        ordered(s),
    ensures
        ordered(put(s, k, w)),
        forall|x: Seq<char>| #[trigger]
            keys(put(s, k, w)).contains(x) ==> x == k || keys(s).contains(x),
    decreases s.len(),
{
    let r = put(s, k, w);
    if s.len() == 0 {
        assert forall|x: Seq<char>| #[trigger] keys(r).contains(x) implies x == k || keys(
            s,
        ).contains(x) by {
            let i = choose|i: int| 0 <= i < keys(r).len() && keys(r)[i] == x;
            assert(r[i].0 == x);
        }
    } else if s.last().0 == k {
        assert forall|x: Seq<char>| #[trigger] keys(r).contains(x) implies x == k || keys(
            s,
        ).contains(x) by {
            let i = choose|i: int| 0 <= i < keys(r).len() && keys(r)[i] == x;
            assert(r[i].0 == x);
            assert(keys(s)[i] == s[i].0);
        }
    } else if before(k, s.last().0) {
        let t = s.drop_last();
        lemma_put_ordered(t, k, w);
        let u = put(t, k, w);
        assert forall|i: int| 0 <= i < u.len() implies before(#[trigger] u[i].0, s.last().0) by {
            assert(keys(u)[i] == u[i].0);
            assert(keys(u).contains(u[i].0));
            if u[i].0 != k {
                let j = choose|j: int| 0 <= j < keys(t).len() && keys(t)[j] == u[i].0;
                assert(s[j].0 == u[i].0);
                assert(before(s[j].0, s[s.len() - 1].0));
            }
        }
        assert forall|x: Seq<char>| #[trigger] keys(r).contains(x) implies x == k || keys(
            s,
        ).contains(x) by {
            let i = choose|i: int| 0 <= i < keys(r).len() && keys(r)[i] == x;
            if i < u.len() {
                assert(keys(u)[i] == x);
                assert(keys(u).contains(x));
                if x != k {
                    let j = choose|j: int| 0 <= j < keys(t).len() && keys(t)[j] == x;
                    assert(keys(s)[j] == x);
                }
            } else {
                assert(keys(s)[s.len() - 1] == x);
            }
        }
    } else {
        lemma_before_total(k, s.last().0);
        assert forall|i: int| 0 <= i < s.len() implies before(#[trigger] s[i].0, k) by {
            if i < s.len() - 1 {
                assert(before(s[i].0, s[s.len() - 1].0));
                lemma_before_transitive(s[i].0, s.last().0, k);
            }
        }
        assert forall|x: Seq<char>| #[trigger] keys(r).contains(x) implies x == k || keys(
            s,
        ).contains(x) by {
            let i = choose|i: int| 0 <= i < keys(r).len() && keys(r)[i] == x;
            assert(r[i].0 == x);
            if i < s.len() {
                assert(keys(s)[i] == x);
            }
        }
    }
}

/// What was put under a key is found there, and no other key changes.
pub proof fn lemma_put_lookup<W>(s: Seq<(Seq<char>, W)>, k: Seq<char>, w: W, other: Seq<char>)
    ensures
        lookup(put(s, k, w), k) == Some(w),
        other != k ==> lookup(put(s, k, w), other) == lookup(s, other),
    decreases s.len(),
{
    let r = put(s, k, w);
    if s.len() == 0 {
        assert(r.drop_last() =~= s);
    } else if s.last().0 == k {
        assert(r.drop_last() =~= s.drop_last());
    } else if before(k, s.last().0) {
        lemma_put_lookup(s.drop_last(), k, w, other);
        assert(r.drop_last() =~= put(s.drop_last(), k, w));
    } else {
        assert(r.drop_last() =~= s);
    }
}

/// What is put over a map is found before what stood there.
pub proof fn lemma_put_all_lookup<W>(
    s: Seq<(Seq<char>, W)>,
    t: Seq<(Seq<char>, W)>,
    k: Seq<char>,
)
    ensures
        lookup(put_all(s, t), k) == if lookup(t, k) is Some {
            lookup(t, k)
        } else {
            lookup(s, k)
        },
    decreases t.len(),
{
    if t.len() > 0 {
        lemma_put_all_lookup(s, t.drop_last(), k);
        lemma_put_lookup(put_all(s, t.drop_last()), t.last().0, t.last().1, k);
    }
}

/// What is put in stands among the entries; everything else was there.
proof fn lemma_put_members<W>(s: Seq<(Seq<char>, W)>, k: Seq<char>, w: W, e: (Seq<char>, W))
    requires
        put(s, k, w).contains(e),
    ensures
        e == (k, w) || s.contains(e),
    decreases s.len(),
{
    let r = put(s, k, w);
    let i = choose|i: int| 0 <= i < r.len() && r[i] == e;
    if s.len() > 0 && s.last().0 != k && before(k, s.last().0) {
        if i == r.len() - 1 {
            assert(s[s.len() - 1] == e);
        } else {
            let t = s.drop_last();
            assert(put(t, k, w)[i] == e);
            lemma_put_members(t, k, w, e);
            if e != (k, w) {
                let j = choose|j: int| 0 <= j < t.len() && t[j] == e;
                assert(s[j] == e);
            }
        }
    } else if i < r.len() - 1 {
        assert(s[i] == e);
    }
}

/// Nothing but what is put in stands among the entries.
pub proof fn lemma_put_all_members<W>(t: Seq<(Seq<char>, W)>, e: (Seq<char>, W))
    requires
        put_all(Seq::empty(), t).contains(e),
    ensures
        t.contains(e),
    decreases t.len(),
{
    if t.len() > 0 {
        let front = t.drop_last();
        lemma_put_members(put_all(Seq::empty(), front), t.last().0, t.last().1, e);
        if e == t.last() {
            assert(t[t.len() - 1] == e);
        } else {
            lemma_put_all_members(front, e);
            let j = choose|j: int| 0 <= j < front.len() && front[j] == e;
            assert(t[j] == e);
        }
    }
}

/// What is kept depends on what is said of each element alone.
pub proof fn lemma_filter_same<A>(s: Seq<A>, p: spec_fn(A) -> bool, q: spec_fn(A) -> bool)
    requires
        forall|i: int| 0 <= i < s.len() ==> p(#[trigger] s[i]) == q(s[i]),
    ensures
        s.filter(p) == s.filter(q),
    decreases s.len(),
{
    reveal(Seq::filter);
    if s.len() > 0 {
        let t = s.drop_last();
        assert forall|i: int| 0 <= i < t.len() implies p(#[trigger] t[i]) == q(t[i]) by {
            assert(t[i] == s[i]);
        }
        lemma_filter_same(t, p, q);
        assert(p(s[s.len() - 1]) == q(s[s.len() - 1]));
    }
}

/// Where the keys are distinct, every entry is found under its key.
pub proof fn lemma_lookup_entry<W>(s: Seq<(Seq<char>, W)>, i: int)
    requires
        0 <= i < s.len(),
        forall|j: int, k: int| 0 <= j < k < s.len() ==> (#[trigger] s[j]).0 != (#[trigger] s[k]).0,
    ensures
        lookup(s, s[i].0) == Some(s[i].1),
    decreases s.len(),
{
    if i < s.len() - 1 {
        assert(s[i].0 != s[s.len() - 1].0);
        let t = s.drop_last();
        assert forall|j: int, k: int| 0 <= j < k < t.len() implies (#[trigger] t[j]).0 != (
        #[trigger] t[k]).0 by {
            assert(s[j].0 != s[k].0);
        }
        lemma_lookup_entry(t, i);
    }
}

/// What is found under a key is an entry with that key.
pub proof fn lemma_lookup_found<W>(s: Seq<(Seq<char>, W)>, k: Seq<char>)
    ensures
        lookup(s, k) matches Some(w) ==> s.contains((k, w)),
        lookup(s, k) is None ==> forall|i: int| 0 <= i < s.len() ==> (#[trigger] s[i]).0 != k,
    decreases s.len(),
{
    if s.len() > 0 {
        let t = s.drop_last();
        lemma_lookup_found(t, k);
        if s.last().0 == k {
            assert(s[s.len() - 1] == (k, s.last().1));
        } else if let Some(w) = lookup(t, k) {
            let i = choose|i: int| 0 <= i < t.len() && t[i] == (k, w);
            assert(s[i] == (k, w));
        } else {
            assert forall|i: int| 0 <= i < s.len() implies (#[trigger] s[i]).0 != k by {
                if i < t.len() {
                    assert(t[i].0 != k);
                }
            }
        }
    }
}

/// Entries whose keys are in order have each key once.
pub proof fn lemma_ordered_keys_differ<W>(s: Seq<(Seq<char>, W)>)
    requires
        ordered(s),
    ensures
        forall|j: int, k: int| 0 <= j < k < s.len() ==> (#[trigger] s[j]).0 != (#[trigger] s[k]).0,
{
    assert forall|j: int, k: int| 0 <= j < k < s.len() implies (#[trigger] s[j]).0 != (
    #[trigger] s[k]).0 by {
        lemma_before_irreflexive(s[j].0);
        assert(before(s[j].0, s[k].0));
    }
}

/// A map holds what was put into it last under each key, and nothing else, and its keys are in
/// order.
pub proof fn law_maps_hold_what_was_put<W>(
    s: Seq<(Seq<char>, W)>,
    k: Seq<char>,
    w: W,
    other: Seq<char>,
)
    requires
        ordered(s),
    ensures
        ordered(put(s, k, w)),
        lookup(put(s, k, w), other) == if other == k {
            Some(w)
        } else {
            lookup(s, other)
        },
        lookup(s, other) is Some <==> s.contains((other, lookup(s, other)->0)),
{
    lemma_put_ordered(s, k, w);
    lemma_put_lookup(s, k, w, other);
    lemma_lookup_found(s, other);
    lemma_ordered_keys_differ(s);
    if s.contains((other, lookup(s, other)->0)) {
        let i = choose|i: int| 0 <= i < s.len() && s[i] == (other, lookup(s, other)->0);
        lemma_lookup_entry(s, i);
    }
}

/// The entry that was added last is found first.
pub broadcast proof fn lemma_lookup_push<W>(
    s: Seq<(Seq<char>, W)>,
    e: (Seq<char>, W),
    k: Seq<char>,
)
    ensures
        #[trigger] lookup(s.push(e), k) == if e.0 == k {
            Some(e.1)
        } else {
            lookup(s, k)
        },
{
    assert(s.push(e).drop_last() =~= s);
}

/// What is taken out is gone, and nothing else.
pub proof fn lemma_dropped_lookup<W>(s: Seq<(Seq<char>, W)>, k: Seq<char>, other: Seq<char>)
    ensures
        lookup(dropped(s, k), other) == if other == k {
            None
        } else {
            lookup(s, other)
        },
    decreases s.len(),
{
    reveal(Seq::filter);
    if s.len() > 0 {
        let t = s.drop_last();
        lemma_dropped_lookup(t, k, other);
        if s.last().0 != k {
            assert(dropped(s, k) == dropped(t, k).push(s.last()));
            assert(dropped(s, k).drop_last() =~= dropped(t, k));
        }
    }
}

} // verus!
