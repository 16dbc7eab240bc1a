//! Paths as texts with `/` between the names.

use vstd::prelude::*;
use crate::text::{
    chars_of, glue3, joined, law_joined_texts_come_apart, lemma_first_joined, pieces, same, split,
    texts,
};

verus! {

/// A part of a path, as a model.
pub enum Part {
    Root,
    Current,
    Parent,
    Normal(Seq<char>),
}

/// A part of a path.
#[derive(Debug)]
pub enum Component {
    Root,
    Current,
    Parent,
    Normal(String),
}

impl View for Component {
    type V = Part;

    open spec fn view(&self) -> Part {
        match self {
            Component::Root => Part::Root,
            Component::Current => Part::Current,
            Component::Parent => Part::Parent,
            Component::Normal(name) => Part::Normal(name@),
        }
    }
}

pub open spec fn parts_view(v: Seq<Component>) -> Seq<Part> {
    v.map_values(|c: Component| c@)
}

/// The path starts at the root.
pub open spec fn absolute(path: Seq<char>) -> bool {
    path.len() > 0 && path[0] == '/'
}

/// The parts that the pieces between slashes stand for: empty pieces and single
/// dots stand for none.
pub open spec fn named_parts(between: Seq<Seq<char>>) -> Seq<Part>
    decreases between.len(),
{
    if between.len() == 0 {
        Seq::empty()
    } else {
        let done = named_parts(between.drop_last());
        let piece = between.last();
        if piece.len() == 0 || piece == "."@ {
            done
        } else if piece == ".."@ {
            done.push(Part::Parent)
        } else {
            done.push(Part::Normal(piece))
        }
    }
}

/// The parts of a path. A single dot counts only at the very start of a path
/// that does not start at the root.
pub open spec fn parts(path: Seq<char>) -> Seq<Part> {
    let between = pieces(path, '/');
    let head = if absolute(path) {
        seq![Part::Root]
    } else if between[0] == "."@ {
        seq![Part::Current]
    } else {
        Seq::empty()
    };
    head + named_parts(between)
}

/// `path` is `root` or lies below it.
pub open spec fn within(path: Seq<Part>, root: Seq<Part>) -> bool {
    root.len() <= path.len() && path.subrange(0, root.len() as int) == root
}

pub open spec fn normal(p: Part) -> bool {
    p is Normal
}

/// `name` under `base`: an absolute name stands for itself.
pub open spec fn below(base: Seq<char>, name: Seq<char>) -> Seq<char> {
    if absolute(name) {
        name
    } else if base.len() == 0 || base.last() == '/' {
        base + name
    } else {
        base + seq!['/'] + name
    }
}

pub fn is_absolute(path: &str) -> (r: bool)
    ensures
        r == absolute(path@),
{
    let x = chars_of(path);
    x.len() > 0 && x[0] == '/'
}

/// The parts of a path.
pub fn components(path: &str) -> (r: Vec<Component>)
    ensures
        parts_view(r@) == parts(path@),
{
    let between = split(path, '/');
    let mut out: Vec<Component> = Vec::new();
    proof {
        lemma_pieces_nonempty(path@, '/');
        assert(texts(between@)[0] == between@[0]@);
    }
    if is_absolute(path) {
        out.push(Component::Root);
        assert(parts_view(out@) =~= seq![Part::Root]);
    } else if same(between[0].as_str(), ".") {
        out.push(Component::Current);
        assert(parts_view(out@) =~= seq![Part::Current]);
    } else {
        assert(parts_view(out@) =~= Seq::empty());
    }
    let ghost head = parts_view(out@);
    let ghost all = texts(between@);
    let mut i: usize = 0;
    assert(all.take(0).len() == 0);
    assert(head + named_parts(all.take(0)) =~= head);
    while i < between.len()
        invariant
            all == texts(between@),
            i <= between@.len(),
            parts_view(out@) == head + named_parts(all.take(i as int)),
        decreases between.len() - i,
    {
        let ghost done = parts_view(out@);
        proof {
            assert(all.take(i + 1).drop_last() =~= all.take(i as int));
            assert(all.take(i + 1).last() == between@[i as int]@);
        }
        if between[i].as_str().is_empty() || same(between[i].as_str(), ".") {
        } else if same(between[i].as_str(), "..") {
            out.push(Component::Parent);
            assert(parts_view(out@) =~= done.push(Part::Parent));
            assert(parts_view(out@) =~= head + named_parts(all.take(i + 1)));
        } else {
            out.push(Component::Normal(between[i].clone()));
            assert(parts_view(out@) =~= done.push(Part::Normal(between@[i as int]@)));
            assert(parts_view(out@) =~= head + named_parts(all.take(i + 1)));
        }
        i += 1;
    }
    assert(all.take(all.len() as int) =~= all);
    out
}

proof fn lemma_pieces_nonempty(s: Seq<char>, sep: char)
    ensures
        pieces(s, sep).len() > 0,
    decreases s.len(),
{
    if s.len() > 0 {
        lemma_pieces_nonempty(s.drop_last(), sep);
    }
}

pub fn same_component(a: &Component, b: &Component) -> (r: bool)
    ensures
        r == (a@ == b@),
{
    match (a, b) {
        (Component::Root, Component::Root) => true,
        (Component::Current, Component::Current) => true,
        (Component::Parent, Component::Parent) => true,
        (Component::Normal(x), Component::Normal(y)) => same(x.as_str(), y.as_str()),
        _ => false,
    }
}

/// Whether the first path is the second or lies below it.
pub fn is_within(path: &Vec<Component>, root: &Vec<Component>) -> (r: bool)
    ensures
        r == within(parts_view(path@), parts_view(root@)),
{
    let ghost p = parts_view(path@);
    let ghost q = parts_view(root@);
    if root.len() > path.len() {
        return false;
    }
    let mut i: usize = 0;
    while i < root.len()
        invariant
            p == parts_view(path@),
            q == parts_view(root@),
            i <= root@.len() <= path@.len(),
            forall|k: int| 0 <= k < i ==> p[k] == q[k],
        decreases root.len() - i,
    {
        if !same_component(&path[i], &root[i]) {
            assert(p.subrange(0, q.len() as int)[i as int] != q[i as int]);
            return false;
        }
        i += 1;
    }
    assert(p.subrange(0, q.len() as int) =~= q);
    true
}

/// Whether two texts name the same way.
pub fn same_path(a: &str, b: &str) -> (r: bool)
    ensures
        r == (parts(a@) == parts(b@)),
{
    let x = components(a);
    let y = components(b);
    let equal = is_within(&x, &y) && is_within(&y, &x);
    proof {
        let p = parts(a@);
        let q = parts(b@);
        if p.len() == q.len() {
            assert(p.subrange(0, q.len() as int) =~= p);
            assert(q.subrange(0, p.len() as int) =~= q);
        }
    }
    equal
}

/// Whether a path lies in one of the roots.
pub open spec fn within_any(path: Seq<Part>, roots: Seq<Seq<char>>) -> bool {
    exists|i: int| 0 <= i < roots.len() && within(path, parts(#[trigger] roots[i]))
}

/// Whether one of the roots lies in the path.
pub open spec fn holds_any(path: Seq<Part>, roots: Seq<Seq<char>>) -> bool {
    exists|i: int| 0 <= i < roots.len() && within(parts(#[trigger] roots[i]), path)
}

pub fn is_within_any(path: &Vec<Component>, roots: &Vec<String>) -> (r: bool)
    ensures
        r == within_any(parts_view(path@), texts(roots@)),
{
    let mut i: usize = 0;
    while i < roots.len()
        invariant
            i <= roots@.len(),
            forall|k: int|
                0 <= k < i ==> !within(parts_view(path@), parts(#[trigger] texts(roots@)[k])),
        decreases roots.len() - i,
    {
        let root = components(roots[i].as_str());
        assert(texts(roots@)[i as int] == roots@[i as int]@);
        if is_within(path, &root) {
            return true;
        }
        i += 1;
    }
    false
}

pub fn does_hold_any(path: &Vec<Component>, roots: &Vec<String>) -> (r: bool)
    ensures
        r == holds_any(parts_view(path@), texts(roots@)),
{
    let mut i: usize = 0;
    while i < roots.len()
        invariant
            i <= roots@.len(),
            forall|k: int|
                0 <= k < i ==> !within(parts(#[trigger] texts(roots@)[k]), parts_view(path@)),
        decreases roots.len() - i,
    {
        let root = components(roots[i].as_str());
        assert(texts(roots@)[i as int] == roots@[i as int]@);
        if is_within(&root, path) {
            return true;
        }
        i += 1;
    }
    false
}

/// The path of `name` under `base`.
pub fn join_path(base: &str, name: &str) -> (r: String)
    ensures
        r@ == below(base@, name@),
{
    if is_absolute(name) {
        return name.to_owned();
    }
    let x = chars_of(base);
    if x.len() == 0 || x[x.len() - 1] == '/' {
        let mut out = base.to_owned();
        out.append(name);
        out
    } else {
        proof {
            reveal_strlit("/");
            assert("/"@ =~= seq!['/']);
        }
        glue3(base, "/", name)
    }
}

// ----------------------------------------------------------------- facts

/// The pieces of two texts with a separator between them.
proof fn lemma_pieces_join(a: Seq<char>, sep: char, b: Seq<char>)
    ensures
        pieces(a + seq![sep] + b, sep) == pieces(a, sep) + pieces(b, sep),
    decreases b.len(),
{
    let whole = a + seq![sep] + b;
    if b.len() == 0 {
        assert(whole.drop_last() =~= a);
        assert(whole.last() == sep);
        assert(pieces(b, sep) =~= seq![Seq::<char>::empty()]);
        assert(pieces(whole, sep) =~= pieces(a, sep) + pieces(b, sep));
    } else {
        lemma_pieces_join(a, sep, b.drop_last());
        lemma_pieces_nonempty(b.drop_last(), sep);
        assert(whole.drop_last() =~= a + seq![sep] + b.drop_last());
        assert(whole.last() == b.last());
        assert(pieces(whole, sep) =~= pieces(a, sep) + pieces(b, sep));
    }
}

/// The parts of pieces behind other pieces.
proof fn lemma_named_parts_join(a: Seq<Seq<char>>, b: Seq<Seq<char>>)
    ensures
        named_parts(a + b) == named_parts(a) + named_parts(b),
    decreases b.len(),
{
    if b.len() == 0 {
        assert(a + b =~= a);
        assert(named_parts(a) + named_parts(b) =~= named_parts(a));
    } else {
        lemma_named_parts_join(a, b.drop_last());
        assert((a + b).drop_last() =~= a + b.drop_last());
        assert((a + b).last() == b.last());
        assert(named_parts(a + b) =~= named_parts(a) + named_parts(b));
    }
}

/// A path of names lies below whatever it is taken from: its names come behind the parts of
/// the directory.
#[verifier::rlimit(50)]
#[verifier::spinoff_prover]
pub proof fn law_names_lead_down(root: Seq<char>, path: Seq<char>)
    requires
        absolute(root),
        forall|i: int| 0 <= i < parts(path).len() ==> normal(#[trigger] parts(path)[i]),
    ensures
        parts(below(root, path)) == parts(root) + parts(path),
        within(parts(below(root, path)), parts(root)),
{
    lemma_pieces_nonempty(path, '/');
    let named = named_parts(pieces(path, '/'));
    assert(parts(path) =~= named) by {
        if absolute(path) {
            assert(parts(path)[0] == Part::Root);
        } else if pieces(path, '/')[0] == "."@ {
            assert(parts(path)[0] == Part::Current);
        }
    }
    assert(!absolute(path)) by {
        if absolute(path) {
            assert(parts(path)[0] == Part::Root);
        }
    }
    let whole = below(root, path);
    assert(whole[0] == '/');
    if root.last() == '/' {
        let base = root.drop_last();
        assert(root =~= base + seq!['/'] + Seq::empty());
        assert(whole =~= base + seq!['/'] + path);
        lemma_pieces_join(base, '/', Seq::empty());
        lemma_pieces_join(base, '/', path);
        let nothing = pieces(Seq::empty(), '/');
        assert(nothing =~= seq![Seq::<char>::empty()]);
        lemma_named_parts_join(pieces(base, '/'), nothing);
        lemma_named_parts_join(pieces(base, '/'), pieces(path, '/'));
        assert(named_parts(nothing) =~= Seq::empty()) by {
            assert(named_parts(nothing.drop_last()) =~= Seq::empty());
        }
    } else {
        assert(whole =~= root + seq!['/'] + path);
        lemma_pieces_join(root, '/', path);
        lemma_named_parts_join(pieces(root, '/'), pieces(path, '/'));
    }
    assert(parts(whole) =~= parts(root) + parts(path));
    assert(parts(whole).subrange(0, parts(root).len() as int) =~= parts(root));
}

/// A path from the root is the root and its names, in their order.
pub proof fn law_paths_are_their_names(names: Seq<Seq<char>>)
    requires
        names.len() > 0,
        forall|i: int|
            0 <= i < names.len() ==> (#[trigger] names[i]).len() > 0 && !names[i].contains('/')
                && names[i] != "."@ && names[i] != ".."@,
    ensures
        parts("/"@ + joined(names, "/"@)) == seq![Part::Root] + names.map_values(
            |n: Seq<char>| Part::Normal(n),
        ),
{
    reveal_strlit("/");
    assert("/"@ =~= seq!['/']);
    let empty = Seq::<char>::empty();
    let all = seq![empty] + names;
    assert forall|i: int| 0 <= i < all.len() implies !(#[trigger] all[i]).contains('/') by {
        if i > 0 {
            assert(all[i] == names[i - 1]);
        }
    }
    law_joined_texts_come_apart(all, '/');
    lemma_first_joined(all, seq!['/']);
    assert(all.skip(1) =~= names);
    let path = "/"@ + joined(names, "/"@);
    assert(joined(all, seq!['/']) =~= path);
    lemma_named(names);
    lemma_named_front(names);
    let normal_parts = names.map_values(|n: Seq<char>| Part::Normal(n));
    assert(named_parts(all) == normal_parts);
    assert(path[0] == '/');
}

proof fn lemma_named(names: Seq<Seq<char>>)
    requires
        forall|i: int|
            0 <= i < names.len() ==> (#[trigger] names[i]).len() > 0 && names[i] != "."@ && names[i]
                != ".."@,
    ensures
        named_parts(names) == names.map_values(|n: Seq<char>| Part::Normal(n)),
    decreases names.len(),
{
    if names.len() > 0 {
        let t = names.drop_last();
        assert forall|i: int| 0 <= i < t.len() implies (#[trigger] t[i]).len() > 0 && t[i] != "."@
            && t[i] != ".."@ by {
            assert(t[i] == names[i]);
        }
        lemma_named(t);
        assert(names[names.len() - 1].len() > 0);
        assert(named_parts(names) =~= names.map_values(|n: Seq<char>| Part::Normal(n)));
    } else {
        assert(named_parts(names) =~= names.map_values(|n: Seq<char>| Part::Normal(n)));
    }
}

/// An empty piece at the start stands for nothing.
proof fn lemma_named_front(names: Seq<Seq<char>>)
    ensures
        named_parts(seq![Seq::<char>::empty()] + names) == named_parts(names),
    decreases names.len(),
{
    let all = seq![Seq::<char>::empty()] + names;
    if names.len() == 0 {
        assert(all.drop_last() =~= Seq::<Seq<char>>::empty());
        assert(all.last() =~= Seq::<char>::empty());
        assert(named_parts(all.drop_last()) =~= Seq::empty());
        assert(names =~= Seq::<Seq<char>>::empty());
    } else {
        assert(all.drop_last() =~= seq![Seq::<char>::empty()] + names.drop_last());
        lemma_named_front(names.drop_last());
        assert(all.last() == names.last());
    }
}

/// One path lies below another exactly where it goes on from all of its parts.
pub proof fn law_paths_go_on_below(path: Seq<Part>, root: Seq<Part>, more: Seq<Part>)
    ensures
        within(root + more, root),
        within(path, root) ==> path == root + path.skip(root.len() as int),
{
    assert((root + more).subrange(0, root.len() as int) =~= root);
    if within(path, root) {
        assert(path =~= root + path.skip(root.len() as int));
    }
}

} // verus!
