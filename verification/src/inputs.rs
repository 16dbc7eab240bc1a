//! Inputs of a task: an input may lead anywhere inside the closure of the task, and
//! nowhere else.

use vstd::prelude::*;
use crate::error::{outcome, Error};
use crate::map::{lemma_put_lookup, lookup, put, StringMap};
use crate::path::{
    absolute, components, does_hold_any, holds_any, is_absolute, is_within_any, named_parts, parts,
    parts_view, within, within_any, Component, Part,
};
use crate::text::{glue, join, joined, pieces, texts};

verus! {

// ------------------------------------------------------- following links

/// How far the way from the root has come: the names of the directories that it has gone
/// through, the parts that are left, and the links that it has followed.
pub struct WalkView {
    pub names: Seq<Seq<char>>,
    pub rest: Seq<Part>,
    pub links: nat,
}

/// The way to the place with these names.
pub open spec fn place_parts(names: Seq<Seq<char>>) -> Seq<Part> {
    seq![Part::Root] + names.map_values(|n: Seq<char>| Part::Normal(n))
}

/// The place with these names, as a text.
pub open spec fn place_text(names: Seq<Seq<char>>) -> Seq<char> {
    "/"@ + joined(names, "/"@)
}

/// The way up to the next name, and whether there was one.
pub open spec fn moved(w: WalkView) -> (WalkView, bool)
    decreases w.rest.len(),
{
    if w.rest.len() == 0 {
        (w, false)
    } else {
        let rest = w.rest.skip(1);
        match w.rest[0] {
            Part::Root => moved(WalkView { names: Seq::empty(), rest, links: w.links }),
            Part::Current => moved(WalkView { rest, ..w }),
            Part::Parent => moved(
                WalkView {
                    names: if w.names.len() > 0 {
                        w.names.drop_last()
                    } else {
                        w.names
                    },
                    rest,
                    links: w.links,
                },
            ),
            Part::Normal(n) => (
                WalkView { names: w.names.push(n), rest, links: w.links },
                true,
            ),
        }
    }
}

/// What has to be done to go on.
pub enum Move {
    /// Look at a place.
    Look(String),
    /// Nothing: the way ends at this place.
    Arrived(String),
}

pub enum MoveView {
    Look(Seq<char>),
    Arrived(Seq<char>),
}

impl View for Move {
    type V = MoveView;

    open spec fn view(&self) -> MoveView {
        match self {
            Move::Look(p) => MoveView::Look(p@),
            Move::Arrived(p) => MoveView::Arrived(p@),
        }
    }
}

pub open spec fn outside(names: Seq<Seq<char>>) -> Seq<char> {
    "input path is outside task closure: "@ + place_text(names)
}

/// What has to be done next. No place is looked at that is neither in the closure nor on
/// the way to it, and the way ends only in the closure.
pub open spec fn next_move(w: WalkView, closure: Seq<Seq<char>>) -> Result<
    MoveView,
    Seq<Seq<char>>,
> {
    let (v, named) = moved(w);
    let here = place_parts(v.names);
    if named {
        if within_any(here, closure) || holds_any(here, closure) {
            Ok(MoveView::Look(place_text(v.names)))
        } else {
            Err(seq![outside(v.names)])
        }
    } else if within_any(here, closure) {
        Ok(MoveView::Arrived(place_text(v.names)))
    } else {
        Err(seq![outside(v.names)])
    }
}

/// What is found at a place.
#[derive(Debug)]
pub enum Sight {
    /// It cannot be looked at, and why.
    Missing(String),
    /// A link that leads to another path.
    Link(String),
    /// A link that cannot be read, and why.
    DeadLink(String),
    Directory,
    /// A file of any other sort.
    Other,
}

pub enum SightView {
    Missing(Seq<char>),
    Link(Seq<char>),
    DeadLink(Seq<char>),
    Directory,
    Other,
}

impl View for Sight {
    type V = SightView;

    open spec fn view(&self) -> SightView {
        match self {
            Sight::Missing(why) => SightView::Missing(why@),
            Sight::Link(target) => SightView::Link(target@),
            Sight::DeadLink(why) => SightView::DeadLink(why@),
            Sight::Directory => SightView::Directory,
            Sight::Other => SightView::Other,
        }
    }
}

/// The links that may be followed.
pub const LINK_LIMIT: u32 = 40;

/// The parts that the target of a link stands for. Behind the directory of the link a dot at its
/// start stands for none.
pub open spec fn link_parts(target: Seq<char>) -> Seq<Part> {
    let all = parts(target);
    if all.len() > 0 && all[0] is Current {
        all.skip(1)
    } else {
        all
    }
}

/// The way anew behind a link: from the directory that the link stands in, or from the
/// root. A part that goes up counts only once the link before it was followed.
pub open spec fn behind_link(w: WalkView, target: Seq<char>) -> Seq<Part> {
    (if absolute(target) {
        parts(target)
    } else {
        place_parts(w.names.drop_last()) + link_parts(target)
    }) + w.rest
}

/// Whether a link may be followed from where the way stands.
pub open spec fn link_check(w: WalkView, closure: Seq<Seq<char>>) -> Result<(), Seq<Seq<char>>> {
    if !within_any(place_parts(w.names), closure) {
        Err(seq!["input link is outside task closure: "@ + place_text(w.names)])
    } else if w.links >= LINK_LIMIT {
        Err(seq!["too many input symlink hops"@])
    } else {
        Ok(())
    }
}

/// What a sight makes of the way that stands there.
pub open spec fn sighted(w: WalkView, closure: Seq<Seq<char>>, sight: SightView) -> Result<
    WalkView,
    Seq<Seq<char>>,
> {
    match sight {
        SightView::Missing(why) => Err(seq!["resolving input "@ + place_text(w.names), why]),
        SightView::Link(target) => match link_check(w, closure) {
            Err(e) => Err(e),
            Ok(_) => Ok(
                WalkView {
                    names: Seq::empty(),
                    rest: behind_link(w, target),
                    links: w.links + 1,
                },
            ),
        },
        SightView::DeadLink(why) => match link_check(w, closure) {
            Err(e) => Err(e),
            Ok(_) => Err(seq![why]),
        },
        SightView::Directory => Ok(w),
        SightView::Other => if w.rest.len() == 0 {
            Ok(w)
        } else {
            Err(seq!["input traverses a non-directory: "@ + place_text(w.names)])
        },
    }
}

/// The start of the way to a source.
pub open spec fn walk_of(source: Seq<char>) -> Result<WalkView, Seq<Seq<char>>> {
    if absolute(source) {
        Ok(WalkView { names: Seq::empty(), rest: parts(source), links: 0 })
    } else {
        Err(seq!["input source must be absolute"@])
    }
}

/// The way to an input, link by link.
pub struct Walk {
    names: Vec<String>,
    rest: Vec<Component>,
    links: u32,
}

impl View for Walk {
    type V = WalkView;

    closed spec fn view(&self) -> WalkView {
        WalkView {
            names: texts(self.names@),
            rest: parts_view(self.rest@),
            links: self.links as nat,
        }
    }
}

fn place_components(names: &Vec<String>) -> (r: Vec<Component>)
    ensures
        parts_view(r@) == place_parts(texts(names@)),
{
    let mut out: Vec<Component> = Vec::new();
    out.push(Component::Root);
    let mut i: usize = 0;
    while i < names.len()
        invariant
            i <= names@.len(),
            out@.len() == i + 1,
            out@[0]@ == Part::Root,
            forall|k: int| 1 <= k < i + 1 ==> (#[trigger] out@[k])@ == Part::Normal(
                names@[k - 1]@,
            ),
        decreases names.len() - i,
    {
        out.push(Component::Normal(names[i].clone()));
        i += 1;
    }
    assert(parts_view(out@) =~= place_parts(texts(names@)));
    out
}

fn link_components(target: &str) -> (r: Vec<Component>)
    ensures
        parts_view(r@) == link_parts(target@),
{
    let mut all = components(target);
    let ghost before = parts_view(all@);
    let idle = if all.len() > 0 {
        match &all[0] {
            Component::Current => true,
            _ => false,
        }
    } else {
        false
    };
    if idle {
        assert(before[0] == all@[0]@);
        let _dot = all.remove(0);
        assert(parts_view(all@) =~= before.skip(1));
    } else if all.len() > 0 {
        assert(before[0] == all@[0]@);
    }
    all
}

fn place_string(names: &Vec<String>) -> (r: String)
    ensures
        r@ == place_text(texts(names@)),
{
    glue("/", join(names, "/").as_str())
}

impl Walk {
    /// The start of the way to a source.
    pub fn new(source: &str) -> (r: Result<Walk, Error>)
        ensures
            match r {
                Ok(w) => walk_of(source@) == Ok::<WalkView, Seq<Seq<char>>>(w@),
                Err(e) => walk_of(source@) == Err::<WalkView, Seq<Seq<char>>>(e@),
            },
    {
        if !is_absolute(source) {
            return Err(Error::new("input source must be absolute"));
        }
        let names: Vec<String> = Vec::new();
        assert(texts(names@) =~= Seq::empty());
        Ok(Walk { names, rest: components(source), links: 0 })
    }

    /// Goes on to the next name.
    pub fn step(&mut self, closure: &Vec<String>) -> (r: Result<Move, Error>)
        ensures
            final(self)@ == moved(old(self)@).0,
            match r {
                Ok(m) => next_move(old(self)@, texts(closure@)) == Ok::<
                    MoveView,
                    Seq<Seq<char>>,
                >(m@),
                Err(e) => next_move(old(self)@, texts(closure@)) == Err::<
                    MoveView,
                    Seq<Seq<char>>,
                >(e@),
            },
    {
        let ghost start = self@;
        let mut named = false;
        while self.rest.len() > 0 && !named
            invariant
                named ==> moved(start) == (self@, true),
                !named ==> moved(start) == moved(self@),
            decreases self.rest.len() + if named {
                0int
            } else {
                1int
            },
        {
            let ghost w = self@;
            let part = self.rest.remove(0);
            assert(parts_view(self.rest@) =~= w.rest.skip(1));
            assert(w.rest[0] == part@);
            match part {
                Component::Root => {
                    self.names = Vec::new();
                    assert(texts(self.names@) =~= Seq::empty());
                },
                Component::Current => {},
                Component::Parent => {
                    if self.names.len() > 0 {
                        let _last = self.names.pop();
                        assert(texts(self.names@) =~= w.names.drop_last());
                    }
                },
                Component::Normal(name) => {
                    self.names.push(name);
                    assert(texts(self.names@) =~= w.names.push(name@));
                    named = true;
                },
            }
        }
        let here = place_components(&self.names);
        let inside = is_within_any(&here, closure);
        if inside || (named && does_hold_any(&here, closure)) {
            let text = place_string(&self.names);
            if named {
                Ok(Move::Look(text))
            } else {
                Ok(Move::Arrived(text))
            }
        } else {
            let text = place_string(&self.names);
            Err(Error::of(glue("input path is outside task closure: ", text.as_str())))
        }
    }

    fn check_link(&self, closure: &Vec<String>) -> (r: Result<(), Error>)
        ensures
            outcome(r) == link_check(self@, texts(closure@)),
    {
        if !is_within_any(&place_components(&self.names), closure) {
            return Err(
                Error::of(
                    glue(
                        "input link is outside task closure: ",
                        place_string(&self.names).as_str(),
                    ),
                ),
            );
        }
        if self.links >= LINK_LIMIT {
            return Err(Error::new("too many input symlink hops"));
        }
        Ok(())
    }

    /// Takes what was found where the way stands.
    pub fn see(&mut self, closure: &Vec<String>, sight: Sight) -> (r: Result<(), Error>)
        requires
            old(self)@.names.len() > 0,
        ensures
            match r {
                Ok(_) => sighted(old(self)@, texts(closure@), sight@) == Ok::<
                    WalkView,
                    Seq<Seq<char>>,
                >(final(self)@),
                Err(e) => sighted(old(self)@, texts(closure@), sight@) == Err::<
                    WalkView,
                    Seq<Seq<char>>,
                >(e@) && final(self)@ == old(self)@,
            },
    {
        match sight {
            Sight::Missing(why) => {
                let message = glue("resolving input ", place_string(&self.names).as_str());
                let e = Error::of(why).context(message.as_str());
                assert(e@ =~= seq![message@, why@]);
                Err(e)
            },
            Sight::DeadLink(why) => match self.check_link(closure) {
                Ok(_) => Err(Error::of(why)),
                Err(e) => Err(e),
            },
            Sight::Directory => Ok(()),
            Sight::Other => if self.rest.len() == 0 {
                Ok(())
            } else {
                Err(
                    Error::of(
                        glue(
                            "input traverses a non-directory: ",
                            place_string(&self.names).as_str(),
                        ),
                    ),
                )
            },
            Sight::Link(target) => {
                match self.check_link(closure) {
                    Ok(_) => {},
                    Err(e) => {
                        return Err(e);
                    },
                }
                let ghost w = self@;
                let mut pending = if is_absolute(target.as_str()) {
                    components(target.as_str())
                } else {
                    let _last = self.names.pop();
                    assert(texts(self.names@) =~= w.names.drop_last());
                    let mut base = place_components(&self.names);
                    let ghost front = parts_view(base@);
                    let mut found = link_components(target.as_str());
                    let ghost back = parts_view(found@);
                    base.append(&mut found);
                    assert(parts_view(base@) =~= front + back);
                    base
                };
                let ghost front = parts_view(pending@);
                pending.append(&mut self.rest);
                assert(parts_view(pending@) =~= front + w.rest);
                self.names = Vec::new();
                assert(texts(self.names@) =~= Seq::empty());
                self.rest = pending;
                self.links = self.links + 1;
                Ok(())
            },
        }
    }
}

// ------------------------------------------------------------ whole trees

/// What stands behind a path once every link is followed.
#[derive(Debug, Clone, Copy, PartialEq, Eq, Structural)]
pub enum Kind {
    File,
    Directory,
    Special,
}

/// How far the search through a tree has come: the paths that are still to be looked at,
/// the next one last, and the directories that were listed.
pub struct TreeView {
    pub pending: Seq<Seq<char>>,
    pub listed: Seq<(Seq<char>, ())>,
}

/// What a path in a tree makes of the search, and whether its entries are to be listed. A
/// directory is listed once, under whatever names it is reached.
pub open spec fn visited(t: TreeView, path: Seq<char>, place: Seq<char>, kind: Kind) -> Result<
    (TreeView, bool),
    Seq<Seq<char>>,
> {
    match kind {
        Kind::Special => Err(seq!["input contains a special file: "@ + path]),
        Kind::File => Ok((t, false)),
        Kind::Directory => if lookup(t.listed, place) is Some {
            Ok((t, false))
        } else {
            Ok((TreeView { listed: put(t.listed, place, ()), ..t }, true))
        },
    }
}

/// The search through everything that an input leads to.
pub struct Tree {
    pending: Vec<String>,
    listed: StringMap<()>,
}

impl View for Tree {
    type V = TreeView;

    closed spec fn view(&self) -> TreeView {
        TreeView { pending: texts(self.pending@), listed: self.listed@ }
    }
}

impl Tree {
    /// The search through a source.
    pub fn new(source: &str) -> (r: Tree)
        ensures
            r@ == (TreeView { pending: seq![source@], listed: Seq::empty() }),
    {
        let mut pending: Vec<String> = Vec::new();
        pending.push(source.to_owned());
        assert(texts(pending@) =~= seq![source@]);
        Tree { pending, listed: StringMap::new() }
    }

    /// The next path to look at.
    pub fn next(&mut self) -> (r: Option<String>)
        ensures
            match r {
                None => old(self)@.pending.len() == 0 && final(self)@ == old(self)@,
                Some(p) => old(self)@.pending.len() > 0 && p@ == old(self)@.pending.last()
                    && final(self)@ == (TreeView {
                    pending: old(self)@.pending.drop_last(),
                    ..old(self)@
                }),
            },
    {
        let ghost t = self@;
        let last = self.pending.pop();
        if last.is_some() {
            assert(texts(self.pending@) =~= t.pending.drop_last());
        }
        last
    }

    /// Takes what stands at the end of a path. Tells whether its entries are to be listed.
    pub fn visit(&mut self, path: &str, place: &str, kind: Kind) -> (r: Result<bool, Error>)
        ensures
            match r {
                Ok(list) => visited(old(self)@, path@, place@, kind) == Ok::<
                    (TreeView, bool),
                    Seq<Seq<char>>,
                >((final(self)@, list)),
                Err(e) => visited(old(self)@, path@, place@, kind) == Err::<
                    (TreeView, bool),
                    Seq<Seq<char>>,
                >(e@) && final(self)@ == old(self)@,
            },
    {
        match kind {
            Kind::Special => Err(Error::of(glue("input contains a special file: ", path))),
            Kind::File => Ok(false),
            Kind::Directory => if self.listed.contains_key(place) {
                Ok(false)
            } else {
                self.listed.insert(place.to_owned(), ());
                Ok(true)
            },
        }
    }

    /// Takes the paths of the entries of a directory.
    pub fn list(&mut self, entries: Vec<String>)
        ensures
            final(self)@ == (TreeView {
                pending: old(self)@.pending + texts(entries@),
                ..old(self)@
            }),
    {
        let ghost t = self@;
        let mut more = entries;
        self.pending.append(&mut more);
        assert(texts(self.pending@) =~= t.pending + texts(entries@));
    }
}

// ----------------------------------------------------------------- laws

/// The way to an input looks at nothing that is neither in the closure nor on the way to
/// it, follows no link that stands outside, and ends inside.
pub proof fn law_inputs_stay_in_the_closure(
    w: WalkView,
    closure: Seq<Seq<char>>,
    sight: SightView,
)
    ensures
        next_move(w, closure) matches Ok(MoveView::Look(p)) ==> p == place_text(moved(w).0.names)
            && (within_any(place_parts(moved(w).0.names), closure) || holds_any(
            place_parts(moved(w).0.names),
            closure,
        )),
        next_move(w, closure) matches Ok(MoveView::Arrived(p)) ==> p == place_text(
            moved(w).0.names,
        ) && within_any(place_parts(moved(w).0.names), closure),
        sight is Link && sighted(w, closure, sight) is Ok ==> within_any(
            place_parts(w.names),
            closure,
        ),
{
}

/// Whether every part leads somewhere: none is the dot that stays where it is.
pub open spec fn all_move(rest: Seq<Part>) -> bool {
    forall|i: int| 0 <= i < rest.len() ==> !((#[trigger] rest[i]) is Current)
}

proof fn lemma_named_parts_move(between: Seq<Seq<char>>)
    ensures
        all_move(named_parts(between)),
    decreases between.len(),
{
    if between.len() > 0 {
        lemma_named_parts_move(between.drop_last());
    }
}

proof fn lemma_moved_moves(w: WalkView)
    requires
        all_move(w.rest),
    ensures
        all_move(moved(w).0.rest),
    decreases w.rest.len(),
{
    if w.rest.len() > 0 {
        let rest = w.rest.skip(1);
        assert forall|i: int| 0 <= i < rest.len() implies !((#[trigger] rest[i]) is Current) by {
            assert(rest[i] == w.rest[i + 1]);
        }
        match w.rest[0] {
            Part::Root => lemma_moved_moves(
                WalkView { names: Seq::empty(), rest, links: w.links },
            ),
            Part::Current => {},
            Part::Parent => lemma_moved_moves(
                WalkView {
                    names: if w.names.len() > 0 {
                        w.names.drop_last()
                    } else {
                        w.names
                    },
                    rest,
                    links: w.links,
                },
            ),
            Part::Normal(_) => {},
        }
    }
}

/// Every part that is left on the way to an input leads somewhere, however many links were
/// followed. So a file is taken for a directory only where something is left to go to.
pub proof fn law_every_part_moves(
    source: Seq<char>,
    w: WalkView,
    closure: Seq<Seq<char>>,
    sight: SightView,
)
    requires
        all_move(w.rest),
    ensures
        walk_of(source) matches Ok(start) ==> all_move(start.rest),
        all_move(moved(w).0.rest),
        sighted(w, closure, sight) matches Ok(v) ==> all_move(v.rest),
{
    lemma_named_parts_move(pieces(source, '/'));
    lemma_moved_moves(w);
    if let SightView::Link(target) = sight {
        lemma_named_parts_move(pieces(target, '/'));
        let named = named_parts(pieces(target, '/'));
        if !absolute(target) {
            assert(link_parts(target) =~= named) by {
                if parts(target) != named {
                    assert(parts(target).skip(1) =~= named);
                } else if named.len() > 0 {
                    assert(!(named[0] is Current));
                }
            }
        }
    }
}

/// The way to an input ends: each step and each sight either uses up one of the links that
/// may be followed, or leaves fewer parts to go.
pub proof fn law_ways_end(w: WalkView, closure: Seq<Seq<char>>, sight: SightView)
    requires
        w.links <= LINK_LIMIT,
        w.rest.len() > 0,
    ensures
        moved(w).0.rest.len() < w.rest.len(),
        moved(w).0.links == w.links,
        sighted(moved(w).0, closure, sight) matches Ok(v) ==> v.links <= LINK_LIMIT && (v.links
            > w.links || v.links == w.links && v.rest.len() < w.rest.len()),
    decreases w.rest.len(),
{
    lemma_moving_uses_parts(w);
}

proof fn lemma_moving_uses_parts(w: WalkView)
    ensures
        moved(w).0.links == w.links,
        moved(w).0.rest.len() <= w.rest.len(),
        w.rest.len() > 0 ==> moved(w).0.rest.len() < w.rest.len(),
    decreases w.rest.len(),
{
    if w.rest.len() > 0 {
        let rest = w.rest.skip(1);
        match w.rest[0] {
            Part::Root => lemma_moving_uses_parts(
                WalkView { names: Seq::empty(), rest, links: w.links },
            ),
            Part::Current => lemma_moving_uses_parts(WalkView { rest, ..w }),
            Part::Parent => lemma_moving_uses_parts(
                WalkView {
                    names: if w.names.len() > 0 {
                        w.names.drop_last()
                    } else {
                        w.names
                    },
                    rest,
                    links: w.links,
                },
            ),
            Part::Normal(_) => {},
        }
    }
}

/// A directory that was listed is not listed again, so a search through a tree whose links
/// lead in circles still ends.
pub proof fn law_directories_are_listed_once(
    t: TreeView,
    path: Seq<char>,
    place: Seq<char>,
    other: Seq<char>,
)
    requires
        visited(t, path, place, Kind::Directory) is Ok,
    ensures
        ({
            let (after, _) = visited(t, path, place, Kind::Directory)->Ok_0;
            visited(after, other, place, Kind::Directory) == Ok::<
                (TreeView, bool),
                Seq<Seq<char>>,
            >((after, false))
        }),
{
    lemma_put_lookup(t.listed, place, (), place);
}

/// The way to an input goes from part to part: a name leads down, a step up leads back to where
/// the way came from and stays at the root, and a root starts anew. Only a name is looked at.
pub proof fn law_ways_go_part_by_part(w: WalkView)
    ensures
        w.rest.len() == 0 ==> moved(w) == (w, false),
        w.rest.len() > 0 ==> ({
            let rest = w.rest.skip(1);
            &&& w.rest[0] matches Part::Normal(n) ==> moved(w) == (
                WalkView { names: w.names.push(n), rest, links: w.links },
                true,
            )
            &&& w.rest[0] is Parent && w.names.len() > 0 ==> moved(w) == moved(
                WalkView { names: w.names.drop_last(), rest, links: w.links },
            )
            &&& w.rest[0] is Parent && w.names.len() == 0 ==> moved(w) == moved(
                WalkView { names: w.names, rest, links: w.links },
            )
            &&& w.rest[0] is Root ==> moved(w) == moved(
                WalkView { names: Seq::empty(), rest, links: w.links },
            )
        }),
{
}

/// A place is looked at exactly where it is in the closure or on the way to it, and the way ends
/// well exactly where it ends in the closure.
pub proof fn law_ways_go_where_they_may(w: WalkView, closure: Seq<Seq<char>>)
    ensures
        ({
            let (v, named) = moved(w);
            let here = place_parts(v.names);
            let inside = exists|i: int|
                0 <= i < closure.len() && within(here, parts(#[trigger] closure[i]));
            let above = exists|i: int|
                0 <= i < closure.len() && within(parts(#[trigger] closure[i]), here);
            &&& next_move(w, closure) is Ok <==> inside || named && above
            &&& next_move(w, closure) matches Ok(m) ==> if named {
                m == MoveView::Look("/"@ + joined(v.names, "/"@))
            } else {
                m == MoveView::Arrived("/"@ + joined(v.names, "/"@))
            }
            &&& here.len() == v.names.len() + 1
            &&& here[0] == Part::Root
            &&& forall|i: int|
                0 <= i < v.names.len() ==> #[trigger] here[i + 1] == Part::Normal(v.names[i])
        }),
{
    let (v, named) = moved(w);
    let here = place_parts(v.names);
    assert forall|i: int| 0 <= i < v.names.len() implies #[trigger] here[i + 1] == Part::Normal(
        v.names[i],
    ) by {}
}

/// A directory is gone through, a file ends the way, and a link that stands in the closure leads
/// on: from the root, or from the directory that it stands in, to what it leads to and then to
/// what was left. Forty links are followed, and no more; what cannot be seen ends the way.
pub proof fn law_sights_lead_on(
    w: WalkView,
    closure: Seq<Seq<char>>,
    target: Seq<char>,
    why: Seq<char>,
)
    requires
        w.names.len() > 0,
    ensures
        sighted(w, closure, SightView::Directory) == Ok::<WalkView, Seq<Seq<char>>>(w),
        sighted(w, closure, SightView::Other) is Ok <==> w.rest.len() == 0,
        sighted(w, closure, SightView::Other) matches Ok(v) ==> v == w,
        sighted(w, closure, SightView::Missing(why)) is Err,
        sighted(w, closure, SightView::DeadLink(why)) is Err,
        sighted(w, closure, SightView::Link(target)) is Ok <==> w.links < 40 && exists|i: int|
            0 <= i < closure.len() && within(place_parts(w.names), parts(#[trigger] closure[i])),
        sighted(w, closure, SightView::Link(target)) matches Ok(v) ==> {
            let named = named_parts(pieces(target, '/'));
            &&& v.links == w.links + 1
            &&& v.names.len() == 0
            &&& target.len() > 0 && target[0] == '/' ==> v.rest == seq![Part::Root] + named + w.rest
            &&& target.len() == 0 || target[0] != '/' ==> v.rest == place_parts(
                w.names.drop_last(),
            ) + named + w.rest
        },
{
    if sighted(w, closure, SightView::Link(target)) is Ok {
        let named = named_parts(pieces(target, '/'));
        lemma_named_parts_move(pieces(target, '/'));
        if !absolute(target) {
            assert(link_parts(target) =~= named) by {
                if parts(target) != named {
                    assert(parts(target).skip(1) =~= named);
                } else if named.len() > 0 {
                    assert(!(named[0] is Current));
                }
            }
        }
    }
}

/// A source must start at the root. Every file and every directory of a tree is accepted and
/// nothing else is; a directory is listed when it is first reached.
pub proof fn law_trees_hold_files_and_directories(
    source: Seq<char>,
    t: TreeView,
    path: Seq<char>,
    place: Seq<char>,
    kind: Kind,
)
    ensures
        walk_of(source) is Ok <==> source.len() > 0 && source[0] == '/',
        walk_of(source) matches Ok(w) ==> w.rest == parts(source) && w.names.len() == 0 && w.links
            == 0,
        visited(t, path, place, kind) is Ok <==> kind != Kind::Special,
        kind == Kind::File ==> visited(t, path, place, kind) == Ok::<
            (TreeView, bool),
            Seq<Seq<char>>,
        >((t, false)),
        kind == Kind::Directory ==> (visited(t, path, place, kind) matches Ok((after, list))
            && after.pending == t.pending && (list <==> lookup(t.listed, place) is None) && lookup(
            after.listed,
            place,
        ) is Some),
{
    lemma_put_lookup(t.listed, place, (), place);
}

/// The paths of a tree are looked at one by one, and the entries of a directory that is listed are
/// all among them.
pub proof fn law_every_entry_of_a_tree_is_looked_at(
    tree: &mut Tree,
    entries: Vec<String>,
    other: &mut Tree,
    next: Option<String>,
    source: &str,
    start: Tree,
)
    requires
        call_ensures(Tree::list, (tree, entries), ()),
        call_ensures(Tree::next, (other,), next),
        call_ensures(Tree::new, (source,), start),
    ensures
        final(tree)@.pending == old(tree)@.pending + texts(entries@),
        final(tree)@.listed == old(tree)@.listed,
        next is None <==> old(other)@.pending.len() == 0,
        next matches Some(p) ==> final(other)@.pending.push(p@) == old(other)@.pending,
        final(other)@.listed == old(other)@.listed,
        start@.pending == seq![source@],
        start@.listed.len() == 0,
{
    if let Some(p) = next {
        assert(old(other)@.pending.drop_last().push(p@) =~= old(other)@.pending);
    }
}

/// A way is followed as its parts and what is seen say.
pub proof fn law_ways_are_followed(
    source: &str,
    start: Result<Walk, Error>,
    walk: &mut Walk,
    closure: &Vec<String>,
    step: Result<Move, Error>,
    other: &mut Walk,
    sight: Sight,
    seen: Result<(), Error>,
)
    requires
        call_ensures(Walk::new, (source,), start),
        call_ensures(Walk::step, (walk, closure), step),
        call_ensures(Walk::see, (other, closure, sight), seen),
    ensures
        start is Ok <==> source@.len() > 0 && source@[0] == '/',
        final(walk)@ == moved(old(walk)@).0,
        step is Ok <==> next_move(old(walk)@, texts(closure@)) is Ok,
        step matches Ok(m) ==> next_move(old(walk)@, texts(closure@)) == Ok::<
            MoveView,
            Seq<Seq<char>>,
        >(m@),
        seen is Ok <==> sighted(old(other)@, texts(closure@), sight@) is Ok,
        seen is Ok ==> sighted(old(other)@, texts(closure@), sight@) == Ok::<
            WalkView,
            Seq<Seq<char>>,
        >(final(other)@),
        sight is Other ==> (seen is Ok <==> old(other)@.rest.len() == 0),
        sight is Directory ==> seen is Ok && final(other)@ == old(other)@,
{
}

} // verus!
