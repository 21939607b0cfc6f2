//! The resolver/interpreter: walks the command forest keeping a cursor, a
//! tag table and the shapes built so far, and produces a `Blueprint`.
//!
//! Coordinates resolve as follows: `Absolute` to the literal point,
//! `Relative` to the cursor plus the offset (from the origin when nothing
//! has resolved yet), `Reference` by tag lookup — failing the whole
//! document when the tag is unbound. A `Draw` command appends an edge from
//! the pre-command cursor to the resolved point, except when no cursor
//! exists yet (the first resolved point of a document opens the walk and
//! draws nothing). A `Nested` block restores the cursor on exit. Finally
//! the whole model is translated so its bounding box starts at the origin.

use vstd::prelude::*;

use crate::geometry::{
    blueprint_non_negative, clamp_coord, edge_translated, sat_i64, shapes_views, views_top_left,
    lemma_views_top_left, Blueprint, Edge, Point, Shape, Translate,
};
use crate::parser::{Command, CommandKind, Coord};

verus! {

/// The fatal error of a compile: a reference to a tag never bound anywhere
/// in the document, identified by the tag's name.
#[derive(Debug, Clone, PartialEq, Eq)]
pub struct ResolveError {
    pub tag: Vec<u8>,
}

/// The interpreter state, mathematically: the cursor, the tag table, and
/// the edge lists of the shapes collected so far.
pub struct RState {
    pub last: Option<Point>,
    pub tags: Map<Seq<u8>, Point>,
    pub shapes: Seq<Seq<Edge>>,
}

/// The state an interpreter starts from.
pub open spec fn init_state() -> RState {
    RState { last: None, tags: Map::empty(), shapes: Seq::empty() }
}

pub open spec fn opt_tag_view(t: Option<Vec<u8>>) -> Option<Seq<u8>> {
    match t {
        Some(v) => Some(v@),
        None => None,
    }
}

/// Resolve one coordinate against the cursor and tag table: the resolved
/// point and the tag the coordinate binds, or the name of an unbound tag.
pub open spec fn resolve_coord(c: Coord, last: Option<Point>, tags: Map<Seq<u8>, Point>) -> Result<
    (Point, Option<Seq<u8>>),
    Seq<u8>,
> {
    match c {
        Coord::Absolute(x, y, tag) => Ok((Point { x, y }, opt_tag_view(tag))),
        Coord::Relative(dx, dy, tag) => {
            let base = match last {
                Some(p) => p,
                None => Point { x: 0, y: 0 },
            };
            Ok(
                (
                    Point {
                        x: clamp_coord(base.x + dx) as i64,
                        y: clamp_coord(base.y + dy) as i64,
                    },
                    opt_tag_view(tag),
                ),
            )
        },
        Coord::Reference(tag) => if tags.contains_key(tag@) {
            Ok((tags[tag@], None))
        } else {
            Err(tag@)
        },
    }
}

/// How many newline offsets lie strictly before `idx`.
pub open spec fn count_lt(offsets: Seq<usize>, idx: int) -> int
    decreases offsets.len(),
{
    if offsets.len() == 0 {
        0
    } else {
        count_lt(offsets.drop_last(), idx) + if (offsets.last() as int) < idx {
            1int
        } else {
            0int
        }
    }
}

/// The 1-based source line of the byte offset `idx`.
pub open spec fn line_of(offsets: Seq<usize>, idx: int) -> int {
    1 + count_lt(offsets, idx)
}

/// The byte offsets of the line feeds of `s`, in order.
pub open spec fn nl_offsets(s: Seq<u8>) -> Seq<usize>
    decreases s.len(),
{
    if s.len() == 0 {
        Seq::empty()
    } else {
        nl_offsets(s.drop_last()) + if s.last() == 10 {
            seq![(s.len() - 1) as usize]
        } else {
            Seq::empty()
        }
    }
}

/// The table of newline byte offsets used to map a byte offset to a line.
pub fn newline_offsets(src: &Vec<u8>) -> (r: Vec<usize>)
    ensures
        r@ == nl_offsets(src@),
{
    let mut out: Vec<usize> = Vec::new();
    let n = src.len();
    proof {
        assert(out@ =~= nl_offsets(src@.take(0)));
    }
    for i in 0..n
        invariant
            n == src@.len(),
            out@ == nl_offsets(src@.take(i as int)),
    {
        if src[i] == 10 {
            out.push(i);
        }
        proof {
            assert(src@.take(i + 1).drop_last() =~= src@.take(i as int));
            assert(src@.take(i + 1).last() == src@[i as int]);
            if src@[i as int] == 10 {
                assert(out@ =~= nl_offsets(src@.take(i as int)) + seq![i as usize]);
            } else {
                assert(out@ =~= nl_offsets(src@.take(i as int)) + Seq::<usize>::empty());
            }
        }
    }
    proof {
        assert(src@.take(n as int) =~= src@);
    }
    out
}

/// Run one command: thread the state, and extend the current shape's edge
/// accumulator on a draw with a live cursor.
pub open spec fn step_cmd(
    c: Command,
    st: RState,
    acc: Seq<Edge>,
    offsets: Seq<usize>,
) -> Result<(RState, Seq<Edge>), Seq<u8>>
    decreases c, 0nat,
{
    match c.kind {
        CommandKind::Move(coord) => match resolve_coord(coord, st.last, st.tags) {
            Ok((to, tag)) => Ok(
                (
                    RState {
                        last: Some(to),
                        tags: match tag {
                            Some(name) => st.tags.insert(name, to),
                            None => st.tags,
                        },
                        shapes: st.shapes,
                    },
                    acc,
                ),
            ),
            Err(name) => Err(name),
        },
        CommandKind::Draw(coord, color) => match resolve_coord(coord, st.last, st.tags) {
            Ok((to, tag)) => {
            let acc2 = match st.last {
                Some(from) => acc.push(
                    Edge { from, to, color, line: line_of(offsets, c.src_index as int) as usize },
                ),
                None => acc,
            };
            Ok(
                (
                    RState {
                        last: Some(to),
                        tags: match tag {
                            Some(name) => st.tags.insert(name, to),
                            None => st.tags,
                        },
                        shapes: st.shapes,
                    },
                    acc2,
                ),
            )
            },
            Err(name) => Err(name),
        },
        CommandKind::Nested(inner) => match run_block(inner@, st, offsets) {
            Ok(st2) => Ok(
                (RState { last: st.last, tags: st2.tags, shapes: st2.shapes }, acc),
            ),
            Err(name) => Err(name),
        },
    }
}

/// Run a command list in order.
pub open spec fn run_cmds(
    cmds: Seq<Command>,
    st: RState,
    acc: Seq<Edge>,
    offsets: Seq<usize>,
) -> Result<(RState, Seq<Edge>), Seq<u8>>
    decreases cmds, 1nat,
{
    if cmds.len() == 0 {
        Ok((st, acc))
    } else {
        match step_cmd(cmds[0], st, acc, offsets) {
            Ok((st2, acc2)) => run_cmds(cmds.drop_first(), st2, acc2, offsets),
            Err(name) => Err(name),
        }
    }
}

/// Run one block: its commands in order, then push the collected edge list
/// as one shape (possibly empty).
pub open spec fn run_block(cmds: Seq<Command>, st: RState, offsets: Seq<usize>) -> Result<
    RState,
    Seq<u8>,
>
    decreases cmds, 2nat,
{
    match run_cmds(cmds, st, Seq::empty(), offsets) {
        Ok((st2, edges)) => Ok(
            RState { last: st2.last, tags: st2.tags, shapes: st2.shapes.push(edges) },
        ),
        Err(name) => Err(name),
    }
}

/// Run every top-level block in document order.
pub open spec fn run_blocks(blocks: Seq<Vec<Command>>, st: RState, offsets: Seq<usize>) -> Result<
    RState,
    Seq<u8>,
>
    decreases blocks.len(),
{
    if blocks.len() == 0 {
        Ok(st)
    } else {
        match run_block(blocks[0]@, st, offsets) {
            Ok(st2) => run_blocks(blocks.drop_first(), st2, offsets),
            Err(name) => Err(name),
        }
    }
}

/// The tag table an association list denotes; later entries win.
pub open spec fn assoc_map(s: Seq<(Vec<u8>, Point)>) -> Map<Seq<u8>, Point>
    decreases s.len(),
{
    if s.len() == 0 {
        Map::empty()
    } else {
        assoc_map(s.drop_last()).insert(s.last().0@, s.last().1)
    }
}

proof fn lemma_assoc_found(s: Seq<(Vec<u8>, Point)>, k: Seq<u8>, i: int)
    requires
        0 <= i < s.len(),
        s[i].0@ == k,
        forall|j: int| i < j < s.len() ==> s[j].0@ != k,
    ensures
        assoc_map(s).contains_key(k),
        assoc_map(s)[k] == s[i].1,
    decreases s.len(),
{
    if i == s.len() - 1 {
    } else {
        assert forall|j: int| i < j < s.len() - 1 implies s.drop_last()[j].0@ != k by {
            assert(s.drop_last()[j] == s[j]);
        }
        assert(s.drop_last()[i] == s[i]);
        lemma_assoc_found(s.drop_last(), k, i);
        assert(s.last().0@ != k);
    }
}

proof fn lemma_assoc_absent(s: Seq<(Vec<u8>, Point)>, k: Seq<u8>)
    requires
        forall|j: int| 0 <= j < s.len() ==> s[j].0@ != k,
    ensures
        !assoc_map(s).contains_key(k),
    decreases s.len(),
{
    if s.len() > 0 {
        assert forall|j: int| 0 <= j < s.len() - 1 implies s.drop_last()[j].0@ != k by {
            assert(s.drop_last()[j] == s[j]);
        }
        lemma_assoc_absent(s.drop_last(), k);
        assert(s.last().0@ != k);
    }
}

/// Byte-string equality.
pub fn bytes_eq(a: &Vec<u8>, b: &Vec<u8>) -> (r: bool)
    ensures
        r <==> a@ == b@,
{
    if a.len() != b.len() {
        return false;
    }
    let n = a.len();
    for i in 0..n
        invariant
            n == a@.len(),
            a@.len() == b@.len(),
            forall|j: int| 0 <= j < i ==> a@[j] == b@[j],
    {
        if a[i] != b[i] {
            return false;
        }
    }
    proof {
        assert(a@ =~= b@);
    }
    true
}

/// A copy of a byte string.
pub fn bytes_clone(v: &Vec<u8>) -> (r: Vec<u8>)
    ensures
        r@ == v@,
{
    let mut out: Vec<u8> = Vec::new();
    let n = v.len();
    for i in 0..n
        invariant
            n == v@.len(),
            out@ == v@.take(i as int),
    {
        out.push(v[i]);
        proof {
            assert(out@ =~= v@.take(i + 1));
        }
    }
    proof {
        assert(v@.take(n as int) =~= v@);
    }
    out
}

/// The 1-based line of a byte offset, from the table of newline offsets.
fn line_number(offsets: &Vec<usize>, src_index: usize) -> (r: usize)
    requires
        offsets@.len() < usize::MAX,
    ensures
        r as int == line_of(offsets@, src_index as int),
{
    let mut count: usize = 0;
    let n = offsets.len();
    for i in 0..n
        invariant
            n == offsets@.len(),
            n < usize::MAX,
            count as int == count_lt(offsets@.take(i as int), src_index as int),
            count <= i,
    {
        if offsets[i] < src_index {
            count += 1;
        }
        proof {
            assert(offsets@.take(i + 1).drop_last() =~= offsets@.take(i as int));
            assert(offsets@.take(i + 1).last() == offsets@[i as int]);
        }
    }
    proof {
        assert(offsets@.take(n as int) =~= offsets@);
    }
    count + 1
}

/// The interpreter: cursor, tag table, and the blueprint under construction.
pub struct BlueprintLoader {
    points: Vec<(Vec<u8>, Point)>,
    last_point: Option<Point>,
    blueprint: Blueprint,
}

impl BlueprintLoader {
    /// The mathematical state this loader is in.
    pub closed spec fn state(&self) -> RState {
        RState {
            last: self.last_point,
            tags: assoc_map(self.points@),
            shapes: shapes_views(self.blueprint@),
        }
    }

    /// A fresh interpreter: no cursor, no tags, an empty blueprint.
    pub fn new() -> (r: BlueprintLoader)
        ensures
            r.state() == init_state(),
    {
        let r = BlueprintLoader {
            points: Vec::new(),
            last_point: None,
            blueprint: Blueprint::default(),
        };
        proof {
            assert(r.state().tags =~= init_state().tags);
            assert(r.state().shapes =~= init_state().shapes);
        }
        r
    }

    /// The point a tag is bound to, if any; the latest binding wins.
    fn lookup(&self, name: &Vec<u8>) -> (r: Option<Point>)
        ensures
            match r {
                Some(p) => self.state().tags.contains_key(name@) && self.state().tags[name@]
                    == p,
                None => !self.state().tags.contains_key(name@),
            },
    {
        let mut i = self.points.len();
        while i > 0
            invariant
                i <= self.points@.len(),
                forall|j: int| i <= j < self.points@.len() ==> self.points@[j].0@ != name@,
            decreases i,
        {
            i = i - 1;
            if bytes_eq(&self.points[i].0, name) {
                proof {
                    lemma_assoc_found(self.points@, name@, i as int);
                }
                return Some(self.points[i].1);
            }
        }
        proof {
            lemma_assoc_absent(self.points@, name@);
        }
        None
    }

    /// Resolve one coordinate against the current state.
    fn resolve(&self, coord: &Coord) -> (r: Result<(Point, Option<Vec<u8>>), ResolveError>)
        ensures
            match resolve_coord(*coord, self.state().last, self.state().tags) {
                Ok((to, tag)) => r is Ok && r->Ok_0.0 == to && opt_tag_view(r->Ok_0.1) == tag,
                Err(name) => r is Err && r->Err_0.tag@ == name,
            },
    {
        match coord {
            Coord::Absolute(x, y, tag) => {
                let t = match tag {
                    Some(name) => Some(bytes_clone(name)),
                    None => None,
                };
                Ok((Point::new(*x, *y), t))
            },
            Coord::Relative(dx, dy, tag) => {
                let base = match self.last_point {
                    Some(p) => p,
                    None => Point::new(0, 0),
                };
                let t = match tag {
                    Some(name) => Some(bytes_clone(name)),
                    None => None,
                };
                Ok((base.add(*dx, *dy), t))
            },
            Coord::Reference(tag) => match self.lookup(tag) {
                Some(p) => Ok((p, None)),
                None => Err(ResolveError { tag: bytes_clone(tag) }),
            },
        }
    }

    /// Run one block of commands against the current state, pushing the
    /// edges it draws as one shape; on an unbound tag reference, stop and
    /// report that tag.
    fn exec_block(&mut self, commands: &Vec<Command>, newline_offsets: &Vec<usize>) -> (r: Result<
        (),
        ResolveError,
    >)
        requires
            newline_offsets@.len() < usize::MAX,
        ensures
            match run_block(commands@, old(self).state(), newline_offsets@) {
                Ok(st2) => r is Ok && final(self).state() == st2,
                Err(name) => r is Err && r->Err_0.tag@ == name,
            },
        decreases commands@,
    {
        let ghost st0 = self.state();
        let ghost offs = newline_offsets@;
        let mut edges: Vec<Edge> = Vec::new();
        let n = commands.len();
        proof {
            assert(commands@.skip(0) =~= commands@);
        }
        let mut i: usize = 0;
        while i < n
            invariant
                n == commands@.len(),
                newline_offsets@.len() < usize::MAX,
                offs == newline_offsets@,
                st0 == old(self).state(),
                i <= n,
                run_cmds(commands@, st0, Seq::<Edge>::empty(), offs) == run_cmds(
                    commands@.skip(i as int),
                    self.state(),
                    edges@,
                    offs,
                ),
            decreases n - i,
        {
            let ghost st_i = self.state();
            let ghost acc_i = edges@;
            let command = &commands[i];
            proof {
                assert(commands@.skip(i as int)[0] == commands@[i as int]);
                assert(commands@.skip(i as int).drop_first() =~= commands@.skip(i as int + 1));
            }
            match &command.kind {
                CommandKind::Nested(inner) => {
                    let saved = self.last_point;
                    proof {
                        let c = commands@[i as int];
                        assert(decreases_to!(commands@ => c));
                        assert(decreases_to!(c => c.kind));
                        assert(decreases_to!(c.kind => c.kind->Nested_0));
                        assert(decreases_to!(c.kind->Nested_0 => c.kind->Nested_0@));
                    }
                    match self.exec_block(inner, newline_offsets) {
                        Ok(_) => {},
                        Err(e) => {
                            proof {
                                assert(step_cmd(commands@[i as int], st_i, acc_i, offs) == Err::<
                                    (RState, Seq<Edge>),
                                    Seq<u8>,
                                >(e.tag@));
                            }
                            return Err(e);
                        },
                    }
                    self.last_point = saved;
                    proof {
                        assert(step_cmd(commands@[i as int], st_i, acc_i, offs) == Ok::<
                            (RState, Seq<Edge>),
                            Seq<u8>,
                        >((self.state(), edges@)));
                    }
                },
                CommandKind::Move(coord) => {
                    match self.resolve(coord) {
                        Err(e) => {
                            proof {
                                assert(step_cmd(commands@[i as int], st_i, acc_i, offs) == Err::<
                                    (RState, Seq<Edge>),
                                    Seq<u8>,
                                >(e.tag@));
                            }
                            return Err(e);
                        },
                        Ok((to, tag)) => {
                            match tag {
                                Some(t) => {
                                    let ghost pts = self.points@;
                                    self.points.push((t, to));
                                    proof {
                                        assert(self.points@.drop_last() =~= pts);
                                    }
                                },
                                None => {},
                            }
                            self.last_point = Some(to);
                            proof {
                                assert(step_cmd(commands@[i as int], st_i, acc_i, offs) == Ok::<
                                    (RState, Seq<Edge>),
                                    Seq<u8>,
                                >((self.state(), edges@)));
                            }
                        },
                    }
                },
                CommandKind::Draw(coord, color) => {
                    match self.resolve(coord) {
                        Err(e) => {
                            proof {
                                assert(step_cmd(commands@[i as int], st_i, acc_i, offs) == Err::<
                                    (RState, Seq<Edge>),
                                    Seq<u8>,
                                >(e.tag@));
                            }
                            return Err(e);
                        },
                        Ok((to, tag)) => {
                            match self.last_point {
                                Some(from) => {
                                    let line = line_number(newline_offsets, command.src_index);
                                    edges.push(Edge::new_from_points(from, to, *color, line));
                                },
                                None => {},
                            }
                            match tag {
                                Some(t) => {
                                    let ghost pts = self.points@;
                                    self.points.push((t, to));
                                    proof {
                                        assert(self.points@.drop_last() =~= pts);
                                    }
                                },
                                None => {},
                            }
                            self.last_point = Some(to);
                            proof {
                                assert(step_cmd(commands@[i as int], st_i, acc_i, offs) == Ok::<
                                    (RState, Seq<Edge>),
                                    Seq<u8>,
                                >((self.state(), edges@)));
                            }
                        },
                    }
                },
            }
            i += 1;
        }
        proof {
            assert(commands@.skip(n as int) =~= Seq::<Command>::empty());
        }
        let ghost bp = self.blueprint@;
        let shape = Shape::from_edges(edges);
        self.blueprint.push(shape);
        proof {
            assert(shapes_views(self.blueprint@) =~= shapes_views(bp).push(shape@));
        }
        Ok(())
    }

    /// Run every top-level block, then translate the whole model so its
    /// bounding box starts at the origin. Fails with the name of the first
    /// unbound tag reference; otherwise every coordinate of the result is
    /// non-negative (unless a coordinate sat at the very edge of the
    /// representable range).
    pub fn exec(self, commands: &Vec<Vec<Command>>, lines: &Vec<usize>) -> (r: Result<
        Blueprint,
        ResolveError,
    >)
        requires
            lines@.len() < usize::MAX,
        ensures
            ({
                let outcome = run_blocks(commands@, self.state(), lines@);
                match outcome {
                    Ok(st2) => {
                        let tl = views_top_left(st2.shapes);
                        let dx = sat_i64(-tl.x);
                        let dy = sat_i64(-tl.y);
                        &&& r is Ok
                        &&& r->Ok_0@.len() == st2.shapes.len()
                        &&& forall|k: int|
                            0 <= k < st2.shapes.len() ==> r->Ok_0@[k]@ == st2.shapes[k].map_values(
                                |e: Edge| edge_translated(e, dx, dy),
                            )
                        &&& (tl.x > i64::MIN && tl.y > i64::MIN ==> blueprint_non_negative(
                            r->Ok_0,
                        ))
                    },
                    Err(name) => r is Err && r->Err_0.tag@ == name,
                }
            }),
    {
        let mut loader = self;
        let ghost st0 = loader.state();
        let n = commands.len();
        proof {
            assert(commands@.skip(0) =~= commands@);
        }
        let mut i: usize = 0;
        while i < n
            invariant
                n == commands@.len(),
                i <= n,
                lines@.len() < usize::MAX,
                st0 == self.state(),
                run_blocks(commands@, st0, lines@) == run_blocks(
                    commands@.skip(i as int),
                    loader.state(),
                    lines@,
                ),
            decreases n - i,
        {
            proof {
                assert(commands@.skip(i as int)[0] == commands@[i as int]);
                assert(commands@.skip(i as int).drop_first() =~= commands@.skip(i as int + 1));
            }
            match loader.exec_block(&commands[i], lines) {
                Ok(_) => {},
                Err(e) => {
                    return Err(e);
                },
            }
            i += 1;
        }
        proof {
            assert(commands@.skip(n as int) =~= Seq::<Vec<Command>>::empty());
        }
        let ghost mid = loader.state();
        let mut blueprint = loader.blueprint;
        let ghost before = blueprint;
        proof {
            lemma_views_top_left(blueprint@);
        }
        blueprint.translate_to_origin();
        proof {
            let tl = views_top_left(mid.shapes);
            let dx = sat_i64(-tl.x);
            let dy = sat_i64(-tl.y);
            assert forall|k: int| 0 <= k < mid.shapes.len() implies blueprint@[k]@
                == mid.shapes[k].map_values(|e: Edge| edge_translated(e, dx, dy)) by {
                assert(mid.shapes[k] == shapes_views(before@)[k]);
                assert(mid.shapes[k] == before@[k]@);
            }
        }
        Ok(blueprint)
    }
}

} // verus!
