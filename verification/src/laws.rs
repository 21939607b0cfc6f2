//! Laws of the library: properties that relate several operations, stated
//! and proved over the same spec functions the operations' contracts use.

use vstd::prelude::*;

use crate::canvas::{abs_int, edge_covers, max_int, min_int};
use crate::geometry::{
    edge_scaled, edge_translated, point_scaled, point_translated, rdiv, sat_i64,
    shapes_top_left, Blueprint, Edge, Point, Shape, Translate, COORD_LIMIT,
};
use crate::parser::{Command, CommandKind, Coord};
use crate::resolver::{init_state, run_block, run_cmds, RState};

verus! {

/// Rounded division by a factor of one is the identity.
proof fn lemma_rdiv_identity(x: int, k: int)
    requires
        k >= 1,
    ensures
        rdiv(x * k, k) == x,
{
    assert(x >= 0 <==> x * k >= 0) by (nonlinear_arith)
        requires
            k >= 1,
    ;
    if x >= 0 {
        assert(2 * (x * k) + k == (2 * k) * x + k) by (nonlinear_arith);
        vstd::arithmetic::div_mod::lemma_div_multiples_vanish_fancy(x, k, 2 * k);
    } else {
        assert(-(x * k) == (-x) * k) by (nonlinear_arith);
        assert(2 * ((-x) * k) + k == (2 * k) * (-x) + k) by (nonlinear_arith);
        vstd::arithmetic::div_mod::lemma_div_multiples_vanish_fancy(-x, k, 2 * k);
    }
}

/// Scaling by a factor of one leaves every coordinate unchanged, rounding
/// included.
pub proof fn lemma_scale_one_point(p: Point, k: int)
    requires
        k >= 1,
    ensures
        point_scaled(p, k, k) == p,
{
    lemma_rdiv_identity(p.x as int, k);
    lemma_rdiv_identity(p.y as int, k);
}

/// Scaling an edge list by a factor of one is the identity.
pub proof fn lemma_scale_one_edges(edges: Seq<Edge>, k: int)
    requires
        k >= 1,
    ensures
        edges.map_values(|e: Edge| edge_scaled(e, k, k)) =~= edges,
{
    assert forall|j: int| 0 <= j < edges.len() implies edges.map_values(
        |e: Edge| edge_scaled(e, k, k),
    )[j] == edges[j] by {
        lemma_scale_one_point(edges[j].from, k);
        lemma_scale_one_point(edges[j].to, k);
    }
}

/// Scaling a blueprint by a factor of one reproduces every shape's edge
/// list exactly: with `Blueprint::scale`'s contract, `bp.scale(k, k)` has
/// the same view as `bp`.
pub proof fn lemma_scale_one_blueprint(bp: Blueprint, k: int)
    requires
        k >= 1,
    ensures
        forall|i: int|
            0 <= i < bp@.len() ==> (#[trigger] bp@[i])@.map_values(|e: Edge| edge_scaled(e, k, k))
                == bp@[i]@,
{
    assert forall|i: int| 0 <= i < bp@.len() implies (#[trigger] bp@[i])@.map_values(
        |e: Edge| edge_scaled(e, k, k),
    ) == bp@[i]@ by {
        lemma_scale_one_edges(bp@[i]@, k);
    }
}

/// Every coordinate of every edge lies within the resolver's range.
pub open spec fn blueprint_in_coord_range(bp: Blueprint) -> bool {
    forall|i: int, j: int|
        0 <= i < bp@.len() && 0 <= j < bp@[i]@.len() ==> {
            let e = #[trigger] bp@[i]@[j];
            &&& -COORD_LIMIT <= e.from.x <= COORD_LIMIT
            &&& -COORD_LIMIT <= e.from.y <= COORD_LIMIT
            &&& -COORD_LIMIT <= e.to.x <= COORD_LIMIT
            &&& -COORD_LIMIT <= e.to.y <= COORD_LIMIT
        }
}

/// Translating a point within range by a within-range offset and back is
/// exact.
proof fn lemma_point_round_trip(p: Point, dx: int, dy: int)
    requires
        -COORD_LIMIT <= p.x <= COORD_LIMIT,
        -COORD_LIMIT <= p.y <= COORD_LIMIT,
        -COORD_LIMIT <= dx <= COORD_LIMIT,
        -COORD_LIMIT <= dy <= COORD_LIMIT,
    ensures
        point_translated(point_translated(p, dx, dy), -dx, -dy) == p,
{
}

/// Round trip of translate-to-origin: shifting a blueprint so its bounding
/// box starts at the origin and then re-translating by the original
/// top-left offset reproduces the original point set exactly, whenever the
/// coordinates lie within the resolver's range (a coordinate saturated at
/// the representable limits may not survive the round trip).
pub proof fn lemma_translate_round_trip(pre: Blueprint, mid: Blueprint, back: Blueprint)
    requires
        blueprint_in_coord_range(pre),
        Blueprint::is_translated(
            pre,
            mid,
            sat_i64(-shapes_top_left(pre@).x),
            sat_i64(-shapes_top_left(pre@).y),
        ),
        Blueprint::is_translated(
            mid,
            back,
            shapes_top_left(pre@).x as int,
            shapes_top_left(pre@).y as int,
        ),
    ensures
        back@.len() == pre@.len(),
        forall|i: int| 0 <= i < pre@.len() ==> #[trigger] back@[i]@ =~= pre@[i]@,
{
    let tl = shapes_top_left(pre@);
    let dx = sat_i64(-tl.x);
    let dy = sat_i64(-tl.y);
    crate::geometry::lemma_shapes_top_left_le(pre@);
    assert forall|i: int| 0 <= i < pre@.len() implies #[trigger] back@[i]@ =~= pre@[i]@ by {
        let f1 = |e: Edge| edge_translated(e, dx, dy);
        let f2 = |e: Edge| edge_translated(e, tl.x as int, tl.y as int);
        assert(mid@[i]@ == pre@[i]@.map_values(f1));
        assert(back@[i]@ == mid@[i]@.map_values(f2));
        assert forall|j: int| 0 <= j < pre@[i]@.len() implies back@[i]@[j] == pre@[i]@[j] by {
            let e = pre@[i]@[j];
            assert(back@[i]@[j] == f2(f1(e)));
            if pre@[i]@.len() > 0 {
                // an edge exists, so the top-left fold lies within range
                assert(tl.x <= e.from.x && tl.y <= e.from.y);
                lemma_top_left_above(pre, i, j);
                assert(f2(f1(e)) == e) by {
                    lemma_exact_round(e.from, tl.x as int, tl.y as int);
                    lemma_exact_round(e.to, tl.x as int, tl.y as int);
                }
            }
        }
    }
}

/// With all coordinates within range, the top-left fold is within range
/// too, as soon as any edge exists.
proof fn lemma_top_left_above(pre: Blueprint, i: int, j: int)
    requires
        blueprint_in_coord_range(pre),
        0 <= i < pre@.len(),
        0 <= j < pre@[i]@.len(),
    ensures
        -COORD_LIMIT <= shapes_top_left(pre@).x <= COORD_LIMIT,
        -COORD_LIMIT <= shapes_top_left(pre@).y <= COORD_LIMIT,
{
    crate::geometry::lemma_shapes_top_left_le(pre@);
    assert(shapes_top_left(pre@).x <= pre@[i]@[j].from.x);
    assert(shapes_top_left(pre@).y <= pre@[i]@[j].from.y);
    lemma_shapes_top_left_lower(pre@);
}

/// The top-left fold never goes below the smallest coordinate: with all
/// coordinates at least `-COORD_LIMIT`, so is the fold.
proof fn lemma_shapes_top_left_lower(shapes: Seq<Shape>)
    requires
        forall|i: int, j: int|
            0 <= i < shapes.len() && 0 <= j < shapes[i]@.len() ==> {
                let e = #[trigger] shapes[i]@[j];
                e.from.x >= -COORD_LIMIT && e.from.y >= -COORD_LIMIT && e.to.x >= -COORD_LIMIT
                    && e.to.y >= -COORD_LIMIT
            },
    ensures
        shapes_top_left(shapes).x >= -COORD_LIMIT,
        shapes_top_left(shapes).y >= -COORD_LIMIT,
    decreases shapes.len(),
{
    if shapes.len() > 0 {
        assert forall|i: int, j: int|
            0 <= i < shapes.len() - 1 && 0 <= j < shapes.drop_last()[i]@.len() implies {
            let e = #[trigger] shapes.drop_last()[i]@[j];
            e.from.x >= -COORD_LIMIT && e.from.y >= -COORD_LIMIT && e.to.x >= -COORD_LIMIT
                && e.to.y >= -COORD_LIMIT
        } by {
            assert(shapes.drop_last()[i] == shapes[i]);
        }
        lemma_shapes_top_left_lower(shapes.drop_last());
        assert forall|j: int| 0 <= j < shapes.last()@.len() implies {
            let e = #[trigger] shapes.last()@[j];
            e.from.x >= -COORD_LIMIT && e.from.y >= -COORD_LIMIT && e.to.x >= -COORD_LIMIT
                && e.to.y >= -COORD_LIMIT
        } by {
            assert(shapes.last() == shapes[shapes.len() - 1]);
        }
        lemma_edges_top_left_lower(shapes.last()@);
    }
}

proof fn lemma_edges_top_left_lower(edges: Seq<Edge>)
    requires
        forall|j: int|
            0 <= j < edges.len() ==> {
                let e = #[trigger] edges[j];
                e.from.x >= -COORD_LIMIT && e.from.y >= -COORD_LIMIT && e.to.x >= -COORD_LIMIT
                    && e.to.y >= -COORD_LIMIT
            },
    ensures
        crate::geometry::edges_top_left(edges).x >= -COORD_LIMIT,
        crate::geometry::edges_top_left(edges).y >= -COORD_LIMIT,
    decreases edges.len(),
{
    if edges.len() > 0 {
        assert forall|j: int| 0 <= j < edges.len() - 1 implies {
            let e = #[trigger] edges.drop_last()[j];
            e.from.x >= -COORD_LIMIT && e.from.y >= -COORD_LIMIT && e.to.x >= -COORD_LIMIT
                && e.to.y >= -COORD_LIMIT
        } by {
            assert(edges.drop_last()[j] == edges[j]);
        }
        lemma_edges_top_left_lower(edges.drop_last());
        assert(edges.last() == edges[edges.len() - 1]);
    }
}

proof fn lemma_exact_round(p: Point, tx: int, ty: int)
    requires
        -COORD_LIMIT <= p.x <= COORD_LIMIT,
        -COORD_LIMIT <= p.y <= COORD_LIMIT,
        -COORD_LIMIT <= tx <= COORD_LIMIT,
        -COORD_LIMIT <= ty <= COORD_LIMIT,
    ensures
        point_translated(point_translated(p, sat_i64(-tx), sat_i64(-ty)), tx, ty) == p,
{
}

/// Rasterizing a vertical edge lights exactly `|dy| + 1` cells, all of them
/// in the edge's own column.
pub proof fn lemma_vertical_raster(e: Edge)
    requires
        e.to.x == e.from.x,
    ensures
        forall|x: int, y: int| #[trigger] edge_covers(e, x, y) ==> x == e.from.x,
        forall|y: int|
            #[trigger] edge_covers(e, e.from.x as int, y) <==> min_int(
                e.from.y as int,
                e.to.y as int,
            ) <= y <= max_int(e.from.y as int, e.to.y as int),
        Set::new(|y: int| edge_covers(e, e.from.x as int, y)).finite(),
        Set::new(|y: int| edge_covers(e, e.from.x as int, y)).len() == abs_int(
            e.to.y - e.from.y,
        ) + 1,
{
    let lo = min_int(e.from.y as int, e.to.y as int);
    let hi = max_int(e.from.y as int, e.to.y as int);
    vstd::set_lib::lemma_int_range(lo, hi + 1);
    assert(Set::new(|y: int| edge_covers(e, e.from.x as int, y)) =~= vstd::set_lib::set_int_range(
        lo,
        hi + 1,
    ));
}

/// The target point of an absolute-draw command.
pub open spec fn abs_target(c: Command) -> Point {
    match c.kind {
        CommandKind::Draw(Coord::Absolute(x, y, _), _) => Point { x, y },
        _ => Point { x: 0, y: 0 },
    }
}

/// Every command of the list draws to an absolute coordinate.
pub open spec fn all_absolute_draws(cmds: Seq<Command>) -> bool {
    forall|j: int|
        0 <= j < cmds.len() ==> (#[trigger] cmds[j]).kind matches CommandKind::Draw(
            Coord::Absolute(_, _, _),
            _,
        )
}

/// Running absolute draws with a live cursor appends one edge per command,
/// each running from the previous target to the next.
proof fn lemma_run_abs(cmds: Seq<Command>, st: RState, acc: Seq<Edge>, offsets: Seq<usize>)
    requires
        all_absolute_draws(cmds),
        st.last is Some,
    ensures
        run_cmds(cmds, st, acc, offsets) is Ok,
        ({
            let st2 = run_cmds(cmds, st, acc, offsets)->Ok_0.0;
            let acc2 = run_cmds(cmds, st, acc, offsets)->Ok_0.1;
            &&& acc2.len() == acc.len() + cmds.len()
            &&& forall|j: int| 0 <= j < acc.len() ==> acc2[j] == acc[j]
            &&& forall|j: int|
                0 <= j < cmds.len() ==> (#[trigger] acc2[acc.len() + j]).to == abs_target(cmds[j])
            &&& forall|j: int|
                1 <= j < cmds.len() ==> (#[trigger] acc2[acc.len() + j]).from == abs_target(
                    cmds[j - 1],
                )
            &&& cmds.len() > 0 ==> acc2[acc.len() as int].from == st.last->0
            &&& st2.last == (if cmds.len() > 0 {
                Some(abs_target(cmds.last()))
            } else {
                st.last
            })
            &&& st2.shapes == st.shapes
        }),
    decreases cmds.len(),
{
    if cmds.len() > 0 {
        let c = cmds[0];
        let t0 = abs_target(c);
        let edge = Edge {
            from: st.last->0,
            to: t0,
            color: c.kind->Draw_1,
            line: crate::resolver::line_of(offsets, c.src_index as int) as usize,
        };
        assert(crate::resolver::step_cmd(c, st, acc, offsets) is Ok);
        let next_st = crate::resolver::step_cmd(c, st, acc, offsets)->Ok_0.0;
        let next_acc = crate::resolver::step_cmd(c, st, acc, offsets)->Ok_0.1;
        assert(next_acc == acc.push(edge));
        assert(next_st.last == Some(t0));
        assert(next_st.shapes == st.shapes);
        assert forall|j: int| 0 <= j < cmds.drop_first().len() implies (#[trigger] cmds.drop_first()[j]).kind
            matches CommandKind::Draw(Coord::Absolute(_, _, _), _) by {
            assert(cmds.drop_first()[j] == cmds[j + 1]);
        }
        lemma_run_abs(cmds.drop_first(), next_st, next_acc, offsets);
        assert forall|j: int|
            0 <= j < cmds.len() implies (#[trigger] run_cmds(cmds, st, acc, offsets)->Ok_0.1[acc.len()
            + j]).to == abs_target(cmds[j]) by {
            let acc2 = run_cmds(cmds, st, acc, offsets)->Ok_0.1;
            if j == 0 {
                assert(acc2[acc.len() as int] == next_acc[acc.len() as int]);
            } else {
                assert(acc2[next_acc.len() + (j - 1)] == acc2[acc.len() + j]);
                assert(cmds.drop_first()[j - 1] == cmds[j]);
            }
        }
        assert forall|j: int|
            1 <= j < cmds.len() implies (#[trigger] run_cmds(cmds, st, acc, offsets)->Ok_0.1[acc.len()
            + j]).from == abs_target(cmds[j - 1]) by {
            let acc2 = run_cmds(cmds, st, acc, offsets)->Ok_0.1;
            if j == 1 {
                assert(acc2[next_acc.len() as int].from == next_st.last->0);
                assert(acc2[acc.len() as int + 1] == acc2[next_acc.len() as int]);
            } else {
                assert(acc2[next_acc.len() + (j - 1)] == acc2[acc.len() + j]);
                assert(cmds.drop_first()[j - 2] == cmds[j - 1]);
            }
        }
        if cmds.len() > 0 {
            assert(cmds.drop_first().len() > 0 ==> cmds.drop_first().last() == cmds.last());
        }
    }
}

/// A document of `N >= 2` sequential absolute coordinates forming one shape
/// resolves to exactly `N - 1` edges, each edge joining two consecutive
/// coordinates in order (the first coordinate only opens the walk).
pub proof fn lemma_absolute_chain(cmds: Seq<Command>, offsets: Seq<usize>)
    requires
        cmds.len() >= 2,
        all_absolute_draws(cmds),
    ensures
        run_block(cmds, init_state(), offsets) is Ok,
        ({
            let st = run_block(cmds, init_state(), offsets)->Ok_0;
            &&& st.shapes.len() == 1
            &&& st.shapes[0].len() == cmds.len() - 1
            &&& forall|j: int|
                0 <= j < cmds.len() - 1 ==> (#[trigger] st.shapes[0][j]).from == abs_target(
                    cmds[j],
                ) && st.shapes[0][j].to == abs_target(cmds[j + 1])
        }),
{
    let st0 = init_state();
    let c = cmds[0];
    assert(crate::resolver::step_cmd(c, st0, Seq::empty(), offsets) is Ok);
    let st1 = crate::resolver::step_cmd(c, st0, Seq::empty(), offsets)->Ok_0.0;
    let acc1 = crate::resolver::step_cmd(c, st0, Seq::empty(), offsets)->Ok_0.1;
    assert(acc1 =~= Seq::<Edge>::empty());
    assert(st1.last == Some(abs_target(c)));
    assert forall|j: int| 0 <= j < cmds.drop_first().len() implies (#[trigger] cmds.drop_first()[j]).kind
        matches CommandKind::Draw(Coord::Absolute(_, _, _), _) by {
        assert(cmds.drop_first()[j] == cmds[j + 1]);
    }
    lemma_run_abs(cmds.drop_first(), st1, acc1, offsets);
    let st2 = run_cmds(cmds.drop_first(), st1, acc1, offsets)->Ok_0.0;
    let edges = run_cmds(cmds.drop_first(), st1, acc1, offsets)->Ok_0.1;
    assert(run_cmds(cmds, st0, Seq::empty(), offsets) == run_cmds(
        cmds.drop_first(),
        st1,
        acc1,
        offsets,
    ));
    assert(edges.len() == cmds.len() - 1);
    let st = run_block(cmds, init_state(), offsets)->Ok_0;
    assert(st.shapes == st2.shapes.push(edges));
    assert(st2.shapes == st0.shapes);
    assert(st.shapes.len() == 1);
    assert(st.shapes[0] == edges);
    assert forall|j: int|
        0 <= j < cmds.len() - 1 implies (#[trigger] st.shapes[0][j]).from == abs_target(cmds[j])
        && st.shapes[0][j].to == abs_target(cmds[j + 1]) by {
        if j == 0 {
            assert(edges[0].from == st1.last->0);
        } else {
            assert(edges[acc1.len() + j].from == abs_target(cmds.drop_first()[j - 1]));
            assert(cmds.drop_first()[j - 1] == cmds[j]);
        }
        assert(edges[acc1.len() + j].to == abs_target(cmds.drop_first()[j]));
        assert(cmds.drop_first()[j] == cmds[j + 1]);
    }
}

} // verus!
