use vstd::prelude::*;

use crate::error::GraphError;
use crate::plane_graph::{all_edges_in_range, edges_in_range, PlaneGraph};

verus! {

/// Radius of a vertex disc, in pixels.
pub const VERTEX_RADIUS: u32 = 15;

/// Radius of the ring drawn where the user clicked, in pixels.
pub const MARKER_RADIUS: u32 = 10;

/// A point of the canvas, each coordinate a numerator over the plan's `scale`.
#[derive(Clone, Copy, Debug, PartialEq, Eq, Structural)]
pub struct Point {
    pub x: i128,
    pub y: i128,
}

/// The colours a drawing uses; the surface that paints a plan picks the shades.
#[derive(Clone, Copy, Debug, PartialEq, Eq, Structural)]
pub enum Color {
    Background,
    Grid,
    Vertex,
    Marker,
}

/// One command for an immediate-mode drawing surface.
#[derive(Clone, Copy, Debug, PartialEq, Eq, Structural)]
pub enum DrawOp {
    /// Use this colour for what follows.
    SetColor(Color),
    /// Fill the whole canvas with the current colour.
    Paint,
    /// Forget the current path.
    NewPath,
    /// Start a new piece of path at the point.
    MoveTo(Point),
    /// Extend the path with a straight segment to the point.
    LineTo(Point),
    /// Add a full circle to the path.
    Arc { center: Point, radius: i128 },
    /// Fill the path and keep it for a following stroke.
    FillPreserve,
    /// Stroke the path and clear it.
    Stroke,
}

/// Drawing commands in order; every coordinate and radius is in units of
/// `1 / scale` pixel, so that positions on the grid are exact.
#[derive(Clone, Debug)]
pub struct DrawPlan {
    pub scale: u64,
    pub ops: Vec<DrawOp>,
}

/// Grid coordinate `g` in units of `1 / (n - 2)` pixel: the pixel position
/// `margin + g * (height - 2 * margin) / (n - 2)` times `n - 2`.
pub open spec fn scaled_offset(margin: int, height: int, n: int, g: int) -> int {
    margin * (n - 2) + g * (height - 2 * margin)
}

/// Where a vertex at grid position `p` is drawn.
pub open spec fn vertex_point(p: (u32, u32), margin: int, height: int, n: int) -> Point {
    Point {
        x: scaled_offset(margin, height, n, p.0 as int) as i128,
        y: scaled_offset(margin, height, n, p.1 as int) as i128,
    }
}

/// The first `k` vertical grid lines, each from the top margin to the bottom one.
pub open spec fn vertical_lines(k: nat, margin: int, height: int, n: int) -> Seq<DrawOp>
    decreases k,
{
    if k == 0 {
        Seq::<DrawOp>::empty()
    } else {
        let x = scaled_offset(margin, height, n, k - 1) as i128;
        vertical_lines((k - 1) as nat, margin, height, n) + seq![
            DrawOp::MoveTo(Point { x, y: (margin * (n - 2)) as i128 }),
            DrawOp::LineTo(Point { x, y: ((height - margin) * (n - 2)) as i128 }),
        ]
    }
}

/// The first `k` horizontal grid lines, each from the left margin to the right one.
pub open spec fn horizontal_lines(k: nat, width: int, margin: int, height: int, n: int) -> Seq<
    DrawOp,
>
    decreases k,
{
    if k == 0 {
        Seq::<DrawOp>::empty()
    } else {
        let y = scaled_offset(margin, height, n, k - 1) as i128;
        horizontal_lines((k - 1) as nat, width, margin, height, n) + seq![
            DrawOp::MoveTo(Point { x: (margin * (n - 2)) as i128, y }),
            DrawOp::LineTo(Point { x: ((width - margin) * (n - 2)) as i128, y }),
        ]
    }
}

/// A filled and outlined disc for each position, in order.
pub open spec fn vertex_discs(emb: Seq<(u32, u32)>, margin: int, height: int, n: int) -> Seq<
    DrawOp,
>
    decreases emb.len(),
{
    if emb.len() == 0 {
        Seq::<DrawOp>::empty()
    } else {
        vertex_discs(emb.drop_last(), margin, height, n) + seq![
            DrawOp::Arc {
                center: vertex_point(emb.last(), margin, height, n),
                radius: (VERTEX_RADIUS * (n - 2)) as i128,
            },
            DrawOp::FillPreserve,
            DrawOp::Stroke,
        ]
    }
}

/// One segment for each edge, between the positions of its two endpoints.
pub open spec fn edge_segments(
    edges: Seq<(u32, u32)>,
    emb: Seq<(u32, u32)>,
    margin: int,
    height: int,
) -> Seq<DrawOp>
    decreases edges.len(),
{
    if edges.len() == 0 {
        Seq::<DrawOp>::empty()
    } else {
        let e = edges.last();
        let n = emb.len() as int;
        edge_segments(edges.drop_last(), emb, margin, height) + seq![
            DrawOp::MoveTo(vertex_point(emb[e.0 - 1], margin, height, n)),
            DrawOp::LineTo(vertex_point(emb[e.1 - 1], margin, height, n)),
        ]
    }
}

/// The whole drawing of an embedding: background, grid in one stroke, the
/// vertex discs, then all edges in one stroke.
pub open spec fn embedding_ops(
    edges: Seq<(u32, u32)>,
    emb: Seq<(u32, u32)>,
    width: int,
    height: int,
    margin: int,
) -> Seq<DrawOp> {
    let n = emb.len() as int;
    seq![DrawOp::SetColor(Color::Background), DrawOp::Paint, DrawOp::SetColor(Color::Grid)]
        + vertical_lines((n - 1) as nat, margin, height, n) + horizontal_lines(
        (n - 1) as nat,
        width,
        margin,
        height,
        n,
    ) + seq![DrawOp::Stroke, DrawOp::SetColor(Color::Vertex)] + vertex_discs(emb, margin, height, n)
        + edge_segments(edges, emb, margin, height) + seq![DrawOp::Stroke]
}

proof fn lemma_offset_bounds(margin: int, height: int, n: int, g: int)
    requires
        0 <= margin <= u32::MAX,
        0 <= height <= u32::MAX,
        3 <= n <= u64::MAX,
        0 <= g <= u64::MAX,
    ensures
        0 <= margin * (n - 2) < 0x1_0000_0000_0000_0000_0000_0000,
        -0x2_0000_0000_0000_0000_0000_0000 < g * (height - 2 * margin)
            < 0x2_0000_0000_0000_0000_0000_0000,
        -0x4_0000_0000_0000_0000_0000_0000 < scaled_offset(margin, height, n, g)
            < 0x4_0000_0000_0000_0000_0000_0000,
{
    assert(0 <= margin * (n - 2) < 0x1_0000_0000_0000_0000_0000_0000) by (nonlinear_arith)
        requires
            0 <= margin <= u32::MAX,
            1 <= n - 2 <= u64::MAX,
    ;
    let span = height - 2 * margin;
    assert(-0x2_0000_0000_0000_0000_0000_0000 < g * span < 0x2_0000_0000_0000_0000_0000_0000)
        by (nonlinear_arith)
        requires
            0 <= g <= u64::MAX,
            -0x2_0000_0000 < span < 0x1_0000_0000,
    ;
}

/// `base + g * span`, the scaled position of grid coordinate `g`.
fn offset_at(base: i128, span: i128, g: u64, Ghost(margin): Ghost<int>, Ghost(height): Ghost<int>, Ghost(n): Ghost<int>) -> (r: i128)
    requires
        0 <= margin <= u32::MAX,
        0 <= height <= u32::MAX,
        3 <= n <= u64::MAX,
        base == margin * (n - 2),
        span == height - 2 * margin,
    ensures
        r == scaled_offset(margin, height, n, g as int),
{
    proof {
        lemma_offset_bounds(margin, height, n, g as int);
    }
    base + (g as i128) * span
}

proof fn lemma_scaled_bound(a: int, s: int)
    requires
        -0x2_0000_0000 < a < 0x2_0000_0000,
        0 <= s <= u64::MAX,
    ensures
        -0x2_0000_0000_0000_0000_0000_0000 < a * s < 0x2_0000_0000_0000_0000_0000_0000,
{
    assert(-0x2_0000_0000_0000_0000_0000_0000 < a * s < 0x2_0000_0000_0000_0000_0000_0000)
        by (nonlinear_arith)
        requires
            -0x2_0000_0000 < a < 0x2_0000_0000,
            0 <= s <= u64::MAX,
    ;
}

/// Lays out `graph` on a `width` by `height` canvas whose grid is inset by
/// `margin` on every side.
///
/// With `n` positions the grid spacing is `(height - 2 * margin) / (n - 2)`
/// pixels, and vertex `i + 1` is drawn at `margin + embedding[i] * spacing`
/// on both axes. The plan's scale is `n - 2`, so every coordinate is exact.
/// Fewer than three positions, or an edge that names a vertex outside
/// `1..=n`, give an error and no plan.
#[verifier::loop_isolation(false)]
pub fn draw_embedding(graph: &PlaneGraph, width: u32, height: u32, margin: u32) -> (r: Result<
    DrawPlan,
    GraphError,
>)
    ensures
        graph.embedding@.len() < 3 ==> r == Err::<DrawPlan, GraphError>(
            GraphError::DegenerateGeometry,
        ),
        graph.embedding@.len() >= 3 && !all_edges_in_range(
            graph.edges@,
            graph.embedding@.len() as int,
        ) ==> r == Err::<DrawPlan, GraphError>(GraphError::Index),
        graph.embedding@.len() >= 3 && all_edges_in_range(
            graph.edges@,
            graph.embedding@.len() as int,
        ) ==> {
            &&& r is Ok
            &&& r->Ok_0.scale == graph.embedding@.len() - 2
            &&& r->Ok_0.ops@ == embedding_ops(
                graph.edges@,
                graph.embedding@,
                width as int,
                height as int,
                margin as int,
            )
        },
{
    let n = graph.embedding.len();
    if n < 3 {
        return Err(GraphError::DegenerateGeometry);
    }
    if !edges_in_range(&graph.edges, n) {
        return Err(GraphError::Index);
    }
    let ghost emb = graph.embedding@;
    let ghost edges = graph.edges@;
    let ghost gm = margin as int;
    let ghost gh = height as int;
    let ghost gw = width as int;
    let ghost gn = n as int;
    let s: u64 = (n - 2) as u64;
    proof {
        lemma_scaled_bound(gm, s as int);
        lemma_scaled_bound(gh - gm, s as int);
        lemma_scaled_bound(gw - gm, s as int);
        lemma_scaled_bound(VERTEX_RADIUS as int, s as int);
    }
    let base: i128 = (margin as i128) * (s as i128);
    let span: i128 = (height as i128) - 2 * (margin as i128);
    let bottom: i128 = ((height as i128) - (margin as i128)) * (s as i128);
    let right: i128 = ((width as i128) - (margin as i128)) * (s as i128);
    let radius: i128 = (VERTEX_RADIUS as i128) * (s as i128);

    let mut ops: Vec<DrawOp> = Vec::new();
    ops.push(DrawOp::SetColor(Color::Background));
    ops.push(DrawOp::Paint);
    ops.push(DrawOp::SetColor(Color::Grid));
    let ghost head = ops@;
    let mut k: usize = 0;
    while k < n - 1
        invariant
            0 <= k <= n - 1,
            ops@ == head + vertical_lines(k as nat, gm, gh, gn),
        decreases n - 1 - k,
    {
        let x = offset_at(base, span, k as u64, Ghost(gm), Ghost(gh), Ghost(gn));
        ops.push(DrawOp::MoveTo(Point { x, y: base }));
        ops.push(DrawOp::LineTo(Point { x, y: bottom }));
        proof {
            assert(ops@ =~= head + vertical_lines((k + 1) as nat, gm, gh, gn));
        }
        k += 1;
    }
    let ghost head = ops@;
    let mut k: usize = 0;
    while k < n - 1
        invariant
            0 <= k <= n - 1,
            ops@ == head + horizontal_lines(k as nat, gw, gm, gh, gn),
        decreases n - 1 - k,
    {
        let y = offset_at(base, span, k as u64, Ghost(gm), Ghost(gh), Ghost(gn));
        ops.push(DrawOp::MoveTo(Point { x: base, y }));
        ops.push(DrawOp::LineTo(Point { x: right, y }));
        proof {
            assert(ops@ =~= head + horizontal_lines((k + 1) as nat, gw, gm, gh, gn));
        }
        k += 1;
    }
    ops.push(DrawOp::Stroke);
    ops.push(DrawOp::SetColor(Color::Vertex));
    let ghost head = ops@;
    let mut i: usize = 0;
    while i < n
        invariant
            0 <= i <= n,
            ops@ == head + vertex_discs(emb.subrange(0, i as int), gm, gh, gn),
        decreases n - i,
    {
        let (gx, gy) = graph.embedding[i];
        let center = Point {
            x: offset_at(base, span, gx as u64, Ghost(gm), Ghost(gh), Ghost(gn)),
            y: offset_at(base, span, gy as u64, Ghost(gm), Ghost(gh), Ghost(gn)),
        };
        ops.push(DrawOp::Arc { center, radius });
        ops.push(DrawOp::FillPreserve);
        ops.push(DrawOp::Stroke);
        proof {
            let e2 = emb.subrange(0, i + 1);
            assert(e2.drop_last() =~= emb.subrange(0, i as int));
            assert(ops@ =~= head + vertex_discs(e2, gm, gh, gn));
        }
        i += 1;
    }
    proof {
        assert(emb.subrange(0, n as int) =~= emb);
    }
    let ghost head = ops@;
    let mut j: usize = 0;
    while j < graph.edges.len()
        invariant
            0 <= j <= edges.len(),
            ops@ == head + edge_segments(edges.subrange(0, j as int), emb, gm, gh),
        decreases edges.len() - j,
    {
        let (a, b) = graph.edges[j];
        proof {
            assert(crate::plane_graph::edge_in_range(edges[j as int], gn));
        }
        let (ax, ay) = graph.embedding[(a - 1) as usize];
        let (bx, by) = graph.embedding[(b - 1) as usize];
        let from = Point {
            x: offset_at(base, span, ax as u64, Ghost(gm), Ghost(gh), Ghost(gn)),
            y: offset_at(base, span, ay as u64, Ghost(gm), Ghost(gh), Ghost(gn)),
        };
        let to = Point {
            x: offset_at(base, span, bx as u64, Ghost(gm), Ghost(gh), Ghost(gn)),
            y: offset_at(base, span, by as u64, Ghost(gm), Ghost(gh), Ghost(gn)),
        };
        ops.push(DrawOp::MoveTo(from));
        ops.push(DrawOp::LineTo(to));
        proof {
            let d2 = edges.subrange(0, j + 1);
            assert(d2.drop_last() =~= edges.subrange(0, j as int));
            assert(ops@ =~= head + edge_segments(d2, emb, gm, gh));
        }
        j += 1;
    }
    proof {
        assert(edges.subrange(0, edges.len() as int) =~= edges);
    }
    ops.push(DrawOp::Stroke);
    proof {
        assert(ops@ =~= embedding_ops(edges, emb, gw, gh, gm));
    }
    Ok(DrawPlan { scale: s, ops })
}

/// The commands of a click marker: a ring of `MARKER_RADIUS` pixels around `(x, y)`.
pub open spec fn marker_ops(x: i64, y: i64) -> Seq<DrawOp> {
    seq![
        DrawOp::SetColor(Color::Marker),
        DrawOp::NewPath,
        DrawOp::Arc { center: Point { x: x as i128, y: y as i128 }, radius: MARKER_RADIUS as i128 },
        DrawOp::Stroke,
    ]
}

/// Marks the pixel `(x, y)` with an unfilled ring, on a path of its own; each
/// call stands alone.
pub fn draw_vertex(x: i64, y: i64) -> (r: DrawPlan)
    ensures
        r.scale == 1,
        r.ops@ == marker_ops(x, y),
{
    let mut ops: Vec<DrawOp> = Vec::new();
    ops.push(DrawOp::SetColor(Color::Marker));
    ops.push(DrawOp::NewPath);
    ops.push(
        DrawOp::Arc {
            center: Point { x: x as i128, y: y as i128 },
            radius: MARKER_RADIUS as i128,
        },
    );
    ops.push(DrawOp::Stroke);
    proof {
        assert(ops@ =~= marker_ops(x, y));
    }
    DrawPlan { scale: 1, ops }
}

proof fn lemma_vertical_line_at(k: nat, j: int, margin: int, height: int, n: int)
    requires
        0 <= j < k,
    ensures
        vertical_lines(k, margin, height, n).len() == 2 * k,
        vertical_lines(k, margin, height, n)[2 * j] == DrawOp::MoveTo(
            Point {
                x: scaled_offset(margin, height, n, j) as i128,
                y: (margin * (n - 2)) as i128,
            },
        ),
    decreases k,
{
    lemma_vertical_len((k - 1) as nat, margin, height, n);
    if j < k - 1 {
        lemma_vertical_line_at((k - 1) as nat, j, margin, height, n);
    }
}

proof fn lemma_vertical_len(k: nat, margin: int, height: int, n: int)
    ensures
        vertical_lines(k, margin, height, n).len() == 2 * k,
    decreases k,
{
    if k > 0 {
        lemma_vertical_len((k - 1) as nat, margin, height, n);
    }
}

proof fn lemma_horizontal_len(k: nat, width: int, margin: int, height: int, n: int)
    ensures
        horizontal_lines(k, width, margin, height, n).len() == 2 * k,
    decreases k,
{
    if k > 0 {
        lemma_horizontal_len((k - 1) as nat, width, margin, height, n);
    }
}

proof fn lemma_horizontal_line_at(k: nat, j: int, width: int, margin: int, height: int, n: int)
    requires
        0 <= j < k,
    ensures
        horizontal_lines(k, width, margin, height, n)[2 * j] == DrawOp::MoveTo(
            Point {
                x: (margin * (n - 2)) as i128,
                y: scaled_offset(margin, height, n, j) as i128,
            },
        ),
    decreases k,
{
    lemma_horizontal_len((k - 1) as nat, width, margin, height, n);
    if j < k - 1 {
        lemma_horizontal_line_at((k - 1) as nat, j, width, margin, height, n);
    }
}

proof fn lemma_disc_at(emb: Seq<(u32, u32)>, i: int, margin: int, height: int, n: int)
    requires
        0 <= i < emb.len(),
    ensures
        vertex_discs(emb, margin, height, n).len() == 3 * emb.len(),
        vertex_discs(emb, margin, height, n)[3 * i] == (DrawOp::Arc {
            center: vertex_point(emb[i], margin, height, n),
            radius: (VERTEX_RADIUS * (n - 2)) as i128,
        }),
    decreases emb.len(),
{
    let p = emb.drop_last();
    lemma_disc_len(p, margin, height, n);
    if i < p.len() {
        lemma_disc_at(p, i, margin, height, n);
        assert(p[i] == emb[i]);
    }
}

proof fn lemma_disc_len(emb: Seq<(u32, u32)>, margin: int, height: int, n: int)
    ensures
        vertex_discs(emb, margin, height, n).len() == 3 * emb.len(),
    decreases emb.len(),
{
    if emb.len() > 0 {
        lemma_disc_len(emb.drop_last(), margin, height, n);
    }
}

/// Vertices sit exactly on the grid: the disc of vertex `i + 1` is centred at
/// the x of the vertical grid line at `embedding[i].0` and at the y of the
/// horizontal grid line at `embedding[i].1`, wherever those lines are drawn.
pub proof fn lemma_grid_alignment(
    emb: Seq<(u32, u32)>,
    i: int,
    width: int,
    height: int,
    margin: int,
)
    requires
        emb.len() >= 3,
        0 <= i < emb.len(),
        emb[i].0 <= emb.len() - 2,
        emb[i].1 <= emb.len() - 2,
    ensures
        ({
            let n = emb.len() as int;
            let c = vertex_point(emb[i], margin, height, n);
            &&& vertex_discs(emb, margin, height, n)[3 * i] == (DrawOp::Arc {
                center: c,
                radius: (VERTEX_RADIUS * (n - 2)) as i128,
            })
            &&& vertical_lines((n - 1) as nat, margin, height, n)[2 * emb[i].0] == DrawOp::MoveTo(
                Point { x: c.x, y: (margin * (n - 2)) as i128 },
            )
            &&& horizontal_lines((n - 1) as nat, width, margin, height, n)[2 * emb[i].1]
                == DrawOp::MoveTo(Point { x: (margin * (n - 2)) as i128, y: c.y })
        }),
{
    let n = emb.len() as int;
    lemma_disc_at(emb, i, margin, height, n);
    lemma_vertical_line_at((n - 1) as nat, emb[i].0 as int, margin, height, n);
    lemma_horizontal_line_at((n - 1) as nat, emb[i].1 as int, width, margin, height, n);
}

} // verus!
