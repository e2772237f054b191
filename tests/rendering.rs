use ara::{draw_embedding, draw_vertex, edges_in_range, Color, DrawOp, GraphError, PlaneGraph, Point};

fn pt(x: i128, y: i128) -> Point {
    Point { x, y }
}

fn triangle() -> PlaneGraph {
    PlaneGraph {
        n: 3,
        edges: vec![(1, 2), (2, 3), (3, 1)],
        embedding: vec![(0, 0), (0, 1), (1, 0)],
    }
}

#[test]
fn minimal_triangle_on_600_canvas() {
    let plan = draw_embedding(&triangle(), 600, 600, 50).unwrap();
    assert_eq!(plan.scale, 1);
    let expected = vec![
        DrawOp::SetColor(Color::Background),
        DrawOp::Paint,
        DrawOp::SetColor(Color::Grid),
        DrawOp::MoveTo(pt(50, 50)),
        DrawOp::LineTo(pt(50, 550)),
        DrawOp::MoveTo(pt(550, 50)),
        DrawOp::LineTo(pt(550, 550)),
        DrawOp::MoveTo(pt(50, 50)),
        DrawOp::LineTo(pt(550, 50)),
        DrawOp::MoveTo(pt(50, 550)),
        DrawOp::LineTo(pt(550, 550)),
        DrawOp::Stroke,
        DrawOp::SetColor(Color::Vertex),
        DrawOp::Arc { center: pt(50, 50), radius: 15 },
        DrawOp::FillPreserve,
        DrawOp::Stroke,
        DrawOp::Arc { center: pt(50, 550), radius: 15 },
        DrawOp::FillPreserve,
        DrawOp::Stroke,
        DrawOp::Arc { center: pt(550, 50), radius: 15 },
        DrawOp::FillPreserve,
        DrawOp::Stroke,
        DrawOp::MoveTo(pt(50, 50)),
        DrawOp::LineTo(pt(50, 550)),
        DrawOp::MoveTo(pt(50, 550)),
        DrawOp::LineTo(pt(550, 50)),
        DrawOp::MoveTo(pt(550, 50)),
        DrawOp::LineTo(pt(50, 50)),
        DrawOp::Stroke,
    ];
    assert_eq!(plan.ops, expected);
}

#[test]
fn fewer_than_three_vertices_is_degenerate() {
    for emb in [vec![], vec![(0, 0)], vec![(0, 0), (1, 1)]] {
        let g = PlaneGraph { n: emb.len() as u32, edges: vec![(1, 1)], embedding: emb };
        assert_eq!(draw_embedding(&g, 600, 600, 50).unwrap_err(), GraphError::DegenerateGeometry);
    }
}

#[test]
fn out_of_range_edges_are_index_errors() {
    let mut g = triangle();
    g.edges.push((1, 4));
    assert_eq!(draw_embedding(&g, 600, 600, 50).unwrap_err(), GraphError::Index);
    let mut g = triangle();
    g.edges.insert(0, (0, 2));
    assert_eq!(draw_embedding(&g, 600, 600, 50).unwrap_err(), GraphError::Index);
    assert!(!edges_in_range(&vec![(1, 2), (3, 0)], 3));
    assert!(edges_in_range(&vec![(1, 2), (3, 3)], 3));
}

#[test]
fn vertices_sit_on_grid_lines() {
    let g = PlaneGraph { n: 4, edges: vec![], embedding: vec![(0, 0), (2, 1), (1, 2), (0, 2)] };
    let plan = draw_embedding(&g, 700, 700, 50).unwrap();
    assert_eq!(plan.scale, 2);
    // vertical lines occupy ops 3..9, horizontal 9..15, discs start at 17
    assert_eq!(plan.ops[17 + 3], DrawOp::Arc { center: pt(1300, 700), radius: 30 });
    assert_eq!(plan.ops[3 + 2 * 2], DrawOp::MoveTo(pt(1300, 100)));
    assert_eq!(plan.ops[9 + 2 * 1], DrawOp::MoveTo(pt(100, 700)));
}

#[test]
fn spacing_that_does_not_divide_stays_exact() {
    let g = PlaneGraph {
        n: 5,
        edges: vec![(2, 5)],
        embedding: vec![(0, 0), (1, 2), (3, 3), (2, 0), (0, 3)],
    };
    let plan = draw_embedding(&g, 600, 600, 50).unwrap();
    assert_eq!(plan.scale, 3);
    // 3 + 8 + 8 + 2 = 21: discs, then edges at 36
    assert_eq!(plan.ops[21 + 3], DrawOp::Arc { center: pt(650, 1150), radius: 45 });
    assert_eq!(plan.ops[36], DrawOp::MoveTo(pt(650, 1150)));
    assert_eq!(plan.ops[37], DrawOp::LineTo(pt(150, 1650)));
    assert_eq!(plan.ops.len(), 39);
}

#[test]
fn non_square_canvas_uses_height_for_spacing() {
    let plan = draw_embedding(&triangle(), 800, 600, 50).unwrap();
    assert_eq!(plan.ops[8], DrawOp::LineTo(pt(750, 50)));
    assert_eq!(plan.ops[19], DrawOp::Arc { center: pt(550, 50), radius: 15 });
}

#[test]
fn click_marker_is_one_ring() {
    let plan = draw_vertex(120, -4);
    assert_eq!(plan.scale, 1);
    assert_eq!(
        plan.ops,
        vec![
            DrawOp::SetColor(Color::Marker),
            DrawOp::NewPath,
            DrawOp::Arc { center: pt(120, -4), radius: 10 },
            DrawOp::Stroke,
        ]
    );
}
