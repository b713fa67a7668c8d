use icu_tool::glyph::{
    GlyphEditorState, GlyphNodeId, GlyphNodeRole, PathCmd, Point, add_glyph_node, can_add_glyph_node,
    can_delete_glyph_node, delete_glyph_node, glyph_node_point, glyph_nodes, move_glyph_node,
    GLYPH_HISTORY_LIMIT,
};

fn p(x: i32, y: i32) -> Point {
    Point { x: x * 65536, y: y * 65536 }
}

#[test]
fn glyph_editor_history_round_trips_and_clears_redo() {
    let first = vec![PathCmd::Close];
    let second = vec![PathCmd::MoveTo(p(1, 2))];
    let third = vec![PathCmd::MoveTo(p(3, 4))];
    let mut editor = GlyphEditorState::new();
    editor.record(first.clone());
    assert_eq!(editor.undo(&second), Some(first));
    assert_eq!(editor.redo(&second), Some(second.clone()));
    editor.record(third);
    assert!(!editor.can_redo());
}

#[test]
fn glyph_node_commands_preserve_path_structure() {
    let mut outline = vec![
        PathCmd::MoveTo(p(0, 0)),
        PathCmd::LineTo(p(10, 0)),
        PathCmd::QuadTo { ctrl: p(12, 4), end: p(10, 10) },
        PathCmd::Close,
    ];
    let first = GlyphNodeId { command_index: 0, role: GlyphNodeRole::Endpoint };
    assert!(add_glyph_node(&mut outline, first));
    assert!(matches!(outline[1], PathCmd::LineTo(_)));
    assert!(!delete_glyph_node(&mut outline, first));

    let line = GlyphNodeId { command_index: 1, role: GlyphNodeRole::Endpoint };
    assert!(delete_glyph_node(&mut outline, line));
    let quad = GlyphNodeId { command_index: 2, role: GlyphNodeRole::QuadControl };
    assert!(delete_glyph_node(&mut outline, quad));
    assert!(matches!(outline[2], PathCmd::LineTo(_)));

    let endpoint = GlyphNodeId { command_index: 1, role: GlyphNodeRole::Endpoint };
    assert!(move_glyph_node(&mut outline, endpoint, p(20, 20)));
    assert_eq!(glyph_node_point(&outline, endpoint), Some(p(20, 20)));
    assert!(matches!(outline.first(), Some(PathCmd::MoveTo(_))));
    assert!(matches!(outline.last(), Some(PathCmd::Close)));
}

#[test]
fn glyph_editor_history_is_bounded() {
    let mut editor = GlyphEditorState::new();
    for index in 0..=GLYPH_HISTORY_LIMIT {
        editor.record(vec![PathCmd::MoveTo(p(index as i32, 0))]);
    }
    let mut count = 0;
    while editor.can_undo() {
        let _ = editor.undo(&[]);
        count += 1;
    }
    assert_eq!(count, GLYPH_HISTORY_LIMIT);
}

#[test]
fn added_node_is_the_midpoint_toward_the_next_endpoint() {
    let mut outline = vec![PathCmd::MoveTo(Point { x: 0, y: 0 }), PathCmd::LineTo(Point { x: 5, y: -5 })];
    let first = GlyphNodeId { command_index: 0, role: GlyphNodeRole::Endpoint };
    assert!(can_add_glyph_node(&outline, first));
    assert!(add_glyph_node(&mut outline, first));
    assert_eq!(outline[1], PathCmd::LineTo(Point { x: 2, y: -2 }));
    let last = GlyphNodeId { command_index: 2, role: GlyphNodeRole::Endpoint };
    assert!(!can_add_glyph_node(&outline, last));
    assert!(!add_glyph_node(&mut outline, last));
}

#[test]
fn nodes_list_controls_before_endpoints() {
    let outline = vec![
        PathCmd::MoveTo(p(0, 0)),
        PathCmd::CubicTo { ctrl1: p(1, 1), ctrl2: p(2, 2), end: p(3, 3) },
        PathCmd::Close,
    ];
    let nodes = glyph_nodes(&outline);
    assert_eq!(
        nodes.iter().map(|(id, _)| id.role).collect::<Vec<_>>(),
        [GlyphNodeRole::Endpoint, GlyphNodeRole::CubicControl1, GlyphNodeRole::CubicControl2, GlyphNodeRole::Endpoint]
    );
    assert_eq!(nodes[2].1, p(2, 2));
    let ctrl = GlyphNodeId { command_index: 1, role: GlyphNodeRole::CubicControl2 };
    assert!(can_delete_glyph_node(&outline, ctrl));
    let mv = GlyphNodeId { command_index: 0, role: GlyphNodeRole::Endpoint };
    assert!(!can_delete_glyph_node(&outline, mv));
}

#[test]
fn undo_then_redo_restores_both_stacks() {
    let mut editor = GlyphEditorState::new();
    let a = vec![PathCmd::MoveTo(p(1, 1))];
    let b = vec![PathCmd::MoveTo(p(2, 2))];
    editor.record(a.clone());
    editor.record(a.clone());
    let undone = editor.undo(&b).unwrap();
    assert_eq!(undone, a);
    assert!(editor.can_redo());
    let redone = editor.redo(&undone).unwrap();
    assert_eq!(redone, b);
    assert!(editor.can_undo());
    assert!(!editor.can_redo());
    assert_eq!(editor.undo(&redone), Some(a));
}
