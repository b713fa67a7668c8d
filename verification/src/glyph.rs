//! The glyph outline editor: outlines are lists of path commands whose points
//! (endpoints and curve controls) can be listed, moved, deleted and added, and
//! an undo/redo history of whole outlines that keeps at most
//! `GLYPH_HISTORY_LIMIT` steps.
use vstd::prelude::*;

verus! {

/// A point of an outline, in raw fixed-point units.
#[derive(Clone, Copy, Debug, PartialEq, Eq, Structural)]
pub struct Point {
    pub x: i32,
    pub y: i32,
}

/// One command of a glyph outline.
#[derive(Clone, Copy, Debug, PartialEq, Eq, Structural)]
pub enum PathCmd {
    MoveTo(Point),
    LineTo(Point),
    QuadTo { ctrl: Point, end: Point },
    CubicTo { ctrl1: Point, ctrl2: Point, end: Point },
    Close,
}

/// Which point of a command a node is.
#[derive(Clone, Copy, Debug, PartialEq, Eq, Structural)]
pub enum GlyphNodeRole {
    Endpoint,
    QuadControl,
    CubicControl1,
    CubicControl2,
}

/// A point of an outline: the command it belongs to and its role there.
#[derive(Clone, Copy, Debug, PartialEq, Eq, Structural)]
pub struct GlyphNodeId {
    pub command_index: usize,
    pub role: GlyphNodeRole,
}

/// The nodes of one command, in the order the editor lists them: controls
/// before the endpoint.
pub open spec fn command_nodes(index: usize, cmd: PathCmd) -> Seq<(GlyphNodeId, Point)> {
    let endpoint = GlyphNodeId { command_index: index, role: GlyphNodeRole::Endpoint };
    match cmd {
        PathCmd::MoveTo(p) => seq![(endpoint, p)],
        PathCmd::LineTo(p) => seq![(endpoint, p)],
        PathCmd::QuadTo { ctrl, end } => seq![
            (GlyphNodeId { command_index: index, role: GlyphNodeRole::QuadControl }, ctrl),
            (endpoint, end),
        ],
        PathCmd::CubicTo { ctrl1, ctrl2, end } => seq![
            (GlyphNodeId { command_index: index, role: GlyphNodeRole::CubicControl1 }, ctrl1),
            (GlyphNodeId { command_index: index, role: GlyphNodeRole::CubicControl2 }, ctrl2),
            (endpoint, end),
        ],
        PathCmd::Close => Seq::empty(),
    }
}

/// All nodes of an outline, command by command.
pub open spec fn outline_nodes(outline: Seq<PathCmd>) -> Seq<(GlyphNodeId, Point)>
    decreases outline.len(),
{
    if outline.len() == 0 {
        Seq::empty()
    } else {
        outline_nodes(outline.drop_last()) + command_nodes(
            (outline.len() - 1) as usize,
            outline.last(),
        )
    }
}

/// The editable points of an outline with their node ids.
pub fn glyph_nodes(outline: &[PathCmd]) -> (nodes: Vec<(GlyphNodeId, Point)>)
    requires
        outline@.len() <= usize::MAX,
    ensures
        nodes@ == outline_nodes(outline@),
{
    let mut nodes: Vec<(GlyphNodeId, Point)> = Vec::new();
    let mut i: usize = 0;
    while i < outline.len()
        invariant
            i <= outline.len(),
            nodes@ == outline_nodes(outline@.take(i as int)),
        decreases outline.len() - i,
    {
        let endpoint = GlyphNodeId { command_index: i, role: GlyphNodeRole::Endpoint };
        let ghost before = nodes@;
        match outline[i] {
            PathCmd::MoveTo(p) => {
                nodes.push((endpoint, p));
            },
            PathCmd::LineTo(p) => {
                nodes.push((endpoint, p));
            },
            PathCmd::QuadTo { ctrl, end } => {
                nodes.push((GlyphNodeId { command_index: i, role: GlyphNodeRole::QuadControl }, ctrl));
                nodes.push((endpoint, end));
            },
            PathCmd::CubicTo { ctrl1, ctrl2, end } => {
                nodes.push(
                    (GlyphNodeId { command_index: i, role: GlyphNodeRole::CubicControl1 }, ctrl1),
                );
                nodes.push(
                    (GlyphNodeId { command_index: i, role: GlyphNodeRole::CubicControl2 }, ctrl2),
                );
                nodes.push((endpoint, end));
            },
            PathCmd::Close => {},
        }
        assert(outline@.take(i + 1).drop_last() == outline@.take(i as int));
        assert(outline@.take(i + 1).last() == outline@[i as int]);
        assert(nodes@ == before + command_nodes(i, outline@[i as int]));
        i += 1;
    }
    assert(outline@.take(outline.len() as int) == outline@);
    nodes
}

/// The point a node stands for in a command, if the command has that node.
pub open spec fn command_point(cmd: PathCmd, role: GlyphNodeRole) -> Option<Point> {
    match (cmd, role) {
        (PathCmd::MoveTo(p), GlyphNodeRole::Endpoint) => Some(p),
        (PathCmd::LineTo(p), GlyphNodeRole::Endpoint) => Some(p),
        (PathCmd::QuadTo { ctrl, end }, GlyphNodeRole::QuadControl) => Some(ctrl),
        (PathCmd::QuadTo { ctrl, end }, GlyphNodeRole::Endpoint) => Some(end),
        (PathCmd::CubicTo { ctrl1, ctrl2, end }, GlyphNodeRole::CubicControl1) => Some(ctrl1),
        (PathCmd::CubicTo { ctrl1, ctrl2, end }, GlyphNodeRole::CubicControl2) => Some(ctrl2),
        (PathCmd::CubicTo { ctrl1, ctrl2, end }, GlyphNodeRole::Endpoint) => Some(end),
        _ => None,
    }
}

/// The point a node stands for in an outline.
pub open spec fn node_point(outline: Seq<PathCmd>, node: GlyphNodeId) -> Option<Point> {
    if node.command_index < outline.len() {
        command_point(outline[node.command_index as int], node.role)
    } else {
        None
    }
}

/// The command with the node's point replaced.
pub open spec fn command_with(cmd: PathCmd, role: GlyphNodeRole, p: Point) -> PathCmd {
    match (cmd, role) {
        (PathCmd::MoveTo(_), GlyphNodeRole::Endpoint) => PathCmd::MoveTo(p),
        (PathCmd::LineTo(_), GlyphNodeRole::Endpoint) => PathCmd::LineTo(p),
        (PathCmd::QuadTo { ctrl, end }, GlyphNodeRole::QuadControl) => PathCmd::QuadTo { ctrl: p, end },
        (PathCmd::QuadTo { ctrl, end }, GlyphNodeRole::Endpoint) => PathCmd::QuadTo { ctrl, end: p },
        (PathCmd::CubicTo { ctrl1, ctrl2, end }, GlyphNodeRole::CubicControl1) => PathCmd::CubicTo {
            ctrl1: p,
            ctrl2,
            end,
        },
        (PathCmd::CubicTo { ctrl1, ctrl2, end }, GlyphNodeRole::CubicControl2) => PathCmd::CubicTo {
            ctrl1,
            ctrl2: p,
            end,
        },
        (PathCmd::CubicTo { ctrl1, ctrl2, end }, GlyphNodeRole::Endpoint) => PathCmd::CubicTo {
            ctrl1,
            ctrl2,
            end: p,
        },
        _ => cmd,
    }
}

/// The point of a node of the outline, if the outline has that node.
pub fn glyph_node_point(outline: &[PathCmd], node: GlyphNodeId) -> (r: Option<Point>)
    ensures
        r == node_point(outline@, node),
{
    if node.command_index >= outline.len() {
        return None;
    }
    match (outline[node.command_index], node.role) {
        (PathCmd::MoveTo(p), GlyphNodeRole::Endpoint) => Some(p),
        (PathCmd::LineTo(p), GlyphNodeRole::Endpoint) => Some(p),
        (PathCmd::QuadTo { ctrl, end: _ }, GlyphNodeRole::QuadControl) => Some(ctrl),
        (PathCmd::QuadTo { ctrl: _, end }, GlyphNodeRole::Endpoint) => Some(end),
        (PathCmd::CubicTo { ctrl1, ctrl2: _, end: _ }, GlyphNodeRole::CubicControl1) => Some(ctrl1),
        (PathCmd::CubicTo { ctrl1: _, ctrl2, end: _ }, GlyphNodeRole::CubicControl2) => Some(ctrl2),
        (PathCmd::CubicTo { ctrl1: _, ctrl2: _, end }, GlyphNodeRole::Endpoint) => Some(end),
        _ => None,
    }
}

/// Moving a node puts that node at the new point and leaves every other
/// node where it was; no node appears or disappears.
pub proof fn lemma_move_puts_node_at_point(outline: Seq<PathCmd>, node: GlyphNodeId, point: Point)
    requires
        node_point(outline, node) is Some,
    ensures
        ({
            let moved = outline.update(
                node.command_index as int,
                command_with(outline[node.command_index as int], node.role, point),
            );
            &&& node_point(moved, node) == Some(point)
            &&& forall|other: GlyphNodeId| other != node ==> #[trigger] node_point(moved, other) == node_point(outline, other)
        }),
{
    let moved = outline.update(
        node.command_index as int,
        command_with(outline[node.command_index as int], node.role, point),
    );
    assert forall|other: GlyphNodeId| other != node implies #[trigger] node_point(moved, other) == node_point(outline, other) by {
        if other.command_index != node.command_index {
            if other.command_index < outline.len() {
                assert(moved[other.command_index as int] == outline[other.command_index as int]);
            }
        }
    }
}

/// Moves a node of the outline to `point`; false (and no change) when the
/// outline has no such node.
pub fn move_glyph_node(outline: &mut Vec<PathCmd>, node: GlyphNodeId, point: Point) -> (moved: bool)
    ensures
        moved == node_point(old(outline)@, node) is Some,
        moved ==> final(outline)@ == old(outline)@.update(
            node.command_index as int,
            command_with(old(outline)@[node.command_index as int], node.role, point),
        ),
        !moved ==> final(outline)@ == old(outline)@,
        moved ==> node_point(final(outline)@, node) == Some(point),
        forall|other: GlyphNodeId| other != node ==> #[trigger] node_point(final(outline)@, other) == node_point(
            old(outline)@,
            other,
        ),
{
    if node.command_index >= outline.len() {
        return false;
    }
    proof {
        if node_point(outline@, node) is Some {
            lemma_move_puts_node_at_point(outline@, node, point);
        }
    }
    let cmd = outline[node.command_index];
    let updated = match (cmd, node.role) {
        (PathCmd::MoveTo(_), GlyphNodeRole::Endpoint) => PathCmd::MoveTo(point),
        (PathCmd::LineTo(_), GlyphNodeRole::Endpoint) => PathCmd::LineTo(point),
        (PathCmd::QuadTo { ctrl: _, end }, GlyphNodeRole::QuadControl) => PathCmd::QuadTo {
            ctrl: point,
            end,
        },
        (PathCmd::QuadTo { ctrl, end: _ }, GlyphNodeRole::Endpoint) => PathCmd::QuadTo {
            ctrl,
            end: point,
        },
        (PathCmd::CubicTo { ctrl1: _, ctrl2, end }, GlyphNodeRole::CubicControl1) => PathCmd::CubicTo {
            ctrl1: point,
            ctrl2,
            end,
        },
        (PathCmd::CubicTo { ctrl1, ctrl2: _, end }, GlyphNodeRole::CubicControl2) => PathCmd::CubicTo {
            ctrl1,
            ctrl2: point,
            end,
        },
        (PathCmd::CubicTo { ctrl1, ctrl2, end: _ }, GlyphNodeRole::Endpoint) => PathCmd::CubicTo {
            ctrl1,
            ctrl2,
            end: point,
        },
        _ => {
            return false;
        },
    };
    outline.set(node.command_index, updated);
    true
}

/// Whether deleting the node keeps a valid outline: a line endpoint (the line
/// goes away) or a curve control (the curve becomes a line).
pub open spec fn deletable(outline: Seq<PathCmd>, node: GlyphNodeId) -> bool {
    node.command_index < outline.len() && match (outline[node.command_index as int], node.role) {
        (PathCmd::LineTo(_), GlyphNodeRole::Endpoint) => true,
        (PathCmd::QuadTo { .. }, GlyphNodeRole::QuadControl) => true,
        (PathCmd::CubicTo { .. }, GlyphNodeRole::CubicControl1) => true,
        (PathCmd::CubicTo { .. }, GlyphNodeRole::CubicControl2) => true,
        _ => false,
    }
}

/// The endpoint of a drawing command.
pub open spec fn command_end(cmd: PathCmd) -> Option<Point> {
    match cmd {
        PathCmd::MoveTo(p) => Some(p),
        PathCmd::LineTo(p) => Some(p),
        PathCmd::QuadTo { ctrl, end } => Some(end),
        PathCmd::CubicTo { ctrl1, ctrl2, end } => Some(end),
        PathCmd::Close => None,
    }
}

/// The outline after deleting a deletable node.
pub open spec fn outline_after_delete(outline: Seq<PathCmd>, node: GlyphNodeId) -> Seq<PathCmd> {
    let i = node.command_index as int;
    match outline[i] {
        PathCmd::LineTo(_) => outline.remove(i),
        _ => outline.update(i, PathCmd::LineTo(command_end(outline[i])->0)),
    }
}

/// Whether the node can be deleted.
pub fn can_delete_glyph_node(outline: &[PathCmd], node: GlyphNodeId) -> (b: bool)
    ensures
        b == deletable(outline@, node),
{
    if node.command_index >= outline.len() {
        return false;
    }
    match (outline[node.command_index], node.role) {
        (PathCmd::LineTo(_), GlyphNodeRole::Endpoint) => true,
        (PathCmd::QuadTo { .. }, GlyphNodeRole::QuadControl) => true,
        (PathCmd::CubicTo { .. }, GlyphNodeRole::CubicControl1) => true,
        (PathCmd::CubicTo { .. }, GlyphNodeRole::CubicControl2) => true,
        _ => false,
    }
}

/// Deletes a node: a line endpoint removes the line, a curve control turns the
/// curve into a line to its endpoint. False (and no change) for other nodes.
pub fn delete_glyph_node(outline: &mut Vec<PathCmd>, node: GlyphNodeId) -> (deleted: bool)
    ensures
        deleted == deletable(old(outline)@, node),
        deleted ==> final(outline)@ == outline_after_delete(old(outline)@, node),
        !deleted ==> final(outline)@ == old(outline)@,
{
    if node.command_index >= outline.len() {
        return false;
    }
    let i = node.command_index;
    match (outline[i], node.role) {
        (PathCmd::LineTo(_), GlyphNodeRole::Endpoint) => {
            outline.remove(i);
            true
        },
        (PathCmd::QuadTo { ctrl: _, end }, GlyphNodeRole::QuadControl) => {
            outline.set(i, PathCmd::LineTo(end));
            true
        },
        (PathCmd::CubicTo { ctrl1: _, ctrl2: _, end }, GlyphNodeRole::CubicControl1) => {
            outline.set(i, PathCmd::LineTo(end));
            true
        },
        (PathCmd::CubicTo { ctrl1: _, ctrl2: _, end }, GlyphNodeRole::CubicControl2) => {
            outline.set(i, PathCmd::LineTo(end));
            true
        },
        _ => false,
    }
}

/// Whether a point can be added after the node: it must be an endpoint that
/// another drawing command follows.
pub open spec fn addable(outline: Seq<PathCmd>, node: GlyphNodeId) -> bool {
    &&& node.role == GlyphNodeRole::Endpoint
    &&& node_point(outline, node) is Some
    &&& node.command_index + 1 < outline.len()
    &&& outline[node.command_index + 1] != PathCmd::Close
}

/// Halving toward zero, as integer division by two does.
pub open spec fn half_toward_zero(v: int) -> int {
    if v >= 0 {
        v / 2
    } else {
        -((-v) / 2)
    }
}

/// The point halfway between two points (coordinates halved toward zero).
pub open spec fn midpoint(a: Point, b: Point) -> Point {
    Point {
        x: half_toward_zero(a.x + b.x) as i32,
        y: half_toward_zero(a.y + b.y) as i32,
    }
}

/// The outline after adding a point after an addable node: a line to the
/// midpoint between the node and the next command's endpoint.
pub open spec fn outline_after_add(outline: Seq<PathCmd>, node: GlyphNodeId) -> Seq<PathCmd> {
    let i = node.command_index as int;
    outline.insert(
        i + 1,
        PathCmd::LineTo(midpoint(node_point(outline, node)->0, command_end(outline[i + 1])->0)),
    )
}

/// Whether a point can be added after the node.
pub fn can_add_glyph_node(outline: &[PathCmd], node: GlyphNodeId) -> (b: bool)
    ensures
        b == addable(outline@, node),
{
    if node.role != GlyphNodeRole::Endpoint {
        return false;
    }
    if glyph_node_point(outline, node).is_none() {
        return false;
    }
    if node.command_index >= outline.len() || node.command_index + 1 >= outline.len() {
        return false;
    }
    match outline[node.command_index + 1] {
        PathCmd::Close => false,
        _ => true,
    }
}

fn half(v: i64) -> (h: i64)
    requires
        -0x1_0000_0000 <= v <= 0x1_0000_0000,
    ensures
        h == half_toward_zero(v as int),
{
    if v >= 0 {
        v / 2
    } else {
        -((-v) / 2)
    }
}

/// Adds a point after an endpoint node: a line to the midpoint between it and
/// the endpoint of the next command. False (and no change) when the node is
/// not an endpoint followed by another drawing command.
pub fn add_glyph_node(outline: &mut Vec<PathCmd>, node: GlyphNodeId) -> (added: bool)
    ensures
        added == addable(old(outline)@, node),
        added ==> final(outline)@ == outline_after_add(old(outline)@, node),
        !added ==> final(outline)@ == old(outline)@,
{
    if node.role != GlyphNodeRole::Endpoint {
        return false;
    }
    let current = match glyph_node_point(outline, node) {
        Some(p) => p,
        None => return false,
    };
    if node.command_index >= outline.len() || node.command_index + 1 >= outline.len() {
        return false;
    }
    let next = match outline[node.command_index + 1] {
        PathCmd::LineTo(p) => p,
        PathCmd::MoveTo(p) => p,
        PathCmd::QuadTo { ctrl: _, end } => end,
        PathCmd::CubicTo { ctrl1: _, ctrl2: _, end } => end,
        PathCmd::Close => return false,
    };
    let x = half(current.x as i64 + next.x as i64);
    let y = half(current.y as i64 + next.y as i64);
    let mid = Point { x: x as i32, y: y as i32 };
    outline.insert(node.command_index + 1, PathCmd::LineTo(mid));
    true
}

/// How many outlines the undo history keeps at most.
pub const GLYPH_HISTORY_LIMIT: usize = 64;

/// The outlines of a history stack.
pub open spec fn stack_view(stack: Seq<Vec<PathCmd>>) -> Seq<Seq<PathCmd>> {
    Seq::new(stack.len(), |i: int| stack[i]@)
}

/// Undo/redo history and node selection of the glyph editor.
pub struct GlyphEditorState {
    pub selected_node: Option<GlyphNodeId>,
    pub undo: Vec<Vec<PathCmd>>,
    pub redo: Vec<Vec<PathCmd>>,
    pub drag_before: Option<Vec<PathCmd>>,
}

impl GlyphEditorState {
    /// The outlines that undo goes back to, oldest first.
    pub open spec fn undo_stack(&self) -> Seq<Seq<PathCmd>> {
        stack_view(self.undo@)
    }

    /// The outlines that redo goes forward to, the next one last.
    pub open spec fn redo_stack(&self) -> Seq<Seq<PathCmd>> {
        stack_view(self.redo@)
    }

    /// Undo and redo steps together never number more than
    /// `GLYPH_HISTORY_LIMIT`: recording caps the undo steps and clears redo,
    /// and undo and redo only move a step from one stack to the other.
    pub open spec fn wf(&self) -> bool {
        self.undo_stack().len() + self.redo_stack().len() <= GLYPH_HISTORY_LIMIT
    }

    /// An editor with no selection and no history.
    pub fn new() -> (s: Self)
        ensures
            s.undo_stack() == Seq::<Seq<PathCmd>>::empty(),
            s.redo_stack() == Seq::<Seq<PathCmd>>::empty(),
            s.selected_node is None,
            s.drag_before is None,
            s.wf(),
    {
        let s = GlyphEditorState {
            selected_node: None,
            undo: Vec::new(),
            redo: Vec::new(),
            drag_before: None,
        };
        assert(stack_view(s.undo@) == Seq::<Seq<PathCmd>>::empty());
        assert(stack_view(s.redo@) == Seq::<Seq<PathCmd>>::empty());
        s
    }

    /// Records the outline as it was before an edit: it becomes the newest undo
    /// step unless it equals the newest one, the oldest step is dropped when
    /// the history is full, and the redo steps are discarded.
    pub fn record(&mut self, before: Vec<PathCmd>)
        ensures
            old(self).wf() ==> final(self).wf(),
            final(self).redo_stack() == Seq::<Seq<PathCmd>>::empty(),
            final(self).undo_stack() == record_spec(old(self).undo_stack(), before@),
            final(self).selected_node == old(self).selected_node,
            final(self).drag_before == old(self).drag_before,
    {
        let ghost old_undo = self.undo_stack();
        let same = self.undo.len() > 0 && outlines_equal(&self.undo[self.undo.len() - 1], &before);
        if !same {
            let ghost b = before@;
            self.undo.push(before);
            assert(stack_view(self.undo@) == old_undo.push(b));
            if self.undo.len() > GLYPH_HISTORY_LIMIT {
                let ghost pushed = stack_view(self.undo@);
                self.undo.remove(0);
                assert(stack_view(self.undo@) == pushed.drop_first());
            }
        }
        self.redo.clear();
        assert(stack_view(self.redo@) == Seq::<Seq<PathCmd>>::empty());
    }

    /// Steps back: returns the newest undo outline and keeps `current` for redo.
    pub fn undo(&mut self, current: &[PathCmd]) -> (r: Option<Vec<PathCmd>>)
        ensures
            old(self).wf() ==> final(self).wf(),
            old(self).undo_stack().len() == 0 ==> r is None && final(self).undo_stack() == old(
                self,
            ).undo_stack() && final(self).redo_stack() == old(self).redo_stack(),
            old(self).undo_stack().len() > 0 ==> (r matches Some(v) && v@ == old(
                self,
            ).undo_stack().last()),
            old(self).undo_stack().len() > 0 ==> final(self).undo_stack() == old(
                self,
            ).undo_stack().drop_last(),
            old(self).undo_stack().len() > 0 ==> final(self).redo_stack() == old(
                self,
            ).redo_stack().push(current@),
            final(self).selected_node == old(self).selected_node,
            final(self).drag_before == old(self).drag_before,
    {
        let ghost u = self.undo_stack();
        let ghost rd = self.redo_stack();
        match self.undo.pop() {
            None => None,
            Some(previous) => {
                assert(stack_view(self.undo@) == u.drop_last());
                let c = vstd::slice::slice_to_vec(current);
                self.redo.push(c);
                assert(stack_view(self.redo@) == rd.push(current@));
                Some(previous)
            },
        }
    }

    /// Steps forward: returns the newest redo outline and keeps `current` for undo.
    pub fn redo(&mut self, current: &[PathCmd]) -> (r: Option<Vec<PathCmd>>)
        ensures
            old(self).wf() ==> final(self).wf(),
            old(self).redo_stack().len() == 0 ==> r is None && final(self).undo_stack() == old(
                self,
            ).undo_stack() && final(self).redo_stack() == old(self).redo_stack(),
            old(self).redo_stack().len() > 0 ==> (r matches Some(v) && v@ == old(
                self,
            ).redo_stack().last()),
            old(self).redo_stack().len() > 0 ==> final(self).redo_stack() == old(
                self,
            ).redo_stack().drop_last(),
            old(self).redo_stack().len() > 0 ==> final(self).undo_stack() == old(
                self,
            ).undo_stack().push(current@),
            final(self).selected_node == old(self).selected_node,
            final(self).drag_before == old(self).drag_before,
    {
        let ghost u = self.undo_stack();
        let ghost rd = self.redo_stack();
        match self.redo.pop() {
            None => None,
            Some(next) => {
                assert(stack_view(self.redo@) == rd.drop_last());
                let c = vstd::slice::slice_to_vec(current);
                self.undo.push(c);
                assert(stack_view(self.undo@) == u.push(current@));
                Some(next)
            },
        }
    }

    /// Whether there is a step to undo.
    pub fn can_undo(&self) -> (b: bool)
        ensures
            b == (self.undo_stack().len() > 0),
    {
        self.undo.len() > 0
    }

    /// Whether there is a step to redo.
    pub fn can_redo(&self) -> (b: bool)
        ensures
            b == (self.redo_stack().len() > 0),
    {
        self.redo.len() > 0
    }
}

impl Default for GlyphEditorState {
    /// An editor with no selection and no history.
    fn default() -> (s: Self)
        ensures
            s.undo@.len() == 0,
            s.redo@.len() == 0,
            s.selected_node is None,
            s.drag_before is None,
    {
        GlyphEditorState::new()
    }
}

/// A glyph opened from a font for viewing and editing: its name, code point,
/// the character it stands for, its metrics, its outline (and whether that is
/// an approximation), the font it came from and its edit history.
pub struct OpenedGlyph {
    pub name: String,
    pub codepoint: u32,
    pub char_repr: String,
    pub advance: u16,
    pub bearing: (i16, i16),
    pub bbox: (i16, i16, i16, i16),
    pub outline: Vec<PathCmd>,
    pub outline_approximate: bool,
    pub source_font: String,
    pub source_is_sdf: bool,
    pub editor: GlyphEditorState,
}

/// The undo stack after recording `before`.
pub open spec fn record_spec(undo: Seq<Seq<PathCmd>>, before: Seq<PathCmd>) -> Seq<Seq<PathCmd>> {
    if undo.len() > 0 && undo.last() == before {
        undo
    } else if undo.len() + 1 > GLYPH_HISTORY_LIMIT {
        undo.push(before).drop_first()
    } else {
        undo.push(before)
    }
}

/// Whether two outlines are equal command by command.
pub fn outlines_equal(a: &Vec<PathCmd>, b: &Vec<PathCmd>) -> (eq: bool)
    ensures
        eq == (a@ == b@),
{
    if a.len() != b.len() {
        return false;
    }
    let mut i: usize = 0;
    while i < a.len()
        invariant
            i <= a.len(),
            a.len() == b.len(),
            forall|j: int| 0 <= j < i ==> a@[j] == b@[j],
        decreases a.len() - i,
    {
        if a[i] != b[i] {
            return false;
        }
        i += 1;
    }
    assert(a@ =~= b@);
    true
}

/// Undoing a step and redoing it puts back the outline that was current and
/// both stacks as they were.
pub proof fn lemma_undo_redo_roundtrip(
    undo: Seq<Seq<PathCmd>>,
    redo: Seq<Seq<PathCmd>>,
    current: Seq<PathCmd>,
)
    requires
        undo.len() > 0,
    ensures
        ({
            let undo1 = undo.drop_last();
            let redo1 = redo.push(current);
            let previous = undo.last();
            &&& redo1.last() == current
            &&& redo1.drop_last() == redo
            &&& undo1.push(previous) == undo
        }),
{
    assert(redo.push(current).drop_last() == redo);
    assert(undo.drop_last().push(undo.last()) == undo);
}

/// Recording never lets the history grow past its limit.
pub proof fn lemma_record_bounded(undo: Seq<Seq<PathCmd>>, before: Seq<PathCmd>)
    requires
        undo.len() <= GLYPH_HISTORY_LIMIT,
    ensures
        record_spec(undo, before).len() <= GLYPH_HISTORY_LIMIT,
        record_spec(undo, before).len() > 0,
        record_spec(undo, before).last() == before,
{
}

} // verus!
