//! Display settings: where the overlay sits and how keys are shown.
use vstd::prelude::*;

verus! {

/// How long a keystroke stays on screen, in milliseconds.
pub const DEFAULT_DISPLAY_TIMEOUT_MS: u64 = 2000;

/// How long a bubble stays on screen, in milliseconds.
pub const DEFAULT_BUBBLE_TIMEOUT_MS: u64 = 10000;

/// How many keys are shown at once.
pub const DEFAULT_MAX_KEYS: usize = 5;

/// Distance from the screen edges, in pixels.
pub const DEFAULT_MARGIN: i32 = 20;

/// How typed keys are presented.
#[derive(Debug, Clone, Copy, PartialEq, Eq, Structural)]
pub enum DisplayMode {
    Keystroke,
    Bubble,
}

impl Default for DisplayMode {
    fn default() -> (mode: Self)
        ensures
            mode == DisplayMode::Keystroke,
    {
        DisplayMode::Keystroke
    }
}

/// Where on the screen the overlay sits.
#[derive(Debug, Clone, Copy, PartialEq, Eq, Structural)]
pub enum Position {
    TopLeft,
    TopCenter,
    TopRight,
    MiddleLeft,
    Center,
    MiddleRight,
    BottomLeft,
    BottomCenter,
    BottomRight,
}

impl Default for Position {
    fn default() -> (position: Self)
        ensures
            position == Position::BottomCenter,
    {
        Position::BottomCenter
    }
}

/// A screen edge that a layer-shell surface can be anchored to.
#[derive(Debug, Clone, Copy, PartialEq, Eq, Structural)]
pub enum Edge {
    Left,
    Right,
    Top,
    Bottom,
}

/// The position lies along the top edge.
pub open spec fn anchored_top(position: Position) -> bool {
    position is TopLeft || position is TopCenter || position is TopRight
}

/// The position lies along the left edge.
pub open spec fn anchored_left(position: Position) -> bool {
    position is TopLeft || position is MiddleLeft || position is BottomLeft
}

/// The position lies along the bottom edge.
pub open spec fn anchored_bottom(position: Position) -> bool {
    position is BottomLeft || position is BottomCenter || position is BottomRight
}

/// The position lies along the right edge.
pub open spec fn anchored_right(position: Position) -> bool {
    position is TopRight || position is MiddleRight || position is BottomRight
}

/// The anchor of each edge for a position, always in the order top, left,
/// bottom, right.
pub open spec fn edge_anchors(position: Position) -> Seq<(Edge, bool)> {
    seq![
        (Edge::Top, anchored_top(position)),
        (Edge::Left, anchored_left(position)),
        (Edge::Bottom, anchored_bottom(position)),
        (Edge::Right, anchored_right(position)),
    ]
}

impl Position {
    /// For each screen edge, whether a surface at this position is anchored
    /// to it (top, left, bottom, right).
    pub fn layer_shell_edges(self) -> (edges: Vec<(Edge, bool)>)
        ensures
            edges@ == edge_anchors(self),
    {
        let (top, left, bottom, right) = match self {
            Position::TopLeft => (true, true, false, false),
            Position::TopCenter => (true, false, false, false),
            Position::TopRight => (true, false, false, true),
            Position::MiddleLeft => (false, true, false, false),
            Position::Center => (false, false, false, false),
            Position::MiddleRight => (false, false, false, true),
            Position::BottomLeft => (false, true, true, false),
            Position::BottomCenter => (false, false, true, false),
            Position::BottomRight => (false, false, true, true),
        };
        let mut edges: Vec<(Edge, bool)> = Vec::new();
        edges.push((Edge::Top, top));
        edges.push((Edge::Left, left));
        edges.push((Edge::Bottom, bottom));
        edges.push((Edge::Right, right));
        assert(edges@ =~= edge_anchors(self));
        edges
    }
}

/// No position is anchored to two opposite edges.
pub proof fn lemma_no_opposite_anchors(position: Position)
    ensures
        !(anchored_top(position) && anchored_bottom(position)),
        !(anchored_left(position) && anchored_right(position)),
{
}

/// Only the center is anchored to no edge at all.
pub proof fn lemma_only_center_floats(position: Position)
    ensures
        (!anchored_top(position) && !anchored_left(position) && !anchored_bottom(position)
            && !anchored_right(position)) <==> position == Position::Center,
{
}

/// Different positions anchor different edges: the anchors determine the position.
pub proof fn lemma_anchors_determine_position(a: Position, b: Position)
    requires
        edge_anchors(a) == edge_anchors(b),
    ensures
        a == b,
{
    assert(edge_anchors(a)[0] == edge_anchors(b)[0]);
    assert(edge_anchors(a)[1] == edge_anchors(b)[1]);
    assert(edge_anchors(a)[2] == edge_anchors(b)[2]);
    assert(edge_anchors(a)[3] == edge_anchors(b)[3]);
}

} // verus!
