//! Desktop geometry: which outer edge of the desktop the cursor is at.

use vstd::prelude::*;

verus! {

/// A position in the platform's global desktop coordinates: y grows
/// downwards, and displays left of or above the primary one have negative
/// coordinates.
#[derive(Clone, Copy, Debug, PartialEq, Eq, Structural)]
pub struct Point {
    pub x: i32,
    pub y: i32,
}

#[derive(Clone, Copy, Debug, PartialEq, Eq, Structural)]
pub enum Edge {
    Left,
    Right,
    Top,
    Bottom,
}

/// The pixel next to `point` in the direction of `edge`, as a pair of
/// mathematical integers (it may lie outside the `i32` range).
pub open spec fn beyond_spec(edge: Edge, point: Point) -> (int, int) {
    match edge {
        Edge::Left => (point.x - 1, point.y as int),
        Edge::Right => (point.x + 1, point.y as int),
        Edge::Top => (point.x as int, point.y - 1),
        Edge::Bottom => (point.x as int, point.y + 1),
    }
}

/// Whether a pair of integers is a representable desktop coordinate.
pub open spec fn representable(p: (int, int)) -> bool {
    i32::MIN <= p.0 <= i32::MAX && i32::MIN <= p.1 <= i32::MAX
}

/// How far `to` lies from `from` away from `edge`, into the desktop.
pub open spec fn inland_distance_spec(edge: Edge, from: Point, to: Point) -> int {
    match edge {
        Edge::Left => to.x - from.x,
        Edge::Right => from.x - to.x,
        Edge::Top => to.y - from.y,
        Edge::Bottom => from.y - to.y,
    }
}

/// The distance inland from an edge is how far the cursor moved across
/// that edge, into the desktop: only the coordinate across the edge counts,
/// so moving along the edge (`along` standing for any other coordinate)
/// changes nothing, and moving back out gives the negated distance.
pub proof fn lemma_inland_is_across_the_edge(from: Point, to: Point, along: i32)
    ensures
        inland_distance_spec(Edge::Left, from, to) == to.x - from.x,
        inland_distance_spec(Edge::Right, from, to) == from.x - to.x,
        inland_distance_spec(Edge::Top, from, to) == to.y - from.y,
        inland_distance_spec(Edge::Bottom, from, to) == from.y - to.y,
        inland_distance_spec(Edge::Left, from, to) == inland_distance_spec(
            Edge::Left,
            from,
            Point { x: to.x, y: along },
        ),
        inland_distance_spec(Edge::Right, from, to) == inland_distance_spec(
            Edge::Right,
            from,
            Point { x: to.x, y: along },
        ),
        inland_distance_spec(Edge::Top, from, to) == inland_distance_spec(
            Edge::Top,
            from,
            Point { x: along, y: to.y },
        ),
        inland_distance_spec(Edge::Bottom, from, to) == inland_distance_spec(
            Edge::Bottom,
            from,
            Point { x: along, y: to.y },
        ),
        forall|edge: Edge|
            #[trigger] inland_distance_spec(edge, to, from) == -inland_distance_spec(edge, from, to),
{
}

/// The cursor and the displays, as the platform reports them.
pub trait Desktop {
    /// Whether some display shows `point`.
    spec fn shows(&self, point: Point) -> bool;

    /// The cursor position, or `None` when it cannot be read (e.g. while the
    /// screen is locked).
    fn cursor(&self) -> Option<Point>;

    /// Whether any display shows `point`.
    fn contains(&self, point: Point) -> (shown: bool)
        ensures
            shown == self.shows(point),
    ;
}

/// The first of `edges` that `point` lies on. A point is on an edge of the
/// desktop when no display continues past it in that direction, so borders
/// between adjacent displays never count, however the displays are
/// arranged.
pub fn edge_at<D: Desktop + ?Sized>(desktop: &D, point: Point, edges: &[Edge]) -> (found: Option<Edge>)
    ensures
        found == first_edge_at(desktop, point, edges@),
{
    let mut i: usize = 0;
    assert(edges@.skip(0) =~= edges@);
    while i < edges.len()
        invariant
            0 <= i <= edges@.len(),
            first_edge_at(desktop, point, edges@)
                == first_edge_at(desktop, point, edges@.skip(i as int)),
        decreases edges@.len() - i,
    {
        let edge = edges[i];
        let on_edge = match edge.beyond(point) {
            None => true,
            Some(next) => !desktop.contains(next),
        };
        assert(edges@.skip(i as int).first() == edge);
        assert(edges@.skip(i as int).drop_first() =~= edges@.skip(i + 1));
        if on_edge {
            return Some(edge);
        }
        i = i + 1;
    }
    None
}

/// Whether `point` lies on `edge` of `desktop`: no display shows the pixel
/// past it in that direction.
pub open spec fn on_edge<D: Desktop + ?Sized>(desktop: &D, point: Point, edge: Edge) -> bool {
    let next = beyond_spec(edge, point);
    !representable(next) || !desktop.shows(Point { x: next.0 as i32, y: next.1 as i32 })
}

/// The first of `edges` that `point` lies on.
pub open spec fn first_edge_at<D: Desktop + ?Sized>(
    desktop: &D,
    point: Point,
    edges: Seq<Edge>,
) -> Option<Edge>
    decreases edges.len(),
{
    if edges.len() == 0 {
        None
    } else if on_edge(desktop, point, edges[0]) {
        Some(edges[0])
    } else {
        first_edge_at(desktop, point, edges.drop_first())
    }
}

/// The name of `edge`, as log messages show it.
pub open spec fn edge_name(edge: Edge) -> Seq<char> {
    match edge {
        Edge::Left => "left"@,
        Edge::Right => "right"@,
        Edge::Top => "top"@,
        Edge::Bottom => "bottom"@,
    }
}

/// `edge_at` finds the first of the given edges that the point lies on: the
/// edge it returns is one of them, the point lies on it, and on none before
/// it; where it returns none, the point lies on none of them.
pub proof fn lemma_first_edge_at<D: Desktop + ?Sized>(desktop: &D, point: Point, edges: Seq<Edge>)
    ensures
        match first_edge_at(desktop, point, edges) {
            Some(edge) => exists|i: int|
                0 <= i < edges.len() && edges[i] == edge && on_edge(desktop, point, edge) && forall|
                    j: int,
                | 0 <= j < i ==> !on_edge(desktop, point, #[trigger] edges[j]),
            None => forall|i: int|
                0 <= i < edges.len() ==> !on_edge(desktop, point, #[trigger] edges[i]),
        },
    decreases edges.len(),
{
    if edges.len() > 0 {
        lemma_first_edge_at(desktop, point, edges.drop_first());
        if !on_edge(desktop, point, edges[0]) {
            match first_edge_at(desktop, point, edges.drop_first()) {
                Some(edge) => {
                    let i = choose|i: int|
                        0 <= i < edges.drop_first().len() && edges.drop_first()[i] == edge
                            && on_edge(desktop, point, edge) && forall|j: int|
                            0 <= j < i ==> !on_edge(
                                desktop,
                                point,
                                #[trigger] edges.drop_first()[j],
                            );
                    assert(edges[i + 1] == edge);
                    assert forall|j: int| 0 <= j < i + 1 implies !on_edge(
                        desktop,
                        point,
                        #[trigger] edges[j],
                    ) by {
                        if j > 0 {
                            assert(edges[j] == edges.drop_first()[j - 1]);
                        }
                    }
                },
                None => {
                    assert forall|i: int| 0 <= i < edges.len() implies !on_edge(
                        desktop,
                        point,
                        #[trigger] edges[i],
                    ) by {
                        if i > 0 {
                            assert(edges[i] == edges.drop_first()[i - 1]);
                        }
                    }
                },
            }
        }
    }
}

/// A border between displays never counts as an edge: where a display shows
/// the pixel past `point` in the direction of `edge`, `edge_at` never
/// returns `edge` for `point`.
pub proof fn lemma_borders_are_no_edges<D: Desktop + ?Sized>(
    desktop: &D,
    point: Point,
    edges: Seq<Edge>,
    edge: Edge,
)
    requires
        representable(beyond_spec(edge, point)),
        desktop.shows(
            Point { x: beyond_spec(edge, point).0 as i32, y: beyond_spec(edge, point).1 as i32 },
        ),
    ensures
        first_edge_at(desktop, point, edges) != Some(edge),
{
    lemma_first_edge_at(desktop, point, edges);
}

impl Edge {
    /// Every edge, in the order in which they are checked.
    pub const ALL: [Edge; 4] = [Edge::Left, Edge::Right, Edge::Top, Edge::Bottom];

    /// How far `to` lies from `from` away from this edge, into the desktop.
    pub fn inland_distance(self, from: Point, to: Point) -> (distance: i32)
        requires
            i32::MIN <= inland_distance_spec(self, from, to) <= i32::MAX,
        ensures
            distance == inland_distance_spec(self, from, to),
    {
        match self {
            Edge::Left => to.x - from.x,
            Edge::Right => from.x - to.x,
            Edge::Top => to.y - from.y,
            Edge::Bottom => from.y - to.y,
        }
    }

    /// Like [`Edge::inland_distance`], widened so that it is defined for every
    /// pair of points.
    pub fn inland_distance_wide(self, from: Point, to: Point) -> (distance: i64)
        ensures
            distance == inland_distance_spec(self, from, to),
    {
        let (fx, fy, tx, ty) = (from.x as i64, from.y as i64, to.x as i64, to.y as i64);
        match self {
            Edge::Left => tx - fx,
            Edge::Right => fx - tx,
            Edge::Top => ty - fy,
            Edge::Bottom => fy - ty,
        }
    }

    /// The edge's name: `left`, `right`, `top` or `bottom`.
    pub fn to_string(&self) -> (name: String)
        ensures
            name@ == edge_name(*self),
    {
        match self {
            Edge::Left => "left".to_owned(),
            Edge::Right => "right".to_owned(),
            Edge::Top => "top".to_owned(),
            Edge::Bottom => "bottom".to_owned(),
        }
    }

    /// The pixel next to `point` in this edge's direction, or `None` where
    /// that pixel lies outside the coordinate range, so that no display can
    /// show it.
    fn beyond(self, point: Point) -> (next: Option<Point>)
        ensures
            match next {
                Some(p) => representable(beyond_spec(self, point)) && p.x == beyond_spec(
                    self,
                    point,
                ).0 && p.y == beyond_spec(self, point).1,
                None => !representable(beyond_spec(self, point)),
            },
    {
        let Point { x, y } = point;
        match self {
            Edge::Left => if x > i32::MIN {
                Some(Point { x: x - 1, y })
            } else {
                None
            },
            Edge::Right => if x < i32::MAX {
                Some(Point { x: x + 1, y })
            } else {
                None
            },
            Edge::Top => if y > i32::MIN {
                Some(Point { x, y: y - 1 })
            } else {
                None
            },
            Edge::Bottom => if y < i32::MAX {
                Some(Point { x, y: y + 1 })
            } else {
                None
            },
        }
    }
}

} // verus!
