use vstd::prelude::*;

use crate::color::Rgba;
use crate::grid::{cell_lt, position, Grid2, VecMapEntry};

verus! {

/// Per-color coordinate map
#[derive(Debug)]
pub struct Layer {
    pub color: Rgba,
    pub grid: Grid2<()>,
}

impl VecMapEntry for Layer {
    type Key = Rgba;

    type Value = Grid2<()>;

    open spec fn spec_key(&self) -> Rgba {
        self.color
    }

    open spec fn spec_value(&self) -> Grid2<()> {
        self.grid
    }

    open spec fn fresh_value(value: Grid2<()>) -> bool {
        value@ == Map::<(i32, i32), ()>::empty()
    }

    fn key(&self) -> (r: &Rgba) {
        &self.color
    }

    fn has_key(&self, k: &Rgba) -> (r: bool) {
        self.color == *k
    }

    fn value_mut(&mut self) -> (r: &mut Grid2<()>) {
        &mut self.grid
    }

    fn new(key: &Rgba) -> (r: Layer) {
        Layer { color: *key, grid: Grid2::new() }
    }
}

/// The model of a `Layer`: its colour and its set of cells
pub struct Band {
    pub color: Rgba,
    pub cells: Set<(i32, i32)>,
}

impl View for Layer {
    type V = Band;

    open spec fn view(&self) -> Band {
        Band { color: self.color, cells: self.grid@.dom() }
    }
}

/// The models of the layers `s`
pub open spec fn bands(s: Seq<Layer>) -> Seq<Band> {
    Seq::new(s.len(), |i: int| s[i]@)
}

/// The index of the first band of `s` with the colour `k`, or the length of `s`
pub open spec fn find(s: Seq<Band>, k: Rgba) -> int
    decreases s.len(),
{
    if s.len() == 0 {
        0
    } else if s[0].color == k {
        0
    } else {
        1 + find(s.drop_first(), k)
    }
}

/// The bands after the cell `c` was added to the band of the colour `k`;
/// where there is none yet, a new band comes at the end
pub open spec fn add_cell(s: Seq<Band>, k: Rgba, c: (i32, i32)) -> Seq<Band> {
    let i = find(s, k);
    if i < s.len() {
        s.update(i, Band { color: k, cells: s[i].cells.insert(c) })
    } else {
        s.push(Band { color: k, cells: Set::empty().insert(c) })
    }
}

/// The first layer of a colour is the first band of that colour.
pub proof fn lemma_find(s: Seq<Layer>, k: Rgba)
    ensures
        find(bands(s), k) == position(s, k),
        0 <= position(s, k) <= s.len(),
        position(s, k) < s.len() ==> s[position(s, k)].color == k,
    decreases s.len(),
{
    if s.len() > 0 && s[0].color != k {
        lemma_find(s.drop_first(), k);
        assert(bands(s).drop_first() =~= bands(s.drop_first()));
    }
}

/// A cell of the triangular grid
#[derive(Debug, Clone, Copy, PartialEq, Eq, Hash, Structural)]
pub struct TreeUV(pub i32, pub i32);

/// The side of a triangle cell towards one of its three neighbours
#[derive(Debug, Clone, Copy, PartialEq, Eq, Hash, Structural)]
pub enum TreeSide {
    Top,
    Bottom,
    Side,
}

/// Whether the cell `(u, v)` points left: `u + v` is even
pub open spec fn points_left(u: int, v: int) -> bool {
    (u + v) % 2 == 0
}

/// The neighbour of the cell `(u, v)` across `side`: above, below, or beside
/// it, to the right of a cell that points left and to the left of one that
/// points right
pub open spec fn neighbor(u: int, v: int, side: TreeSide) -> (int, int) {
    match side {
        TreeSide::Top => (u, v - 1),
        TreeSide::Bottom => (u, v + 1),
        TreeSide::Side => if points_left(u, v) {
            (u + 1, v)
        } else {
            (u - 1, v)
        },
    }
}

impl TreeUV {
    /// The first coordinate
    pub fn u(&self) -> (r: i32)
        ensures
            r == self.0,
    {
        self.0
    }

    /// The second coordinate
    pub fn v(&self) -> (r: i32)
        ensures
            r == self.1,
    {
        self.1
    }

    /// The cell above
    pub fn uv_top(&self) -> (r: (i32, i32))
        requires
            self.1 > i32::MIN,
        ensures
            (r.0 as int, r.1 as int) == neighbor(self.0 as int, self.1 as int, TreeSide::Top),
    {
        (self.u(), self.v() - 1)
    }

    /// The cell below
    pub fn uv_bottom(&self) -> (r: (i32, i32))
        requires
            self.1 < i32::MAX,
        ensures
            (r.0 as int, r.1 as int) == neighbor(self.0 as int, self.1 as int, TreeSide::Bottom),
    {
        (self.u(), self.v() + 1)
    }

    /// The cell beside: to the right of a cell that points left, else to the left
    pub fn uv_side(&self) -> (r: (i32, i32))
        requires
            i32::MIN < self.0 < i32::MAX,
        ensures
            (r.0 as int, r.1 as int) == neighbor(self.0 as int, self.1 as int, TreeSide::Side),
    {
        if self.is_pointing_left() {
            (self.u() + 1, self.v())
        } else {
            (self.u() - 1, self.v())
        }
    }

    /// Whether the cell points left: the sum of its coordinates is even
    pub fn is_pointing_left(&self) -> (r: bool)
        ensures
            r == points_left(self.0 as int, self.1 as int),
    {
        let sum: i64 = self.0 as i64 + self.1 as i64;
        sum % 2 == 0
    }

    /// The neighbour across `side`, None where it lies outside the grid's
    /// coordinates
    pub fn step(&self, side: TreeSide) -> (r: Option<(i32, i32)>)
        ensures
            ({
                let n = neighbor(self.0 as int, self.1 as int, side);
                match r {
                    Some(c) => c.0 == n.0 && c.1 == n.1,
                    None => !(i32::MIN <= n.0 <= i32::MAX && i32::MIN <= n.1 <= i32::MAX),
                }
            }),
    {
        match side {
            TreeSide::Top => if self.1 > i32::MIN {
                Some(self.uv_top())
            } else {
                None
            },
            TreeSide::Bottom => if self.1 < i32::MAX {
                Some(self.uv_bottom())
            } else {
                None
            },
            TreeSide::Side => if self.is_pointing_left() {
                if self.0 < i32::MAX {
                    Some((self.0 + 1, self.1))
                } else {
                    None
                }
            } else {
                if self.0 > i32::MIN {
                    Some((self.0 - 1, self.1))
                } else {
                    None
                }
            },
        }
    }
}

/// A node of a spanning tree: a cell and, by their places in the tree, the
/// nodes of the neighbours that were reached from it
#[derive(Debug, Clone, Copy)]
pub struct Branch {
    pub uv: TreeUV,
    pub top: Option<usize>,
    pub bottom: Option<usize>,
    /// Left or right side, depends on the center
    pub side: Option<usize>,
}

/// A spanning tree over cells that touch, with its root at place 0
#[derive(Debug)]
pub struct Tree3 {
    nodes: Vec<Branch>,
}

/// 1 where `o` holds a place, else 0
pub open spec fn present(o: Option<usize>) -> int {
    if o is Some {
        1
    } else {
        0
    }
}

impl TreeSide {
    /// The place of the side in the order top, bottom, side
    pub open spec fn order(self) -> int {
        match self {
            TreeSide::Top => 0,
            TreeSide::Bottom => 1,
            TreeSide::Side => 2,
        }
    }
}

impl Branch {
    /// The node of a cell without neighbours
    pub open spec fn leaf(c: (i32, i32)) -> Branch {
        Branch { uv: TreeUV(c.0, c.1), top: None, bottom: None, side: None }
    }

    /// The cell of the node
    pub open spec fn cell(self) -> (i32, i32) {
        (self.uv.0, self.uv.1)
    }

    /// The place of the neighbour across `side`
    pub open spec fn child(self, side: TreeSide) -> Option<usize> {
        match side {
            TreeSide::Top => self.top,
            TreeSide::Bottom => self.bottom,
            TreeSide::Side => self.side,
        }
    }

    /// The node with `c` as the place of the neighbour across `side`
    pub open spec fn with_child(self, side: TreeSide, c: usize) -> Branch {
        match side {
            TreeSide::Top => Branch { top: Some(c), ..self },
            TreeSide::Bottom => Branch { bottom: Some(c), ..self },
            TreeSide::Side => Branch { side: Some(c), ..self },
        }
    }

    /// The number of neighbours on the first `stage` sides
    pub open spec fn before(self, stage: int) -> int {
        if stage <= 0 {
            0
        } else if stage == 1 {
            present(self.top)
        } else if stage == 2 {
            present(self.top) + present(self.bottom)
        } else {
            present(self.top) + present(self.bottom) + present(self.side)
        }
    }

    /// The cell across `side`
    pub open spec fn across(self, side: TreeSide) -> (int, int) {
        neighbor(self.uv.0 as int, self.uv.1 as int, side)
    }
}

/// The place of the first node that was reached from node `i`: one more
/// than the number of nodes reached from the nodes before it
pub open spec fn first_child(nodes: Seq<Branch>, i: int) -> int
    decreases i,
{
    if i <= 0 {
        1
    } else {
        first_child(nodes, i - 1) + nodes[i - 1].before(3)
    }
}

/// The place that a node reached from node `i` across `side` has
pub open spec fn slot(nodes: Seq<Branch>, i: int, side: TreeSide) -> int {
    first_child(nodes, i) + nodes[i].before(side.order())
}

/// Whether `c` is the cell of one of the first `n` nodes
pub open spec fn among(nodes: Seq<Branch>, n: int, c: (int, int)) -> bool {
    exists|q: int| 0 <= q < n && q < nodes.len() && #[trigger] nodes[q].cell() == (c.0 as i32, c.1 as i32)
}

/// Whether `c` is a cell of `avail`
pub open spec fn offered(avail: Set<(i32, i32)>, c: (int, int)) -> bool {
    &&& i32::MIN <= c.0 <= i32::MAX
    &&& i32::MIN <= c.1 <= i32::MAX
    &&& avail.contains((c.0 as i32, c.1 as i32))
}

/// Whether the link of node `i` across `side` is that of a search in
/// breadth: a neighbour has the place that follows those reached before it
/// and holds the cell across the side; a neighbour is missing only where the
/// cell across the side is not offered or was reached before
pub open spec fn link_ok(nodes: Seq<Branch>, i: int, side: TreeSide, avail: Set<(i32, i32)>) -> bool {
    match nodes[i].child(side) {
        Some(c) => {
            &&& c == slot(nodes, i, side)
            &&& c < nodes.len()
            &&& offered(avail, nodes[i].across(side))
            &&& nodes[c as int].cell() == (
                nodes[i].across(side).0 as i32,
                nodes[i].across(side).1 as i32,
            )
        },
        None => !offered(avail, nodes[i].across(side)) || among(
            nodes,
            slot(nodes, i, side),
            nodes[i].across(side),
        ),
    }
}

/// The state of a search in breadth over the cells `avail` that has dealt
/// with the nodes before `head` and with the first `stage` sides of node
/// `head`
pub open spec fn search_inv(nodes: Seq<Branch>, head: int, stage: int, avail: Set<(i32, i32)>) -> bool {
    &&& nodes.len() >= 1
    &&& 0 <= head <= nodes.len()
    &&& 0 <= stage <= 3
    &&& head == nodes.len() ==> stage == 0
    &&& nodes.len() == first_child(nodes, head) + if head < nodes.len() {
        nodes[head].before(stage)
    } else {
        0
    }
    &&& forall|i: int| 0 <= i < nodes.len() && i <= head ==> first_child(nodes, i) > i
    &&& forall|i: int, side: TreeSide|
        0 <= i < nodes.len() && (i < head || (i == head && side.order() < stage)) ==> #[trigger] link_ok(
            nodes,
            i,
            side,
            avail,
        )
    &&& forall|i: int, side: TreeSide|
        0 <= i < nodes.len() && (i > head || (i == head && side.order() >= stage))
            ==> (#[trigger] nodes[i].child(side)) is None
    &&& forall|i: int, j: int|
        0 <= i < j < nodes.len() ==> (#[trigger] nodes[i]).cell() != (#[trigger] nodes[j]).cell()
    &&& forall|i: int| 0 <= i < nodes.len() ==> avail.contains((#[trigger] nodes[i]).cell())
}

/// Whether `nodes` is the tree of a search in breadth over the cells `avail`
/// that has come to its end
pub open spec fn tree_done(nodes: Seq<Branch>, avail: Set<(i32, i32)>) -> bool {
    search_inv(nodes, nodes.len() as int, 0, avail)
}

/// The cells of the nodes
pub open spec fn cells_of(nodes: Seq<Branch>) -> Set<(i32, i32)> {
    Set::new(|c: (i32, i32)| exists|i: int| 0 <= i < nodes.len() && #[trigger] nodes[i].cell() == c)
}

/// The cells of the first `t` trees
pub open spec fn cells_before(trees: Seq<Tree3>, t: int) -> Set<(i32, i32)>
    decreases t,
{
    if t <= 0 {
        Set::empty()
    } else {
        cells_before(trees, t - 1).union(cells_of(trees[t - 1]@))
    }
}

impl View for Tree3 {
    type V = Seq<Branch>;

    closed spec fn view(&self) -> Seq<Branch> {
        self.nodes@
    }
}

impl Tree3 {
    /// The tree of one cell
    pub fn new(u: i32, v: i32) -> (r: Tree3)
        ensures
            r@ == seq![Branch::leaf((u, v))],
    {
        let mut nodes = Vec::new();
        nodes.push(Branch { uv: TreeUV(u, v), top: None, bottom: None, side: None });
        assert(nodes@ =~= seq![Branch::leaf((u, v))]);
        Tree3 { nodes }
    }

    /// The number of nodes
    pub fn len(&self) -> (r: usize)
        ensures
            r == self@.len(),
    {
        self.nodes.len()
    }

    /// The node at place `i`
    pub fn node(&self, i: usize) -> (r: Branch)
        requires
            i < self@.len(),
        ensures
            r == self@[i as int],
    {
        self.nodes[i]
    }
}

/// The places of the first children do not depend on later nodes.
pub proof fn lemma_first_child_prefix(a: Seq<Branch>, b: Seq<Branch>, i: int)
    requires
        0 <= i <= a.len(),
        i <= b.len(),
        forall|k: int| 0 <= k < i ==> a[k] == b[k],
    ensures
        first_child(a, i) == first_child(b, i),
    decreases i,
{
    if i > 0 {
        lemma_first_child_prefix(a, b, i - 1);
    }
}

/// Looks at the cell across `side` of node `head`: where the grid holds it,
/// it leaves the grid and becomes a new node, reached from node `head`
fn grow(grid: &mut Grid2<()>, nodes: &mut Vec<Branch>, head: usize, side: TreeSide)
    requires
        head < old(nodes)@.len(),
    ensures
        ({
            let b = old(nodes)@[head as int];
            let n = b.across(side);
            let c = (n.0 as i32, n.1 as i32);
            if offered(old(grid)@.dom(), n) {
                &&& final(grid)@ == old(grid)@.remove(c)
                &&& final(nodes)@ == old(nodes)@.update(
                    head as int,
                    b.with_child(side, old(nodes)@.len() as usize),
                ).push(Branch::leaf(c))
            } else {
                &&& final(grid)@ == old(grid)@
                &&& final(nodes)@ == old(nodes)@
            }
        }),
{
    let b = nodes[head];
    let c = match b.uv.step(side) {
        Some(c) => c,
        None => {
            return ;
        },
    };
    if grid.remove(c.0, c.1).is_some() {
        let place = nodes.len();
        let with = match side {
            TreeSide::Top => Branch { uv: b.uv, top: Some(place), bottom: b.bottom, side: b.side },
            TreeSide::Bottom => Branch { uv: b.uv, top: b.top, bottom: Some(place), side: b.side },
            TreeSide::Side => Branch { uv: b.uv, top: b.top, bottom: b.bottom, side: Some(place) },
        };
        nodes.set(head, with);
        nodes.push(Branch { uv: TreeUV(c.0, c.1), top: None, bottom: None, side: None });
    } else {
        assert(grid@ =~= old(grid)@);
    }
}

/// The nodes after node `head` reached the cell `c` across `side`
pub open spec fn grown(nodes: Seq<Branch>, head: int, side: TreeSide, c: (i32, i32)) -> Seq<Branch> {
    nodes.update(head, nodes[head].with_child(side, nodes.len() as usize)).push(Branch::leaf(c))
}

/// A search that has dealt with all three sides of a node goes on with the
/// next node.
pub proof fn lemma_search_next(nodes: Seq<Branch>, head: int, avail: Set<(i32, i32)>)
    requires
        search_inv(nodes, head, 3, avail),
    ensures
        search_inv(nodes, head + 1, 0, avail),
{
    assert(head < nodes.len());
    assert(first_child(nodes, head + 1) == first_child(nodes, head) + nodes[head].before(3));
    assert forall|i: int, side: TreeSide|
        0 <= i < nodes.len() && (i < head + 1 || (i == head + 1 && side.order() < 0)) implies #[trigger] link_ok(
        nodes,
        i,
        side,
        avail,
    ) by {
        if i == head {
            assert(side.order() < 3);
        }
    }
}

/// A side whose cell is not in the grid leaves the search as it is, one
/// side further.
pub proof fn lemma_search_skip(
    nodes: Seq<Branch>,
    head: int,
    side: TreeSide,
    avail: Set<(i32, i32)>,
    grid: Set<(i32, i32)>,
)
    requires
        search_inv(nodes, head, side.order(), avail),
        head < nodes.len(),
        forall|c: (i32, i32)| grid.contains(c) <==> avail.contains(c) && !cells_of(nodes).contains(c),
        !offered(grid, nodes[head].across(side)),
    ensures
        search_inv(nodes, head, side.order() + 1, avail),
{
    let stage = side.order();
    let b = nodes[head];
    let n = b.across(side);
    assert(nodes[head].child(side) is None);
    assert(b.before(stage + 1) == b.before(stage));
    assert(link_ok(nodes, head, side, avail)) by {
        if offered(avail, n) {
            let c = (n.0 as i32, n.1 as i32);
            assert(cells_of(nodes).contains(c));
            let q = choose|q: int| 0 <= q < nodes.len() && #[trigger] nodes[q].cell() == c;
            assert(slot(nodes, head, side) == nodes.len());
            assert(among(nodes, slot(nodes, head, side), n));
        }
    }
    assert forall|i: int, other: TreeSide|
        0 <= i < nodes.len() && (i < head || (i == head && other.order() < stage + 1)) implies #[trigger] link_ok(
        nodes,
        i,
        other,
        avail,
    ) by {
        if i == head && other.order() == stage {
            assert(other == side);
        }
    }
}

/// A side whose cell is in the grid gives a new node, and the search goes
/// on one side further.
#[verifier::rlimit(60)]
pub proof fn lemma_search_grow(
    nodes: Seq<Branch>,
    head: int,
    side: TreeSide,
    avail: Set<(i32, i32)>,
    grid: Set<(i32, i32)>,
)
    requires
        search_inv(nodes, head, side.order(), avail),
        head < nodes.len(),
        nodes.len() <= usize::MAX,
        forall|c: (i32, i32)| grid.contains(c) <==> avail.contains(c) && !cells_of(nodes).contains(c),
        offered(grid, nodes[head].across(side)),
    ensures
        ({
            let n = nodes[head].across(side);
            let c = (n.0 as i32, n.1 as i32);
            let after = grown(nodes, head, side, c);
            &&& search_inv(after, head, side.order() + 1, avail)
            &&& forall|d: (i32, i32)|
                grid.remove(c).contains(d) <==> avail.contains(d) && !cells_of(after).contains(d)
        }),
{
    let stage = side.order();
    let b = nodes[head];
    let n = b.across(side);
    let c = (n.0 as i32, n.1 as i32);
    let len = nodes.len() as int;
    let b2 = b.with_child(side, len as usize);
    let after = grown(nodes, head, side, c);
    assert(after.len() == len + 1);
    assert(after[head] == b2);
    assert(after[len] == Branch::leaf(c));
    assert(b.child(side) is None);
    assert(b2.before(stage) == b.before(stage));
    assert(b2.before(stage + 1) == b.before(stage) + 1);
    assert forall|i: int| 0 <= i <= head implies first_child(after, i) == first_child(nodes, i) by {
        lemma_first_child_prefix(after, nodes, i);
    }
    assert forall|i: int| 0 <= i < after.len() && i != head && i != len implies after[i] == nodes[i] by {}
    assert forall|i: int| 0 <= i < len implies (#[trigger] after[i]).cell() == nodes[i].cell() by {}
    // the cell is new
    assert(!cells_of(nodes).contains(c));
    assert forall|i: int| 0 <= i < len implies (#[trigger] nodes[i]).cell() != c by {
        if nodes[i].cell() == c {
            assert(cells_of(nodes).contains(c));
        }
    }
    assert forall|i: int, j: int| 0 <= i < j < after.len() implies (#[trigger] after[i]).cell() != (
    #[trigger] after[j]).cell() by {
        if j < len {
            assert(nodes[i].cell() != nodes[j].cell());
        } else {
            assert(nodes[i].cell() != c);
        }
    }
    assert forall|i: int| 0 <= i < after.len() implies avail.contains((#[trigger] after[i]).cell()) by {
        if i < len {
            assert(avail.contains(nodes[i].cell()));
        }
    }
    assert forall|i: int, other: TreeSide|
        0 <= i < after.len() && (i > head || (i == head && other.order() >= stage + 1)) implies (
    #[trigger] after[i].child(other)) is None by {
        if i == head {
            assert(nodes[head].child(other) is None);
        } else if i < len {
            assert(nodes[i].child(other) is None);
        }
    }
    assert forall|i: int, other: TreeSide|
        0 <= i < after.len() && (i < head || (i == head && other.order() < stage + 1)) implies #[trigger] link_ok(
        after,
        i,
        other,
        avail,
    ) by {
        if i == head && other.order() == stage {
            assert(other == side);
            assert(slot(after, head, side) == len);
        } else {
            assert(link_ok(nodes, i, other, avail));
            assert(after[i].child(other) == nodes[i].child(other));
            assert(after[i].across(other) == nodes[i].across(other));
            assert(after[i].before(other.order()) == nodes[i].before(other.order()));
            assert(slot(after, i, other) == slot(nodes, i, other));
            match nodes[i].child(other) {
                Some(k) => {
                    assert(after[k as int].cell() == nodes[k as int].cell());
                },
                None => {
                    if offered(avail, nodes[i].across(other)) {
                        let m = nodes[i].across(other);
                        let q = choose|q: int|
                            0 <= q < slot(nodes, i, other) && q < nodes.len() && #[trigger] nodes[q].cell()
                                == (m.0 as i32, m.1 as i32);
                        assert(after[q].cell() == nodes[q].cell());
                        assert(among(after, slot(after, i, other), m));
                    }
                },
            }
        }
    }
    assert forall|d: (i32, i32)|
        grid.remove(c).contains(d) <==> avail.contains(d) && !cells_of(after).contains(d) by {
        if cells_of(after).contains(d) {
            let i = choose|i: int| 0 <= i < after.len() && #[trigger] after[i].cell() == d;
            if i < len {
                assert(nodes[i].cell() == d);
                assert(cells_of(nodes).contains(d));
            }
        }
        if cells_of(nodes).contains(d) {
            let i = choose|i: int| 0 <= i < nodes.len() && #[trigger] nodes[i].cell() == d;
            assert(after[i].cell() == d);
        }
        if d == c {
            assert(after[len].cell() == d);
        }
    }
}

/// The cells of the first trees do not depend on later trees.
pub proof fn lemma_cells_before_prefix(a: Seq<Tree3>, b: Seq<Tree3>, t: int)
    requires
        0 <= t <= a.len(),
        t <= b.len(),
        forall|k: int| 0 <= k < t ==> a[k] == b[k],
    ensures
        cells_before(a, t) == cells_before(b, t),
    decreases t,
{
    if t > 0 {
        lemma_cells_before_prefix(a, b, t - 1);
    }
}

/// The cells of `all` that are not among the first `t` trees
pub open spec fn cells_left(all: Set<(i32, i32)>, trees: Seq<Tree3>, t: int) -> Set<(i32, i32)> {
    all.difference(cells_before(trees, t))
}

/// Whether `trees` are the trees of a search in breadth over the cells
/// `all`: each tree starts at the least cell that the trees before it left,
/// and spans what can be reached from there over those cells
pub open spec fn forest_of(all: Set<(i32, i32)>, trees: Seq<Tree3>) -> bool {
    forall|t: int|
        0 <= t < trees.len() ==> {
            &&& tree_done(#[trigger] trees[t]@, cells_left(all, trees, t))
            &&& forall|c: (i32, i32)|
                cells_left(all, trees, t).contains(c) && c != trees[t]@[0].cell() ==> cell_lt(
                    trees[t]@[0].cell(),
                    c,
                )
        }
}

impl Layer {
    /// Consume the grid and make it into trees.
    ///
    /// The return is a vec because the grid may have multiple
    /// disjoint trees
    pub fn make_trees(&mut self) -> (r: Vec<Tree3>)
        ensures
            final(self).color == old(self).color,
            final(self).grid@.dom() =~= Set::<(i32, i32)>::empty(),
            forest_of(old(self).grid@.dom(), r@),
            cells_before(r@, r@.len() as int) =~= old(self).grid@.dom(),
    {
        let ghost all = self.grid@.dom();
        let mut trees: Vec<Tree3> = Vec::new();
        let _ = self.grid.len();
        loop
            invariant
                self.color == old(self).color,
                forest_of(all, trees@),
                forall|c: (i32, i32)|
                    self.grid@.dom().contains(c) <==> all.contains(c) && !cells_before(
                        trees@,
                        trees@.len() as int,
                    ).contains(c),
                forall|c: (i32, i32)|
                    cells_before(trees@, trees@.len() as int).contains(c) ==> all.contains(c),
                self.grid@.dom().finite(),
            ensures
                self.color == old(self).color,
                forest_of(all, trees@),
                self.grid@.dom() =~= Set::<(i32, i32)>::empty(),
                cells_before(trees@, trees@.len() as int) =~= all,
            decreases self.grid@.dom().len(),
        {
            let ghost before = self.grid@.dom();
            let ghost avail = cells_left(all, trees@, trees@.len() as int);
            let (u, v) = match self.grid.remove_one() {
                Some((u, v, _)) => (u, v),
                None => {
                    break ;
                },
            };
            assert(before =~= avail);
            let mut nodes: Vec<Branch> = Vec::new();
            nodes.push(Branch { uv: TreeUV(u, v), top: None, bottom: None, side: None });
            let mut head: usize = 0;
            proof {
                let s = nodes@;
                assert(s[0].cell() == (u, v));
                assert forall|c: (i32, i32)|
                    self.grid@.dom().contains(c) <==> avail.contains(c) && !cells_of(s).contains(
                        c,
                    ) by {
                    if cells_of(s).contains(c) {
                        let i = choose|i: int| 0 <= i < s.len() && #[trigger] s[i].cell() == c;
                        assert(c == (u, v));
                    }
                    if c == (u, v) {
                        assert(s[0].cell() == c);
                    }
                }
                assert(search_inv(s, 0, 0, avail));
            }
            while head < nodes.len()
                invariant
                    nodes@.len() >= 1,
                    nodes@[0].cell() == (u, v),
                    search_inv(nodes@, head as int, 0, avail),
                    forall|c: (i32, i32)|
                        self.grid@.dom().contains(c) <==> avail.contains(c) && !cells_of(
                            nodes@,
                        ).contains(c),
                    self.grid@.dom().finite(),
                    self.grid@.dom().len() < before.len(),
                    self.color == old(self).color,
                decreases self.grid@.dom().len() + nodes@.len() - head,
            {
                Self::expand(&mut self.grid, &mut nodes, head, TreeSide::Top, Ghost(avail));
                Self::expand(&mut self.grid, &mut nodes, head, TreeSide::Bottom, Ghost(avail));
                Self::expand(&mut self.grid, &mut nodes, head, TreeSide::Side, Ghost(avail));
                proof {
                    lemma_search_next(nodes@, head as int, avail);
                }
                head += 1;
            }
            let ghost done = trees@;
            let tree = Tree3 { nodes };
            trees.push(tree);
            proof {
                let now = trees@;
                let n = done.len() as int;
                assert(now[n]@ == tree@);
                assert forall|t: int| 0 <= t <= n implies cells_before(now, t) == cells_before(
                    done,
                    t,
                ) by {
                    lemma_cells_before_prefix(now, done, t);
                }
                assert(cells_before(now, n + 1) == cells_before(now, n).union(cells_of(tree@)));
                assert forall|t: int| 0 <= t < now.len() implies {
                    &&& tree_done(#[trigger] now[t]@, cells_left(all, now, t))
                    &&& forall|c: (i32, i32)|
                        cells_left(all, now, t).contains(c) && c != now[t]@[0].cell() ==> cell_lt(
                            now[t]@[0].cell(),
                            c,
                        )
                } by {
                    if t < n {
                        assert(now[t] == done[t]);
                        assert(tree_done(done[t]@, cells_left(all, done, t)));
                    } else {
                        assert(cells_left(all, now, n) == avail);
                    }
                }
                assert forall|c: (i32, i32)|
                    self.grid@.dom().contains(c) <==> all.contains(c) && !cells_before(
                        now,
                        now.len() as int,
                    ).contains(c) by {}
                assert forall|c: (i32, i32)|
                    cells_before(now, now.len() as int).contains(c) implies all.contains(c) by {
                    if cells_of(tree@).contains(c) {
                        let i = choose|i: int| 0 <= i < tree@.len() && #[trigger] tree@[i].cell() == c;
                        assert(avail.contains(tree@[i].cell()));
                    }
                }
            }
        }
        trees
    }

    /// One step of the search: looks across `side` of node `head`
    fn expand(
        grid: &mut Grid2<()>,
        nodes: &mut Vec<Branch>,
        head: usize,
        side: TreeSide,
        Ghost(avail): Ghost<Set<(i32, i32)>>,
    )
        requires
            head < old(nodes)@.len(),
            search_inv(old(nodes)@, head as int, side.order(), avail),
            forall|c: (i32, i32)|
                old(grid)@.dom().contains(c) <==> avail.contains(c) && !cells_of(
                    old(nodes)@,
                ).contains(c),
            old(grid)@.dom().finite(),
        ensures
            head < final(nodes)@.len(),
            final(nodes)@[0].cell() == old(nodes)@[0].cell(),
            search_inv(final(nodes)@, head as int, side.order() + 1, avail),
            forall|c: (i32, i32)|
                final(grid)@.dom().contains(c) <==> avail.contains(c) && !cells_of(
                    final(nodes)@,
                ).contains(c),
            final(grid)@.dom().finite(),
            final(grid)@.dom().len() + final(nodes)@.len() == old(grid)@.dom().len() + old(
                nodes,
            )@.len(),
            final(grid)@.dom().len() <= old(grid)@.dom().len(),
    {
        let _ = nodes.len();
        proof {
            let n = nodes@[head as int].across(side);
            if offered(grid@.dom(), n) {
                lemma_search_grow(nodes@, head as int, side, avail, grid@.dom());
            } else {
                lemma_search_skip(nodes@, head as int, side, avail, grid@.dom());
            }
        }
        grow(grid, nodes, head, side);
    }
}

/// A segment (edge) of a polygon
#[derive(Debug, Clone, Copy, PartialEq, Eq, Structural)]
pub struct Seg {
    pub uv: TreeUV,
    pub vertical: bool,
}

/// The direction in which a segment is walked: towards lesser or greater `v`
#[derive(Debug, Clone, Copy, PartialEq, Eq, Hash, Structural)]
pub enum Dir {
    NegV,
    PosV,
}

/// A polygon is a list of vertices with a fill color
///
/// A vertex `(x, y)` stands for the point `x` times the cosine of 30 degrees
/// to the right and `y` times the sine of 30 degrees down.
#[derive(Debug, Clone, PartialEq, Eq)]
pub struct Polygon {
    pub color: Rgba,
    pub verts: Vec<(i64, i64)>,
}

impl Polygon {
    /// The polygon with the given colour and vertices
    pub fn new(color: Rgba, verts: Vec<(i64, i64)>) -> (r: Polygon)
        ensures
            r.color == color,
            r.verts == verts,
    {
        Polygon { color, verts }
    }
}

/// Whether the edges of the cell `c` have coordinates: the cell does not lie
/// on the rim of the grid
pub open spec fn inner_cell(c: (i32, i32)) -> bool {
    i32::MIN < c.0 < i32::MAX && i32::MIN < c.1 < i32::MAX
}

/// The side by which a walk enters the neighbour across `side`
pub open spec fn arrival(side: TreeSide) -> TreeSide {
    match side {
        TreeSide::Top => TreeSide::Bottom,
        TreeSide::Bottom => TreeSide::Top,
        TreeSide::Side => TreeSide::Side,
    }
}

/// The segment of the edge of the cell of `b` across `side`: the top edge at
/// the cell, the bottom edge at the cell below, both level; the side edge
/// upright, at the cell for a cell that points left, else at the cell to
/// its left
pub open spec fn edge_seg(b: Branch, side: TreeSide) -> Seg {
    match side {
        TreeSide::Top => Seg { uv: b.uv, vertical: false },
        TreeSide::Bottom => Seg { uv: TreeUV(b.uv.0, (b.uv.1 + 1) as i32), vertical: false },
        TreeSide::Side => Seg {
            uv: if points_left(b.uv.0 as int, b.uv.1 as int) {
                b.uv
            } else {
                TreeUV((b.uv.0 - 1) as i32, b.uv.1)
            },
            vertical: true,
        },
    }
}

/// What the walk gives across `side` of node `i`: the segment of the edge
/// where no neighbour was reached, else the walk of the neighbour
pub open spec fn edge(nodes: Seq<Branch>, i: int, side: TreeSide) -> Seq<Seg>
    decreases nodes.len() - i, 0int,
{
    if 0 <= i < nodes.len() {
        match nodes[i].child(side) {
            None => seq![edge_seg(nodes[i], side)],
            Some(c) => if i < c < nodes.len() {
                walk(nodes, c as int, Some(arrival(side)))
            } else {
                Seq::empty()
            },
        }
    } else {
        Seq::empty()
    }
}

/// The segments of the outline of the tree below node `i`, entered by
/// `from`. The three sides are taken in an order that keeps the segments
/// joined: from the root top, side, bottom for a cell that points left and
/// top, bottom, side for one that points right; after the top side, bottom
/// (left) or bottom, side (right); after the bottom top, side (left) or side,
/// top (right); after the side bottom, top (left) or top, bottom (right).
pub open spec fn walk(nodes: Seq<Branch>, i: int, from: Option<TreeSide>) -> Seq<Seg>
    decreases nodes.len() - i, 1int,
{
    if 0 <= i < nodes.len() {
        let left = points_left(nodes[i].uv.0 as int, nodes[i].uv.1 as int);
        let top = edge(nodes, i, TreeSide::Top);
        let bottom = edge(nodes, i, TreeSide::Bottom);
        let side = edge(nodes, i, TreeSide::Side);
        match from {
            None => if left {
                top + side + bottom
            } else {
                top + bottom + side
            },
            Some(TreeSide::Top) => if left {
                side + bottom
            } else {
                bottom + side
            },
            Some(TreeSide::Bottom) => if left {
                top + side
            } else {
                side + top
            },
            Some(TreeSide::Side) => if left {
                bottom + top
            } else {
                top + bottom
            },
        }
    } else {
        Seq::empty()
    }
}

impl Tree3 {
    /// No cell of the tree lies on the rim of the grid
    pub open spec fn in_range(&self) -> bool {
        forall|i: int| 0 <= i < self@.len() ==> inner_cell((#[trigger] self@[i]).cell())
    }

    /// Whether `to_segments` accepts the tree: no cell lies on the rim of
    /// the grid
    pub fn fits(&self) -> (r: bool)
        ensures
            r == self.in_range(),
    {
        let n = self.nodes.len();
        let mut i: usize = 0;
        while i < n
            invariant
                n == self.nodes@.len(),
                i <= n,
                forall|k: int| 0 <= k < i ==> inner_cell((#[trigger] self.nodes@[k]).cell()),
            decreases n - i,
        {
            let c = self.nodes[i].uv;
            if !(i32::MIN < c.0 && c.0 < i32::MAX && i32::MIN < c.1 && c.1 < i32::MAX) {
                assert(self@[i as int] == self.nodes@[i as int]);
                assert(!inner_cell(self@[i as int].cell()));
                return false;
            }
            i += 1;
        }
        true
    }

    /// Convert the tree into segments
    ///
    /// Internal borders are removed, but outer borders
    /// are kept even if they are internal to the polygon
    pub fn to_segments(&self) -> (r: Vec<Seg>)
        requires
            self.in_range(),
        ensures
            r@ == walk(self@, 0, None),
    {
        let mut segs = Vec::new();
        if self.nodes.len() > 0 {
            self.add_to_segments(0, &mut segs, None);
        }
        assert(segs@ =~= walk(self@, 0, None));
        segs
    }

    /// Adds the segments of the outline of the tree below node `i`, entered
    /// by `from_side`
    pub fn add_to_segments(&self, i: usize, segs: &mut Vec<Seg>, from_side: Option<TreeSide>)
        requires
            self.in_range(),
            i < self@.len(),
        ensures
            final(segs)@ == old(segs)@ + walk(self@, i as int, from_side),
        decreases self@.len() - i, 1int,
    {
        let ghost start = segs@;
        let ghost top = edge(self@, i as int, TreeSide::Top);
        let ghost bottom = edge(self@, i as int, TreeSide::Bottom);
        let ghost side = edge(self@, i as int, TreeSide::Side);
        let is_pointing_left = self.nodes[i].uv.is_pointing_left();
        // we want to keep the order consistent when traversing the tree,
        // so the segment list are connected
        match (from_side, is_pointing_left) {
            // from root, add all 3 directions
            (None, _) => {
                self.add_top(i, segs);
                if is_pointing_left {
                    self.add_side(i, segs);
                    self.add_bottom(i, segs);
                    assert(segs@ =~= start + (top + side + bottom));
                } else {
                    self.add_bottom(i, segs);
                    self.add_side(i, segs);
                    assert(segs@ =~= start + (top + bottom + side));
                }
            },
            // add 2 directions based on coming from which side
            (Some(TreeSide::Top), true) => {
                self.add_side(i, segs);
                self.add_bottom(i, segs);
                assert(segs@ =~= start + (side + bottom));
            },
            (Some(TreeSide::Bottom), true) => {
                self.add_top(i, segs);
                self.add_side(i, segs);
                assert(segs@ =~= start + (top + side));
            },
            (Some(TreeSide::Side), true) => {
                self.add_bottom(i, segs);
                self.add_top(i, segs);
                assert(segs@ =~= start + (bottom + top));
            },
            (Some(TreeSide::Top), false) => {
                self.add_bottom(i, segs);
                self.add_side(i, segs);
                assert(segs@ =~= start + (bottom + side));
            },
            (Some(TreeSide::Bottom), false) => {
                self.add_side(i, segs);
                self.add_top(i, segs);
                assert(segs@ =~= start + (side + top));
            },
            (Some(TreeSide::Side), false) => {
                self.add_top(i, segs);
                self.add_bottom(i, segs);
                assert(segs@ =~= start + (top + bottom));
            },
        }
    }

    /// Adds what the walk gives across the top of node `i`
    pub fn add_top(&self, i: usize, segs: &mut Vec<Seg>)
        requires
            self.in_range(),
            i < self@.len(),
        ensures
            final(segs)@ == old(segs)@ + edge(self@, i as int, TreeSide::Top),
        decreases self@.len() - i, 0int,
    {
        let b = self.nodes[i];
        match b.top {
            None => {
                segs.push(Seg { uv: b.uv, vertical: false });
                assert(segs@ =~= old(segs)@ + edge(self@, i as int, TreeSide::Top));
            },
            Some(top) => {
                if i < top && top < self.nodes.len() {
                    self.add_to_segments(top, segs, Some(TreeSide::Bottom));
                } else {
                    assert(segs@ =~= old(segs)@ + edge(self@, i as int, TreeSide::Top));
                }
            },
        }
    }

    /// Adds what the walk gives across the bottom of node `i`
    pub fn add_bottom(&self, i: usize, segs: &mut Vec<Seg>)
        requires
            self.in_range(),
            i < self@.len(),
        ensures
            final(segs)@ == old(segs)@ + edge(self@, i as int, TreeSide::Bottom),
        decreases self@.len() - i, 0int,
    {
        let b = self.nodes[i];
        assert(inner_cell(self@[i as int].cell()));
        match b.bottom {
            None => {
                segs.push(Seg { uv: TreeUV(b.uv.0, b.uv.1 + 1), vertical: false });
                assert(segs@ =~= old(segs)@ + edge(self@, i as int, TreeSide::Bottom));
            },
            Some(bottom) => {
                if i < bottom && bottom < self.nodes.len() {
                    self.add_to_segments(bottom, segs, Some(TreeSide::Top));
                } else {
                    assert(segs@ =~= old(segs)@ + edge(self@, i as int, TreeSide::Bottom));
                }
            },
        }
    }

    /// Adds what the walk gives across the side of node `i`
    pub fn add_side(&self, i: usize, segs: &mut Vec<Seg>)
        requires
            self.in_range(),
            i < self@.len(),
        ensures
            final(segs)@ == old(segs)@ + edge(self@, i as int, TreeSide::Side),
        decreases self@.len() - i, 0int,
    {
        let b = self.nodes[i];
        assert(inner_cell(self@[i as int].cell()));
        match b.side {
            None => {
                let uv = if b.uv.is_pointing_left() {
                    b.uv
                } else {
                    TreeUV(b.uv.0 - 1, b.uv.1)
                };
                segs.push(Seg { uv, vertical: true });
                assert(segs@ =~= old(segs)@ + edge(self@, i as int, TreeSide::Side));
            },
            Some(side) => {
                if i < side && side < self.nodes.len() {
                    self.add_to_segments(side, segs, Some(TreeSide::Side));
                } else {
                    assert(segs@ =~= old(segs)@ + edge(self@, i as int, TreeSide::Side));
                }
            },
        }
    }
}

/// The direction in which `next` is walked after `cur` was walked in `dir`,
/// by the difference of their cells and by whether `next` is upright; None
/// where `next` does not follow `cur`
pub open spec fn follow(cur: Seg, dir: Dir, next: Seg) -> Option<Dir> {
    let du = next.uv.0 - cur.uv.0;
    let dv = next.uv.1 - cur.uv.1;
    let up = next.vertical;
    if cur.vertical {
        match dir {
            Dir::NegV => if du == 0 && dv == 0 && !up {
                Some(Dir::PosV)
            } else if du == 0 && dv == -1 && !up {
                Some(Dir::NegV)
            } else if du == 0 && dv == -2 && up {
                Some(Dir::NegV)
            } else if du == 1 && dv == -1 && !up {
                Some(Dir::NegV)
            } else if du == 1 && dv == 0 && !up {
                Some(Dir::PosV)
            } else {
                None
            },
            Dir::PosV => if du == 1 && dv == 1 && !up {
                Some(Dir::NegV)
            } else if du == 1 && dv == 2 && !up {
                Some(Dir::PosV)
            } else if du == 0 && dv == 2 {
                Some(Dir::PosV)
            } else if du == 0 && dv == 1 && !up {
                Some(Dir::NegV)
            } else {
                None
            },
        }
    } else if points_left(cur.uv.0 as int, cur.uv.1 as int) {
        match dir {
            Dir::NegV => if du == 0 && dv == -1 && !up {
                Some(Dir::NegV)
            } else if du == 0 && dv == -2 && up {
                Some(Dir::NegV)
            } else if du == 1 && dv == -1 && !up {
                Some(Dir::NegV)
            } else if du == 1 && dv == 0 && !up {
                Some(Dir::PosV)
            } else if du == 0 && dv == 0 && up {
                Some(Dir::PosV)
            } else {
                None
            },
            Dir::PosV => if du == 0 && dv == 1 && !up {
                Some(Dir::PosV)
            } else if du == -1 && dv == 1 {
                Some(Dir::PosV)
            } else if du == -1 && dv == 0 && !up {
                Some(Dir::NegV)
            } else if du == -1 && dv == -1 && up {
                Some(Dir::NegV)
            } else {
                None
            },
        }
    } else {
        match dir {
            Dir::NegV => if du == -1 && dv == 0 {
                Some(Dir::PosV)
            } else if du == -1 && dv == -1 && !up {
                Some(Dir::NegV)
            } else if du == -1 && dv == -2 && up {
                Some(Dir::NegV)
            } else if du == 0 && dv == -1 && !up {
                Some(Dir::NegV)
            } else {
                None
            },
            Dir::PosV => if du == 0 && dv == -1 && up {
                Some(Dir::NegV)
            } else if du == 1 && dv == 0 && !up {
                Some(Dir::NegV)
            } else if du == 1 && dv == 1 && !up {
                Some(Dir::PosV)
            } else if du == 0 && dv == 1 {
                Some(Dir::PosV)
            } else {
                None
            },
        }
    }
}

/// Whether two segments that follow each other lie on one line: both
/// upright, or both level on cells that point the same way
pub open spec fn on_one_line(a: Seg, b: Seg) -> bool {
    a.vertical == b.vertical && (a.vertical || points_left(a.uv.0 as int, a.uv.1 as int)
        == points_left(b.uv.0 as int, b.uv.1 as int))
}

/// The vertex at which a segment that is walked in `dir` starts
pub open spec fn vertex(seg: Seg, dir: Dir) -> (i64, i64) {
    let u = seg.uv.0 as int;
    let v = seg.uv.1 as int;
    if points_left(u, v) {
        match dir {
            Dir::NegV => if seg.vertical {
                ((u + 1) as i64, (v + 2) as i64)
            } else {
                (u as i64, (v + 1) as i64)
            },
            Dir::PosV => ((u + 1) as i64, v as i64),
        }
    } else {
        match dir {
            Dir::NegV => ((u + 1) as i64, (v + 1) as i64),
            Dir::PosV => (u as i64, v as i64),
        }
    }
}

impl Seg {
    /// Check if the next can be the next segment of self, and return if the next
    /// direction is negative v
    pub fn resolve_next_direction(&self, dir: Dir, next: &Seg) -> (r: Option<Dir>)
        ensures
            r == follow(*self, dir, *next),
    {
        let d_u: i64 = next.uv.0 as i64 - self.uv.0 as i64;
        let d_v: i64 = next.uv.1 as i64 - self.uv.1 as i64;
        if self.vertical {
            let dir = match dir {
                Dir::NegV => match (d_u, d_v, next.vertical) {
                    (0, 0, false) => Dir::PosV,
                    (0, -1, false) => Dir::NegV,
                    (0, -2, true) => Dir::NegV,
                    (1, -1, false) => Dir::NegV,
                    (1, 0, false) => Dir::PosV,
                    _ => {
                        return None;
                    },
                },
                Dir::PosV => match (d_u, d_v, next.vertical) {
                    (1, 1, false) => Dir::NegV,
                    (1, 2, false) => Dir::PosV,
                    (0, 2, true) => Dir::PosV,
                    (0, 2, false) => Dir::PosV,
                    (0, 1, false) => Dir::NegV,
                    _ => {
                        return None;
                    },
                },
            };
            return Some(dir);
        }
        let dir = match (dir, self.uv.is_pointing_left()) {
            (Dir::NegV, true) => match (d_u, d_v, next.vertical) {
                (0, -1, false) => Dir::NegV,
                (0, -2, true) => Dir::NegV,
                (1, -1, false) => Dir::NegV,
                (1, 0, false) => Dir::PosV,
                (0, 0, true) => Dir::PosV,
                _ => {
                    return None;
                },
            },
            (Dir::NegV, false) => match (d_u, d_v, next.vertical) {
                (-1, 0, true) => Dir::PosV,
                (-1, 0, false) => Dir::PosV,
                (-1, -1, false) => Dir::NegV,
                (-1, -2, true) => Dir::NegV,
                (0, -1, false) => Dir::NegV,
                _ => {
                    return None;
                },
            },
            (Dir::PosV, true) => match (d_u, d_v, next.vertical) {
                (0, 1, false) => Dir::PosV,
                (-1, 1, true) => Dir::PosV,
                (-1, 1, false) => Dir::PosV,
                (-1, 0, false) => Dir::NegV,
                (-1, -1, true) => Dir::NegV,
                _ => {
                    return None;
                },
            },
            (Dir::PosV, false) => match (d_u, d_v, next.vertical) {
                (0, -1, true) => Dir::NegV,
                (1, 0, false) => Dir::NegV,
                (1, 1, false) => Dir::PosV,
                (0, 1, true) => Dir::PosV,
                (0, 1, false) => Dir::PosV,
                _ => {
                    return None;
                },
            },
        };
        Some(dir)
    }

    /// Return if the segment is colinear with an adjacent segment
    pub fn colinear(&self, other: &Seg) -> (r: bool)
        ensures
            r == on_one_line(*self, *other),
    {
        if self.vertical != other.vertical {
            return false;
        }
        if self.vertical {
            return true;
        }
        // the triangle needs to be pointing in the same direction
        self.uv.is_pointing_left() == other.uv.is_pointing_left()
    }

    /// Convert segment to a vertice
    pub fn get_vertice(&self, dir: Dir) -> (r: (i64, i64))
        ensures
            r == vertex(*self, dir),
    {
        let u = self.uv.0 as i64;
        let v = self.uv.1 as i64;
        if self.uv.is_pointing_left() {
            match dir {
                Dir::NegV => {
                    if self.vertical {
                        (u + 1, v + 2)
                    } else {
                        (u, v + 1)
                    }
                },
                Dir::PosV => {
                    // same point regardless of vertical
                    (u + 1, v)
                },
            }
        } else {
            // cannot be vertical
            match dir {
                Dir::NegV => (u + 1, v + 1),
                Dir::PosV => (u, v),
            }
        }
    }
}

/// The state of the first pass over the segments of an outline: the
/// segments kept so far, each with the direction in which it is walked;
/// whether the next segment is to be passed over; and whether the pass has
/// given up
pub struct Tagging {
    pub kept: Seq<(Seg, Dir)>,
    pub skip: bool,
    pub failed: bool,
}

/// The first pass after one more segment. A segment that is to be passed
/// over is dropped. While nothing is kept, the segment is kept with the
/// direction, greater `v` before lesser, in which the segment after it
/// follows; where it follows in neither, both are dropped; where no segment
/// comes after it, the pass gives up. Else the segment is kept with the
/// direction in which it follows the last kept one, and where it does not
/// follow, the last kept one is dropped with it.
pub open spec fn tag_step(segs: Seq<Seg>, i: int, st: Tagging) -> Tagging {
    if st.failed {
        st
    } else if st.skip {
        Tagging { skip: false, ..st }
    } else if st.kept.len() == 0 {
        if i + 1 >= segs.len() {
            Tagging { failed: true, ..st }
        } else if follow(segs[i], Dir::PosV, segs[i + 1]) is Some {
            Tagging { kept: st.kept.push((segs[i], Dir::PosV)), ..st }
        } else if follow(segs[i], Dir::NegV, segs[i + 1]) is Some {
            Tagging { kept: st.kept.push((segs[i], Dir::NegV)), ..st }
        } else {
            Tagging { skip: true, ..st }
        }
    } else {
        match follow(st.kept.last().0, st.kept.last().1, segs[i]) {
            None => Tagging { kept: st.kept.drop_last(), ..st },
            Some(dir) => Tagging { kept: st.kept.push((segs[i], dir)), ..st },
        }
    }
}

/// The first pass after the first `n` segments
pub open spec fn tagged(segs: Seq<Seg>, n: int) -> Tagging
    decreases n,
{
    if n <= 0 {
        Tagging { kept: Seq::empty(), skip: false, failed: false }
    } else {
        tag_step(segs, n - 1, tagged(segs, n - 1))
    }
}

/// The second pass: the vertex of each kept segment that does not lie on
/// one line with the kept segment before it
pub open spec fn corners(kept: Seq<(Seg, Dir)>) -> Seq<(i64, i64)>
    decreases kept.len(),
{
    if kept.len() == 0 {
        Seq::empty()
    } else {
        let rest = corners(kept.drop_last());
        if kept.len() == 1 || !on_one_line(kept.last().0, kept[kept.len() - 2].0) {
            rest.push(vertex(kept.last().0, kept.last().1))
        } else {
            rest
        }
    }
}

/// The vertices of the outline with the segments `segs`: none for fewer
/// than three segments or where the first pass gives up
pub open spec fn outline(segs: Seq<Seg>) -> Seq<(i64, i64)> {
    if segs.len() < 3 || tagged(segs, segs.len() as int).failed {
        Seq::empty()
    } else {
        corners(tagged(segs, segs.len() as int).kept)
    }
}

/// The vertices of the outline with the given segments
pub fn create_vertices(segs: &Vec<Seg>) -> (r: Vec<(i64, i64)>)
    ensures
        r@ == outline(segs@),
{
    if segs.len() < 3 {
        // not enough segments to form a polygon
        return Vec::new();
    }
    let mut optimized: Vec<(Seg, Dir)> = Vec::new();
    let mut skip = false;
    let n = segs.len();
    let mut i: usize = 0;
    while i < n
        invariant
            n == segs@.len(),
            i <= n,
            n >= 3,
            tagged(segs@, i as int) == (Tagging { kept: optimized@, skip, failed: false }),
        decreases n - i,
    {
        let seg = segs[i];
        let ghost st = tagged(segs@, i as int);
        if skip {
            skip = false;
        } else if optimized.len() == 0 {
            if i + 1 >= n {
                // this should not happen
                proof {
                    lemma_failed_stays(segs@, i as int + 1, n as int);
                }
                return Vec::new();
            }
            let next = segs[i + 1];
            if seg.resolve_next_direction(Dir::PosV, &next).is_some() {
                optimized.push((seg, Dir::PosV));
            } else if seg.resolve_next_direction(Dir::NegV, &next).is_some() {
                optimized.push((seg, Dir::NegV));
            } else {
                // this means the next segment is the same as the current segment
                // so we skip both segments
                skip = true;
            }
        } else {
            let last = optimized[optimized.len() - 1];
            match last.0.resolve_next_direction(last.1, &seg) {
                None => {
                    // The next segment is invalid, this can only mean that the next segment
                    // is the same as last segment, but in the other direction.
                    // so we remove the last segment
                    optimized.pop();
                },
                Some(dir) => {
                    optimized.push((seg, dir));
                },
            }
        }
        i += 1;
        assert(tagged(segs@, i as int) == tag_step(segs@, i as int - 1, st));
    }
    create_vertices_with_optimized(&optimized)
}

/// Once the first pass has given up it stays so.
pub proof fn lemma_failed_stays(segs: Seq<Seg>, i: int, n: int)
    requires
        0 <= i <= n,
        tagged(segs, i).failed,
    ensures
        tagged(segs, n).failed,
    decreases n - i,
{
    if i < n {
        lemma_failed_stays(segs, i, n - 1);
    }
}

/// The vertices of the kept segments: one for each that does not lie on one
/// line with the one before it
pub fn create_vertices_with_optimized(segs: &Vec<(Seg, Dir)>) -> (r: Vec<(i64, i64)>)
    ensures
        r@ == corners(segs@),
{
    let mut verts = Vec::new();
    let n = segs.len();
    let mut i: usize = 0;
    assert(segs@.take(0) =~= Seq::<(Seg, Dir)>::empty());
    while i < n
        invariant
            n == segs@.len(),
            i <= n,
            verts@ == corners(segs@.take(i as int)),
        decreases n - i,
    {
        let (seg, dir) = segs[i];
        let ghost part = segs@.take(i as int + 1);
        proof {
            assert(part.drop_last() =~= segs@.take(i as int));
            assert(part.last() == segs@[i as int]);
            if i > 0 {
                assert(part[part.len() - 2] == segs@[i as int - 1]);
            }
        }
        if i == 0 || !seg.colinear(&segs[i - 1].0) {
            verts.push(seg.get_vertice(dir));
        }
        i += 1;
    }
    assert(segs@.take(n as int) =~= segs@);
    verts
}

/// Whether `polys` are the outlines of the trees `trees` in the colour `color`
pub open spec fn outlines_of(trees: Seq<Tree3>, color: Rgba, polys: Seq<Polygon>) -> bool {
    &&& polys.len() == trees.len()
    &&& forall|t: int|
        0 <= t < trees.len() ==> (#[trigger] polys[t]).color == color && polys[t].verts@ == outline(
            walk(trees[t]@, 0, None),
        )
}

/// Whether `polys` are the polygons of a layer with the cells `cells` in the
/// colour `color`: the outlines of the trees of a search in breadth over the
/// cells
pub open spec fn polygons_of(cells: Set<(i32, i32)>, color: Rgba, polys: Seq<Polygon>) -> bool {
    exists|trees: Seq<Tree3>|
        {
            &&& forest_of(cells, trees)
            &&& cells_before(trees, trees.len() as int) =~= cells
            &&& #[trigger] outlines_of(trees, color, polys)
        }
}

impl Layer {
    /// No cell of the layer lies on the rim of the grid
    pub open spec fn in_range(&self) -> bool {
        forall|c: (i32, i32)| self.grid@.dom().contains(c) ==> inner_cell(c)
    }

    /// Whether `into_polygons` accepts the layer: no cell lies on the rim of
    /// the grid
    pub fn fits(&self) -> (r: bool)
        ensures
            r == self.in_range(),
    {
        let cells = self.grid.cells();
        let n = cells.len();
        let mut i: usize = 0;
        while i < n
            invariant
                n == cells@.len(),
                i <= n,
                cells@.to_set() == self.grid@.dom(),
                forall|k: int| 0 <= k < i ==> inner_cell(#[trigger] cells@[k]),
            decreases n - i,
        {
            let c = cells[i];
            if !(i32::MIN < c.0 && c.0 < i32::MAX && i32::MIN < c.1 && c.1 < i32::MAX) {
                assert(cells@.to_set().contains(cells@[i as int]));
                assert(self.grid@.dom().contains(c));
                assert(!inner_cell(c));
                return false;
            }
            i += 1;
        }
        assert forall|c: (i32, i32)| self.grid@.dom().contains(c) implies inner_cell(c) by {
            assert(cells@.to_set().contains(c));
            let k = choose|k: int| 0 <= k < cells@.len() && cells@[k] == c;
            assert(inner_cell(cells@[k]));
        }
        true
    }

    /// Convert this layer into a list of vertices
    ///
    /// This is the entrypoint for the polygon-making algorithm.
    ///
    /// We could render each triangle in the grid as a polygon, but
    /// there are 2 issues:
    /// - There will be too many polygons, causing output SVG to be HUGE
    /// - There will be gaps between all the polygons
    ///
    /// To solve this, we need to combine the adjacent triangles into
    /// a single polygon. To do this, the grid is converted first
    /// into a tree. Then, internal borders of the tree are removed,
    /// forming the outer edges of the polygon
    pub fn into_polygons(self, out: &mut Vec<Polygon>)
        requires
            self.in_range(),
        ensures
            old(out)@.len() <= final(out)@.len(),
            final(out)@.subrange(0, old(out)@.len() as int) == old(out)@,
            polygons_of(
                self.grid@.dom(),
                self.color,
                final(out)@.subrange(old(out)@.len() as int, final(out)@.len() as int),
            ),
    {
        let mut layer = self;
        layer.outline_into(out);
    }

    /// Takes every cell out of the layer and adds the polygons of the layer
    /// to `out`
    pub fn outline_into(&mut self, out: &mut Vec<Polygon>)
        requires
            old(self).in_range(),
        ensures
            final(self).color == old(self).color,
            final(self).grid@.dom() =~= Set::<(i32, i32)>::empty(),
            old(out)@.len() <= final(out)@.len(),
            final(out)@.subrange(0, old(out)@.len() as int) == old(out)@,
            polygons_of(
                old(self).grid@.dom(),
                old(self).color,
                final(out)@.subrange(old(out)@.len() as int, final(out)@.len() as int),
            ),
    {
        let ghost start = out@;
        let ghost cells = self.grid@.dom();
        let ghost given = *self;
        let layer = self;
        let trees = layer.make_trees();
        let n = trees.len();
        let mut t: usize = 0;
        assert(out@.subrange(0, start.len() as int) =~= start);
        while t < n
            invariant
                n == trees@.len(),
                t <= n,
                forest_of(cells, trees@),
                cells_before(trees@, trees@.len() as int) =~= cells,
                forall|c: (i32, i32)| cells.contains(c) ==> inner_cell(c),
                out@.len() == start.len() + t,
                out@.subrange(0, start.len() as int) == start,
                layer.color == given.color,
                forall|k: int|
                    0 <= k < t ==> (#[trigger] out@[start.len() + k]).color == given.color
                        && out@[start.len() + k].verts@ == outline(walk(trees@[k]@, 0, None)),
            decreases n - t,
        {
            let tree = &trees[t];
            proof {
                let avail = cells_left(cells, trees@, t as int);
                assert(tree_done(trees@[t as int]@, avail));
                assert forall|i: int| 0 <= i < tree@.len() implies inner_cell(
                    (#[trigger] tree@[i]).cell(),
                ) by {
                    assert(avail.contains(tree@[i].cell()));
                }
            }
            let segs = tree.to_segments();
            let verts = create_vertices(&segs);
            let ghost prev = out@;
            out.push(Polygon::new(layer.color, verts));
            t += 1;
            proof {
                assert(out@.subrange(0, start.len() as int) =~= prev.subrange(0, start.len() as int));
                assert forall|k: int| 0 <= k < t implies (#[trigger] out@[start.len() + k]).color
                    == given.color && out@[start.len() + k].verts@ == outline(
                    walk(trees@[k]@, 0, None),
                ) by {
                    if k < t - 1 {
                        assert(out@[start.len() + k] == prev[start.len() + k]);
                    }
                }
            }
        }
        proof {
            let polys = out@.subrange(start.len() as int, out@.len() as int);
            assert forall|k: int| 0 <= k < trees@.len() implies (#[trigger] polys[k]).color
                == given.color && polys[k].verts@ == outline(walk(trees@[k]@, 0, None)) by {
                assert(polys[k] == out@[start.len() + k]);
            }
            assert(outlines_of(trees@, given.color, polys));
        }
    }
}

/// Whether `polys` are the polygons of the first `n` layers, layer by layer:
/// `cuts` holds where the polygons of each layer start
pub open spec fn polygons_of_layers(layers: Seq<Band>, polys: Seq<Polygon>, cuts: Seq<int>) -> bool {
    &&& cuts.len() == layers.len() + 1
    &&& cuts[0] == 0
    &&& cuts[layers.len() as int] == polys.len()
    &&& forall|i: int| 0 <= i < layers.len() ==> 0 <= #[trigger] cuts[i] <= cuts[i + 1] <= polys.len()
    &&& forall|i: int|
        0 <= i < layers.len() ==> #[trigger] polygons_of(
            layers[i].cells,
            layers[i].color,
            polys.subrange(cuts[i], cuts[i + 1]),
        )
}

/// Whether no cell of the layers lies on the rim of the grid
pub open spec fn layers_in_range(layers: Seq<Layer>) -> bool {
    forall|i: int| 0 <= i < layers.len() ==> (#[trigger] layers[i]).in_range()
}

/// Whether `polygons_from_layers` accepts the layers: no cell lies on the
/// rim of the grid
pub fn layers_fit(layers: &Vec<Layer>) -> (r: bool)
    ensures
        r == layers_in_range(layers@),
{
    let n = layers.len();
    let mut i: usize = 0;
    while i < n
        invariant
            n == layers@.len(),
            i <= n,
            forall|k: int| 0 <= k < i ==> (#[trigger] layers@[k]).in_range(),
        decreases n - i,
    {
        if !layers[i].fits() {
            return false;
        }
        i += 1;
    }
    true
}

/// Construct 2D polygons from 2D color grid layers
pub fn polygons_from_layers(layers: Vec<Layer>) -> (r: Vec<Polygon>)
    requires
        layers_in_range(layers@),
    ensures
        exists|cuts: Seq<int>| #[trigger] polygons_of_layers(bands(layers@), r@, cuts),
{
    let mut layers = layers;
    let ghost given = layers@;
    let mut polygons: Vec<Polygon> = Vec::new();
    let ghost mut cuts: Seq<int> = seq![0int];
    let n = layers.len();
    let mut i: usize = 0;
    while i < n
        invariant
            n == given.len(),
            layers@.len() == n,
            i <= n,
            forall|k: int| i <= k < n ==> #[trigger] layers@[k] == given[k],
            layers_in_range(given),
            cuts.len() == i + 1,
            cuts[0] == 0,
            cuts[i as int] == polygons@.len(),
            forall|k: int| 0 <= k < i ==> 0 <= #[trigger] cuts[k] <= cuts[k + 1] <= polygons@.len(),
            forall|k: int|
                0 <= k < i ==> #[trigger] polygons_of(
                    bands(given)[k].cells,
                    bands(given)[k].color,
                    polygons@.subrange(cuts[k], cuts[k + 1]),
                ),
        decreases n - i,
    {
        let ghost before = polygons@;
        assert(layers@[i as int] == given[i as int]);
        assert(given[i as int].in_range());
        layers[i].outline_into(&mut polygons);
        proof {
            let old_cuts = cuts;
            cuts = cuts.push(polygons@.len() as int);
            assert forall|k: int| 0 <= k <= i implies 0 <= #[trigger] cuts[k] <= cuts[k + 1]
                <= polygons@.len() by {
                if k < i {
                    assert(0 <= old_cuts[k] <= old_cuts[k + 1] <= before.len());
                }
            }
            assert forall|k: int| 0 <= k <= i implies #[trigger] polygons_of(
                bands(given)[k].cells,
                bands(given)[k].color,
                polygons@.subrange(cuts[k], cuts[k + 1]),
            ) by {
                if k < i {
                    assert(0 <= old_cuts[k] <= old_cuts[k + 1] <= before.len());
                    assert(polygons_of(
                        bands(given)[k].cells,
                        bands(given)[k].color,
                        before.subrange(old_cuts[k], old_cuts[k + 1]),
                    ));
                    assert(cuts[k] == old_cuts[k] && cuts[k + 1] == old_cuts[k + 1]);
                    assert(polygons@.subrange(cuts[k], cuts[k + 1]) =~= before.subrange(
                        cuts[k],
                        cuts[k + 1],
                    )) by {
                        assert(polygons@.subrange(0, before.len() as int) == before);
                        assert forall|m: int| cuts[k] <= m < cuts[k + 1] implies polygons@[m]
                            == before[m] by {
                            assert(polygons@.subrange(0, before.len() as int)[m] == polygons@[m]);
                        }
                    }
                } else {
                    assert(cuts[k] == before.len());
                    assert(cuts[k + 1] == polygons@.len());
                }
            }
        }
        i += 1;
    }
    proof {
        assert(polygons_of_layers(bands(given), polygons@, cuts));
    }
    polygons
}

/// The number of nodes of the first `t` trees
pub open spec fn nodes_before(trees: Seq<Tree3>, t: int) -> int
    decreases t,
{
    if t <= 0 {
        0
    } else {
        nodes_before(trees, t - 1) + trees[t - 1]@.len()
    }
}

/// The nodes of a finished tree hold as many cells as there are nodes.
pub proof fn lemma_cells_of_len(nodes: Seq<Branch>, avail: Set<(i32, i32)>)
    requires
        tree_done(nodes, avail),
    ensures
        cells_of(nodes).finite(),
        cells_of(nodes).len() == nodes.len(),
{
    let cells = nodes.map_values(|b: Branch| b.cell());
    assert(cells.len() == nodes.len());
    assert forall|i: int, j: int| 0 <= i < cells.len() && 0 <= j < cells.len() && i != j implies cells[i]
        != cells[j] by {
        if i < j {
            assert(nodes[i].cell() != nodes[j].cell());
        } else {
            assert(nodes[j].cell() != nodes[i].cell());
        }
    }
    assert(cells.no_duplicates());
    cells.unique_seq_to_set();
    vstd::seq_lib::seq_to_set_is_finite(cells);
    assert(cells.to_set() =~= cells_of(nodes)) by {
        assert forall|c: (i32, i32)| cells.to_set().contains(c) <==> cells_of(nodes).contains(c) by {
            if cells.to_set().contains(c) {
                let i = choose|i: int| 0 <= i < cells.len() && cells[i] == c;
                assert(nodes[i].cell() == c);
            }
            if cells_of(nodes).contains(c) {
                let i = choose|i: int| 0 <= i < nodes.len() && #[trigger] nodes[i].cell() == c;
                assert(cells[i] == c);
            }
        }
    }
}

/// The first trees of a search hold as many cells as they have nodes.
pub proof fn lemma_nodes_before(all: Set<(i32, i32)>, trees: Seq<Tree3>, t: int)
    requires
        forest_of(all, trees),
        0 <= t <= trees.len(),
    ensures
        cells_before(trees, t).finite(),
        cells_before(trees, t).len() == nodes_before(trees, t),
    decreases t,
{
    if t > 0 {
        lemma_nodes_before(all, trees, t - 1);
        let before = cells_before(trees, t - 1);
        let nodes = trees[t - 1]@;
        let avail = cells_left(all, trees, t - 1);
        assert(tree_done(nodes, avail));
        lemma_cells_of_len(nodes, avail);
        let here = cells_of(nodes);
        assert(before.disjoint(here)) by {
            assert forall|c: (i32, i32)| before.contains(c) implies !here.contains(c) by {
                if here.contains(c) {
                    let i = choose|i: int| 0 <= i < nodes.len() && #[trigger] nodes[i].cell() == c;
                    assert(avail.contains(nodes[i].cell()));
                }
            }
        }
        vstd::set_lib::lemma_set_disjoint_lens(before, here);
        assert(cells_before(trees, t) == before.union(here));
    }
}

/// Every cell of a layer lies in one tree, once: the trees of a search over
/// the cells `all` have together as many nodes as there are cells, no two
/// nodes of a tree hold one cell, and no two trees share a cell.
pub proof fn law_trees_hold_each_cell_once(all: Set<(i32, i32)>, trees: Seq<Tree3>)
    requires
        forest_of(all, trees),
        cells_before(trees, trees.len() as int) =~= all,
    ensures
        all.finite(),
        nodes_before(trees, trees.len() as int) == all.len(),
        forall|t: int, i: int, j: int|
            0 <= t < trees.len() && 0 <= i < j < trees[t]@.len() ==> (#[trigger] trees[t]@[i]).cell() != (
            #[trigger] trees[t]@[j]).cell(),
        forall|s: int, t: int, i: int, j: int|
            0 <= s < t < trees.len() && 0 <= i < trees[s]@.len() && 0 <= j < trees[t]@.len() ==> (
            #[trigger] trees[s]@[i]).cell() != (#[trigger] trees[t]@[j]).cell(),
{
    lemma_nodes_before(all, trees, trees.len() as int);
    assert forall|t: int, i: int, j: int|
        0 <= t < trees.len() && 0 <= i < j < trees[t]@.len() implies (#[trigger] trees[t]@[i]).cell() != (
    #[trigger] trees[t]@[j]).cell() by {
        assert(tree_done(trees[t]@, cells_left(all, trees, t)));
    }
    assert forall|s: int, t: int, i: int, j: int|
        0 <= s < t < trees.len() && 0 <= i < trees[s]@.len() && 0 <= j < trees[t]@.len() implies (
    #[trigger] trees[s]@[i]).cell() != (#[trigger] trees[t]@[j]).cell() by {
        assert(tree_done(trees[t]@, cells_left(all, trees, t)));
        assert(cells_left(all, trees, t).contains(trees[t]@[j].cell()));
        lemma_cells_before_grows(trees, s + 1, t);
        assert(cells_of(trees[s]@).contains(trees[s]@[i].cell()));
        assert(cells_before(trees, s + 1) == cells_before(trees, s).union(cells_of(trees[s]@)));
    }
}

/// The cells of the first trees are among those of more trees.
pub proof fn lemma_cells_before_grows(trees: Seq<Tree3>, s: int, t: int)
    requires
        0 <= s <= t,
    ensures
        cells_before(trees, s).subset_of(cells_before(trees, t)),
    decreases t - s,
{
    if s < t {
        lemma_cells_before_grows(trees, s, t - 1);
    }
}

/// Whether two searches agree up to node `i`: the nodes before `i` are the
/// same, and so are the cells of the nodes that were reached from them
pub open spec fn same_until(a: Seq<Branch>, b: Seq<Branch>, i: int) -> bool {
    &&& first_child(a, i) == first_child(b, i)
    &&& first_child(a, i) <= a.len()
    &&& first_child(a, i) <= b.len()
    &&& forall|p: int| 0 <= p < i ==> #[trigger] a[p] == b[p]
    &&& forall|q: int| 0 <= q < first_child(a, i) ==> (#[trigger] a[q]).cell() == b[q].cell()
}

/// The places of the first children rise with the nodes.
pub proof fn lemma_first_child_rises(nodes: Seq<Branch>, i: int, j: int)
    requires
        0 <= i <= j,
    ensures
        first_child(nodes, i) <= first_child(nodes, j),
    decreases j - i,
{
    if i < j {
        lemma_first_child_rises(nodes, i, j - 1);
    }
}

/// Two finished searches over the same cells from the same root agree on
/// one more side of node `i`.
proof fn lemma_same_side(a: Seq<Branch>, b: Seq<Branch>, avail: Set<(i32, i32)>, i: int, side: TreeSide)
    requires
        tree_done(a, avail),
        tree_done(b, avail),
        0 <= i < a.len(),
        i < b.len(),
        a[i].cell() == b[i].cell(),
        slot(a, i, side) == slot(b, i, side),
        slot(a, i, side) <= a.len(),
        slot(a, i, side) <= b.len(),
        forall|q: int| 0 <= q < slot(a, i, side) ==> (#[trigger] a[q]).cell() == b[q].cell(),
    ensures
        a[i].child(side) == b[i].child(side),
        a[i].child(side) is Some ==> slot(a, i, side) < a.len() && slot(a, i, side) < b.len()
            && a[slot(a, i, side)].cell() == b[slot(a, i, side)].cell(),
{
    let f = slot(a, i, side);
    let n = a[i].across(side);
    assert(b[i].across(side) == n);
    assert(link_ok(a, i, side, avail));
    assert(link_ok(b, i, side, avail));
    let c = (n.0 as i32, n.1 as i32);
    match (a[i].child(side), b[i].child(side)) {
        (Some(x), None) => {
            assert(among(b, f, n));
            let q = choose|q: int| 0 <= q < f && q < b.len() && #[trigger] b[q].cell() == c;
            assert(a[q].cell() == c);
            assert(a[q].cell() != a[f].cell());
        },
        (None, Some(y)) => {
            assert(among(a, f, n));
            let q = choose|q: int| 0 <= q < f && q < a.len() && #[trigger] a[q].cell() == c;
            assert(a[q].cell() == b[q].cell());
            assert(b[q].cell() != b[f].cell());
        },
        _ => {},
    }
}

/// Two finished searches over the same cells from the same root agree up
/// to every node that both have.
pub proof fn lemma_same_search(a: Seq<Branch>, b: Seq<Branch>, avail: Set<(i32, i32)>, i: int)
    requires
        tree_done(a, avail),
        tree_done(b, avail),
        a[0].cell() == b[0].cell(),
        0 <= i <= a.len(),
        i <= b.len(),
    ensures
        same_until(a, b, i),
    decreases i,
{
    if i > 0 {
        let k = i - 1;
        lemma_same_search(a, b, avail, k);
        let f = first_child(a, k);
        assert(f > k);
        assert(first_child(b, k) > k);
        assert(a[k].cell() == b[k].cell());
        lemma_first_child_rises(a, i, a.len() as int);
        lemma_first_child_rises(b, i, b.len() as int);
        lemma_first_child_rises(a, k, i);
        lemma_first_child_rises(b, k, i);
        assert(first_child(a, i) == f + a[k].before(3));
        assert(first_child(b, i) == f + b[k].before(3));
        // top
        assert(slot(a, k, TreeSide::Top) == f && slot(b, k, TreeSide::Top) == f);
        lemma_same_side(a, b, avail, k, TreeSide::Top);
        let f1 = f + a[k].before(1);
        assert(a[k].top == b[k].top);
        assert(f1 <= first_child(a, i) && f1 <= first_child(b, i));
        assert forall|q: int| 0 <= q < f1 implies (#[trigger] a[q]).cell() == b[q].cell() by {
            if q >= f {
                assert(q == f);
            }
        }
        // bottom
        assert(slot(a, k, TreeSide::Bottom) == f1 && slot(b, k, TreeSide::Bottom) == f1);
        lemma_same_side(a, b, avail, k, TreeSide::Bottom);
        let f2 = f + a[k].before(2);
        assert(a[k].bottom == b[k].bottom);
        assert(f2 <= first_child(a, i) && f2 <= first_child(b, i));
        assert forall|q: int| 0 <= q < f2 implies (#[trigger] a[q]).cell() == b[q].cell() by {
            if q >= f1 {
                assert(q == f1);
            }
        }
        // side
        assert(slot(a, k, TreeSide::Side) == f2 && slot(b, k, TreeSide::Side) == f2);
        lemma_same_side(a, b, avail, k, TreeSide::Side);
        let f3 = f + a[k].before(3);
        assert(a[k].side == b[k].side);
        assert forall|q: int| 0 <= q < f3 implies (#[trigger] a[q]).cell() == b[q].cell() by {
            if q >= f2 {
                assert(q == f2);
            }
        }
        assert(a[k].uv == b[k].uv);
        assert(a[k] == b[k]);
        assert forall|p: int| 0 <= p < i implies #[trigger] a[p] == b[p] by {}
    } else {
        assert(first_child(a, 0) == 1 && first_child(b, 0) == 1);
    }
}

/// A search in breadth has one outcome: two finished searches over the
/// same cells from the same root give the same tree.
pub proof fn law_search_has_one_tree(a: Seq<Branch>, b: Seq<Branch>, avail: Set<(i32, i32)>)
    requires
        tree_done(a, avail),
        tree_done(b, avail),
        a[0].cell() == b[0].cell(),
    ensures
        a == b,
{
    let n = if a.len() <= b.len() {
        a.len() as int
    } else {
        b.len() as int
    };
    lemma_same_search(a, b, avail, n);
    if a.len() < b.len() {
        assert(first_child(b, n) > n);
    }
    if b.len() < a.len() {
        assert(first_child(a, n) > n);
    }
    assert(a =~= b);
}

/// A layer has one forest: two forests of searches over the same cells
/// that both hold every cell have the same trees.
pub proof fn law_layer_has_one_forest(all: Set<(i32, i32)>, f: Seq<Tree3>, g: Seq<Tree3>)
    requires
        forest_of(all, f),
        forest_of(all, g),
        cells_before(f, f.len() as int) =~= all,
        cells_before(g, g.len() as int) =~= all,
    ensures
        f.len() == g.len(),
        forall|t: int| 0 <= t < f.len() ==> (#[trigger] f[t])@ == g[t]@,
{
    let n = if f.len() <= g.len() {
        f.len() as int
    } else {
        g.len() as int
    };
    lemma_same_forest(all, f, g, n);
    if f.len() < g.len() {
        // the next tree of `g` has a root that `f` holds already
        assert(tree_done(g[n]@, cells_left(all, g, n)));
        assert(cells_left(all, g, n).contains(g[n]@[0].cell()));
    }
    if g.len() < f.len() {
        assert(tree_done(f[n]@, cells_left(all, f, n)));
        assert(cells_left(all, f, n).contains(f[n]@[0].cell()));
    }
}

/// Two forests of searches over the same cells have the same first trees.
pub proof fn lemma_same_forest(all: Set<(i32, i32)>, f: Seq<Tree3>, g: Seq<Tree3>, t: int)
    requires
        forest_of(all, f),
        forest_of(all, g),
        0 <= t <= f.len(),
        t <= g.len(),
    ensures
        cells_before(f, t) == cells_before(g, t),
        forall|k: int| 0 <= k < t ==> (#[trigger] f[k])@ == g[k]@,
    decreases t,
{
    if t > 0 {
        let k = t - 1;
        lemma_same_forest(all, f, g, k);
        let avail = cells_left(all, f, k);
        assert(avail == cells_left(all, g, k));
        let a = f[k]@;
        let b = g[k]@;
        assert(tree_done(a, avail));
        assert(tree_done(b, avail));
        let x = a[0].cell();
        let y = b[0].cell();
        assert(avail.contains(x));
        assert(avail.contains(y));
        if x != y {
            assert(cell_lt(x, y));
            assert(cell_lt(y, x));
        }
        law_search_has_one_tree(a, b, avail);
    }
}

} // verus!
