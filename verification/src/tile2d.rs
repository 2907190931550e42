//! A rectangular tile map: the concrete wave shape, and its kernels.

use vstd::prelude::*;

use crate::node::{Index2D, Node, NodeView};
use crate::{all_collapsed, WaveKernel, WaveShape};

verus! {

use vstd::arithmetic::div_mod::{
    lemma_fundamental_div_mod,
    lemma_fundamental_div_mod_converse,
    lemma_mod_division_less_than_divisor,
};

/// A two-dimensional extent: a width and a height.
#[derive(Clone, Copy, Debug, PartialEq, Eq, Structural)]
pub struct Size2D {
    /// The horizontal extent.
    pub width: u32,
    /// The vertical extent.
    pub height: u32,
}

impl Size2D {
    /// An extent of the given width and height.
    pub fn new(width: u32, height: u32) -> (r: Size2D)
        ensures
            r == (Size2D { width, height }),
    {
        Size2D { width, height }
    }

    /// A square extent.
    pub fn square(size: u32) -> (r: Size2D)
        ensures
            r == (Size2D { width: size, height: size }),
    {
        Self::new(size, size)
    }

    /// The number of cells a grid of this extent holds.
    pub open spec fn area(self) -> int {
        self.width * self.height
    }
}

/// The id a row-major enumeration of a `w`-wide grid yields at position `k`.
pub open spec fn row_major_id(w: int, k: int) -> Index2D {
    ((k % w) as u32, (k / w) as u32)
}

/// The position of a node with id `id` in the column-major node storage of
/// a grid of height `h`.
pub open spec fn column_major_index(h: int, id: Index2D) -> int {
    id.0 * h + id.1
}

/// A position below `w * h` names a valid id, and the enumeration position
/// of that id is the position itself.
proof fn lemma_row_major_id(w: int, h: int, k: int)
    requires
        w >= 1,
        h >= 1,
        0 <= k < w * h,
    ensures
        0 <= k % w < w,
        0 <= k / w < h,
        (k / w) * w + (k % w) == k,
{
    lemma_fundamental_div_mod(k, w);
    lemma_mod_division_less_than_divisor(k, w);
    assert((k / w) * w == w * (k / w)) by (nonlinear_arith);
    assert(k / w < h) by (nonlinear_arith)
        requires
            w >= 1,
            k < w * h,
            k == w * (k / w) + k % w,
            k % w >= 0,
    ;
    assert(k / w >= 0) by (nonlinear_arith)
        requires
            w >= 1,
            k >= 0,
            k == w * (k / w) + k % w,
            k % w < w,
    ;
}

/// A valid id is enumerated exactly at position `y * w + x`.
proof fn lemma_row_major_position(w: int, h: int, id: Index2D)
    requires
        w >= 1,
        h >= 1,
        id.0 < w,
        id.1 < h,
    ensures
        0 <= id.1 * w + id.0 < w * h,
        row_major_id(w, id.1 * w + id.0) == id,
{
    let k = id.1 * w + id.0;
    assert(0 <= k && k <= w * h - 1) by (nonlinear_arith)
        requires
            w >= 1,
            h >= 1,
            0 <= id.0 < w,
            0 <= id.1 < h,
            k == id.1 * w + id.0,
    ;
    lemma_fundamental_div_mod_converse(k, w, id.1 as int, id.0 as int);
}

/// Distinct valid ids occupy distinct positions of the column-major node
/// storage.
proof fn lemma_column_major_injective(h: int, a: Index2D, b: Index2D)
    requires
        h >= 1,
        a.1 < h,
        b.1 < h,
        column_major_index(h, a) == column_major_index(h, b),
    ensures
        a == b,
{
    lemma_fundamental_div_mod_converse(column_major_index(h, a), h, a.0 as int, a.1 as int);
    lemma_fundamental_div_mod_converse(column_major_index(h, b), h, b.0 as int, b.1 as int);
}

/// A rectangular `width x height` grid of nodes indexed by `(x, y)`,
/// carrying a kernel extent with odd dimensions and a record of the most
/// recently collapsed node.  Nodes are stored in column-major order; the
/// enumeration order is row-major (`y` outer, `x` inner).
pub struct TileMap2D<V> {
    size: Size2D,
    kernel_size: Size2D,
    last_collapsed: Option<Index2D>,
    nodes: Vec<Node<V>>,
}

impl<V> TileMap2D<V> {
    /// The extent of the grid.
    pub closed spec fn size_spec(&self) -> Size2D {
        self.size
    }

    /// The extent of the kernels built over this grid.
    pub closed spec fn kernel_size_spec(&self) -> Size2D {
        self.kernel_size
    }

    /// Whether `id` names a cell of the grid.
    pub open spec fn valid_id(&self, id: Index2D) -> bool {
        id.0 < self.size_spec().width && id.1 < self.size_spec().height
    }

    /// The node stored for a valid id.
    pub closed spec fn stored_node(&self, id: Index2D) -> NodeView<V> {
        self.nodes@[column_major_index(self.size.height as int, id)]@
    }

    /// The node stored at position `k` of the column-major storage.
    pub closed spec fn stored_index(&self, k: int) -> NodeView<V> {
        self.nodes@[k]@
    }

    /// Structural soundness: odd kernel dimensions, one well-formed node
    /// per cell, each stored under its own id in column-major order.
    pub closed spec fn wf_spec(&self) -> bool {
        &&& self.kernel_size.width % 2 == 1
        &&& self.kernel_size.height % 2 == 1
        &&& self.kernel_size.area() <= usize::MAX
        &&& self.nodes@.len() == self.size.area()
        &&& forall|k: int|
            0 <= k < self.nodes@.len() ==> (#[trigger] self.nodes@[k])@.wf() && self.nodes@[k]@.id
                == ((k / self.size.height as int) as u32, (k % self.size.height as int) as u32)
    }
}

/// A nonempty grid has a nonzero extent in both directions.
proof fn lemma_area_positive(size: Size2D)
    requires
        size.area() > 0,
    ensures
        size.width >= 1,
        size.height >= 1,
{
    assert(size.width >= 1 && size.height >= 1) by (nonlinear_arith)
        requires
            size.width * size.height > 0,
    ;
}

/// A valid id of a grid of extent `size` names a position of its
/// column-major node storage, below the grid's area.
proof fn lemma_column_major_in_range(size: Size2D, id: Index2D)
    requires
        id.0 < size.width,
        id.1 < size.height,
    ensures
        0 <= column_major_index(size.height as int, id) < size.area(),
{
    assert(0 <= id.0 * (size.height as int) + id.1 < size.width * size.height)
        by (nonlinear_arith)
        requires
            0 <= id.0 < size.width,
            0 <= id.1 < size.height,
    ;
}

impl<V: Copy> TileMap2D<V> {
    /// The area of a well-formed grid fits the machine: its nodes are held
    /// in one vector.
    pub proof fn lemma_area_fits(&self)
        requires
            self.wf(),
        ensures
            self.size_spec().area() <= usize::MAX,
    {
        assert(vstd::std_specs::vec::spec_vec_len(&self.nodes) == self.nodes@.len());
    }

    /// The kernel extent of a well-formed grid is odd in both directions
    /// and its area fits the machine.
    pub proof fn lemma_kernel_area(&self)
        requires
            self.wf(),
        ensures
            self.kernel_size_spec().width % 2 == 1,
            self.kernel_size_spec().height % 2 == 1,
            self.kernel_size_spec().area() <= usize::MAX,
    {
    }

    /// A grid whose every cell starts in a superposition of all the given
    /// candidate values.  The kernel extent must be odd in both directions
    /// and at least one candidate value is required.
    pub fn new(size: Size2D, kernel_size: Size2D, possible_values: &Vec<V>) -> (r: TileMap2D<V>)
        requires
            kernel_size.width % 2 == 1,
            kernel_size.height % 2 == 1,
            possible_values@.len() >= 1,
            possible_values@.len() <= u32::MAX,
            size.area() <= usize::MAX,
            kernel_size.area() <= usize::MAX,
        ensures
            r.wf(),
            r.size_spec() == size,
            r.kernel_size_spec() == kernel_size,
            r.last_collapsed_spec() == None::<Index2D>,
            r.ids().len() == size.area(),
            forall|id: Index2D|
                r.valid_id(id) ==> r.node_view(id) == (NodeView {
                    id,
                    values: possible_values@,
                    collapsed: false,
                }),
    {
        let w = size.width as usize;
        let h = size.height as usize;
        let total = w * h;
        let mut nodes: Vec<Node<V>> = Vec::new();
        let mut k: usize = 0;
        while k < total
            invariant
                w == size.width,
                h == size.height,
                total == size.area(),
                k <= total,
                nodes@.len() == k,
                possible_values@.len() >= 1,
                possible_values@.len() <= u32::MAX,
                forall|j: int|
                    0 <= j < k ==> (#[trigger] nodes@[j])@ == (NodeView {
                        id: ((j / h as int) as u32, (j % h as int) as u32),
                        values: possible_values@,
                        collapsed: false,
                    }),
            decreases total - k,
        {
            proof {
                lemma_area_positive(size);
                lemma_row_major_id(h as int, w as int, k as int);
            }
            let x = (k / h) as u32;
            let y = (k % h) as u32;
            let values = copy_values(possible_values);
            nodes.push(Node::new((x, y), values));
            k = k + 1;
        }
        let r = TileMap2D { size, kernel_size, last_collapsed: None, nodes };
        proof {
            assert forall|id: Index2D| r.valid_id(id) implies r.node_view(id) == (NodeView {
                id,
                values: possible_values@,
                collapsed: false,
            }) by {
                lemma_column_major_in_range(size, id);
                let ci = column_major_index(size.height as int, id);
                lemma_fundamental_div_mod_converse(ci, size.height as int, id.0 as int, id.1 as int);
            }
            assert(forall|k2: int|
                0 <= k2 < r.nodes@.len() ==> (#[trigger] r.nodes@[k2])@.wf() && r.nodes@[k2]@.id
                    == ((k2 / size.height as int) as u32, (k2 % size.height as int) as u32));
        }
        r
    }

    /// The extent of the grid.
    pub fn size(&self) -> (r: &Size2D)
        ensures
            *r == self.size_spec(),
    {
        &self.size
    }

    /// The extent of the kernels built over this grid.
    pub fn kernel_size(&self) -> (r: &Size2D)
        ensures
            *r == self.kernel_size_spec(),
    {
        &self.kernel_size
    }
}

/// A fresh vector holding the same values.
fn copy_values<V: Copy>(values: &Vec<V>) -> (r: Vec<V>)
    ensures
        r@ == values@,
{
    let mut r: Vec<V> = Vec::new();
    let mut i: usize = 0;
    while i < values.len()
        invariant
            i <= values@.len(),
            r@ == values@.subrange(0, i as int),
        decreases values@.len() - i,
    {
        r.push(values[i]);
        i = i + 1;
    }
    proof {
        assert(r@ =~= values@);
    }
    r
}

/// Membership in the enumeration is exactly validity of the id, the
/// enumeration is duplicate-free, and its order is row-major: `y` outer,
/// `x` inner.
pub proof fn lemma_tile_map_membership<V: Copy>(m: &TileMap2D<V>)
    requires
        m.wf(),
    ensures
        m.ids().len() == m.size_spec().area(),
        forall|id: Index2D| #[trigger] m.ids().contains(id) <==> m.valid_id(id),
        m.ids().no_duplicates(),
        forall|k: int|
            0 <= k < m.ids().len() ==> #[trigger] m.ids()[k] == row_major_id(
                m.size_spec().width as int,
                k,
            ),
{
    let w = m.size_spec().width as int;
    let h = m.size_spec().height as int;
    let ids = m.ids();
    assert forall|id: Index2D| #[trigger] m.ids().contains(id) <==> m.valid_id(id) by {
        if m.valid_id(id) {
            lemma_row_major_position(w, h, id);
            assert(ids[id.1 * w + id.0] == id);
        }
        if ids.contains(id) {
            let k = choose|k: int| 0 <= k < ids.len() && ids[k] == id;
            lemma_area_positive(m.size_spec());
            lemma_row_major_id(w, h, k);
        }
    }
    assert forall|k1: int, k2: int| 0 <= k1 < k2 < ids.len() implies ids[k1] != ids[k2] by {
        lemma_area_positive(m.size_spec());
        lemma_row_major_id(w, h, k1);
        lemma_row_major_id(w, h, k2);
    }
    assert(ids.no_duplicates()) by {
        assert forall|k1: int, k2: int|
            0 <= k1 < ids.len() && 0 <= k2 < ids.len() && k1 != k2 implies ids[k1] != ids[k2] by {
            lemma_area_positive(m.size_spec());
            lemma_row_major_id(w, h, k1);
            lemma_row_major_id(w, h, k2);
        }
    }
}

/// When only the storage slot of the valid id `id` changed, and the node
/// there kept its id and stayed well formed, the grid stays well formed,
/// enumerates the same ids, and shows every other node unchanged.
proof fn lemma_one_node_changed<V: Copy>(m1: &TileMap2D<V>, m2: &TileMap2D<V>, id: Index2D)
    requires
        m1.wf(),
        m1.valid_id(id),
        m2.size == m1.size,
        m2.kernel_size == m1.kernel_size,
        m2.nodes@.len() == m1.nodes@.len(),
        forall|k: int|
            0 <= k < m1.nodes@.len() && k != column_major_index(m1.size.height as int, id)
                ==> #[trigger] m2.nodes@[k] == m1.nodes@[k],
        m2.nodes@[column_major_index(m1.size.height as int, id)]@.wf(),
        m2.nodes@[column_major_index(m1.size.height as int, id)]@.id == m1.nodes@[
            column_major_index(m1.size.height as int, id)
        ]@.id,
    ensures
        m2.wf(),
        m2.ids() == m1.ids(),
        forall|other: Index2D|
            other != id ==> #[trigger] m2.node_view(other) == m1.node_view(other),
{
    let h = m1.size.height as int;
    let ci = column_major_index(h, id);
    lemma_column_major_in_range(m1.size, id);
    assert forall|k: int| 0 <= k < m2.nodes@.len() implies (#[trigger] m2.nodes@[k])@.wf()
        && m2.nodes@[k]@.id == ((k / h) as u32, (k % h) as u32) by {
        if k != ci {
            assert(m2.nodes@[k] == m1.nodes@[k]);
        }
    }
    assert forall|other: Index2D| other != id implies #[trigger] m2.node_view(other)
        == m1.node_view(other) by {
        if m1.valid_id(other) {
            lemma_column_major_in_range(m1.size, other);
            if column_major_index(h, other) == ci {
                lemma_column_major_injective(h, other, id);
            }
        }
    }
}

impl<V: Copy> WaveShape<V> for TileMap2D<V> {
    closed spec fn ids(&self) -> Seq<Index2D> {
        Seq::new(
            self.size.area() as nat,
            |k: int| row_major_id(self.size.width as int, k),
        )
    }

    closed spec fn node_view(&self, id: Index2D) -> NodeView<V> {
        if self.valid_id(id) {
            self.stored_node(id)
        } else {
            NodeView { id, values: Seq::empty(), collapsed: false }
        }
    }

    closed spec fn last_collapsed_spec(&self) -> Option<Index2D> {
        self.last_collapsed
    }

    closed spec fn wf(&self) -> bool {
        self.wf_spec()
    }

    proof fn lemma_wf(&self) {
        lemma_tile_map_membership(self);
        assert forall|id: Index2D| self.ids().contains(id) implies (#[trigger] self.node_view(
            id,
        )).id == id && self.node_view(id).wf() by {
            lemma_column_major_in_range(self.size, id);
            let ci = column_major_index(self.size.height as int, id);
            lemma_fundamental_div_mod_converse(ci, self.size.height as int, id.0 as int, id.1 as int);
        }
    }

    fn iter_node_ids(&self) -> (r: Vec<Index2D>)
        ensures
            r@ == self.ids(),
    {
        let w = self.size.width as usize;
        let n = self.nodes.len();
        let mut r: Vec<Index2D> = Vec::new();
        let mut k: usize = 0;
        while k < n
            invariant
                self.wf_spec(),
                w == self.size_spec().width,
                n == self.nodes@.len(),
                k <= n,
                r@.len() == k,
                forall|j: int|
                    0 <= j < k ==> #[trigger] r@[j] == row_major_id(
                        self.size_spec().width as int,
                        j,
                    ),
            decreases n - k,
        {
            proof {
                lemma_area_positive(self.size_spec());
                lemma_row_major_id(w as int, self.size_spec().height as int, k as int);
            }
            let x = (k % w) as u32;
            let y = (k / w) as u32;
            r.push((x, y));
            k = k + 1;
        }
        proof {
            assert(r@ =~= self.ids());
        }
        r
    }

    fn get_node(&self, id: &Index2D) -> (r: Option<&Node<V>>)
        ensures
            match r {
                Option::Some(n) => self.ids().contains(*id) && n@ == self.node_view(*id),
                Option::None => !self.ids().contains(*id),
            },
    {
        proof {
            lemma_tile_map_membership(self);
        }
        if id.0 < self.size.width && id.1 < self.size.height {
            proof {
                lemma_column_major_in_range(self.size, *id);
            }
            let n = self.nodes.len();
            let h = self.size.height as usize;
            let idx = (id.0 as usize) * h + (id.1 as usize);
            Some(&self.nodes[idx])
        } else {
            None
        }
    }

    fn collapse_node_at(&mut self, id: Index2D, choice: usize) {
        proof {
            lemma_tile_map_membership(self);
            lemma_column_major_in_range(self.size, id);
            lemma_fundamental_div_mod_converse(
                column_major_index(self.size.height as int, id),
                self.size.height as int,
                id.0 as int,
                id.1 as int,
            );
        }
        let n = self.nodes.len();
        let h = self.size.height as usize;
        let idx = (id.0 as usize) * h + (id.1 as usize);
        let node = &mut self.nodes[idx];
        node.collapse_to_index(choice);
        proof {
            lemma_one_node_changed(old(self), self, id);
        }
    }

    fn retain_node_at(&mut self, id: Index2D, keep: &Vec<bool>) {
        proof {
            lemma_tile_map_membership(self);
            lemma_column_major_in_range(self.size, id);
            lemma_fundamental_div_mod_converse(
                column_major_index(self.size.height as int, id),
                self.size.height as int,
                id.0 as int,
                id.1 as int,
            );
        }
        let n = self.nodes.len();
        let h = self.size.height as usize;
        let idx = (id.0 as usize) * h + (id.1 as usize);
        let node = &mut self.nodes[idx];
        node.retain_by_flags(keep);
        proof {
            crate::node::lemma_filter_by_flags_len(
                old(self).node_view(id).values,
                keep@,
            );
            lemma_one_node_changed(old(self), self, id);
        }
    }

    fn set_last_collapsed_id(&mut self, node_id: Index2D) {
        self.last_collapsed = Some(node_id);
    }

    fn get_last_collapsed_id(&self) -> (r: Option<Index2D>)
        ensures
            r == self.last_collapsed_spec(),
    {
        self.last_collapsed
    }
}

/// The smaller end of a cutoff kernel range around `c` with radius `r`.
pub open spec fn cutoff_lo(c: int, r: int) -> int {
    if c - r > 0 {
        c - r
    } else {
        0
    }
}

/// The larger end of a cutoff kernel range around `c` with radius `r` in a
/// grid of extent `limit`.
pub open spec fn cutoff_hi(c: int, r: int, limit: int) -> int {
    if c + r < limit - 1 {
        c + r
    } else {
        limit - 1
    }
}

/// The ids a cutoff kernel around `center` covers, in row-major order:
/// coordinates outside the grid are omitted.
pub open spec fn cutoff_kernel_ids(center: Index2D, size: Size2D, rx: int, ry: int) -> Seq<
    Index2D,
> {
    let x0 = cutoff_lo(center.0 as int, rx);
    let x1 = cutoff_hi(center.0 as int, rx, size.width as int);
    let y0 = cutoff_lo(center.1 as int, ry);
    let y1 = cutoff_hi(center.1 as int, ry, size.height as int);
    let nx = x1 - x0 + 1;
    let ny = y1 - y0 + 1;
    Seq::new((nx * ny) as nat, |k: int| (((x0 + k % nx) as u32, (y0 + k / nx) as u32)))
}

/// The ids a wrapping kernel around `center` covers, in row-major order:
/// coordinates outside the grid are reduced modulo the grid extent.
pub open spec fn wrapping_kernel_ids(center: Index2D, size: Size2D, rx: int, ry: int) -> Seq<
    Index2D,
> {
    let nx = 2 * rx + 1;
    let ny = 2 * ry + 1;
    Seq::new(
        (nx * ny) as nat,
        |k: int|
            (
                ((center.0 - rx + k % nx) % (size.width as int)) as u32,
                ((center.1 - ry + k / nx) % (size.height as int)) as u32,
            ),
    )
}

/// A cutoff kernel covers exactly the grid cells within its radii of the
/// center.
pub proof fn lemma_cutoff_kernel_contains(
    center: Index2D,
    size: Size2D,
    rx: int,
    ry: int,
    q: Index2D,
)
    requires
        center.0 < size.width,
        center.1 < size.height,
        rx >= 0,
        ry >= 0,
    ensures
        cutoff_kernel_ids(center, size, rx, ry).contains(q) <==> (q.0 < size.width && q.1
            < size.height && -rx <= q.0 - center.0 <= rx && -ry <= q.1 - center.1 <= ry),
{
    let x0 = cutoff_lo(center.0 as int, rx);
    let x1 = cutoff_hi(center.0 as int, rx, size.width as int);
    let y0 = cutoff_lo(center.1 as int, ry);
    let y1 = cutoff_hi(center.1 as int, ry, size.height as int);
    let nx = x1 - x0 + 1;
    let ny = y1 - y0 + 1;
    let ids = cutoff_kernel_ids(center, size, rx, ry);
    if ids.contains(q) {
        let k = choose|k: int| 0 <= k < ids.len() && ids[k] == q;
        lemma_row_major_id(nx, ny, k);
    }
    if q.0 < size.width && q.1 < size.height && -rx <= q.0 - center.0 <= rx && -ry <= q.1
        - center.1 <= ry {
        let dx = q.0 - x0;
        let dy = q.1 - y0;
        let k = dy * nx + dx;
        assert(0 <= k < nx * ny && k / nx == dy && k % nx == dx) by {
            lemma_row_major_position(nx, ny, ((q.0 - x0) as u32, (q.1 - y0) as u32));
            lemma_fundamental_div_mod_converse(k, nx, dy, dx);
        }
        assert(ids[k] == q);
    }
}

/// A wrapping kernel covers exactly the cells reachable from the center by
/// an offset within its radii, reduced modulo the grid extent; the two axes
/// are independent.
pub proof fn lemma_wrapping_kernel_contains(
    center: Index2D,
    size: Size2D,
    rx: int,
    ry: int,
    q: Index2D,
)
    requires
        center.0 < size.width,
        center.1 < size.height,
        rx >= 0,
        ry >= 0,
    ensures
        wrapping_kernel_ids(center, size, rx, ry).contains(q) <==> ((exists|dx: int|
            -rx <= dx <= rx && q.0 == #[trigger] ((center.0 + dx) % (size.width as int))) && (
        exists|dy: int|
            -ry <= dy <= ry && q.1 == #[trigger] ((center.1 + dy) % (size.height as int)))),
{
    let w = size.width as int;
    let h = size.height as int;
    let nx = 2 * rx + 1;
    let ny = 2 * ry + 1;
    let ids = wrapping_kernel_ids(center, size, rx, ry);
    if ids.contains(q) {
        let k = choose|k: int| 0 <= k < ids.len() && ids[k] == q;
        lemma_row_major_id(nx, ny, k);
        let dx = k % nx - rx;
        let dy = k / nx - ry;
        vstd::arithmetic::div_mod::lemma_mod_bound(center.0 - rx + k % nx, w);
        vstd::arithmetic::div_mod::lemma_mod_bound(center.1 - ry + k / nx, h);
        assert(-rx <= dx <= rx && q.0 == (center.0 + dx) % w);
        assert(-ry <= dy <= ry && q.1 == (center.1 + dy) % h);
    }
    if (exists|dx: int| -rx <= dx <= rx && q.0 == #[trigger] ((center.0 + dx) % w)) && (
    exists|dy: int| -ry <= dy <= ry && q.1 == #[trigger] ((center.1 + dy) % h)) {
        let dx = choose|dx: int| -rx <= dx <= rx && q.0 == #[trigger] ((center.0 + dx) % w);
        let dy = choose|dy: int| -ry <= dy <= ry && q.1 == #[trigger] ((center.1 + dy) % h);
        let k = (dy + ry) * nx + (dx + rx);
        assert(0 <= k <= nx * ny - 1) by (nonlinear_arith)
            requires
                nx == 2 * rx + 1,
                ny == 2 * ry + 1,
                -rx <= dx <= rx,
                -ry <= dy <= ry,
                k == (dy + ry) * nx + (dx + rx),
        ;
        lemma_fundamental_div_mod_converse(k, nx, dy + ry, dx + rx);
        vstd::arithmetic::div_mod::lemma_mod_bound(center.0 + dx, w);
        vstd::arithmetic::div_mod::lemma_mod_bound(center.1 + dy, h);
        assert(ids[k] == q);
    }
}

/// Kernel symmetry under the cutoff border policy: one cell lies in the
/// kernel of another exactly when the converse holds.
pub proof fn lemma_cutoff_kernel_symmetry(size: Size2D, rx: int, ry: int, a: Index2D, b: Index2D)
    requires
        a.0 < size.width,
        a.1 < size.height,
        b.0 < size.width,
        b.1 < size.height,
        rx >= 0,
        ry >= 0,
    ensures
        cutoff_kernel_ids(a, size, rx, ry).contains(b) <==> cutoff_kernel_ids(
            b,
            size,
            rx,
            ry,
        ).contains(a),
{
    lemma_cutoff_kernel_contains(a, size, rx, ry, b);
    lemma_cutoff_kernel_contains(b, size, rx, ry, a);
}

/// Kernel symmetry under the wrapping border policy: one cell lies in the
/// kernel of another exactly when the converse holds, under modular
/// arithmetic.
pub proof fn lemma_wrapping_kernel_symmetry(
    size: Size2D,
    rx: int,
    ry: int,
    a: Index2D,
    b: Index2D,
)
    requires
        a.0 < size.width,
        a.1 < size.height,
        b.0 < size.width,
        b.1 < size.height,
        rx >= 0,
        ry >= 0,
    ensures
        wrapping_kernel_ids(a, size, rx, ry).contains(b) <==> wrapping_kernel_ids(
            b,
            size,
            rx,
            ry,
        ).contains(a),
{
    lemma_wrapping_kernel_contains(a, size, rx, ry, b);
    lemma_wrapping_kernel_contains(b, size, rx, ry, a);
    let w = size.width as int;
    let h = size.height as int;
    if wrapping_kernel_ids(a, size, rx, ry).contains(b) {
        let dx = choose|dx: int| -rx <= dx <= rx && b.0 == #[trigger] ((a.0 + dx) % w);
        let dy = choose|dy: int| -ry <= dy <= ry && b.1 == #[trigger] ((a.1 + dy) % h);
        lemma_wrapping_offset_inverse(a.0 as int, b.0 as int, dx, w);
        lemma_wrapping_offset_inverse(a.1 as int, b.1 as int, dy, h);
        assert(-rx <= -dx <= rx && a.0 == ((b.0 + (-dx)) % w));
        assert(-ry <= -dy <= ry && a.1 == ((b.1 + (-dy)) % h));
    }
    if wrapping_kernel_ids(b, size, rx, ry).contains(a) {
        let dx = choose|dx: int| -rx <= dx <= rx && a.0 == #[trigger] ((b.0 + dx) % w);
        let dy = choose|dy: int| -ry <= dy <= ry && a.1 == #[trigger] ((b.1 + dy) % h);
        lemma_wrapping_offset_inverse(b.0 as int, a.0 as int, dx, w);
        lemma_wrapping_offset_inverse(b.1 as int, a.1 as int, dy, h);
        assert(-rx <= -dx <= rx && b.0 == ((a.0 + (-dx)) % w));
        assert(-ry <= -dy <= ry && b.1 == ((a.1 + (-dy)) % h));
    }
}

/// When `b` is `a` shifted by `d` modulo `m`, then `a` is `b` shifted by
/// `-d` modulo `m`.
proof fn lemma_wrapping_offset_inverse(a: int, b: int, d: int, m: int)
    requires
        0 <= a < m,
        0 <= b < m,
        b == (a + d) % m,
    ensures
        a == (b + (-d)) % m,
{
    vstd::arithmetic::div_mod::lemma_fundamental_div_mod(a + d, m);
    let quot = (a + d) / m;
    assert(m * (-quot) == -(m * quot)) by (nonlinear_arith);
    assert(b + (-d) == m * (-quot) + a);
    vstd::arithmetic::div_mod::lemma_mod_multiples_vanish(-quot, a, m);
    assert((m * (-quot) + a) % m == a % m);
    assert((b + (-d)) % m == a % m);
    vstd::arithmetic::div_mod::lemma_small_mod(a as nat, m as nat);
    assert(a % m == a);
}

/// Marks the border policy that wraps offsets leaving the grid around its
/// edges, modulo the grid extent.
pub struct Wrapping;

/// Marks the border policy that omits offsets leaving the grid.
pub struct Cutoff;

/// The neighborhood of one node of a tile map: a snapshot of the nodes
/// within the kernel radii around a center node, taken when the kernel was
/// built, under the border policy `Mode`.
pub struct Kernel2D<Mode, V> {
    node_id: Index2D,
    size: Size2D,
    /// How many cells the kernel reaches to each side of its center.
    pub radius_x: i64,
    /// How many cells the kernel reaches above and below its center.
    pub radius_y: i64,
    ids: Vec<Index2D>,
    nodes: Vec<Node<V>>,
    _mode: core::marker::PhantomData<Mode>,
}

impl<Mode, V> Kernel2D<Mode, V> {
    /// The id of the center node this kernel was built for.
    pub closed spec fn center(&self) -> Index2D {
        self.node_id
    }

    /// The extent of the grid this kernel was built over.
    pub closed spec fn grid_size(&self) -> Size2D {
        self.size
    }

    /// The ids the kernel covers, in row-major order.
    pub closed spec fn covered_ids(&self) -> Seq<Index2D> {
        self.ids@
    }

    /// The nodes the kernel copied out of the shape, one per covered id.
    pub closed spec fn snapshot(&self) -> Seq<NodeView<V>> {
        self.nodes@.map_values(|n: Node<V>| n@)
    }

    /// The value of the public `radius_x` field.
    pub closed spec fn rx_spec(&self) -> int {
        self.radius_x as int
    }

    /// The value of the public `radius_y` field.
    pub closed spec fn ry_spec(&self) -> int {
        self.radius_y as int
    }

    /// Structural soundness: one well-formed copied node per covered id,
    /// stored under that id; equal ids carry equal copies; the center lies
    /// on the grid and the radii are nonnegative and bounded.
    pub closed spec fn kernel_wf(&self) -> bool {
        &&& self.snapshot().len() == self.covered_ids().len()
        &&& forall|k: int|
            0 <= k < self.covered_ids().len() ==> (#[trigger] self.snapshot()[k]).wf()
                && self.snapshot()[k].id == self.covered_ids()[k]
        &&& forall|k1: int, k2: int|
            0 <= k1 < self.covered_ids().len() && 0 <= k2 < self.covered_ids().len()
                && #[trigger] self.covered_ids()[k1] == #[trigger] self.covered_ids()[k2]
                ==> self.snapshot()[k1] == self.snapshot()[k2]
        &&& self.center().0 < self.grid_size().width
        &&& self.center().1 < self.grid_size().height
        &&& 0 <= self.rx_spec() <= u32::MAX
        &&& 0 <= self.ry_spec() <= u32::MAX
    }
}

/// Copies the given values into a fresh vector.
fn copy_ids(values: &Vec<Index2D>) -> (r: Vec<Index2D>)
    ensures
        r@ == values@,
{
    let mut r: Vec<Index2D> = Vec::new();
    let mut i: usize = 0;
    while i < values.len()
        invariant
            i <= values@.len(),
            r@ == values@.subrange(0, i as int),
        decreases values@.len() - i,
    {
        r.push(values[i]);
        i = i + 1;
    }
    proof {
        assert(r@ =~= values@);
    }
    r
}

/// Copies, for each listed id, the node of the shape stored under it.
fn gather_nodes<V: Copy>(shape: &TileMap2D<V>, ids: &Vec<Index2D>) -> (r: Vec<Node<V>>)
    requires
        shape.wf(),
        forall|j: int| 0 <= j < ids@.len() ==> shape.valid_id(#[trigger] ids@[j]),
    ensures
        r@.len() == ids@.len(),
        forall|j: int| 0 <= j < ids@.len() ==> (#[trigger] r@[j])@ == shape.node_view(ids@[j]),
{
    proof {
        lemma_tile_map_membership(shape);
    }
    let mut r: Vec<Node<V>> = Vec::new();
    let mut j: usize = 0;
    while j < ids.len()
        invariant
            shape.wf(),
            forall|i: int| 0 <= i < ids@.len() ==> shape.valid_id(#[trigger] ids@[i]),
            forall|id: Index2D| #[trigger] shape.ids().contains(id) <==> shape.valid_id(id),
            j <= ids@.len(),
            r@.len() == j,
            forall|i: int| 0 <= i < j ==> (#[trigger] r@[i])@ == shape.node_view(ids@[i]),
        decreases ids@.len() - j,
    {
        let node = shape.get_node(&ids[j]).unwrap();
        r.push(node.duplicate());
        j = j + 1;
    }
    r
}

/// The ids a cutoff kernel covers, as a vector, in row-major order.
fn cutoff_ids_vec(size: Size2D, center: Index2D, rx: i64, ry: i64) -> (r: Vec<Index2D>)
    requires
        center.0 < size.width,
        center.1 < size.height,
        0 <= rx <= u32::MAX,
        0 <= ry <= u32::MAX,
        size.area() <= usize::MAX,
    ensures
        r@ == cutoff_kernel_ids(center, size, rx as int, ry as int),
{
    let cx = center.0 as i64;
    let cy = center.1 as i64;
    let x0 = if cx - rx > 0 { cx - rx } else { 0 };
    let x1 = if cx + rx < size.width as i64 - 1 { cx + rx } else { size.width as i64 - 1 };
    let y0 = if cy - ry > 0 { cy - ry } else { 0 };
    let y1 = if cy + ry < size.height as i64 - 1 { cy + ry } else { size.height as i64 - 1 };
    let nx = (x1 - x0 + 1) as u64;
    let ny = (y1 - y0 + 1) as u64;
    proof {
        assert(nx * ny <= size.width * size.height) by (nonlinear_arith)
            requires
                1 <= nx <= size.width,
                1 <= ny <= size.height,
        ;
    }
    let count = (nx * ny) as usize;
    let mut r: Vec<Index2D> = Vec::new();
    let mut k: usize = 0;
    let ghost spec_ids = cutoff_kernel_ids(center, size, rx as int, ry as int);
    while k < count
        invariant
            x0 == cutoff_lo(center.0 as int, rx as int),
            x1 == cutoff_hi(center.0 as int, rx as int, size.width as int),
            y0 == cutoff_lo(center.1 as int, ry as int),
            y1 == cutoff_hi(center.1 as int, ry as int, size.height as int),
            0 <= x0 <= x1 < size.width,
            0 <= y0 <= y1 < size.height,
            nx == x1 - x0 + 1,
            ny == y1 - y0 + 1,
            count == nx * ny,
            spec_ids == cutoff_kernel_ids(center, size, rx as int, ry as int),
            spec_ids.len() == count,
            k <= count,
            r@.len() == k,
            forall|j: int| 0 <= j < k ==> #[trigger] r@[j] == spec_ids[j],
        decreases count - k,
    {
        proof {
            lemma_row_major_id(nx as int, ny as int, k as int);
        }
        let dx = (k as u64 % nx) as i64;
        let dy = (k as u64 / nx) as i64;
        r.push(((x0 + dx) as u32, (y0 + dy) as u32));
        k = k + 1;
    }
    proof {
        assert(r@ =~= spec_ids);
    }
    r
}

/// The multiple of `m` one past `r / m` clears the radius `r`: shifting a
/// coordinate `c` below `m` by it keeps every offset's remainder, exceeds
/// `r` by at most `m`, and keeps any offset of at least `-r` positive.
proof fn lemma_shifted_remainder(c: int, d: int, r: int, m: int)
    requires
        0 <= c < m,
        0 <= r,
        -r <= d,
    ensures
        r < (r / m + 1) * m <= r + m,
        c + (r / m + 1) * m + d >= 1,
        (c + (r / m + 1) * m + d) % m == (c + d) % m,
        0 <= (c + d) % m < m,
{
    let q = r / m + 1;
    lemma_fundamental_div_mod(r, m);
    lemma_mod_division_less_than_divisor(r, m);
    assert(q * m == m * (r / m) + m) by (nonlinear_arith)
        requires
            q == r / m + 1,
    ;
    vstd::arithmetic::div_mod::lemma_mod_multiples_vanish(q, c + d, m);
    assert(m * q + (c + d) == c + q * m + d) by (nonlinear_arith);
    vstd::arithmetic::div_mod::lemma_mod_bound(c + d, m);
}

/// The ids a wrapping kernel covers, as a vector, in row-major order.
fn wrapping_ids_vec(size: Size2D, center: Index2D, rx: i64, ry: i64) -> (r: Vec<Index2D>)
    requires
        center.0 < size.width,
        center.1 < size.height,
        0 <= rx <= u32::MAX,
        0 <= ry <= u32::MAX,
        (2 * rx + 1) * (2 * ry + 1) <= usize::MAX,
    ensures
        r@ == wrapping_kernel_ids(center, size, rx as int, ry as int),
{
    let w = size.width as u64;
    let h = size.height as u64;
    let nx = (2 * rx + 1) as u64;
    let ny = (2 * ry + 1) as u64;
    let count = (nx * ny) as usize;
    let qx = rx as u64 / w + 1;
    let qy = ry as u64 / h + 1;
    proof {
        lemma_shifted_remainder(center.0 as int, -(rx as int), rx as int, w as int);
        lemma_shifted_remainder(center.1 as int, -(ry as int), ry as int, h as int);
    }
    let base_x = center.0 as u64 + qx * w - rx as u64;
    let base_y = center.1 as u64 + qy * h - ry as u64;
    let mut r: Vec<Index2D> = Vec::new();
    let mut k: usize = 0;
    let ghost spec_ids = wrapping_kernel_ids(center, size, rx as int, ry as int);
    while k < count
        invariant
            w == size.width,
            h == size.height,
            center.0 < w,
            center.1 < h,
            nx == 2 * rx + 1,
            ny == 2 * ry + 1,
            0 <= rx <= u32::MAX,
            0 <= ry <= u32::MAX,
            count == nx * ny,
            base_x == center.0 + qx * w - rx,
            base_y == center.1 + qy * h - ry,
            qx == rx as u64 / w + 1,
            qy == ry as u64 / h + 1,
            base_x + nx <= u64::MAX,
            base_y + ny <= u64::MAX,
            spec_ids == wrapping_kernel_ids(center, size, rx as int, ry as int),
            spec_ids.len() == count,
            k <= count,
            r@.len() == k,
            forall|j: int| 0 <= j < k ==> #[trigger] r@[j] == spec_ids[j],
        decreases count - k,
    {
        proof {
            lemma_row_major_id(nx as int, ny as int, k as int);
        }
        let dx = k as u64 % nx;
        let dy = k as u64 / nx;
        let xm = ((base_x + dx) % w) as u32;
        let ym = ((base_y + dy) % h) as u32;
        proof {
            lemma_shifted_remainder(center.0 as int, dx - rx, rx as int, w as int);
            lemma_shifted_remainder(center.1 as int, dy - ry, ry as int, h as int);
        }
        r.push((xm, ym));
        k = k + 1;
    }
    proof {
        assert(r@ =~= spec_ids);
    }
    r
}

/// A kernel whose copies were gathered from a well-formed shape, with each
/// covered id valid, is structurally sound.
proof fn lemma_snapshot_wf<Mode, V: Copy>(shape: &TileMap2D<V>, r: &Kernel2D<Mode, V>)
    requires
        shape.wf(),
        r.snapshot().len() == r.covered_ids().len(),
        forall|j: int| 0 <= j < r.covered_ids().len() ==> shape.valid_id(#[trigger] r.covered_ids()[j]),
        forall|k: int|
            0 <= k < r.covered_ids().len() ==> #[trigger] r.snapshot()[k] == shape.node_view(
                r.covered_ids()[k],
            ),
    ensures
        forall|k: int|
            0 <= k < r.covered_ids().len() ==> (#[trigger] r.snapshot()[k]).wf()
                && r.snapshot()[k].id == r.covered_ids()[k],
        forall|k1: int, k2: int|
            0 <= k1 < r.covered_ids().len() && 0 <= k2 < r.covered_ids().len()
                && #[trigger] r.covered_ids()[k1] == #[trigger] r.covered_ids()[k2]
                ==> r.snapshot()[k1] == r.snapshot()[k2],
{
    lemma_tile_map_membership(shape);
    shape.lemma_wf();
    assert forall|k: int| 0 <= k < r.covered_ids().len() implies (#[trigger] r.snapshot()[k]).wf()
        && r.snapshot()[k].id == r.covered_ids()[k] by {
        assert(shape.ids().contains(r.covered_ids()[k]));
    }
}

impl<V: Copy> WaveKernel<V, TileMap2D<V>> for Kernel2D<Cutoff, V> {
    closed spec fn ids_spec(&self) -> Seq<Index2D> {
        self.ids@
    }

    closed spec fn center_spec(&self) -> Index2D {
        self.node_id
    }

    open spec fn covers(shape: &TileMap2D<V>, center: Index2D) -> Seq<Index2D> {
        cutoff_kernel_ids(
            center,
            shape.size_spec(),
            (shape.kernel_size_spec().width - 1) as int / 2,
            (shape.kernel_size_spec().height - 1) as int / 2,
        )
    }

    /// A snapshot of the cutoff neighborhood of `node`: the cells within
    /// the kernel radii whose coordinates stay on the grid.
    fn new(shape: &TileMap2D<V>, node: &Node<V>) -> (r: Self)
        ensures
            r.kernel_wf(),
            r.center() == node@.id,
            r.grid_size() == shape.size_spec(),
            r.rx_spec() == (shape.kernel_size_spec().width - 1) as int / 2,
            r.ry_spec() == (shape.kernel_size_spec().height - 1) as int / 2,
            r.covered_ids() == cutoff_kernel_ids(
                node@.id,
                shape.size_spec(),
                r.rx_spec(),
                r.ry_spec(),
            ),
            forall|k: int|
                0 <= k < r.covered_ids().len() ==> #[trigger] r.snapshot()[k]
                    == shape.node_view(r.covered_ids()[k]),
    {
        proof {
            lemma_tile_map_membership(shape);
            shape.lemma_wf();
            shape.lemma_area_fits();
            shape.lemma_kernel_area();
        }
        let center = node.get_id();
        let rx = ((shape.kernel_size().width - 1) / 2) as i64;
        let ry = ((shape.kernel_size().height - 1) / 2) as i64;
        let ids = cutoff_ids_vec(*shape.size(), center, rx, ry);
        proof {
            assert forall|j: int| 0 <= j < ids@.len() implies shape.valid_id(
                #[trigger] ids@[j],
            ) by {
                assert(ids@.contains(ids@[j]));
                lemma_cutoff_kernel_contains(
                    center,
                    shape.size_spec(),
                    rx as int,
                    ry as int,
                    ids@[j],
                );
            }
        }
        let nodes = gather_nodes(shape, &ids);
        let r = Kernel2D {
            node_id: center,
            size: *shape.size(),
            radius_x: rx,
            radius_y: ry,
            ids,
            nodes,
            _mode: core::marker::PhantomData,
        };
        proof {
            lemma_cutoff_kernel_contains(
                center,
                shape.size_spec(),
                rx as int,
                ry as int,
                center,
            );
            assert forall|id: Index2D| r.covered_ids().contains(id) implies #[trigger] shape.ids().contains(
                id,
            ) by {
                lemma_cutoff_kernel_contains(center, shape.size_spec(), rx as int, ry as int, id);
            }
            lemma_snapshot_wf(shape, &r);
        }
        r
    }

    fn iter_node_ids(&self) -> (r: Vec<Index2D>)
        ensures
            r@ == self.covered_ids(),
    {
        copy_ids(&self.ids)
    }
}

impl<V: Copy> WaveKernel<V, TileMap2D<V>> for Kernel2D<Wrapping, V> {
    closed spec fn ids_spec(&self) -> Seq<Index2D> {
        self.ids@
    }

    closed spec fn center_spec(&self) -> Index2D {
        self.node_id
    }

    open spec fn covers(shape: &TileMap2D<V>, center: Index2D) -> Seq<Index2D> {
        wrapping_kernel_ids(
            center,
            shape.size_spec(),
            (shape.kernel_size_spec().width - 1) as int / 2,
            (shape.kernel_size_spec().height - 1) as int / 2,
        )
    }

    /// A snapshot of the wrapping neighborhood of `node`: the cells within
    /// the kernel radii, with coordinates reduced modulo the grid extent.
    fn new(shape: &TileMap2D<V>, node: &Node<V>) -> (r: Self)
        ensures
            r.kernel_wf(),
            r.center() == node@.id,
            r.grid_size() == shape.size_spec(),
            r.rx_spec() == (shape.kernel_size_spec().width - 1) as int / 2,
            r.ry_spec() == (shape.kernel_size_spec().height - 1) as int / 2,
            r.covered_ids() == wrapping_kernel_ids(
                node@.id,
                shape.size_spec(),
                r.rx_spec(),
                r.ry_spec(),
            ),
            forall|k: int|
                0 <= k < r.covered_ids().len() ==> #[trigger] r.snapshot()[k]
                    == shape.node_view(r.covered_ids()[k]),
    {
        proof {
            lemma_tile_map_membership(shape);
            shape.lemma_wf();
            shape.lemma_area_fits();
            shape.lemma_kernel_area();
        }
        let center = node.get_id();
        let rx = ((shape.kernel_size().width - 1) / 2) as i64;
        let ry = ((shape.kernel_size().height - 1) / 2) as i64;
        proof {
            assert((2 * rx + 1) * (2 * ry + 1) <= usize::MAX) by (nonlinear_arith)
                requires
                    0 <= rx,
                    0 <= ry,
                    2 * rx + 1 <= shape.kernel_size_spec().width,
                    2 * ry + 1 <= shape.kernel_size_spec().height,
                    shape.kernel_size_spec().area() <= usize::MAX,
                    shape.kernel_size_spec().area() == shape.kernel_size_spec().width
                        * shape.kernel_size_spec().height,
            ;
        }
        let ids = wrapping_ids_vec(*shape.size(), center, rx, ry);
        proof {
            assert forall|j: int| 0 <= j < ids@.len() implies shape.valid_id(
                #[trigger] ids@[j],
            ) by {
                assert(ids@.contains(ids@[j]));
                lemma_wrapping_kernel_contains(
                    center,
                    shape.size_spec(),
                    rx as int,
                    ry as int,
                    ids@[j],
                );
                let q = ids@[j];
                let dx = choose|dx: int|
                    -rx <= dx <= rx && q.0 == #[trigger] ((center.0 + dx) % (
                    shape.size_spec().width as int));
                let dy = choose|dy: int|
                    -ry <= dy <= ry && q.1 == #[trigger] ((center.1 + dy) % (
                    shape.size_spec().height as int));
                vstd::arithmetic::div_mod::lemma_mod_bound(
                    center.0 + dx,
                    shape.size_spec().width as int,
                );
                vstd::arithmetic::div_mod::lemma_mod_bound(
                    center.1 + dy,
                    shape.size_spec().height as int,
                );
            }
        }
        let nodes = gather_nodes(shape, &ids);
        let r = Kernel2D {
            node_id: center,
            size: *shape.size(),
            radius_x: rx,
            radius_y: ry,
            ids,
            nodes,
            _mode: core::marker::PhantomData,
        };
        proof {
            lemma_wrapping_kernel_contains(
                center,
                shape.size_spec(),
                rx as int,
                ry as int,
                center,
            );
            vstd::arithmetic::div_mod::lemma_small_mod(
                center.0 as nat,
                shape.size_spec().width as nat,
            );
            vstd::arithmetic::div_mod::lemma_small_mod(
                center.1 as nat,
                shape.size_spec().height as nat,
            );
            assert(center.0 == (center.0 + 0) % (shape.size_spec().width as int));
            assert(center.1 == (center.1 + 0) % (shape.size_spec().height as int));
            assert forall|id: Index2D| r.covered_ids().contains(id) implies #[trigger] shape.ids().contains(
                id,
            ) by {
                lemma_wrapping_kernel_contains(
                    center,
                    shape.size_spec(),
                    rx as int,
                    ry as int,
                    id,
                );
                let dx = choose|dx: int|
                    -rx <= dx <= rx && id.0 == #[trigger] ((center.0 + dx) % (
                    shape.size_spec().width as int));
                let dy = choose|dy: int|
                    -ry <= dy <= ry && id.1 == #[trigger] ((center.1 + dy) % (
                    shape.size_spec().height as int));
                vstd::arithmetic::div_mod::lemma_mod_bound(
                    center.0 + dx,
                    shape.size_spec().width as int,
                );
                vstd::arithmetic::div_mod::lemma_mod_bound(
                    center.1 + dy,
                    shape.size_spec().height as int,
                );
            }
            lemma_snapshot_wf(shape, &r);
        }
        r
    }

    fn iter_node_ids(&self) -> (r: Vec<Index2D>)
        ensures
            r@ == self.covered_ids(),
    {
        copy_ids(&self.ids)
    }
}

/// The first node stored under `target`, if any id matches it.
fn find_node<'a, V: Copy>(ids: &Vec<Index2D>, nodes: &'a Vec<Node<V>>, target: Index2D) -> (r:
    Option<&'a Node<V>>)
    requires
        ids@.len() == nodes@.len(),
    ensures
        match r {
            Option::Some(n) => exists|k: int|
                0 <= k < ids@.len() && #[trigger] ids@[k] == target && *n == nodes@[k],
            Option::None => !ids@.contains(target),
        },
{
    let mut j: usize = 0;
    while j < ids.len()
        invariant
            ids@.len() == nodes@.len(),
            j <= ids@.len(),
            forall|i: int| 0 <= i < j ==> #[trigger] ids@[i] != target,
        decreases ids@.len() - j,
    {
        let id = ids[j];
        if id.0 == target.0 && id.1 == target.1 {
            proof {
                assert(ids@[j as int] == target);
            }
            return Some(&nodes[j]);
        }
        j = j + 1;
    }
    proof {
        if ids@.contains(target) {
            let k = choose|k: int| 0 <= k < ids@.len() && ids@[k] == target;
            assert(ids@[k] != target);
        }
    }
    None
}

impl<V: Copy> Kernel2D<Cutoff, V> {
    /// The node at offset `(x, y)` from the center, or `None` when the
    /// offset leaves the kernel radii or the grid.
    pub fn get(&self, x: i64, y: i64) -> (r: Option<&Node<V>>)
        requires
            self.kernel_wf(),
            self.covered_ids() == cutoff_kernel_ids(
                self.center(),
                self.grid_size(),
                self.rx_spec(),
                self.ry_spec(),
            ),
        ensures
            match r {
                Option::Some(n) => {
                    &&& -self.rx_spec() <= x <= self.rx_spec()
                    &&& -self.ry_spec() <= y <= self.ry_spec()
                    &&& 0 <= self.center().0 + x < self.grid_size().width
                    &&& 0 <= self.center().1 + y < self.grid_size().height
                    &&& n@.id == (((self.center().0 + x) as u32, (self.center().1 + y) as u32))
                    &&& n@.wf()
                    &&& exists|k: int|
                        0 <= k < self.covered_ids().len() && #[trigger] self.covered_ids()[k]
                            == n@.id && self.snapshot()[k] == n@
                },
                Option::None => !(-self.rx_spec() <= x <= self.rx_spec() && -self.ry_spec() <= y
                    <= self.ry_spec() && 0 <= self.center().0 + x < self.grid_size().width && 0
                    <= self.center().1 + y < self.grid_size().height),
            },
    {
        if x < -self.radius_x || x > self.radius_x || y < -self.radius_y || y > self.radius_y {
            return None;
        }
        let tx = self.node_id.0 as i64 + x;
        let ty = self.node_id.1 as i64 + y;
        if tx < 0 || ty < 0 || tx >= self.size.width as i64 || ty >= self.size.height as i64 {
            return None;
        }
        let target = (tx as u32, ty as u32);
        proof {
            lemma_cutoff_kernel_contains(
                self.node_id,
                self.size,
                self.radius_x as int,
                self.radius_y as int,
                target,
            );
            assert(self.covered_ids().contains(target));
        }
        let r = find_node(&self.ids, &self.nodes, target);
        proof {
            // the kernel covers the target, so the lookup cannot miss
            if r is None {
                assert(false);
            }
        }
        r
    }
}

impl<V: Copy> Kernel2D<Wrapping, V> {
    /// The node at offset `(x, y)` from the center, with the coordinate
    /// reduced modulo the grid extent, or `None` when the offset leaves the
    /// kernel radii.
    pub fn get(&self, x: i64, y: i64) -> (r: Option<&Node<V>>)
        requires
            self.kernel_wf(),
            self.covered_ids() == wrapping_kernel_ids(
                self.center(),
                self.grid_size(),
                self.rx_spec(),
                self.ry_spec(),
            ),
        ensures
            match r {
                Option::Some(n) => {
                    &&& -self.rx_spec() <= x <= self.rx_spec()
                    &&& -self.ry_spec() <= y <= self.ry_spec()
                    &&& n@.id == ((((self.center().0 + x) % (
                        self.grid_size().width as int)) as u32, (((self.center().1 + y) % (
                        self.grid_size().height as int)) as u32)))
                    &&& n@.wf()
                    &&& exists|k: int|
                        0 <= k < self.covered_ids().len() && #[trigger] self.covered_ids()[k]
                            == n@.id && self.snapshot()[k] == n@
                },
                Option::None => !(-self.rx_spec() <= x <= self.rx_spec() && -self.ry_spec() <= y
                    <= self.ry_spec()),
            },
    {
        if x < -self.radius_x || x > self.radius_x || y < -self.radius_y || y > self.radius_y {
            return None;
        }
        let w = self.size.width as u64;
        let h = self.size.height as u64;
        let qx = self.radius_x as u64 / w + 1;
        let qy = self.radius_y as u64 / h + 1;
        proof {
            lemma_shifted_remainder(self.node_id.0 as int, x as int, self.radius_x as int, w as int);
            lemma_shifted_remainder(self.node_id.1 as int, y as int, self.radius_y as int, h as int);
        }
        let sx = ((self.node_id.0 as u64 + qx * w) as i64 + x) as u64 % w;
        let sy = ((self.node_id.1 as u64 + qy * h) as i64 + y) as u64 % h;
        let target = ((sx as u32), (sy as u32));
        proof {
            assert(target.0 == (self.center().0 + x) % (w as int));
            assert(target.1 == (self.center().1 + y) % (h as int));
            lemma_wrapping_kernel_contains(
                self.node_id,
                self.size,
                self.radius_x as int,
                self.radius_y as int,
                target,
            );
            assert(self.covered_ids().contains(target));
        }
        let r = find_node(&self.ids, &self.nodes, target);
        proof {
            // the kernel covers the target, so the lookup cannot miss
            if r is None {
                assert(false);
            }
        }
        r
    }
}

/// vecgrid's two-dimensional grid type, declared so that verified code can
/// hand one out.  Verus sees nothing inside a value of this type.
#[verifier::external_type_specification]
#[verifier::external_body]
#[verifier::reject_recursive_types(T)]
pub struct ExVecgrid<T>(vecgrid::Vecgrid<T>);

/// Relies on vecgrid's `Vecgrid::from_column_major`: builds a grid of the
/// given dimensions from elements listed in column-major order.  The callee
/// fails only when the element count does not match the dimensions, which
/// the precondition rules out.
#[verifier::external_body]
fn vecgrid_from_column_major<T: Clone>(elements: Vec<T>, rows: usize, cols: usize) -> (r:
    vecgrid::Vecgrid<T>)
    requires
        elements@.len() == rows * cols,
{
    vecgrid::Vecgrid::from_column_major(elements, rows, cols).expect(
        "the element count matches the dimensions",
    )
}

impl<V: Copy> TileMap2D<V> {
    /// The collapsed value of every cell, in column-major order, or `None`
    /// while any cell is still uncollapsed.
    pub fn collapsed_values(&self) -> (r: Option<Vec<V>>)
        requires
            self.wf(),
        ensures
            match r {
                Option::Some(values) => {
                    &&& all_collapsed(self)
                    &&& values@.len() == self.size_spec().area()
                    &&& forall|id: Index2D|
                        self.valid_id(id) ==> values@[column_major_index(
                            self.size_spec().height as int,
                            id,
                        )] == (#[trigger] self.node_view(id)).values[0]
                },
                Option::None => !all_collapsed(self),
            },
    {
        proof {
            lemma_tile_map_membership(self);
            self.lemma_wf();
        }
        let n = self.nodes.len();
        let ghost h = self.size_spec().height as int;
        let ghost w = self.size_spec().width as int;
        let mut values: Vec<V> = Vec::new();
        let mut k: usize = 0;
        while k < n
            invariant
                self.wf(),
                forall|id: Index2D| #[trigger] self.ids().contains(id) <==> self.valid_id(id),
                forall|id: Index2D|
                    self.ids().contains(id) ==> (#[trigger] self.node_view(id)).id == id
                        && self.node_view(id).wf(),
                h == self.size_spec().height,
                w == self.size_spec().width,
                n == self.size_spec().area(),
                k <= n,
                values@.len() == k,
                forall|j: int|
                    0 <= j < k ==> (#[trigger] self.stored_index(j)).collapsed && values@[j]
                        == self.stored_index(j).values[0],
            decreases n - k,
        {
            proof {
                lemma_area_positive(self.size_spec());
                assert(h * w == w * h) by (nonlinear_arith);
                lemma_row_major_id(h, w, k as int);
            }
            let node = &self.nodes[k];
            match node.collapsed() {
                Option::None => {
                    proof {
                        let id = self.stored_index(k as int).id;
                        lemma_fundamental_div_mod(k as int, h);
                        assert(self.valid_id(id));
                        lemma_column_major_in_range(self.size_spec(), id);
                        lemma_fundamental_div_mod_converse(
                            column_major_index(h, id),
                            h,
                            id.0 as int,
                            id.1 as int,
                        );
                        assert(column_major_index(h, id) == k as int) by {
                            assert((k as int / h) * h + (k as int % h) == k as int);
                        }
                        assert(self.node_view(id) == self.stored_index(k as int));
                        assert(!all_collapsed(self));
                    }
                    return None;
                },
                Option::Some(v) => {
                    values.push(v);
                },
            }
            k = k + 1;
        }
        proof {
            assert forall|id: Index2D| self.ids().contains(id) implies (#[trigger] self.node_view(
                id,
            )).collapsed by {
                lemma_column_major_in_range(self.size_spec(), id);
                lemma_fundamental_div_mod_converse(
                    column_major_index(h, id),
                    h,
                    id.0 as int,
                    id.1 as int,
                );
                assert(self.stored_index(column_major_index(h, id)).collapsed);
            }
            assert forall|id: Index2D| self.valid_id(id) implies values@[column_major_index(
                h,
                id,
            )] == (#[trigger] self.node_view(id)).values[0] by {
                lemma_column_major_in_range(self.size_spec(), id);
                let ci = column_major_index(h, id);
                lemma_fundamental_div_mod_converse(ci, h, id.0 as int, id.1 as int);
                assert(values@[ci] == self.stored_index(ci).values[0]);
                assert(self.node_view(id) == self.stored_index(ci));
            }
        }
        Some(values)
    }

    /// The collapsed value of every cell as a `width x height` vecgrid,
    /// with the value of cell `(x, y)` at row `x`, column `y`, or `None`
    /// while any cell is still uncollapsed.
    pub fn get_collapsed(&self) -> (r: Option<vecgrid::Vecgrid<V>>)
        requires
            self.wf(),
        ensures
            r is Some <==> all_collapsed(self),
    {
        proof {
            lemma_tile_map_membership(self);
        }
        match self.collapsed_values() {
            Option::None => None,
            Option::Some(values) => {
                // reorder the column-major export into enumeration order,
                // so that row x, column y of the grid is cell (x, y)
                let ids = self.iter_node_ids();
                let h = self.size.height as usize;
                let mut data: Vec<V> = Vec::new();
                let mut j: usize = 0;
                while j < ids.len()
                    invariant
                        self.wf(),
                        forall|id: Index2D| #[trigger]
                            self.ids().contains(id) <==> self.valid_id(id),
                        ids@ == self.ids(),
                        h == self.size_spec().height,
                        values@.len() == self.size_spec().area(),
                        j <= ids@.len(),
                        data@.len() == j,
                        forall|i: int|
                            0 <= i < j ==> #[trigger] data@[i] == values@[column_major_index(
                                h as int,
                                ids@[i],
                            )],
                    decreases ids@.len() - j,
                {
                    let id = ids[j];
                    proof {
                        assert(self.ids().contains(ids@[j as int]));
                        lemma_column_major_in_range(self.size_spec(), id);
                    }
                    let idx = (id.0 as usize) * h + (id.1 as usize);
                    data.push(values[idx]);
                    j = j + 1;
                }
                let w = self.size.width as usize;
                proof {
                    assert(data@.len() == (w as int) * (h as int));
                }
                Some(vecgrid_from_column_major(data, w, h))
            },
        }
    }
}


} // verus!
