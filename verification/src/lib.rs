//! A generic wave-function-collapse constraint-propagation engine.
//!
//! A shape (for example a rectangular tile map) holds a grid of nodes, each
//! carrying the candidate values it can still collapse into.  The solver
//! repeatedly picks a random node of minimum entropy, fixes it to one of its
//! candidates, and propagates the resulting constraint to the neighborhood
//! cells supplied by a kernel, until every node is collapsed or the grid is
//! proven unsatisfiable.

use vstd::prelude::*;

pub mod binary_heap_set;
pub mod error;
pub mod gen_iter_return_result;
pub mod node;
pub mod rng;
pub mod seq_util;
pub mod tile2d;

verus! {

use core::marker::PhantomData;

use crate::binary_heap_set::{BinaryHeapSet, HeapEntry, is_first_min};
pub use crate::error::WaveCollapseError;
use crate::gen_iter_return_result::GenIterReturnResult;
use crate::node::{filter_by_flags, Index2D, Node, NodeView};
use crate::seq_util::{count_true, lemma_count_true_le_len, lemma_count_true_set_one,
    lemma_seq_sum_lt, seq_sum};

/// A set of rules that defines how to collapse a given wave function.
///
/// Implementations are supplied by the user of the library; the solver
/// relies on `is_valid` agreeing with `valid_spec`.
pub trait WaveSolver<V, Kernel> {
    /// What `is_valid` decides for a value within a kernel.
    spec fn valid_spec(&self, value: V, kernel: Kernel) -> bool;

    /// Whether `value` is valid within `kernel`.
    fn is_valid(&self, value: &V, kernel: &Kernel) -> (r: bool)
        ensures
            r == self.valid_spec(*value, *kernel),
    ;
}

/// Whether every node of the shape is collapsed.
pub open spec fn all_collapsed<V: Copy, S: WaveShape<V>>(shape: &S) -> bool {
    forall|id: Index2D| shape.ids().contains(id) ==> (#[trigger] shape.node_view(id)).collapsed
}

/// Whether some node of the shape is overspecified, meaning that no valid
/// values are left for it.
pub open spec fn any_overspecified<V: Copy, S: WaveShape<V>>(shape: &S) -> bool {
    exists|id: Index2D|
        shape.ids().contains(id) && (#[trigger] shape.node_view(id)).is_overspecified()
}

/// Every element of `a` also occurs in `b`: a candidate list can only
/// narrow to lists whose values it already offered.
pub open spec fn values_within<T>(a: Seq<T>, b: Seq<T>) -> bool {
    forall|j: int| 0 <= j < a.len() ==> b.contains(#[trigger] a[j])
}

/// Whether some kernel value makes the rules accept `value`.
pub open spec fn some_kernel_accepts<V, K, Slv: WaveSolver<V, K>>(solver: Slv, value: V) -> bool {
    exists|k: K| solver.valid_spec(value, k)
}

/// Whether some kernel value makes the rules reject `value`.
pub open spec fn some_kernel_rejects<V, K, Slv: WaveSolver<V, K>>(solver: Slv, value: V) -> bool {
    exists|k: K| !solver.valid_spec(value, k)
}

/// Narrowing is reflexive.
proof fn lemma_values_within_refl<T>(a: Seq<T>)
    ensures
        values_within(a, a),
{
    assert forall|j: int| 0 <= j < a.len() implies a.contains(#[trigger] a[j]) by {
        assert(a[j] == a[j]);
    }
}

/// Narrowing is transitive.
proof fn lemma_values_within_trans<T>(a: Seq<T>, b: Seq<T>, c: Seq<T>)
    requires
        values_within(a, b),
        values_within(b, c),
    ensures
        values_within(a, c),
{
    assert forall|j: int| 0 <= j < a.len() implies c.contains(#[trigger] a[j]) by {
        assert(b.contains(a[j]));
        let k = choose|k: int| 0 <= k < b.len() && b[k] == a[j];
        assert(c.contains(b[k]));
    }
}

/// A wave shape defines the dimension, size and shape of the wave function:
/// it owns the nodes, enumerates them in a stable order, and mutates one
/// node at a time on the solver's behalf.
pub trait WaveShape<V: Copy>: Sized {
    /// The ids of all nodes, in enumeration order.
    spec fn ids(&self) -> Seq<Index2D>;

    /// The node stored under `id`.
    spec fn node_view(&self, id: Index2D) -> NodeView<V>;

    /// The id of the node most recently recorded as collapsed, if any.
    spec fn last_collapsed_spec(&self) -> Option<Index2D>;

    /// Structural soundness of the shape.
    spec fn wf(&self) -> bool;

    /// A well-formed shape enumerates distinct ids, and every node is well
    /// formed and stored under its own id.
    proof fn lemma_wf(&self)
        requires
            self.wf(),
        ensures
            self.ids().no_duplicates(),
            forall|id: Index2D|
                self.ids().contains(id) ==> (#[trigger] self.node_view(id)).id == id
                    && self.node_view(id).wf(),
    ;

    /// The ids of all nodes in the wave function, in enumeration order.
    fn iter_node_ids(&self) -> (r: Vec<Index2D>)
        requires
            self.wf(),
        ensures
            r@ == self.ids(),
    ;

    /// The node stored under `id`, or `None` if the shape has no such node.
    fn get_node(&self, id: &Index2D) -> (r: Option<&Node<V>>)
        requires
            self.wf(),
        ensures
            match r {
                Option::Some(n) => self.ids().contains(*id) && n@ == self.node_view(*id),
                Option::None => !self.ids().contains(*id),
            },
    ;

    /// Collapses the uncollapsed node `id` to its candidate at `choice`,
    /// dropping all other candidates.
    fn collapse_node_at(&mut self, id: Index2D, choice: usize)
        requires
            old(self).wf(),
            old(self).ids().contains(id),
            !old(self).node_view(id).collapsed,
            choice < old(self).node_view(id).values.len(),
        ensures
            final(self).wf(),
            final(self).ids() == old(self).ids(),
            final(self).node_view(id) == (NodeView {
                id,
                values: seq![old(self).node_view(id).values[choice as int]],
                collapsed: true,
            }),
            forall|other: Index2D|
                other != id ==> #[trigger] final(self).node_view(other) == old(self).node_view(
                    other,
                ),
            final(self).last_collapsed_spec() == old(self).last_collapsed_spec(),
    ;

    /// Keeps, of the candidates of the uncollapsed node `id`, exactly those
    /// whose flag in `keep` is set, preserving their relative order.
    fn retain_node_at(&mut self, id: Index2D, keep: &Vec<bool>)
        requires
            old(self).wf(),
            old(self).ids().contains(id),
            !old(self).node_view(id).collapsed,
            keep@.len() == old(self).node_view(id).values.len(),
        ensures
            final(self).wf(),
            final(self).ids() == old(self).ids(),
            final(self).node_view(id) == (NodeView {
                id,
                values: filter_by_flags(old(self).node_view(id).values, keep@),
                collapsed: false,
            }),
            forall|other: Index2D|
                other != id ==> #[trigger] final(self).node_view(other) == old(self).node_view(
                    other,
                ),
            final(self).last_collapsed_spec() == old(self).last_collapsed_spec(),
    ;

    /// Records `node_id` as the most recently collapsed node.
    fn set_last_collapsed_id(&mut self, node_id: Index2D)
        requires
            old(self).wf(),
        ensures
            final(self).wf(),
            final(self).ids() == old(self).ids(),
            forall|other: Index2D| #[trigger]
                final(self).node_view(other) == old(self).node_view(other),
            final(self).last_collapsed_spec() == Some(node_id),
    ;

    /// The id of the most recently collapsed node, if any.
    fn get_last_collapsed_id(&self) -> (r: Option<Index2D>)
        requires
            self.wf(),
        ensures
            r == self.last_collapsed_spec(),
    ;

    /// Whether all nodes in the shape are collapsed.
    fn is_collapsed(&self) -> (r: bool)
        requires
            self.wf(),
        ensures
            r == (forall|id: Index2D|
                self.ids().contains(id) ==> (#[trigger] self.node_view(id)).collapsed),
    {
        let ids = self.iter_node_ids();
        let mut i: usize = 0;
        while i < ids.len()
            invariant
                self.wf(),
                ids@ == self.ids(),
                i <= ids@.len(),
                forall|j: int| 0 <= j < i ==> (#[trigger] self.node_view(ids@[j])).collapsed,
            decreases ids@.len() - i,
        {
            proof {
                assert(self.ids().contains(ids@[i as int]));
            }
            let node = self.get_node(&ids[i]).unwrap();
            if !node.is_collapsed() {
                return false;
            }
            i = i + 1;
        }
        proof {
            assert forall|id: Index2D| self.ids().contains(id) implies (#[trigger] self.node_view(
                id,
            )).collapsed by {
                let j = choose|j: int| 0 <= j < self.ids().len() && self.ids()[j] == id;
                assert(self.node_view(ids@[j]).collapsed);
            }
        }
        true
    }

    /// Whether any node in the shape is overspecified.
    fn is_overspecified(&self) -> (r: bool)
        requires
            self.wf(),
        ensures
            r == (exists|id: Index2D|
                self.ids().contains(id) && (#[trigger] self.node_view(id)).is_overspecified()),
    {
        let ids = self.iter_node_ids();
        let mut i: usize = 0;
        while i < ids.len()
            invariant
                self.wf(),
                ids@ == self.ids(),
                i <= ids@.len(),
                forall|j: int|
                    0 <= j < i ==> !(#[trigger] self.node_view(ids@[j])).is_overspecified(),
            decreases ids@.len() - i,
        {
            proof {
                assert(self.ids().contains(ids@[i as int]));
            }
            let node = self.get_node(&ids[i]).unwrap();
            if node.is_overspecified() {
                return true;
            }
            i = i + 1;
        }
        proof {
            if exists|id: Index2D|
                self.ids().contains(id) && (#[trigger] self.node_view(id)).is_overspecified() {
                let id = choose|id: Index2D|
                    self.ids().contains(id) && (#[trigger] self.node_view(
                        id,
                    )).is_overspecified();
                let j = choose|j: int| 0 <= j < self.ids().len() && self.ids()[j] == id;
                assert(!self.node_view(ids@[j]).is_overspecified());
            }
        }
        false
    }

    /// A random node of lowest entropy among the nodes that are neither
    /// collapsed nor overspecified, or `None` if no such node exists.
    fn choose_random_with_lowest_entropy(&self, rng: &mut rand::rngs::StdRng) -> (r: Option<
        Index2D,
    >)
        requires
            self.wf(),
        ensures
            match r {
                Option::Some(id) => self.ids().contains(id) && self.node_view(id).pickable()
                    && forall|other: Index2D|
                    self.ids().contains(other) && (#[trigger] self.node_view(other)).pickable()
                        ==> self.node_view(id).entropy() <= self.node_view(other).entropy(),
                Option::None => forall|other: Index2D|
                    self.ids().contains(other) ==> !(#[trigger] self.node_view(other)).pickable(),
            },
    {
        proof {
            self.lemma_wf();
        }
        let ids = self.iter_node_ids();
        let mut bucket: Vec<Index2D> = Vec::new();
        let mut entropy: u32 = u32::MAX;
        let mut i: usize = 0;
        while i < ids.len()
            invariant
                self.wf(),
                ids@ == self.ids(),
                i <= ids@.len(),
                self.ids().no_duplicates(),
                forall|id: Index2D|
                    self.ids().contains(id) ==> (#[trigger] self.node_view(id)).id == id
                        && self.node_view(id).wf(),
                forall|j: int|
                    0 <= j < bucket@.len() ==> self.ids().contains(#[trigger] bucket@[j])
                        && self.node_view(bucket@[j]).pickable() && self.node_view(
                        bucket@[j],
                    ).entropy() == entropy,
                forall|j: int|
                    0 <= j < i && (#[trigger] self.node_view(ids@[j])).pickable()
                        ==> self.node_view(ids@[j]).entropy() >= entropy,
                bucket@.len() == 0 ==> entropy == u32::MAX && forall|j: int|
                    0 <= j < i ==> !(#[trigger] self.node_view(ids@[j])).pickable(),
            decreases ids@.len() - i,
        {
            proof {
                assert(self.ids().contains(ids@[i as int]));
            }
            let id = ids[i];
            let node = self.get_node(&id).unwrap();
            if node.is_collapsed() || node.is_overspecified() {
                i = i + 1;
                continue ;
            }
            let node_entropy = node.entropy();
            if node_entropy < entropy {
                entropy = node_entropy;
                bucket.clear();
                bucket.push(id);
            } else if node_entropy == entropy {
                bucket.push(id);
            }
            i = i + 1;
        }
        if bucket.len() == 0 {
            proof {
                assert forall|other: Index2D| self.ids().contains(other) implies !(
                #[trigger] self.node_view(other)).pickable() by {
                    if self.node_view(other).pickable() {
                        let j = choose|j: int|
                            0 <= j < self.ids().len() && self.ids()[j] == other;
                        assert(!self.node_view(ids@[j]).pickable());
                    }
                }
            }
            None
        } else {
            let pick = crate::rng::rng_below(rng, bucket.len());
            let id = bucket[pick];
            proof {
                assert forall|other: Index2D|
                    self.ids().contains(other) && (#[trigger] self.node_view(
                        other,
                    )).pickable() implies self.node_view(id).entropy() <= self.node_view(
                    other,
                ).entropy() by {
                    let j = choose|j: int| 0 <= j < self.ids().len() && self.ids()[j] == other;
                    assert(self.node_view(ids@[j]).pickable());
                }
            }
            Some(id)
        }
    }
}

/// A wave kernel represents all nodes that can affect the node it was built
/// for: in a tile map, the nodes surrounding the center node.  A kernel is a
/// snapshot: it copies the nodes it covers out of the shape at construction
/// time.
pub trait WaveKernel<V: Copy, Shape: WaveShape<V>>: Sized {
    /// The ids of the nodes of this kernel, the center included.
    spec fn ids_spec(&self) -> Seq<Index2D>;

    /// The id of the center node this kernel was built for.
    spec fn center_spec(&self) -> Index2D;

    /// The ids a kernel of this type covers when built for `center` within
    /// `shape`: the neighborhood map of this kernel type.
    spec fn covers(shape: &Shape, center: Index2D) -> Seq<Index2D>;

    /// A kernel for `node` within `shape`, covering every node that can
    /// influence the valid values of `node`, itself included.
    fn new(shape: &Shape, node: &Node<V>) -> (r: Self)
        requires
            shape.wf(),
            shape.ids().contains(node@.id),
            node@ == shape.node_view(node@.id),
        ensures
            r.center_spec() == node@.id,
            r.ids_spec() == Self::covers(shape, node@.id),
            r.ids_spec().contains(node@.id),
            forall|id: Index2D|
                r.ids_spec().contains(id) ==> #[trigger] shape.ids().contains(id),
    ;

    /// The ids of all nodes in the kernel.
    fn iter_node_ids(&self) -> (r: Vec<Index2D>)
        ensures
            r@ == self.ids_spec(),
    ;
}

/// The candidates of `values` that the solver accepts within `kernel`, in
/// their original order.
pub open spec fn retained_values<V, K, Slv: WaveSolver<V, K>>(
    solver: &Slv,
    values: Seq<V>,
    kernel: K,
) -> Seq<V>
    decreases values.len(),
{
    if values.len() == 0 {
        Seq::empty()
    } else {
        let rest = retained_values(solver, values.drop_last(), kernel);
        if solver.valid_spec(values.last(), kernel) {
            rest.push(values.last())
        } else {
            rest
        }
    }
}

/// Filtering by flags that record the solver's verdicts retains exactly the
/// accepted candidates.
proof fn lemma_retained_matches_flags<V, K, Slv: WaveSolver<V, K>>(
    solver: &Slv,
    values: Seq<V>,
    kernel: K,
    keep: Seq<bool>,
)
    requires
        keep.len() == values.len(),
        forall|i: int| 0 <= i < values.len() ==> keep[i] == solver.valid_spec(values[i], kernel),
    ensures
        filter_by_flags(values, keep) == retained_values(solver, values, kernel),
    decreases values.len(),
{
    if values.len() > 0 {
        lemma_retained_matches_flags(solver, values.drop_last(), kernel, keep.drop_last());
    }
}

/// Retention never grows the candidate list, and a retention that keeps the
/// length keeps the list itself.
pub proof fn lemma_retained_values_len<V, K, Slv: WaveSolver<V, K>>(
    solver: &Slv,
    values: Seq<V>,
    kernel: K,
)
    ensures
        retained_values(solver, values, kernel).len() <= values.len(),
        retained_values(solver, values, kernel).len() == values.len() ==> retained_values(
            solver,
            values,
            kernel,
        ) == values,
    decreases values.len(),
{
    if values.len() > 0 {
        lemma_retained_values_len(solver, values.drop_last(), kernel);
        if retained_values(solver, values, kernel).len() == values.len() {
            assert(retained_values(solver, values, kernel) =~= values);
        }
    }
}

/// Every retained candidate was a candidate before and is accepted by the
/// solver within the kernel it was filtered against.
pub proof fn lemma_retained_values_sound<V, K, Slv: WaveSolver<V, K>>(
    solver: &Slv,
    values: Seq<V>,
    kernel: K,
    j: int,
)
    requires
        0 <= j < retained_values(solver, values, kernel).len(),
    ensures
        solver.valid_spec(retained_values(solver, values, kernel)[j], kernel),
        values.contains(retained_values(solver, values, kernel)[j]),
    decreases values.len(),
{
    if values.len() > 0 {
        let rest = retained_values(solver, values.drop_last(), kernel);
        if solver.valid_spec(values.last(), kernel) && j == rest.len() {
            assert(values[values.len() - 1] == retained_values(solver, values, kernel)[j]);
        } else {
            lemma_retained_values_sound(solver, values.drop_last(), kernel, j);
            let v = retained_values(solver, values, kernel)[j];
            let i = choose|i: int| 0 <= i < values.drop_last().len() && values.drop_last()[i] == v;
            assert(values[i] == v);
        }
    }
}

/// A rule set that accepts every candidate within the kernel retains the
/// candidate list unchanged.
proof fn lemma_retained_values_all_valid<V, K, Slv: WaveSolver<V, K>>(
    solver: &Slv,
    values: Seq<V>,
    kernel: K,
)
    requires
        forall|j: int| 0 <= j < values.len() ==> solver.valid_spec(#[trigger] values[j], kernel),
    ensures
        retained_values(solver, values, kernel) == values,
    decreases values.len(),
{
    if values.len() > 0 {
        lemma_retained_values_all_valid(solver, values.drop_last(), kernel);
        assert(retained_values(solver, values, kernel) =~= values);
    } else {
        assert(retained_values(solver, values, kernel) =~= values);
    }
}

/// Retention keeps every candidate the rules accept within the kernel.
proof fn lemma_retained_values_keeps_valid<V, K, Slv: WaveSolver<V, K>>(
    solver: &Slv,
    values: Seq<V>,
    kernel: K,
    j: int,
)
    requires
        0 <= j < values.len(),
        solver.valid_spec(values[j], kernel),
    ensures
        retained_values(solver, values, kernel).contains(values[j]),
    decreases values.len(),
{
    let rest = retained_values(solver, values.drop_last(), kernel);
    if j == values.len() - 1 {
        assert(retained_values(solver, values, kernel)[rest.len() as int] == values[j]);
    } else {
        lemma_retained_values_keeps_valid(solver, values.drop_last(), kernel, j);
        assert(values.drop_last()[j] == values[j]);
        let i = choose|i: int| 0 <= i < rest.len() && rest[i] == values.drop_last()[j];
        assert(retained_values(solver, values, kernel)[i] == values[j]);
    }
}

/// Retention only narrows: every retained candidate was a candidate.
proof fn lemma_retained_values_within<V, K, Slv: WaveSolver<V, K>>(
    solver: &Slv,
    values: Seq<V>,
    kernel: K,
)
    ensures
        values_within(retained_values(solver, values, kernel), values),
{
    assert forall|j: int|
        0 <= j < retained_values(solver, values, kernel).len() implies values.contains(
        #[trigger] retained_values(solver, values, kernel)[j]) by {
        lemma_retained_values_sound(solver, values, kernel, j);
    }
}

/// The entropies of the nodes of `shape`, in enumeration order.
pub open spec fn shape_entropies<V: Copy, S: WaveShape<V>>(shape: &S) -> Seq<nat> {
    shape.ids().map_values(|id: Index2D| shape.node_view(id).values.len())
}

/// The sum of all node entropies: the solver's progress measure within one
/// propagation pass.
pub open spec fn total_entropy<V: Copy, S: WaveShape<V>>(shape: &S) -> nat {
    seq_sum(shape_entropies(shape))
}

/// The collapsed flags of the nodes of `shape`, in enumeration order.
pub open spec fn collapsed_flags<V: Copy, S: WaveShape<V>>(shape: &S) -> Seq<bool> {
    shape.ids().map_values(|id: Index2D| shape.node_view(id).collapsed)
}

/// How many nodes of `shape` are collapsed: the solver's progress measure
/// across outer iterations.
pub open spec fn num_collapsed<V: Copy, S: WaveShape<V>>(shape: &S) -> nat {
    count_true(collapsed_flags(shape))
}

/// A shape whose candidate lists shrank nowhere and strictly shrank at one
/// node has a strictly smaller total entropy.
proof fn lemma_total_entropy_lt<V: Copy, S: WaveShape<V>>(s1: &S, s2: &S, c: Index2D)
    requires
        s1.ids() == s2.ids(),
        s1.ids().contains(c),
        forall|id: Index2D|
            s1.ids().contains(id) ==> (#[trigger] s2.node_view(id)).values.len()
                <= s1.node_view(id).values.len(),
        s2.node_view(c).values.len() < s1.node_view(c).values.len(),
    ensures
        total_entropy(s2) < total_entropy(s1),
{
    let ids = s1.ids();
    let k = choose|k: int| 0 <= k < ids.len() && ids[k] == c;
    assert forall|i: int| 0 <= i < ids.len() implies #[trigger] shape_entropies(s2)[i]
        <= shape_entropies(s1)[i] by {
        assert(ids.contains(ids[i]));
    }
    lemma_seq_sum_lt(shape_entropies(s2), shape_entropies(s1), k);
}

/// A shape whose nodes all kept their candidate count keeps its total
/// entropy.
proof fn lemma_total_entropy_eq<V: Copy, S: WaveShape<V>>(s1: &S, s2: &S)
    requires
        s1.ids() == s2.ids(),
        forall|id: Index2D|
            s1.ids().contains(id) ==> (#[trigger] s2.node_view(id)).values.len()
                == s1.node_view(id).values.len(),
    ensures
        total_entropy(s2) == total_entropy(s1),
{
    assert forall|i: int| 0 <= i < s1.ids().len() implies #[trigger] shape_entropies(s2)[i]
        == shape_entropies(s1)[i] by {
        assert(s1.ids().contains(s1.ids()[i]));
    }
    assert(shape_entropies(s2) =~= shape_entropies(s1));
}

/// Collapsing one previously uncollapsed node, and no other, raises the
/// number of collapsed nodes by exactly one.
proof fn lemma_num_collapsed_inc<V: Copy, S: WaveShape<V>>(s1: &S, s2: &S, c: Index2D)
    requires
        s1.ids() == s2.ids(),
        s1.ids().no_duplicates(),
        s1.ids().contains(c),
        !s1.node_view(c).collapsed,
        s2.node_view(c).collapsed,
        forall|id: Index2D|
            id != c ==> (#[trigger] s2.node_view(id)).collapsed == s1.node_view(id).collapsed,
    ensures
        num_collapsed(s2) == num_collapsed(s1) + 1,
{
    let ids = s1.ids();
    let k = choose|k: int| 0 <= k < ids.len() && ids[k] == c;
    assert forall|i: int| 0 <= i < ids.len() && i != k implies #[trigger] collapsed_flags(s2)[i]
        == collapsed_flags(s1)[i] by {
        assert(ids[i] != c);
    }
    lemma_count_true_set_one(collapsed_flags(s1), collapsed_flags(s2), k);
}

/// No more nodes can be collapsed than the shape has.
proof fn lemma_num_collapsed_le<V: Copy, S: WaveShape<V>>(shape: &S)
    ensures
        num_collapsed(shape) <= shape.ids().len(),
{
    lemma_count_true_le_len(collapsed_flags(shape));
}

/// Recomputes the candidates of the uncollapsed node `id`: keeps exactly
/// the values the solver accepts within `kernel`, preserving their order,
/// and reports whether the candidate list shrank.
fn filter_node_candidates<V: Copy, S: WaveShape<V>, K, Slv: WaveSolver<V, K>>(
    shape: &mut S,
    solver: &Slv,
    kernel: &K,
    id: Index2D,
) -> (changed: bool)
    requires
        old(shape).wf(),
        old(shape).ids().contains(id),
        !old(shape).node_view(id).collapsed,
    ensures
        final(shape).wf(),
        final(shape).ids() == old(shape).ids(),
        final(shape).last_collapsed_spec() == old(shape).last_collapsed_spec(),
        forall|other: Index2D|
            other != id ==> #[trigger] final(shape).node_view(other) == old(shape).node_view(
                other,
            ),
        final(shape).node_view(id) == (NodeView {
            id,
            values: retained_values(solver, old(shape).node_view(id).values, *kernel),
            collapsed: false,
        }),
        changed == (final(shape).node_view(id).values.len() < old(shape).node_view(
            id,
        ).values.len()),
        !changed ==> final(shape).node_view(id) == old(shape).node_view(id),
        values_within(final(shape).node_view(id).values, old(shape).node_view(id).values),
{
    proof {
        old(shape).lemma_wf();
    }
    let node = shape.get_node(&id).unwrap();
    let values = node.possible_values();
    let before = values.len();
    let mut keep: Vec<bool> = Vec::new();
    let mut i: usize = 0;
    while i < values.len()
        invariant
            values@ == old(shape).node_view(id).values,
            keep@.len() == i,
            i <= values@.len(),
            forall|j: int|
                0 <= j < i ==> #[trigger] keep@[j] == solver.valid_spec(values@[j], *kernel),
        decreases values@.len() - i,
    {
        let flag = solver.is_valid(&values[i], kernel);
        keep.push(flag);
        i = i + 1;
    }
    shape.retain_node_at(id, &keep);
    proof {
        lemma_retained_matches_flags(solver, old(shape).node_view(id).values, *kernel, keep@);
        lemma_retained_values_len(solver, old(shape).node_view(id).values, *kernel);
        lemma_retained_values_within(solver, old(shape).node_view(id).values, *kernel);
        if retained_values(solver, old(shape).node_view(id).values, *kernel).len() == old(
            shape,
        ).node_view(id).values.len() {
            assert(shape.node_view(id) == old(shape).node_view(id));
        }
    }
    let after = shape.get_node(&id).unwrap().possible_values().len();
    after < before
}

/// Enqueues, for every node of the kernel other than the center, an entry
/// keyed by the node's current entropy, skipping collapsed nodes; the queue
/// itself rejects nodes that are already enqueued.
fn enqueue_kernel_neighbors<V: Copy, S: WaveShape<V>>(
    shape: &S,
    queue: &mut BinaryHeapSet,
    kernel_ids: &Vec<Index2D>,
    center: Index2D,
)
    requires
        shape.wf(),
        old(queue).wf(),
        forall|k: int|
            0 <= k < old(queue)@.len() ==> shape.ids().contains(
                (#[trigger] old(queue)@[k]).id,
            ) && !shape.node_view(old(queue)@[k].id).collapsed,
        forall|j: int|
            0 <= j < kernel_ids@.len() ==> shape.ids().contains(#[trigger] kernel_ids@[j]),
    ensures
        final(queue).wf(),
        forall|k: int|
            0 <= k < final(queue)@.len() ==> shape.ids().contains(
                (#[trigger] final(queue)@[k]).id,
            ) && !shape.node_view(final(queue)@[k].id).collapsed,
{
    proof {
        shape.lemma_wf();
    }
    let mut j: usize = 0;
    while j < kernel_ids.len()
        invariant
            shape.wf(),
            queue.wf(),
            j <= kernel_ids@.len(),
            forall|id: Index2D|
                shape.ids().contains(id) ==> (#[trigger] shape.node_view(id)).id == id
                    && shape.node_view(id).wf(),
            forall|k: int|
                0 <= k < queue@.len() ==> shape.ids().contains((#[trigger] queue@[k]).id)
                    && !shape.node_view(queue@[k].id).collapsed,
            forall|i: int|
                0 <= i < kernel_ids@.len() ==> shape.ids().contains(#[trigger] kernel_ids@[i]),
        decreases kernel_ids@.len() - j,
    {
        let nid = kernel_ids[j];
        if !(nid.0 == center.0 && nid.1 == center.1) {
            let neighbor = shape.get_node(&nid).unwrap();
            if !neighbor.is_collapsed() {
                let priority = neighbor.entropy();
                queue.push(HeapEntry { priority, id: nid });
            }
        }
        j = j + 1;
    }
}

/// The step iterator of a collapse run.  Each call of `next` performs one
/// outer iteration (select, collapse, propagate) and exposes the shape for
/// observation; `calc_result` drains the remaining iterations and returns
/// the terminal result.
pub struct WaveIterator<V: Copy, S: WaveShape<V>, K: WaveKernel<V, S>, Slv: WaveSolver<V, K>> {
    shape: S,
    solver: Slv,
    rng: rand::rngs::StdRng,
    outcome: Option<Result<(), WaveCollapseError>>,
    _marker: PhantomData<(V, K)>,
}

impl<V: Copy, S: WaveShape<V>, K: WaveKernel<V, S>, Slv: WaveSolver<V, K>> WaveIterator<
    V,
    S,
    K,
    Slv,
> {
    /// The shape in its current, possibly partially collapsed state.
    pub closed spec fn shape_spec(&self) -> S {
        self.shape
    }

    /// The rules this run collapses under.
    pub closed spec fn solver_spec(&self) -> Slv {
        self.solver
    }

    /// The terminal result of the run: `None` while it can still advance,
    /// `Some(Ok(()))` on success, `Some(Err(_))` on failure.
    pub closed spec fn outcome_spec(&self) -> Option<Result<(), WaveCollapseError>> {
        self.outcome
    }

    /// The invariant of a run: the shape stays well formed, a successful
    /// outcome means every node is collapsed, an empty-input failure means
    /// the shape has no nodes, and a superposition failure names an
    /// overspecified node.
    pub open spec fn wf(&self) -> bool {
        &&& self.shape_spec().wf()
        &&& (self.outcome_spec() == Some(Result::<(), WaveCollapseError>::Ok(()))
            ==> all_collapsed(&self.shape_spec()))
        &&& (self.outcome_spec() == Some(
            Result::<(), WaveCollapseError>::Err(WaveCollapseError::EmptyInput),
        ) <==> self.shape_spec().ids().len() == 0)
        &&& (self.outcome_spec() == Some(
            Result::<(), WaveCollapseError>::Err(WaveCollapseError::InvalidSuperposition),
        ) ==> any_overspecified(&self.shape_spec()))
        &&& match self.outcome_spec() {
            Some(o) => o == Result::<(), WaveCollapseError>::Ok(()) || o == Result::<
                (),
                WaveCollapseError,
            >::Err(WaveCollapseError::EmptyInput) || o == Result::<(), WaveCollapseError>::Err(
                WaveCollapseError::InvalidSuperposition,
            ),
            None => true,
        }
    }

    /// Read access to the shape between iterations.
    pub fn shape(&self) -> (r: &S)
        ensures
            *r == self.shape_spec(),
    {
        &self.shape
    }

    /// Performs one outer iteration: selects a random node of lowest
    /// entropy among those still open, collapses it to a random candidate,
    /// records it as last collapsed, and propagates the consequences
    /// through a deduplicating priority queue.  Returns `true` if an
    /// iteration was performed and the shape can be observed, `false` once
    /// the run has terminated.  After termination, further calls return
    /// `false` and leave everything unchanged.
    pub fn next(&mut self) -> (r: bool)
        requires
            old(self).wf(),
        ensures
            final(self).wf(),
            final(self).solver_spec() == old(self).solver_spec(),
            final(self).shape_spec().ids() == old(self).shape_spec().ids(),
            // idempotent termination: a finished run is never touched again
            old(self).outcome_spec() is Some ==> r == false && final(self).shape_spec() == old(self).shape_spec() && final(self).outcome_spec() == old(self).outcome_spec(),
            // candidate lists only ever shrink
            forall|id: Index2D|
                old(self).shape_spec().ids().contains(id) ==> (#[trigger] final(self).shape_spec().node_view(id)).values.len() <= old(self).shape_spec().node_view(
                    id,
                ).values.len(),
            // and only to values they already offered
            forall|id: Index2D|
                old(self).shape_spec().ids().contains(id) ==> values_within(
                    (#[trigger] final(self).shape_spec().node_view(id)).values,
                    old(self).shape_spec().node_view(id).values,
                ),
            // a collapsed node is never mutated again
            forall|id: Index2D|
                old(self).shape_spec().ids().contains(id) && (#[trigger] old(self).shape_spec().node_view(id)).collapsed ==> final(self).shape_spec().node_view(id)
                    == old(self).shape_spec().node_view(id),
            // a rule set that accepts every value within every kernel drops
            // no candidate: every node not newly collapsed is left untouched
            (forall|v: V, k: K| #[trigger] old(self).solver_spec().valid_spec(v, k))
                ==> forall|id: Index2D|
                (#[trigger] final(self).shape_spec().node_view(id)).collapsed == old(self).shape_spec().node_view(id).collapsed ==> final(self).shape_spec().node_view(id)
                    == old(self).shape_spec().node_view(id),
            // and so can never produce an overspecified node
            (forall|v: V, k: K| #[trigger] old(self).solver_spec().valid_spec(v, k))
                && !any_overspecified(&old(self).shape_spec()) ==> !any_overspecified(
                &final(self).shape_spec(),
            ),
            // every candidate a node lost, other than by its own collapse,
            // was rejected by the rules against a kernel the run built
            forall|id: Index2D, j: int|
                old(self).shape_spec().ids().contains(id) && (#[trigger] final(self).shape_spec().node_view(id)).collapsed == old(self).shape_spec().node_view(id).collapsed && 0
                    <= j < old(self).shape_spec().node_view(id).values.len() && !final(self).shape_spec().node_view(id).values.contains(
                    #[trigger] old(self).shape_spec().node_view(id).values[j],
                ) ==> some_kernel_rejects::<V, K, Slv>(
                    old(self).solver_spec(),
                    old(self).shape_spec().node_view(id).values[j],
                ),
            // and every node the propagation reshaped kept only values the
            // rules accepted against a kernel the run built
            forall|id: Index2D, j: int|
                old(self).shape_spec().ids().contains(id) && (#[trigger] final(self).shape_spec().node_view(id)).collapsed == old(self).shape_spec().node_view(id).collapsed
                    && final(self).shape_spec().node_view(id) != old(self).shape_spec().node_view(
                    id,
                ) && 0 <= j < final(self).shape_spec().node_view(id).values.len() ==> some_kernel_accepts::<V, K, Slv>(
                    old(self).solver_spec(),
                    #[trigger] final(self).shape_spec().node_view(id).values[j],
                ),
            // a running iterator terminates exactly when nothing is left to pick
            old(self).outcome_spec() is None ==> (r == false <==> (all_collapsed(
                &old(self).shape_spec(),
            ) || any_overspecified(&old(self).shape_spec()))),
            old(self).outcome_spec() is None && r == false ==> final(self).shape_spec() == old(self).shape_spec() && final(self).outcome_spec() == Some(
                if all_collapsed(&old(self).shape_spec()) {
                    Result::<(), WaveCollapseError>::Ok(())
                } else {
                    Result::<(), WaveCollapseError>::Err(WaveCollapseError::InvalidSuperposition)
                },
            ),
            // one outer iteration collapses exactly one node and records it
            r ==> old(self).outcome_spec() is None && final(self).outcome_spec() is None,
            r ==> (final(self).shape_spec().last_collapsed_spec() matches Some(c) && old(
                self,
            ).shape_spec().ids().contains(c) && !old(self).shape_spec().node_view(c).collapsed
                && final(self).shape_spec().node_view(c).collapsed && forall|id: Index2D|
                id != c ==> (#[trigger] final(self).shape_spec().node_view(id)).collapsed == old(
                    self,
                ).shape_spec().node_view(id).collapsed),
            r ==> num_collapsed(&final(self).shape_spec()) == num_collapsed(
                &old(self).shape_spec(),
            ) + 1,
    {
        if self.outcome.is_some() {
            return false;
        }
        if self.shape.is_collapsed() {
            self.outcome = Some(Ok(()));
            return false;
        }
        if self.shape.is_overspecified() {
            self.outcome = Some(Err(WaveCollapseError::InvalidSuperposition));
            return false;
        }
        let picked = self.shape.choose_random_with_lowest_entropy(&mut self.rng);
        if picked.is_none() {
            // unreachable: some node is uncollapsed, and none is
            // overspecified, so a pickable node exists
            proof {
                let w = choose|w: Index2D|
                    self.shape.ids().contains(w) && !(#[trigger] self.shape.node_view(
                        w,
                    )).collapsed;
                assert(self.shape.node_view(w).pickable());
                assert(false);
            }
            return false;
        }
        let id = picked.unwrap();
        proof {
            self.shape.lemma_wf();
        }
        let node = self.shape.get_node(&id).unwrap();
        let len = node.possible_values().len();
        let choice = crate::rng::rng_below(&mut self.rng, len);
        self.shape.collapse_node_at(id, choice);
        self.shape.set_last_collapsed_id(id);
        let ghost c = id;
        let ghost mid_shape = self.shape;

        // seed the queue with the uncollapsed neighbors of the collapsed node
        let node = self.shape.get_node(&id).unwrap();
        let kernel = K::new(&self.shape, node);
        let kernel_ids = kernel.iter_node_ids();
        let mut queue = BinaryHeapSet::new();
        enqueue_kernel_neighbors(&self.shape, &mut queue, &kernel_ids, id);
        proof {
            assert forall|id2: Index2D|
                old(self).shape_spec().ids().contains(id2) implies values_within(
                (#[trigger] self.shape.node_view(id2)).values,
                old(self).shape_spec().node_view(id2).values,
            ) by {
                if id2 == c {
                    assert(old(self).shape_spec().node_view(c).values.contains(
                        old(self).shape_spec().node_view(c).values[choice as int],
                    ));
                } else {
                    lemma_values_within_refl(old(self).shape_spec().node_view(id2).values);
                }
            }
            assert forall|id2: Index2D, j: int|
                (#[trigger] self.shape.node_view(id2)).collapsed == mid_shape.node_view(
                    id2,
                ).collapsed && 0 <= j < mid_shape.node_view(id2).values.len()
                    && !self.shape.node_view(id2).values.contains(
                    #[trigger] mid_shape.node_view(id2).values[j],
                ) implies some_kernel_rejects::<V, K, Slv>(
                old(self).solver_spec(),
                mid_shape.node_view(id2).values[j],
            ) by {
                assert(self.shape.node_view(id2).values[j] == mid_shape.node_view(
                    id2,
                ).values[j]);
            }
        }

        // propagate: serve the open node of smallest entropy, refilter it,
        // and on any change enqueue its own uncollapsed neighbors
        loop
            invariant
                self.shape.wf(),
                self.outcome is None,
                self.solver == old(self).solver_spec(),
                self.shape.ids() == old(self).shape_spec().ids(),
                self.shape.last_collapsed_spec() == Some(c),
                old(self).shape_spec().ids().contains(c),
                !old(self).shape_spec().node_view(c).collapsed,
                queue.wf(),
                forall|k: int|
                    0 <= k < queue@.len() ==> self.shape.ids().contains(
                        (#[trigger] queue@[k]).id,
                    ) && !self.shape.node_view(queue@[k].id).collapsed,
                forall|id2: Index2D|
                    old(self).shape_spec().ids().contains(id2) ==> (
                    #[trigger] self.shape.node_view(id2)).values.len() <= old(self).shape_spec().node_view(id2).values.len(),
                forall|id2: Index2D|
                    old(self).shape_spec().ids().contains(id2) ==> values_within(
                        (#[trigger] self.shape.node_view(id2)).values,
                        old(self).shape_spec().node_view(id2).values,
                    ),
                forall|id2: Index2D|
                    old(self).shape_spec().ids().contains(id2) && (#[trigger] old(self).shape_spec().node_view(id2)).collapsed ==> self.shape.node_view(id2) == old(self).shape_spec().node_view(id2),
                forall|id2: Index2D|
                    (#[trigger] self.shape.node_view(id2)).collapsed == (old(self).shape_spec().node_view(id2).collapsed || id2 == c),
                (forall|v: V, k: K| #[trigger] old(self).solver_spec().valid_spec(v, k))
                    ==> forall|id2: Index2D| (#[trigger] self.shape.node_view(id2))
                        == mid_shape.node_view(id2),
                forall|id2: Index2D, j: int|
                    (#[trigger] self.shape.node_view(id2)).collapsed == mid_shape.node_view(
                        id2,
                    ).collapsed && 0 <= j < mid_shape.node_view(id2).values.len()
                        && !self.shape.node_view(id2).values.contains(
                        #[trigger] mid_shape.node_view(id2).values[j],
                    ) ==> some_kernel_rejects::<V, K, Slv>(
                        old(self).solver_spec(),
                        mid_shape.node_view(id2).values[j],
                    ),
                forall|id2: Index2D, j: int|
                    (#[trigger] self.shape.node_view(id2)).collapsed == mid_shape.node_view(
                        id2,
                    ).collapsed && self.shape.node_view(id2) != mid_shape.node_view(id2) && 0 <= j
                        < self.shape.node_view(id2).values.len() ==> some_kernel_accepts::<V, K, Slv>(
                        old(self).solver_spec(),
                        #[trigger] self.shape.node_view(id2).values[j],
                    ),
            ensures
                self.shape.wf(),
                self.outcome is None,
                self.solver == old(self).solver_spec(),
                self.shape.ids() == old(self).shape_spec().ids(),
                self.shape.last_collapsed_spec() == Some(c),
                forall|id2: Index2D|
                    old(self).shape_spec().ids().contains(id2) ==> (
                    #[trigger] self.shape.node_view(id2)).values.len() <= old(self).shape_spec().node_view(id2).values.len(),
                forall|id2: Index2D|
                    old(self).shape_spec().ids().contains(id2) ==> values_within(
                        (#[trigger] self.shape.node_view(id2)).values,
                        old(self).shape_spec().node_view(id2).values,
                    ),
                forall|id2: Index2D|
                    old(self).shape_spec().ids().contains(id2) && (#[trigger] old(self).shape_spec().node_view(id2)).collapsed ==> self.shape.node_view(id2) == old(self).shape_spec().node_view(id2),
                forall|id2: Index2D|
                    (#[trigger] self.shape.node_view(id2)).collapsed == (old(self).shape_spec().node_view(id2).collapsed || id2 == c),
                (forall|v: V, k: K| #[trigger] old(self).solver_spec().valid_spec(v, k))
                    ==> forall|id2: Index2D| (#[trigger] self.shape.node_view(id2))
                        == mid_shape.node_view(id2),
                forall|id2: Index2D, j: int|
                    (#[trigger] self.shape.node_view(id2)).collapsed == mid_shape.node_view(
                        id2,
                    ).collapsed && 0 <= j < mid_shape.node_view(id2).values.len()
                        && !self.shape.node_view(id2).values.contains(
                        #[trigger] mid_shape.node_view(id2).values[j],
                    ) ==> some_kernel_rejects::<V, K, Slv>(
                        old(self).solver_spec(),
                        mid_shape.node_view(id2).values[j],
                    ),
                forall|id2: Index2D, j: int|
                    (#[trigger] self.shape.node_view(id2)).collapsed == mid_shape.node_view(
                        id2,
                    ).collapsed && self.shape.node_view(id2) != mid_shape.node_view(id2) && 0 <= j
                        < self.shape.node_view(id2).values.len() ==> some_kernel_accepts::<V, K, Slv>(
                        old(self).solver_spec(),
                        #[trigger] self.shape.node_view(id2).values[j],
                    ),
            decreases total_entropy(&self.shape), queue@.len(),
        {
            let ghost q0 = queue@;
            let ghost pre_shape = self.shape;
            let popped = queue.pop();
            if popped.is_none() {
                break ;
            }
            let entry = popped.unwrap();
            proof {
                self.shape.lemma_wf();
                let k = choose|k: int|
                    #[trigger] is_first_min(q0, k) && entry == q0[k] && queue@ == q0.remove(k);
                assert(q0[k].id == entry.id);
                assert forall|k2: int|
                    0 <= k2 < queue@.len() implies self.shape.ids().contains(
                    (#[trigger] queue@[k2]).id,
                ) && !self.shape.node_view(queue@[k2].id).collapsed by {
                    if k2 < k {
                        assert(queue@[k2] == q0[k2]);
                    } else {
                        assert(queue@[k2] == q0[k2 + 1]);
                    }
                }
            }
            let node = self.shape.get_node(&entry.id).unwrap();
            let kernel = K::new(&self.shape, node);
            let changed = filter_node_candidates(&mut self.shape, &self.solver, &kernel, entry.id);
            if changed {
                let kernel_ids = kernel.iter_node_ids();
                enqueue_kernel_neighbors(&self.shape, &mut queue, &kernel_ids, entry.id);
                proof {
                    lemma_total_entropy_lt(&pre_shape, &self.shape, entry.id);
                }
            } else {
                proof {
                    lemma_total_entropy_eq(&pre_shape, &self.shape);
                }
            }
            proof {
                assert forall|id2: Index2D|
                    old(self).shape_spec().ids().contains(id2) implies values_within(
                    (#[trigger] self.shape.node_view(id2)).values,
                    old(self).shape_spec().node_view(id2).values,
                ) by {
                    assert(values_within(
                        pre_shape.node_view(id2).values,
                        old(self).shape_spec().node_view(id2).values,
                    ));
                    if id2 == entry.id {
                        lemma_values_within_trans(
                            self.shape.node_view(id2).values,
                            pre_shape.node_view(id2).values,
                            old(self).shape_spec().node_view(id2).values,
                        );
                    }
                }
                // an all-accepting rule set retains the filtered node whole
                if forall|v: V, k: K| #[trigger] old(self).solver_spec().valid_spec(v, k) {
                    assert forall|id2: Index2D| (#[trigger] self.shape.node_view(id2))
                        == mid_shape.node_view(id2) by {
                        if id2 == entry.id {
                            assert(pre_shape.node_view(id2) == mid_shape.node_view(id2));
                            assert forall|jj: int|
                                0 <= jj < pre_shape.node_view(id2).values.len() implies old(self).solver_spec().valid_spec(
                                #[trigger] pre_shape.node_view(id2).values[jj],
                                kernel,
                            ) by {}
                            lemma_retained_values_all_valid(
                                &self.solver,
                                pre_shape.node_view(id2).values,
                                kernel,
                            );
                        } else {
                            assert(self.shape.node_view(id2) == pre_shape.node_view(id2));
                        }
                    }
                }
                // every candidate lost at this step was rejected against the
                // kernel this step built
                assert forall|id2: Index2D, j: int|
                    (#[trigger] self.shape.node_view(id2)).collapsed == mid_shape.node_view(
                        id2,
                    ).collapsed && 0 <= j < mid_shape.node_view(id2).values.len()
                        && !self.shape.node_view(id2).values.contains(
                        #[trigger] mid_shape.node_view(id2).values[j],
                    ) implies some_kernel_rejects::<V, K, Slv>(
                        old(self).solver_spec(),
                        mid_shape.node_view(id2).values[j],
                    ) by {
                    let v = mid_shape.node_view(id2).values[j];
                    if id2 == entry.id && pre_shape.node_view(id2).values.contains(v) {
                        let j2 = choose|j2: int|
                            0 <= j2 < pre_shape.node_view(id2).values.len() && pre_shape.node_view(
                                id2,
                            ).values[j2] == v;
                        if old(self).solver_spec().valid_spec(v, kernel) {
                            lemma_retained_values_keeps_valid(
                                &self.solver,
                                pre_shape.node_view(id2).values,
                                kernel,
                                j2,
                            );
                            assert(false);
                        }
                        assert(!old(self).solver_spec().valid_spec(v, kernel));
                    } else {
                        assert(!pre_shape.node_view(id2).values.contains(v));
                        assert((pre_shape.node_view(id2)).collapsed == mid_shape.node_view(
                            id2,
                        ).collapsed);
                    }
                }
                // every value the filtered node kept was accepted against
                // the kernel this step built
                assert forall|id2: Index2D, j: int|
                    (#[trigger] self.shape.node_view(id2)).collapsed == mid_shape.node_view(
                        id2,
                    ).collapsed && self.shape.node_view(id2) != mid_shape.node_view(id2) && 0 <= j
                        < self.shape.node_view(id2).values.len() implies some_kernel_accepts::<V, K, Slv>(
                        old(self).solver_spec(),
                        #[trigger] self.shape.node_view(id2).values[j],
                    ) by {
                    if id2 == entry.id {
                        lemma_retained_values_sound(
                            &self.solver,
                            pre_shape.node_view(id2).values,
                            kernel,
                            j,
                        );
                        assert(old(self).solver_spec().valid_spec(
                            self.shape.node_view(id2).values[j],
                            kernel,
                        ));
                    } else {
                        assert(self.shape.node_view(id2) == pre_shape.node_view(id2));
                        assert(self.shape.node_view(id2).values[j] == pre_shape.node_view(
                            id2,
                        ).values[j]);
                    }
                }
            }
        }
        proof {
            old(self).shape_spec().lemma_wf();
            lemma_num_collapsed_inc(&old(self).shape_spec(), &self.shape, c);
            // discharge the all-accepting clauses against the entry state
            if forall|v: V, k: K| #[trigger] old(self).solver_spec().valid_spec(v, k) {
                assert forall|id: Index2D|
                    (#[trigger] self.shape.node_view(id)).collapsed == old(self).shape_spec().node_view(id).collapsed implies self.shape.node_view(id) == old(self).shape_spec().node_view(id) by {
                    assert(self.shape.node_view(id) == mid_shape.node_view(id));
                    if id != c {
                        assert(mid_shape.node_view(id) == old(self).shape_spec().node_view(id));
                    }
                }
                if !any_overspecified(&old(self).shape_spec()) && any_overspecified(
                    &self.shape,
                ) {
                    let w = choose|w: Index2D|
                        self.shape.ids().contains(w) && (#[trigger] self.shape.node_view(
                            w,
                        )).is_overspecified();
                    assert(self.shape.node_view(w) == mid_shape.node_view(w));
                    if w == c {
                        assert(mid_shape.node_view(c).values.len() == 1);
                    } else {
                        assert(mid_shape.node_view(w) == old(self).shape_spec().node_view(w));
                    }
                    assert(false);
                }
            }
            // losses against the entry state are losses against the
            // post-collapse state, except at the collapsed node itself
            assert forall|id: Index2D, j: int|
                old(self).shape_spec().ids().contains(id) && (#[trigger] self.shape.node_view(
                    id,
                )).collapsed == old(self).shape_spec().node_view(id).collapsed && 0 <= j < old(self).shape_spec().node_view(id).values.len() && !self.shape.node_view(
                    id,
                ).values.contains(
                    #[trigger] old(self).shape_spec().node_view(id).values[j],
                ) implies some_kernel_rejects::<V, K, Slv>(
                    old(self).solver_spec(),
                    old(self).shape_spec().node_view(id).values[j],
                ) by {
                assert(id != c);
                assert(mid_shape.node_view(id) == old(self).shape_spec().node_view(id));
                assert(mid_shape.node_view(id).values[j] == old(self).shape_spec().node_view(
                    id,
                ).values[j]);
            }
            assert forall|id: Index2D, j: int|
                old(self).shape_spec().ids().contains(id) && (#[trigger] self.shape.node_view(
                    id,
                )).collapsed == old(self).shape_spec().node_view(id).collapsed
                    && self.shape.node_view(id) != old(self).shape_spec().node_view(id) && 0 <= j
                    < self.shape.node_view(id).values.len() implies some_kernel_accepts::<V, K, Slv>(
                    old(self).solver_spec(),
                    #[trigger] self.shape.node_view(id).values[j],
                ) by {
                assert(id != c);
                assert(mid_shape.node_view(id) == old(self).shape_spec().node_view(id));
            }
        }
        true
    }
}

/// Collapses `shape` under the rules of `solver`, drawing randomness from
/// `rng`: returns a step iterator whose `next` performs one outer iteration
/// at a time and whose `calc_result` drains the run and returns either the
/// fully collapsed shape or the error that ended it.
pub fn collapse_wave<V: Copy, S: WaveShape<V>, K: WaveKernel<V, S>, Slv: WaveSolver<V, K>>(
    shape: S,
    solver: Slv,
    rng: rand::rngs::StdRng,
) -> (r: WaveIterator<V, S, K, Slv>)
    requires
        shape.wf(),
    ensures
        r.wf(),
        r.shape_spec() == shape,
        r.solver_spec() == solver,
        r.outcome_spec() == if shape.ids().len() == 0 {
            Some(Result::<(), WaveCollapseError>::Err(WaveCollapseError::EmptyInput))
        } else {
            None::<Result<(), WaveCollapseError>>
        },
{
    let ids = shape.iter_node_ids();
    let outcome: Option<Result<(), WaveCollapseError>> = if ids.len() == 0 {
        Some(Err(WaveCollapseError::EmptyInput))
    } else {
        None
    };
    WaveIterator { shape, solver, rng, outcome, _marker: PhantomData }
}

impl<V: Copy, S: WaveShape<V>, K: WaveKernel<V, S>, Slv: WaveSolver<V, K>> GenIterReturnResult<
    S,
> for WaveIterator<V, S, K, Slv> {
    open spec fn req(&self) -> bool {
        self.wf()
    }

    /// Drains the remaining outer iterations and returns the terminal
    /// result.  The result is the one the run already decided on, if it had
    /// terminated, regardless of how many intermediate states were
    /// observed before this call.
    fn calc_result(self) -> (r: Result<S, WaveCollapseError>)
        ensures
            match r {
                Result::Ok(shape) => {
                    &&& shape.wf()
                    &&& shape.ids() == self.shape_spec().ids()
                    &&& shape.ids().len() > 0
                    &&& all_collapsed(&shape)
                    &&& forall|id: Index2D|
                        self.shape_spec().ids().contains(id) ==> (#[trigger] shape.node_view(
                            id,
                        )).values.len() <= self.shape_spec().node_view(id).values.len()
                    &&& forall|id: Index2D|
                        self.shape_spec().ids().contains(id) ==> values_within(
                            (#[trigger] shape.node_view(id)).values,
                            self.shape_spec().node_view(id).values,
                        )
                    &&& forall|id: Index2D|
                        self.shape_spec().ids().contains(id) && (#[trigger] self.shape_spec().node_view(
                            id,
                        )).collapsed ==> shape.node_view(id) == self.shape_spec().node_view(id)
                    &&& (self.outcome_spec() is Some ==> self.outcome_spec() == Some(
                        Result::<(), WaveCollapseError>::Ok(()),
                    ) && shape == self.shape_spec())
                },
                Result::Err(e) => {
                    &&& (e == WaveCollapseError::EmptyInput <==> self.shape_spec().ids().len()
                        == 0)
                    &&& (e == WaveCollapseError::EmptyInput || e
                        == WaveCollapseError::InvalidSuperposition)
                    &&& (self.outcome_spec() is Some ==> self.outcome_spec() == Some(
                        Result::<(), WaveCollapseError>::Err(e),
                    ))
                },
            },
            // success is owed where nothing is left for the rules to decide
            self.outcome_spec() is None && all_collapsed(&self.shape_spec()) ==> (r matches Result::Ok(shape)
                && shape == self.shape_spec()),
            // a rule set that accepts every value within every kernel cannot
            // fail a nonempty grid that holds no overspecified node
            (forall|v: V, k: K| #[trigger] self.solver_spec().valid_spec(v, k))
                && !any_overspecified(&self.shape_spec()) && self.shape_spec().ids().len() > 0
                ==> r is Ok,
            // failure is owed once a node has run out of values
            self.outcome_spec() is None && any_overspecified(&self.shape_spec()) && !all_collapsed(
                &self.shape_spec(),
            ) ==> r == Result::<S, WaveCollapseError>::Err(WaveCollapseError::InvalidSuperposition),
    {
        let mut it = self;
        loop
            invariant
                it.wf(),
                it.shape_spec().ids() == self.shape_spec().ids(),
                self.outcome_spec() is Some ==> it.shape_spec() == self.shape_spec()
                    && it.outcome_spec() == self.outcome_spec(),
                forall|id: Index2D|
                    self.shape_spec().ids().contains(id) ==> (#[trigger] it.shape_spec().node_view(
                        id,
                    )).values.len() <= self.shape_spec().node_view(id).values.len(),
                forall|id: Index2D|
                    self.shape_spec().ids().contains(id) ==> values_within(
                        (#[trigger] it.shape_spec().node_view(id)).values,
                        self.shape_spec().node_view(id).values,
                    ),
                forall|id: Index2D|
                    self.shape_spec().ids().contains(id) && (#[trigger] self.shape_spec().node_view(
                        id,
                    )).collapsed ==> it.shape_spec().node_view(id) == self.shape_spec().node_view(
                        id,
                    ),
                self.outcome_spec() is None && all_collapsed(&self.shape_spec())
                    ==> it.shape_spec() == self.shape_spec() && (it.outcome_spec() is None
                    || it.outcome_spec() == Some(Result::<(), WaveCollapseError>::Ok(()))),
                self.outcome_spec() is None && any_overspecified(&self.shape_spec())
                    && !all_collapsed(&self.shape_spec()) ==> it.shape_spec() == self.shape_spec()
                    && (it.outcome_spec() is None || it.outcome_spec() == Some(
                    Result::<(), WaveCollapseError>::Err(WaveCollapseError::InvalidSuperposition),
                )),
                it.solver_spec() == self.solver_spec(),
                (forall|v: V, k: K| #[trigger] self.solver_spec().valid_spec(v, k))
                    && !any_overspecified(&self.shape_spec()) && self.shape_spec().ids().len() > 0
                    ==> !any_overspecified(&it.shape_spec()) && (it.outcome_spec() is None
                    || it.outcome_spec() == Some(Result::<(), WaveCollapseError>::Ok(()))),
            ensures
                it.wf(),
                it.outcome_spec() is Some,
                it.shape_spec().ids() == self.shape_spec().ids(),
                self.outcome_spec() is Some ==> it.shape_spec() == self.shape_spec()
                    && it.outcome_spec() == self.outcome_spec(),
                forall|id: Index2D|
                    self.shape_spec().ids().contains(id) ==> (#[trigger] it.shape_spec().node_view(
                        id,
                    )).values.len() <= self.shape_spec().node_view(id).values.len(),
                forall|id: Index2D|
                    self.shape_spec().ids().contains(id) ==> values_within(
                        (#[trigger] it.shape_spec().node_view(id)).values,
                        self.shape_spec().node_view(id).values,
                    ),
                forall|id: Index2D|
                    self.shape_spec().ids().contains(id) && (#[trigger] self.shape_spec().node_view(
                        id,
                    )).collapsed ==> it.shape_spec().node_view(id) == self.shape_spec().node_view(
                        id,
                    ),
                self.outcome_spec() is None && all_collapsed(&self.shape_spec())
                    ==> it.shape_spec() == self.shape_spec() && (it.outcome_spec() is None
                    || it.outcome_spec() == Some(Result::<(), WaveCollapseError>::Ok(()))),
                self.outcome_spec() is None && any_overspecified(&self.shape_spec())
                    && !all_collapsed(&self.shape_spec()) ==> it.shape_spec() == self.shape_spec()
                    && (it.outcome_spec() is None || it.outcome_spec() == Some(
                    Result::<(), WaveCollapseError>::Err(WaveCollapseError::InvalidSuperposition),
                )),
                it.solver_spec() == self.solver_spec(),
                (forall|v: V, k: K| #[trigger] self.solver_spec().valid_spec(v, k))
                    && !any_overspecified(&self.shape_spec()) && self.shape_spec().ids().len() > 0
                    ==> !any_overspecified(&it.shape_spec()) && (it.outcome_spec() is None
                    || it.outcome_spec() == Some(Result::<(), WaveCollapseError>::Ok(()))),
            decreases it.shape_spec().ids().len() - num_collapsed(&it.shape_spec()) + (
            if it.outcome_spec() is None {
                1int
            } else {
                0int
            }),
        {
            proof {
                lemma_num_collapsed_le(&it.shape_spec());
            }
            let ghost before = it;
            if !it.next() {
                break ;
            }
            proof {
                assert forall|id: Index2D|
                    self.shape_spec().ids().contains(id) implies (
                #[trigger] it.shape_spec().node_view(id)).values.len()
                    <= self.shape_spec().node_view(id).values.len() by {
                    assert(before.shape_spec().node_view(id).values.len()
                        <= self.shape_spec().node_view(id).values.len());
                }
                assert forall|id: Index2D|
                    self.shape_spec().ids().contains(id) && (
                #[trigger] self.shape_spec().node_view(id)).collapsed implies it.shape_spec().node_view(
                    id,
                ) == self.shape_spec().node_view(id) by {
                    assert(before.shape_spec().node_view(id) == self.shape_spec().node_view(id));
                }
                assert forall|id: Index2D|
                    self.shape_spec().ids().contains(id) implies values_within(
                    (#[trigger] it.shape_spec().node_view(id)).values,
                    self.shape_spec().node_view(id).values,
                ) by {
                    lemma_values_within_trans(
                        it.shape_spec().node_view(id).values,
                        before.shape_spec().node_view(id).values,
                        self.shape_spec().node_view(id).values,
                    );
                }
            }
        }
        match it.outcome {
            Some(o) => match o {
                Ok(()) => Ok(it.shape),
                Err(e) => Err(e),
            },
            None => {
                // unreachable: the loop only ends once an outcome is set
                proof {
                    assert(false);
                }
                Err(WaveCollapseError::IterationError)
            },
        }
    }
}

} // verus!
