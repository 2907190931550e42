//! A single cell of the wave function and its candidate values.

use vstd::prelude::*;

verus! {

/// The id of a node inside a two-dimensional shape: `(x, y)`.
pub type Index2D = (u32, u32);

/// The mathematical content of a node: its id, the candidate values that are
/// still possible for it, and whether it has been fixed to a single value.
pub ghost struct NodeView<V> {
    pub id: Index2D,
    pub values: Seq<V>,
    pub collapsed: bool,
}

impl<V> NodeView<V> {
    /// A node is well formed when a collapsed node holds exactly one value
    /// and its candidate count fits the entropy measure.
    pub open spec fn wf(self) -> bool {
        &&& self.collapsed ==> self.values.len() == 1
        &&& self.values.len() <= u32::MAX
    }

    /// The entropy of a node is the number of candidate values left.
    pub open spec fn entropy(self) -> nat {
        self.values.len()
    }

    /// A node is overspecified when no candidate value is left.
    pub open spec fn is_overspecified(self) -> bool {
        self.values.len() == 0
    }

    /// A node can be picked for the next collapse when it is neither
    /// collapsed nor overspecified.
    pub open spec fn pickable(self) -> bool {
        !self.collapsed && !self.is_overspecified()
    }
}

/// Keeps exactly the elements of `s` whose flag in `keep` is set, in order.
pub open spec fn filter_by_flags<V>(s: Seq<V>, keep: Seq<bool>) -> Seq<V>
    recommends
        s.len() == keep.len(),
    decreases s.len(),
{
    if s.len() == 0 {
        Seq::empty()
    } else {
        let rest = filter_by_flags(s.drop_last(), keep.drop_last());
        if keep.len() >= 1 && keep.last() {
            rest.push(s.last())
        } else {
            rest
        }
    }
}

/// Filtering never grows a sequence.
pub proof fn lemma_filter_by_flags_len<V>(s: Seq<V>, keep: Seq<bool>)
    ensures
        filter_by_flags(s, keep).len() <= s.len(),
    decreases s.len(),
{
    if s.len() > 0 {
        lemma_filter_by_flags_len(s.drop_last(), keep.drop_last());
    }
}

/// One cell of the wave function: the candidate values it can still be
/// collapsed into, and a flag set once it has been fixed to one of them.
pub struct Node<V> {
    /// A unique id within a wave shape.
    pub id: Index2D,
    possible_values: Vec<V>,
    is_collapsed: bool,
}

impl<V> View for Node<V> {
    type V = NodeView<V>;

    closed spec fn view(&self) -> NodeView<V> {
        NodeView { id: self.id, values: self.possible_values@, collapsed: self.is_collapsed }
    }
}

impl<V: Copy> Node<V> {
    /// A fresh, uncollapsed node holding the given candidate values.
    pub fn new(id: Index2D, possible_values: Vec<V>) -> (r: Node<V>)
        requires
            possible_values@.len() >= 1,
            possible_values@.len() <= u32::MAX,
        ensures
            r@ == (NodeView { id, values: possible_values@, collapsed: false }),
            r@.wf(),
    {
        Node { id, possible_values, is_collapsed: false }
    }

    /// The value this node has been fixed to, if it is collapsed.
    pub fn collapsed(&self) -> (r: Option<V>)
        requires
            self@.wf(),
        ensures
            r == if self@.collapsed {
                Some(self@.values[0])
            } else {
                None::<V>
            },
    {
        if self.is_collapsed {
            Some(self.possible_values[0])
        } else {
            None
        }
    }

    /// An identical copy of this node.
    pub fn duplicate(&self) -> (r: Node<V>)
        ensures
            r@ == self@,
    {
        let mut values: Vec<V> = Vec::new();
        let mut i: usize = 0;
        while i < self.possible_values.len()
            invariant
                i <= self.possible_values.len(),
                values@ == self.possible_values@.subrange(0, i as int),
            decreases self.possible_values.len() - i,
        {
            values.push(self.possible_values[i]);
            i = i + 1;
        }
        proof {
            assert(values@ =~= self.possible_values@);
        }
        Node { id: self.id, possible_values: values, is_collapsed: self.is_collapsed }
    }
}

impl<V> Node<V> {
    /// The id of this node.
    pub fn get_id(&self) -> (r: Index2D)
        ensures
            r == self@.id,
    {
        self.id
    }

    /// Whether this node has been fixed to a single value.
    pub fn is_collapsed(&self) -> (r: bool)
        ensures
            r == self@.collapsed,
    {
        self.is_collapsed
    }

    /// Whether this node is overspecified, meaning that no candidate value is
    /// left for it.
    pub fn is_overspecified(&self) -> (r: bool)
        ensures
            r == self@.is_overspecified(),
    {
        self.possible_values.len() == 0
    }

    /// The candidate values this node can still be collapsed into.
    pub fn possible_values(&self) -> (r: &Vec<V>)
        ensures
            r@ == self@.values,
    {
        &self.possible_values
    }

    /// The number of candidate values left.
    pub fn entropy(&self) -> (r: u32)
        requires
            self@.wf(),
        ensures
            r == self@.entropy(),
    {
        self.possible_values.len() as u32
    }

}

impl<V: Copy> Node<V> {
    /// Fixes this node to the candidate at `choice`, dropping all others.
    pub(crate) fn collapse_to_index(&mut self, choice: usize)
        requires
            choice < old(self)@.values.len(),
        ensures
            final(self)@ == (NodeView {
                id: old(self)@.id,
                values: seq![old(self)@.values[choice as int]],
                collapsed: true,
            }),
    {
        let value = self.possible_values[choice];
        self.possible_values.clear();
        self.possible_values.push(value);
        self.is_collapsed = true;
        proof {
            assert(self.possible_values@ =~= seq![old(self)@.values[choice as int]]);
        }
    }

    /// Keeps exactly the candidates whose flag in `keep` is set, preserving
    /// their relative order.
    pub(crate) fn retain_by_flags(&mut self, keep: &Vec<bool>)
        requires
            keep@.len() == old(self)@.values.len(),
        ensures
            final(self)@.id == old(self)@.id,
            final(self)@.collapsed == old(self)@.collapsed,
            final(self)@.values == filter_by_flags(old(self)@.values, keep@),
    {
        let ghost orig = self.possible_values@;
        let mut kept: Vec<V> = Vec::new();
        let mut i: usize = 0;
        while i < self.possible_values.len()
            invariant
                self.possible_values@ == orig,
                keep@.len() == orig.len(),
                i <= orig.len(),
                kept@ == filter_by_flags(orig.subrange(0, i as int), keep@.subrange(0, i as int)),
            decreases orig.len() - i,
        {
            proof {
                assert(orig.subrange(0, i + 1).drop_last() =~= orig.subrange(0, i as int));
                assert(keep@.subrange(0, i + 1).drop_last() =~= keep@.subrange(0, i as int));
            }
            if keep[i] {
                kept.push(self.possible_values[i]);
            }
            i = i + 1;
        }
        proof {
            assert(orig.subrange(0, orig.len() as int) =~= orig);
            assert(keep@.subrange(0, keep@.len() as int) =~= keep@);
        }
        self.possible_values = kept;
    }
}


/// Two nodes are equal exactly when their ids are equal.
impl<V> PartialEq for Node<V> {
    fn eq(&self, other: &Self) -> (r: bool)
        ensures
            r == (self@.id == other@.id),
    {
        self.id.0 == other.id.0 && self.id.1 == other.id.1
    }
}

impl<V> vstd::std_specs::cmp::PartialEqSpecImpl for Node<V> {
    open spec fn obeys_eq_spec() -> bool {
        true
    }

    open spec fn eq_spec(&self, other: &Self) -> bool {
        self@.id == other@.id
    }
}

/// Every node holds at least one candidate value or is overspecified,
/// never both, and its candidate count is never negative.
pub proof fn lemma_candidates_or_overspecified<V>(node: NodeView<V>)
    ensures
        node.values.len() >= 1 || node.is_overspecified(),
        !(node.values.len() >= 1 && node.is_overspecified()),
        node.entropy() >= 0,
{
}

/// An iterator over the nodes of a shape, following a list of node ids.
pub struct NodeIter<'a, V, Shape> {
    shape: &'a Shape,
    ids: Vec<Index2D>,
    pos: usize,
    _values: core::marker::PhantomData<V>,
}

impl<'a, V: Copy, Shape: crate::WaveShape<V>> NodeIter<'a, V, Shape> {
    /// The shape the iterator reads from.
    pub closed spec fn shape_spec(&self) -> Shape {
        *self.shape
    }

    /// The ids the iterator visits, in order.
    pub closed spec fn ids_spec(&self) -> Seq<Index2D> {
        self.ids@
    }

    /// The position of the next id to visit.
    pub closed spec fn pos_spec(&self) -> int {
        self.pos as int
    }

    /// The iterator is usable while the shape is well formed and every
    /// listed id names one of its nodes.
    pub open spec fn inv(&self) -> bool {
        &&& self.shape_spec().wf()
        &&& self.pos_spec() <= self.ids_spec().len()
        &&& forall|j: int|
            0 <= j < self.ids_spec().len() ==> self.shape_spec().ids().contains(
                #[trigger] self.ids_spec()[j],
            )
    }

    /// An iterator that visits the nodes of `shape` named by `iterator`,
    /// in order.
    pub fn new(iterator: Vec<Index2D>, shape: &'a Shape) -> (r: Self)
        requires
            shape.wf(),
            forall|j: int|
                0 <= j < iterator@.len() ==> shape.ids().contains(#[trigger] iterator@[j]),
        ensures
            r.inv(),
            r.shape_spec() == *shape,
            r.ids_spec() == iterator@,
            r.pos_spec() == 0,
    {
        NodeIter { shape, ids: iterator, pos: 0, _values: core::marker::PhantomData }
    }

    /// The next node, or `None` once every listed id has been visited.
    pub fn next(&mut self) -> (r: Option<&'a Node<V>>)
        requires
            old(self).inv(),
        ensures
            final(self).inv(),
            final(self).shape_spec() == old(self).shape_spec(),
            final(self).ids_spec() == old(self).ids_spec(),
            match r {
                Option::Some(n) => {
                    &&& old(self).pos_spec() < old(self).ids_spec().len()
                    &&& n@ == old(self).shape_spec().node_view(
                        old(self).ids_spec()[old(self).pos_spec()],
                    )
                    &&& final(self).pos_spec() == old(self).pos_spec() + 1
                },
                Option::None => {
                    &&& old(self).pos_spec() >= old(self).ids_spec().len()
                    &&& final(self).pos_spec() == old(self).pos_spec()
                },
            },
    {
        if self.pos < self.ids.len() {
            let id = self.ids[self.pos];
            self.pos = self.pos + 1;
            let shape_ref: &'a Shape = self.shape;
            let node = shape_ref.get_node(&id).unwrap();
            Some(node)
        } else {
            None
        }
    }
}

} // verus!
