//! Reduced labelling of a concept lattice: each object is written at the
//! concept it generates, each attribute at the concept it generates.
use crate::bitset::BitSet;
use crate::formal_context::FormalContext;
use crate::lattice::Lattice;
use vstd::prelude::*;

verus! {

/// The first of the first `k` nodes whose extent is `e`.
pub open spec fn first_with_extent(nodes: Seq<(BitSet, BitSet)>, e: Set<usize>, k: nat) -> Option<nat>
    decreases k,
{
    if k == 0 {
        None
    } else {
        match first_with_extent(nodes, e, (k - 1) as nat) {
            Some(i) => Some(i),
            None => if nodes[k - 1].0@ == e {
                Some((k - 1) as nat)
            } else {
                None
            },
        }
    }
}

impl FormalContext<String> {
    /// The node that object `g` is written at: the first whose extent is the
    /// extent of the concept `g` generates, `{g}''`.
    pub open spec fn object_home(&self, nodes: Seq<(BitSet, BitSet)>, g: usize) -> Option<nat> {
        first_with_extent(nodes, self.extent_of(self.intent_of(set![g])), nodes.len())
    }

    /// The node that attribute `m` is written at: the first whose extent is
    /// `{m}'`.
    pub open spec fn attribute_home(&self, nodes: Seq<(BitSet, BitSet)>, m: usize) -> Option<nat> {
        first_with_extent(nodes, self.extent_of(set![m]), nodes.len())
    }

    /// The first `k` objects written at node `i`, in order.
    pub open spec fn object_labels_at(&self, nodes: Seq<(BitSet, BitSet)>, i: nat, k: nat) -> Seq<String>
        decreases k,
    {
        if k == 0 {
            Seq::empty()
        } else {
            let before = self.object_labels_at(nodes, i, (k - 1) as nat);
            if self.object_home(nodes, (k - 1) as usize) == Some(i) {
                before.push(self.objects@[k - 1])
            } else {
                before
            }
        }
    }

    /// The first `k` attributes written at node `i`, in order.
    pub open spec fn attribute_labels_at(&self, nodes: Seq<(BitSet, BitSet)>, i: nat, k: nat) -> Seq<String>
        decreases k,
    {
        if k == 0 {
            Seq::empty()
        } else {
            let before = self.attribute_labels_at(nodes, i, (k - 1) as nat);
            if self.attribute_home(nodes, (k - 1) as usize) == Some(i) {
                before.push(self.attributes@[k - 1])
            } else {
                before
            }
        }
    }

    /// The reduced labelling of a concept lattice of this context: for each
    /// node, the objects and the attributes written at it. Object `g` is
    /// written at the first node whose extent is that of `{g}''`, attribute
    /// `m` at the first whose extent is `{m}'`; one that no node has is
    /// written nowhere.
    pub fn reduced_labels(&self, lattice: &Lattice<(BitSet, BitSet)>) -> (r: Vec<(Vec<String>, Vec<String>)>)
        requires
            self.wf(),
        ensures
            r@.len() == lattice.poset.nodes@.len(),
            forall|i: int|
                0 <= i < r@.len() ==> (#[trigger] r@[i]).0@ == self.object_labels_at(
                    lattice.poset.nodes@,
                    i as nat,
                    self.objects@.len(),
                ) && r@[i].1@ == self.attribute_labels_at(lattice.poset.nodes@, i as nat, self.attributes@.len()),
    {
        let nodes = &lattice.poset.nodes;
        let ghost ns = nodes@;
        let mut object_homes: Vec<Option<usize>> = Vec::new();
        let mut g: usize = 0;
        while g < self.objects.len()
            invariant
                self.wf(),
                ns == nodes@,
                g <= self.objects@.len(),
                object_homes@.len() == g,
                forall|x: int| 0 <= x < g ==> home_matches(#[trigger] object_homes@[x], self.object_home(ns, x as usize)),
            decreases self.objects@.len() - g,
        {
            let mut single = BitSet::new();
            single.insert(g);
            assert(single@ =~= set![g]);
            let hull = self.index_object_hull(&single);
            let home = find_extent(nodes, &hull);
            object_homes.push(home);
            g = g + 1;
        }
        let mut attribute_homes: Vec<Option<usize>> = Vec::new();
        let mut m: usize = 0;
        while m < self.attributes.len()
            invariant
                self.wf(),
                ns == nodes@,
                m <= self.attributes@.len(),
                attribute_homes@.len() == m,
                forall|x: int| 0 <= x < m ==> home_matches(#[trigger] attribute_homes@[x], self.attribute_home(ns, x as usize)),
            decreases self.attributes@.len() - m,
        {
            let mut single = BitSet::new();
            single.insert(m);
            assert(single@ =~= set![m]);
            let extent = self.index_extent(&single);
            let home = find_extent(nodes, &extent);
            attribute_homes.push(home);
            m = m + 1;
        }
        let mut out: Vec<(Vec<String>, Vec<String>)> = Vec::new();
        let mut i: usize = 0;
        while i < nodes.len()
            invariant
                ns == nodes@,
                i <= ns.len(),
                object_homes@.len() == self.objects@.len(),
                attribute_homes@.len() == self.attributes@.len(),
                forall|x: int| 0 <= x < self.objects@.len() ==> home_matches(#[trigger] object_homes@[x], self.object_home(ns, x as usize)),
                forall|x: int| 0 <= x < self.attributes@.len() ==> home_matches(#[trigger] attribute_homes@[x], self.attribute_home(ns, x as usize)),
                out@.len() == i,
                forall|j: int|
                    0 <= j < i ==> (#[trigger] out@[j]).0@ == self.object_labels_at(ns, j as nat, self.objects@.len())
                        && out@[j].1@ == self.attribute_labels_at(ns, j as nat, self.attributes@.len()),
            decreases ns.len() - i,
        {
            let mut objects_here: Vec<String> = Vec::new();
            let mut x: usize = 0;
            while x < self.objects.len()
                invariant
                    object_homes@.len() == self.objects@.len(),
                    forall|y: int| 0 <= y < self.objects@.len() ==> home_matches(#[trigger] object_homes@[y], self.object_home(ns, y as usize)),
                    x <= self.objects@.len(),
                    objects_here@ == self.object_labels_at(ns, i as nat, x as nat),
                decreases self.objects@.len() - x,
            {
                assert(home_matches(object_homes@[x as int], self.object_home(ns, x as usize)));
                assert(((x + 1) - 1) as usize == x);
                if object_homes[x] == Some(i) {
                    objects_here.push(self.objects[x].clone());
                }
                x = x + 1;
            }
            let mut attributes_here: Vec<String> = Vec::new();
            let mut y: usize = 0;
            while y < self.attributes.len()
                invariant
                    attribute_homes@.len() == self.attributes@.len(),
                    forall|z: int| 0 <= z < self.attributes@.len() ==> home_matches(#[trigger] attribute_homes@[z], self.attribute_home(ns, z as usize)),
                    y <= self.attributes@.len(),
                    attributes_here@ == self.attribute_labels_at(ns, i as nat, y as nat),
                decreases self.attributes@.len() - y,
            {
                assert(home_matches(attribute_homes@[y as int], self.attribute_home(ns, y as usize)));
                assert(((y + 1) - 1) as usize == y);
                if attribute_homes[y] == Some(i) {
                    attributes_here.push(self.attributes[y].clone());
                }
                y = y + 1;
            }
            out.push((objects_here, attributes_here));
            i = i + 1;
        }
        out
    }
}

/// A found node and the spec's answer agree.
pub open spec fn home_matches(found: Option<usize>, home: Option<nat>) -> bool {
    match found {
        Some(i) => home == Some(i as nat),
        None => home is None,
    }
}

/// The first node whose extent is `e`.
pub(crate) fn find_extent(nodes: &Vec<(BitSet, BitSet)>, e: &BitSet) -> (r: Option<usize>)
    ensures
        home_matches(r, first_with_extent(nodes@, e@, nodes@.len())),
{
    let mut i: usize = 0;
    while i < nodes.len()
        invariant
            i <= nodes@.len(),
            first_with_extent(nodes@, e@, i as nat) is None,
        decreases nodes@.len() - i,
    {
        if nodes[i].0.set_eq(e) {
            proof {
                lemma_first_found(nodes@, e@, (i + 1) as nat, nodes@.len());
            }
            return Some(i);
        }
        i = i + 1;
    }
    None
}

/// Once found among the first `k`, the first match stays the first among
/// more nodes.
proof fn lemma_first_found(nodes: Seq<(BitSet, BitSet)>, e: Set<usize>, k: nat, l: nat)
    requires
        k <= l,
        first_with_extent(nodes, e, k) is Some,
    ensures
        first_with_extent(nodes, e, l) == first_with_extent(nodes, e, k),
    decreases l,
{
    if l > k {
        lemma_first_found(nodes, e, k, (l - 1) as nat);
    }
}

} // verus!
