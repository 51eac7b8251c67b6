//! Laid-out line diagrams: positioned, labelled nodes and their edges, and
//! the cover graph of a list of concepts that a layout starts from.
use crate::bitset::BitSet;
use crate::formal_context::FormalContext;
use crate::labels::{find_extent, first_with_extent, home_matches};
use vstd::prelude::*;

verus! {

/// A line diagram laid out on an integer grid.
pub struct Graph<T> {
    /// Width of the grid.
    pub width: usize,
    /// Height of the grid.
    pub height: usize,
    /// The edges, as pairs of node ids.
    pub edges: Vec<(u32, u32)>,
    /// The positioned nodes.
    pub nodes: Vec<Node<T>>,
}

/// A node of a line diagram: its id, its grid position, and the object and
/// attribute labels it carries.
#[derive(PartialEq)]
pub struct Node<T> {
    /// The id of the node (the index of its concept).
    pub id: usize,
    /// Column on the grid.
    pub x: usize,
    /// Row on the grid.
    pub y: usize,
    /// Object labels, then attribute labels.
    pub label: (Option<Vec<T>>, Option<Vec<T>>),
}

impl<T: Clone> Graph<T> {
    /// Creates an empty graph.
    pub fn new() -> (r: Self)
        ensures
            r.width == 0,
            r.height == 0,
            r.edges@.len() == 0,
            r.nodes@.len() == 0,
    {
        Graph { width: 0, height: 0, edges: Vec::new(), nodes: Vec::new() }
    }
}

/// Extent `a` lies properly inside extent `b`.
pub open spec fn proper_sub(a: Set<usize>, b: Set<usize>) -> bool {
    a.subset_of(b) && a != b
}

/// Concept `i` covers concept `j`: the extent of `j` lies properly inside
/// that of `i`, and no listed extent lies properly between them.
pub open spec fn covers(concepts: Seq<(BitSet, BitSet)>, i: int, j: int) -> bool {
    &&& 0 <= i < concepts.len()
    &&& 0 <= j < concepts.len()
    &&& proper_sub(concepts[j].0@, concepts[i].0@)
    &&& forall|k: int|
        0 <= k < concepts.len() ==> !(proper_sub(concepts[j].0@, #[trigger] concepts[k].0@) && proper_sub(
            concepts[k].0@,
            concepts[i].0@,
        ))
}

/// Whether some listed extent lies properly between those of `j` and `i`.
fn between(concepts: &Vec<(BitSet, BitSet)>, i: usize, j: usize) -> (r: bool)
    requires
        i < concepts@.len(),
        j < concepts@.len(),
    ensures
        r == exists|k: int|
            0 <= k < concepts@.len() && proper_sub(concepts@[j as int].0@, #[trigger] concepts@[k].0@) && proper_sub(
                concepts@[k].0@,
                concepts@[i as int].0@,
            ),
{
    let mut k: usize = 0;
    while k < concepts.len()
        invariant
            i < concepts@.len(),
            j < concepts@.len(),
            k <= concepts@.len(),
            forall|x: int|
                0 <= x < k ==> !(proper_sub(concepts@[j as int].0@, #[trigger] concepts@[x].0@) && proper_sub(
                    concepts@[x].0@,
                    concepts@[i as int].0@,
                )),
        decreases concepts@.len() - k,
    {
        let low = concepts[j].0.is_subset(&concepts[k].0) && !concepts[j].0.set_eq(&concepts[k].0);
        let high = concepts[k].0.is_subset(&concepts[i].0) && !concepts[k].0.set_eq(&concepts[i].0);
        if low && high {
            assert(proper_sub(concepts@[j as int].0@, concepts@[k as int].0@) && proper_sub(
                concepts@[k as int].0@,
                concepts@[i as int].0@,
            ));
            return true;
        }
        k = k + 1;
    }
    false
}

/// The cover graph of a list of concepts, with each object written at the
/// first concept whose extent is that of its object concept `{g}''`, and
/// each attribute at the first whose extent is `{m}'`; `None` where there is
/// at most one concept. Edges run from the covering concept to the covered
/// one, as indices into the list.
pub fn concept_cover_graph<T>(concepts: &Vec<(BitSet, BitSet)>, context: &FormalContext<T>) -> (r: Option<
    (Vec<(u32, u32)>, Vec<(usize, usize)>, Vec<(usize, usize)>),
>)
    requires
        context.wf(),
        concepts@.len() <= u32::MAX,
    ensures
        r is None <==> concepts@.len() <= 1,
        r matches Some((edges, objs, attrs)) ==> {
            &&& forall|x: int| 0 <= x < edges@.len() ==> covers(concepts@, (#[trigger] edges@[x]).0 as int, edges@[x].1 as int)
            &&& forall|i: int, j: int| #[trigger] covers(concepts@, i, j) ==> edges@.contains((i as u32, j as u32))
            &&& forall|x: int|
                0 <= x < objs@.len() ==> (#[trigger] objs@[x]).1 < context.objects@.len() && first_with_extent(
                    concepts@,
                    context.extent_of(context.intent_of(set![objs@[x].1])),
                    concepts@.len(),
                ) == Some(objs@[x].0 as nat)
            &&& forall|g: usize|
                g < context.objects@.len() && #[trigger] first_with_extent(
                    concepts@,
                    context.extent_of(context.intent_of(set![g])),
                    concepts@.len(),
                ) is Some ==> exists|x: int| 0 <= x < objs@.len() && objs@[x].1 == g
            &&& forall|x: int|
                0 <= x < attrs@.len() ==> (#[trigger] attrs@[x]).1 < context.attributes@.len() && first_with_extent(
                    concepts@,
                    context.extent_of(set![attrs@[x].1]),
                    concepts@.len(),
                ) == Some(attrs@[x].0 as nat)
            &&& forall|m: usize|
                m < context.attributes@.len() && #[trigger] first_with_extent(
                    concepts@,
                    context.extent_of(set![m]),
                    concepts@.len(),
                ) is Some ==> exists|x: int| 0 <= x < attrs@.len() && attrs@[x].1 == m
        },
{
    let len = concepts.len();
    if len <= 1 {
        return None;
    }
    let mut edges: Vec<(u32, u32)> = Vec::new();
    let mut i: usize = 0;
    while i < len
        invariant
            len == concepts@.len(),
            len <= u32::MAX,
            i <= len,
            forall|x: int| 0 <= x < edges@.len() ==> covers(concepts@, (#[trigger] edges@[x]).0 as int, edges@[x].1 as int),
            forall|a: int, b: int| 0 <= a < i && #[trigger] covers(concepts@, a, b) ==> edges@.contains((a as u32, b as u32)),
        decreases len - i,
    {
        let mut j: usize = 0;
        while j < len
            invariant
                len == concepts@.len(),
                len <= u32::MAX,
                i < len,
                j <= len,
                forall|x: int| 0 <= x < edges@.len() ==> covers(concepts@, (#[trigger] edges@[x]).0 as int, edges@[x].1 as int),
                forall|a: int, b: int| 0 <= a < i && #[trigger] covers(concepts@, a, b) ==> edges@.contains((a as u32, b as u32)),
                forall|b: int| 0 <= b < j && #[trigger] covers(concepts@, i as int, b) ==> edges@.contains((i as u32, b as u32)),
            decreases len - j,
        {
            let below = concepts[j].0.is_subset(&concepts[i].0) && !concepts[j].0.set_eq(&concepts[i].0);
            if below && !between(concepts, i, j) {
                let ghost e0 = edges@;
                edges.push((i as u32, j as u32));
                proof {
                    assert(edges@[e0.len() as int] == (i as u32, j as u32));
                    assert forall|x: int| 0 <= x < edges@.len() implies covers(
                        concepts@,
                        (#[trigger] edges@[x]).0 as int,
                        edges@[x].1 as int,
                    ) by {
                        if x < e0.len() {
                            assert(edges@[x] == e0[x]);
                        }
                    }
                    assert forall|a: int, b: int| 0 <= a < i && #[trigger] covers(concepts@, a, b) implies edges@.contains(
                        (a as u32, b as u32),
                    ) by {
                        let y = choose|y: int| 0 <= y < e0.len() && e0[y] == (a as u32, b as u32);
                        assert(edges@[y] == e0[y]);
                    }
                    assert forall|b: int| 0 <= b < j + 1 && #[trigger] covers(concepts@, i as int, b) implies edges@.contains(
                        (i as u32, b as u32),
                    ) by {
                        if b < j {
                            let y = choose|y: int| 0 <= y < e0.len() && e0[y] == (i as u32, b as u32);
                            assert(edges@[y] == e0[y]);
                        }
                    }
                }
            }
            j = j + 1;
        }
        i = i + 1;
    }
    let mut objs: Vec<(usize, usize)> = Vec::new();
    let mut g: usize = 0;
    while g < context.objects.len()
        invariant
            context.wf(),
            g <= context.objects@.len(),
            forall|x: int|
                0 <= x < objs@.len() ==> (#[trigger] objs@[x]).1 < g && first_with_extent(
                    concepts@,
                    context.extent_of(context.intent_of(set![objs@[x].1])),
                    concepts@.len(),
                ) == Some(objs@[x].0 as nat),
            forall|h: usize|
                h < g && #[trigger] first_with_extent(concepts@, context.extent_of(context.intent_of(set![h])), concepts@.len())
                    is Some ==> exists|x: int| 0 <= x < objs@.len() && objs@[x].1 == h,
        decreases context.objects@.len() - g,
    {
        let mut single = BitSet::new();
        single.insert(g);
        assert(single@ =~= set![g]);
        let hull = context.index_object_hull(&single);
        let ghost o0 = objs@;
        match find_extent(concepts, &hull) {
            Some(k) => {
                objs.push((k, g));
                proof {
                    assert forall|h: usize|
                        h < g + 1 && #[trigger] first_with_extent(
                            concepts@,
                            context.extent_of(context.intent_of(set![h])),
                            concepts@.len(),
                        ) is Some implies exists|x: int| 0 <= x < objs@.len() && objs@[x].1 == h by {
                        if h < g {
                            let x = choose|x: int| 0 <= x < o0.len() && o0[x].1 == h;
                            assert(objs@[x] == o0[x]);
                        } else {
                            assert(objs@[o0.len() as int].1 == h);
                        }
                    }
                    assert forall|x: int| 0 <= x < objs@.len() implies (#[trigger] objs@[x]).1 < g + 1 && first_with_extent(
                        concepts@,
                        context.extent_of(context.intent_of(set![objs@[x].1])),
                        concepts@.len(),
                    ) == Some(objs@[x].0 as nat) by {
                        if x < o0.len() {
                            assert(objs@[x] == o0[x]);
                        }
                    }
                }
            },
            None => {},
        }
        g = g + 1;
    }
    let mut attrs: Vec<(usize, usize)> = Vec::new();
    let mut m: usize = 0;
    while m < context.attributes.len()
        invariant
            context.wf(),
            m <= context.attributes@.len(),
            forall|x: int|
                0 <= x < attrs@.len() ==> (#[trigger] attrs@[x]).1 < m && first_with_extent(
                    concepts@,
                    context.extent_of(set![attrs@[x].1]),
                    concepts@.len(),
                ) == Some(attrs@[x].0 as nat),
            forall|h: usize|
                h < m && #[trigger] first_with_extent(concepts@, context.extent_of(set![h]), concepts@.len()) is Some
                    ==> exists|x: int| 0 <= x < attrs@.len() && attrs@[x].1 == h,
        decreases context.attributes@.len() - m,
    {
        let mut single = BitSet::new();
        single.insert(m);
        assert(single@ =~= set![m]);
        let extent = context.index_extent(&single);
        let ghost a0 = attrs@;
        match find_extent(concepts, &extent) {
            Some(k) => {
                attrs.push((k, m));
                proof {
                    assert forall|h: usize|
                        h < m + 1 && #[trigger] first_with_extent(concepts@, context.extent_of(set![h]), concepts@.len())
                            is Some implies exists|x: int| 0 <= x < attrs@.len() && attrs@[x].1 == h by {
                        if h < m {
                            let x = choose|x: int| 0 <= x < a0.len() && a0[x].1 == h;
                            assert(attrs@[x] == a0[x]);
                        } else {
                            assert(attrs@[a0.len() as int].1 == h);
                        }
                    }
                    assert forall|x: int| 0 <= x < attrs@.len() implies (#[trigger] attrs@[x]).1 < m + 1 && first_with_extent(
                        concepts@,
                        context.extent_of(set![attrs@[x].1]),
                        concepts@.len(),
                    ) == Some(attrs@[x].0 as nat) by {
                        if x < a0.len() {
                            assert(attrs@[x] == a0[x]);
                        }
                    }
                }
            },
            None => {},
        }
        m = m + 1;
    }
    Some((edges, objs, attrs))
}

} // verus!
