use odis::bitset::BitSet;
use odis::formal_context::FormalContext;
use odis::titanic::Titanic;

fn living_beings_ctx() -> FormalContext<String> {
    let bytes = [
        "B\n\n8\n9\n\n",
        "fish leech\nbream\nfrog\ndog\nwater weeds\nreed\nbean\ncorn\n",
        "needs water to live\nlives in water\nlives on land\nneeds chlorophyll\n",
        "dicotyledon\nmonocotyledon\ncan move\nhas limbs\nbreast feeds\n",
        "XX....X..\nXX....XX.\nXXX...XX.\nX.X...XXX\nXX.X.X...\nXXXX.X...\nX.XXX....\nX.XX.X...\n",
    ]
    .concat();
    FormalContext::<String>::from(bytes.as_bytes()).unwrap()
}

fn small_context() -> FormalContext<String> {
    // a: x y, b: x, c: y
    FormalContext::<String>::from(b"B\n\n3\n2\n\na\nb\nc\nx\ny\nXX\nX.\n.X\n").unwrap()
}

#[test]
fn empty_context_returns_empty_lattice() {
    let ctx = FormalContext::<String>::new();
    let ice = Titanic.enumerate(&ctx, 0);
    assert_eq!(ice.poset.nodes.len(), 0);
}

#[test]
fn a_threshold_above_the_object_count_leaves_nothing() {
    let ctx = small_context();
    let total = ctx.objects.len() as u32;
    let ice = Titanic.enumerate(&ctx, total + 1);
    assert_eq!(ice.poset.nodes.len(), 0);
    assert_eq!(ice.total_objects, 3);
}

#[test]
fn the_full_threshold_leaves_the_top_concept() {
    let ctx = small_context();
    let total = ctx.objects.len() as u32;
    let ice = Titanic.enumerate(&ctx, total);
    assert_eq!(ice.poset.nodes.len(), 1);
    assert_eq!(ice.support, vec![3]);
}

#[test]
fn a_zero_threshold_gives_every_concept_of_a_small_context() {
    let ctx = small_context();
    let ice = Titanic.enumerate(&ctx, 0);
    // ({a,b,c}, {}), ({a,b}, {x}), ({a,c}, {y}), ({a}, {x,y}), ({}, {x,y})? no: {} has intent M, but
    // support 0 and extent {a} already has intent {x, y}.
    assert_eq!(ice.poset.nodes.len(), 4);
    for (i, &s) in ice.support.iter().enumerate() {
        let (extent, intent) = &ice.poset.nodes[i];
        assert_eq!(s as usize, extent.len());
        assert_eq!(*intent, ctx.index_intent(extent));
        assert_eq!(*extent, ctx.index_extent(intent));
    }
}

#[test]
fn covering_edges_grow_the_extent() {
    let ctx = small_context();
    let ice = Titanic.enumerate(&ctx, 1);
    for &(u, v) in &ice.poset.covering_edges {
        let (ext_u, _) = &ice.poset.nodes[u as usize];
        let (ext_v, _) = &ice.poset.nodes[v as usize];
        assert!(ext_u.is_subset(ext_v) && ext_u != ext_v);
    }
    let top: BitSet = {
        let mut b = BitSet::new();
        for g in 0..3 {
            b.insert(g);
        }
        b
    };
    assert_eq!(ice.poset.nodes[0].0, top);
}

#[test]
fn min_support_above_object_count_returns_empty() {
    let ctx = living_beings_ctx();
    let total = ctx.objects.len() as u32;
    let ice = Titanic.enumerate(&ctx, total + 1);
    assert_eq!(ice.poset.nodes.len(), 0);
}

#[test]
fn min_support_zero_returns_all_concepts() {
    let ctx = living_beings_ctx();
    let ice = Titanic.enumerate(&ctx, 0);
    // The concept lattice of this context has nineteen concepts.
    assert_eq!(ice.poset.nodes.len(), 19);
}

#[test]
fn min_support_equals_object_count_returns_one_concept() {
    let ctx = living_beings_ctx();
    let total = ctx.objects.len() as u32;
    let ice = Titanic.enumerate(&ctx, total);
    assert_eq!(ice.poset.nodes.len(), 1);
}

#[test]
fn living_beings_min_support_4() {
    let ctx = living_beings_ctx();
    let ice = Titanic.enumerate(&ctx, 4);
    for (i, s) in ice.support.iter().enumerate() {
        assert!(*s >= 4, "concept {i} has support {s} < 4");
    }
    assert!(ice.support.contains(&8));
}

#[test]
fn living_beings_support_values_match_extents() {
    let ctx = living_beings_ctx();
    let ice = Titanic.enumerate(&ctx, 1);
    for (i, &s) in ice.support.iter().enumerate() {
        let (extent, _intent) = &ice.poset.nodes[i];
        assert_eq!(s, extent.len() as u32, "support mismatch at node {i}");
    }
}

#[test]
fn covering_edges_satisfy_transitivity() {
    let ctx = living_beings_ctx();
    let ice = Titanic.enumerate(&ctx, 1);
    for &(u, v) in &ice.poset.covering_edges {
        let (ext_u, _) = &ice.poset.nodes[u as usize];
        let (ext_v, _) = &ice.poset.nodes[v as usize];
        assert!(ext_u.is_subset(ext_v) && ext_u != ext_v);
    }
}
