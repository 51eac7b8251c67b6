use odis::bitset::BitSet;
use odis::formal_context::{FormalContext, FormatError};

/// Living beings and water: 8 objects, 9 attributes.
fn living_beings_context() -> FormalContext<String> {
    let bytes = [
        "B\n\n8\n9\n\n",
        "fish leech\nbream\nfrog\ndog\nwater weeds\nreed\nbean\ncorn\n",
        "needs water to live\nlives in water\nlives on land\nneeds chlorophyll\n",
        "dicotyledon\nmonocotyledon\ncan move\nhas limbs\nbreast feeds\n",
        "XX....X..\nXX....XX.\nXXX...XX.\nX.X...XXX\nXX.X.X...\nXXXX.X...\nX.XXX....\nX.XX.X...\n",
    ]
    .concat();
    FormalContext::<String>::from(bytes.as_bytes()).unwrap()
}

fn bits(xs: &[usize]) -> BitSet {
    let mut b = BitSet::new();
    for &x in xs {
        b.insert(x);
    }
    b
}

fn all_subsets(n: usize) -> Vec<BitSet> {
    let mut out = Vec::new();
    for mask in 0u32..(1u32 << n) {
        let mut b = BitSet::new();
        for i in 0..n {
            if mask & (1 << i) != 0 {
                b.insert(i);
            }
        }
        out.push(b);
    }
    out
}

#[test]
fn test_read_context() {
    let context = living_beings_context();
    assert_eq!(context.objects.len(), 8);
    assert_eq!(context.objects[0], "fish leech");
    assert_eq!(context.objects[7], "corn");
    assert_eq!(context.attributes.len(), 9);
    assert_eq!(context.attributes[0], "needs water to live");
    assert_eq!(context.attributes[8], "breast feeds");
    assert_eq!(context.incidence.len(), 34);
    assert!(context.incidence.contains(&(2, 1)));
    assert!(context.incidence.contains(&(2, 2)));
    assert!(!context.incidence.contains(&(2, 3)));
    assert!(!context.incidence.contains(&(0, 7)));
}

#[test]
fn text_index_derivations() {
    let context = living_beings_context();
    assert_eq!(context.index_extent(&BitSet::new()).len(), 8);
    assert_eq!(context.index_intent(&BitSet::new()).len(), 9);
    assert_eq!(
        context.index_extent(&BitSet::from_bytes(&[0b10000000])),
        BitSet::from_bytes(&[0b11111111])
    );
    // frog: needs water, lives in water, lives on land, can move, has limbs
    assert_eq!(context.index_intent(&bits(&[2])), bits(&[0, 1, 2, 6, 7]));
    assert_eq!(context.index_extent(&bits(&[1, 2])), bits(&[2, 5]));
}

#[test]
fn text_index_hulls() {
    let context = living_beings_context();
    assert_eq!(
        context.index_attribute_hull(&BitSet::from_bytes(&[0b00000000])),
        BitSet::from_bytes(&[0b10000000])
    );
    for sub in all_subsets(context.objects.len()) {
        let hull = context.index_object_hull(&sub);
        assert!(sub.is_subset(&hull));
        assert_eq!(context.index_object_hull(&hull), hull);
    }
    for sub in all_subsets(context.attributes.len()) {
        let hull = context.index_attribute_hull(&sub);
        assert!(sub.is_subset(&hull));
        assert_eq!(context.index_attribute_hull(&hull), hull);
    }
}

#[test]
fn derivations_form_a_galois_connection() {
    let context = living_beings_context();
    let objects = all_subsets(context.objects.len());
    let attributes = all_subsets(context.attributes.len());
    for a in objects.iter().step_by(7) {
        for b in attributes.iter().step_by(11) {
            let left = a.is_subset(&context.index_extent(b));
            let right = b.is_subset(&context.index_intent(a));
            assert_eq!(left, right);
        }
    }
}

#[test]
fn a_file_that_is_not_burmeister_is_refused() {
    assert!(matches!(FormalContext::<String>::from(b"X\n"), Err(FormatError::InvalidFormat)));
    assert!(matches!(FormalContext::<String>::from(b""), Err(FormatError::InvalidFormat)));
    assert!(matches!(FormalContext::<String>::from(b"B\n\nx\n1\n\n"), Err(FormatError::ParseError(_))));
    assert!(matches!(FormalContext::<String>::from(b"B\n\n1\n1\n\ncat\n"), Err(FormatError::InvalidFormat)));
}

#[test]
fn a_context_of_one_cross_reads_back() {
    let ctx = FormalContext::<String>::from(b"B\n\n1\n1\n\ncat\nlegs\nX\n").unwrap();
    assert_eq!(ctx.objects, vec!["cat".to_string()]);
    assert_eq!(ctx.attributes, vec!["legs".to_string()]);
    assert_eq!(ctx.incidence, vec![(0, 0)]);
}

#[test]
fn adding_and_removing_keeps_the_derivations_in_step() {
    let mut ctx = FormalContext::<String>::new();
    ctx.add_attribute("a".to_string(), &BitSet::new());
    ctx.add_attribute("b".to_string(), &BitSet::new());
    ctx.add_object("x".to_string(), &bits(&[0]));
    ctx.add_object("y".to_string(), &bits(&[0, 1]));
    assert_eq!(ctx.index_extent(&bits(&[0])), bits(&[0, 1]));
    assert_eq!(ctx.index_extent(&bits(&[1])), bits(&[1]));

    ctx.set_cross(0, 1, true);
    assert_eq!(ctx.index_extent(&bits(&[1])), bits(&[0, 1]));
    ctx.set_cross(1, 0, false);
    assert_eq!(ctx.index_intent(&bits(&[1])), bits(&[1]));

    ctx.add_attribute("c".to_string(), &bits(&[1]));
    assert_eq!(ctx.index_intent(&bits(&[1])), bits(&[1, 2]));

    ctx.remove_object(0);
    assert_eq!(ctx.objects, vec!["y".to_string()]);
    assert_eq!(ctx.index_intent(&bits(&[0])), bits(&[1, 2]));

    ctx.remove_attribute(1);
    assert_eq!(ctx.attributes, vec!["a".to_string(), "c".to_string()]);
    assert_eq!(ctx.index_intent(&bits(&[0])), bits(&[1]));

    ctx.change_object_name("z".to_string(), 0);
    ctx.change_attribute_name("d".to_string(), 1);
    assert_eq!(ctx.objects[0], "z");
    assert_eq!(ctx.attributes[1], "d");
}

#[test]
fn concepts_below_the_extent_threshold_are_dropped() {
    let concepts = vec![
        (bits(&[0, 1, 2]), BitSet::new()),
        (bits(&[0]), bits(&[0, 1])),
        (bits(&[0, 1]), bits(&[0])),
    ];
    let kept = FormalContext::<String>::filter_concepts_by_min_extent(concepts, 2);
    assert_eq!(kept, vec![(bits(&[0, 1, 2]), BitSet::new()), (bits(&[0, 1]), bits(&[0]))]);
}

#[test]
fn the_written_bytes_read_back() {
    let ctx = living_beings_context();
    let bytes = ctx.to_cxt_bytes();
    let reloaded = FormalContext::<String>::from(&bytes).unwrap();
    assert_eq!(ctx.name, reloaded.name);
    assert_eq!(ctx.objects, reloaded.objects);
    assert_eq!(ctx.attributes, reloaded.attributes);
    assert_eq!(ctx.incidence, reloaded.incidence);
}

#[test]
fn a_small_context_is_written_line_by_line() {
    let ctx = FormalContext::<String>::from(b"B\nzoo\n2\n1\n\ncat\nfish\nlegs\nX\n.\n").unwrap();
    let bytes = ctx.to_cxt_bytes();
    assert_eq!(bytes, b"B\nzoo\n2\n1\n\ncat\nfish\nlegs\nX\n.\n".to_vec());
    let mut big = FormalContext::<String>::new();
    for i in 0..12 {
        big.add_attribute(format!("m{i}"), &BitSet::new());
    }
    let text = String::from_utf8(big.to_cxt_bytes()).unwrap();
    assert!(text.starts_with("B\n\n0\n12\n\nm0\n"));
}

fn lectic_key(intent: &BitSet, n: usize) -> u64 {
    let mut acc = 0u64;
    for i in 0..n {
        acc = 2 * acc + if intent.contains(i) { 1 } else { 0 };
    }
    acc
}

#[test]
fn lectic_sort() {
    let context = living_beings_context();
    let ice = odis::titanic::Titanic.enumerate(&context, 0);
    let mut concepts: Vec<(BitSet, BitSet)> = ice.poset.nodes.clone();
    concepts.reverse();
    let before = concepts.clone();
    context.index_sort_lectic_order(&mut concepts);
    assert_eq!(concepts.len(), before.len());
    let n = context.attributes.len();
    for w in concepts.windows(2) {
        assert!(lectic_key(&w[0].1, n) <= lectic_key(&w[1].1, n));
    }
    for c in &before {
        assert!(concepts.contains(c));
    }
    // ∅ has the smallest rank, M the largest.
    assert_eq!(lectic_key(&concepts[0].1, n), lectic_key(&context.index_intent(&bits(&(0..8).collect::<Vec<_>>())), n));
    assert_eq!(concepts.last().unwrap().1, bits(&(0..9).collect::<Vec<_>>()));
}

#[test]
fn equal_intents_keep_their_order() {
    let ctx = FormalContext::<String>::from(b"B\n\n2\n2\n\ncat\ndog\nx\ny\nXX\nX.\n").unwrap();
    let mut concepts = vec![
        (bits(&[0]), bits(&[0, 1])),
        (bits(&[1]), bits(&[1])),
        (bits(&[0, 1]), bits(&[0])),
        (bits(&[]), bits(&[1])),
    ];
    ctx.index_sort_lectic_order(&mut concepts);
    assert_eq!(
        concepts,
        vec![
            (bits(&[1]), bits(&[1])),
            (bits(&[]), bits(&[1])),
            (bits(&[0, 1]), bits(&[0])),
            (bits(&[0]), bits(&[0, 1])),
        ]
    );
}

#[test]
fn test_index_next_preclosure_method_matches_free_fn() {
    let ctx = living_beings_context();
    let implications = ctx.index_canonical_basis();
    let input = BitSet::new();
    let via_method = ctx.index_next_preclosure(&implications, &input);
    let via_free = odis::canonical_basis::index_next_preclosure(&ctx, &implications, &input);
    assert_eq!(via_method, via_free);
}

#[test]
fn test_index_next_preclosure_full_attribute_set_returns_full() {
    let ctx = living_beings_context();
    let implications = ctx.index_canonical_basis();
    let all: Vec<usize> = (0..ctx.attributes.len()).collect();
    let all_attrs = bits(&all);
    let result = ctx.index_next_preclosure(&implications, &all_attrs);
    // The full attribute set is the terminal element: next preclosure of it is the full set.
    assert_eq!(result, all_attrs);
}

#[test]
fn a_cross_beyond_the_last_attribute_is_refused() {
    let r = FormalContext::<String>::from(b"B\n\n1\n1\n\na\nx\nXX\n");
    assert!(matches!(r, Err(FormatError::InvalidFormat)));
}
