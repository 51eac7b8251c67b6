use odis::bitset::BitSet;
use odis::canonical_basis::{index_canonical_basis, index_implication_closure, index_next_preclosure};
use odis::formal_context::FormalContext;

fn set_of(xs: &[usize]) -> BitSet {
    let mut b = BitSet::new();
    for &x in xs {
        b.insert(x);
    }
    b
}

fn is_sound_implication<T>(ctx: &FormalContext<T>, premise: &BitSet, conclusion: &BitSet) -> bool {
    for g in 0..ctx.objects.len() {
        let obj_attrs = &ctx.atomic_object_derivations[g];
        if premise.is_subset(obj_attrs) && !conclusion.is_subset(obj_attrs) {
            return false;
        }
    }
    true
}

#[test]
fn implication_closure_test() {
    let implications = vec![
        (BitSet::from_bytes(&[0b01000000]), BitSet::from_bytes(&[0b00110000])),
        (BitSet::from_bytes(&[0b00001100]), BitSet::from_bytes(&[0b01111100])),
        (BitSet::from_bytes(&[0b00010100]), BitSet::from_bytes(&[0b01111100])),
        (BitSet::from_bytes(&[0b00011000]), BitSet::from_bytes(&[0b01111100])),
    ];

    let mut input = BitSet::new();
    input.insert(1);
    assert_eq!(index_implication_closure(&implications, &input), BitSet::from_bytes(&[0b01110000]));

    let mut input = BitSet::new();
    input.insert(4);
    input.insert(5);
    assert_eq!(index_implication_closure(&implications, &input), BitSet::from_bytes(&[0b01111100]));

    let mut input = BitSet::new();
    input.insert(3);
    input.insert(5);
    assert_eq!(index_implication_closure(&implications, &input), BitSet::from_bytes(&[0b01111100]));

    let mut input = BitSet::new();
    input.insert(3);
    input.insert(4);
    assert_eq!(index_implication_closure(&implications, &input), BitSet::from_bytes(&[0b01111100]));
}

#[test]
fn test_basis_zero_attributes() {
    let mut ctx = FormalContext::<usize>::new();
    for g in 0..3 {
        ctx.add_object(g, &BitSet::new());
    }
    let basis = index_canonical_basis(&ctx);
    assert!(basis.is_empty(), "zero-attribute context must have empty basis");
}

#[test]
fn test_basis_zero_objects() {
    let mut ctx = FormalContext::<usize>::new();
    for m in 0..5 {
        ctx.add_attribute(m, &BitSet::new());
    }
    let basis = index_canonical_basis(&ctx);
    assert_eq!(basis.len(), 1);
    let (premise, conclusion) = &basis[0];
    assert!(premise.is_empty(), "premise of the unique implication must be ∅");
    assert_eq!(*conclusion, set_of(&[0, 1, 2, 3, 4]), "conclusion must be M");
}

#[test]
fn test_basis_full_context() {
    let mut ctx = FormalContext::<usize>::new();
    for m in 0..3 {
        ctx.add_attribute(m, &BitSet::new());
    }
    for g in 0..3 {
        ctx.add_object(g, &set_of(&[0, 1, 2]));
    }
    let basis = index_canonical_basis(&ctx);
    for (premise, conclusion) in &basis {
        assert!(is_sound_implication(&ctx, premise, conclusion));
    }
    assert_eq!(basis.len(), 1);
    assert!(basis[0].0.is_empty());
    assert_eq!(basis[0].1, set_of(&[0, 1, 2]));
}

#[test]
fn test_basis_unique_attribute_sets() {
    let mut ctx = FormalContext::<usize>::new();
    for m in 0..3 {
        ctx.add_attribute(m, &BitSet::new());
    }
    for g in 0..3 {
        let mut intent = BitSet::new();
        intent.insert(g);
        ctx.add_object(g, &intent);
    }
    let basis = index_canonical_basis(&ctx);
    assert!(!basis.is_empty(), "unique-attribute context must have non-empty basis");
    for (premise, conclusion) in &basis {
        assert!(is_sound_implication(&ctx, premise, conclusion), "implication {:?} → {:?} must be sound", premise, conclusion);
    }
}

/// The triangles context: seven triangles and the attributes equilateral,
/// isosceles, acute, right and obtuse.
fn triangles() -> FormalContext<String> {
    let bytes = [
        "B\n\n7\n5\n\n",
        "T1\nT2\nT3\nT4\nT5\nT6\nT7\n",
        "equilateral\nisosceles\nacute\nright\nobtuse\n",
        "XXX..\n.XX..\n.X.X.\n.X..X\n..X..\n...X.\n....X\n",
    ]
    .concat();
    FormalContext::<String>::from(bytes.as_bytes()).unwrap()
}

#[test]
fn canonical_basis_test() {
    let context = triangles();
    let output = index_canonical_basis(&context);
    let canonical_basis = vec![
        (BitSet::from_bytes(&[0b00011000]), BitSet::from_bytes(&[0b11111000])),
        (BitSet::from_bytes(&[0b00101000]), BitSet::from_bytes(&[0b11111000])),
        (BitSet::from_bytes(&[0b00110000]), BitSet::from_bytes(&[0b11111000])),
        (BitSet::from_bytes(&[0b10000000]), BitSet::from_bytes(&[0b11100000])),
    ];
    assert_eq!(output, canonical_basis);
}

#[test]
fn next_closure_test() {
    let context = triangles();
    let mut canonical_basis = Vec::new();

    let input = BitSet::new();
    let output = index_next_preclosure(&context, &canonical_basis, &input);
    assert_eq!(output, BitSet::from_bytes(&[0b00001000]));

    let input = BitSet::from_bytes(&[0b00001000]);
    let output = index_next_preclosure(&context, &canonical_basis, &input);
    assert_eq!(output, BitSet::from_bytes(&[0b00010000]));

    let input = BitSet::from_bytes(&[0b00010000]);
    let output = index_next_preclosure(&context, &canonical_basis, &input);
    assert_eq!(output, BitSet::from_bytes(&[0b00011000]));

    canonical_basis.push((BitSet::from_bytes(&[0b00011000]), BitSet::from_bytes(&[0b11111000])));
    let input = BitSet::from_bytes(&[0b00011000]);
    let output = index_next_preclosure(&context, &canonical_basis, &input);
    assert_eq!(output, BitSet::from_bytes(&[0b00100000]));
}

#[test]
fn next_preclosure_walks_lectic_order() {
    let ctx = triangles();
    let none: Vec<(BitSet, BitSet)> = Vec::new();
    assert_eq!(index_next_preclosure(&ctx, &none, &BitSet::new()), set_of(&[4]));
    assert_eq!(index_next_preclosure(&ctx, &none, &set_of(&[4])), set_of(&[3]));
    assert_eq!(index_next_preclosure(&ctx, &none, &set_of(&[3])), set_of(&[3, 4]));
    let all = set_of(&[0, 1, 2, 3, 4]);
    assert_eq!(index_next_preclosure(&ctx, &none, &all), all);
}

#[test]
fn basis_premises_are_not_closed_and_conclusions_are_their_closures() {
    let ctx = triangles();
    let basis = index_canonical_basis(&ctx);
    assert!(!basis.is_empty());
    for (premise, conclusion) in &basis {
        assert_ne!(premise, conclusion);
        assert_eq!(*conclusion, ctx.index_attribute_hull(premise));
        assert!(is_sound_implication(&ctx, premise, conclusion));
    }
}

#[test]
fn closure_under_no_implications_is_the_input() {
    let input = set_of(&[2, 7]);
    assert_eq!(index_implication_closure(&[], &input), input);
}
