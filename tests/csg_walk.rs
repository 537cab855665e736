use raytracing::csg::{combine, merge_crossings, select_boundaries, Boundary, CsgOperation, Crossing, Side};

fn b(t_key: u32, side: Side, index: usize, flipped: bool) -> Boundary {
    Boundary { t_key, side, index, flipped }
}

fn key(t: f32) -> u32 {
    // positive parameters order like their bit patterns
    t.to_bits()
}

#[test]
fn contains_follows_each_operation() {
    for &(l, r) in &[(false, false), (false, true), (true, false), (true, true)] {
        assert_eq!(CsgOperation::Union.contains(l, r), l || r);
        assert_eq!(CsgOperation::Intersection.contains(l, r), l && r);
        assert_eq!(CsgOperation::Difference.contains(l, r), l && !r);
    }
}

#[test]
fn merge_puts_left_first_on_equal_keys() {
    let m = merge_crossings(&vec![2, 7], &vec![2, 5]);
    assert_eq!(
        m,
        vec![
            Crossing { t_key: 2, side: Side::Left, index: 0 },
            Crossing { t_key: 2, side: Side::Right, index: 0 },
            Crossing { t_key: 5, side: Side::Right, index: 1 },
            Crossing { t_key: 7, side: Side::Left, index: 1 },
        ]
    );
}

#[test]
fn union_of_overlapping_intervals() {
    let r = combine(CsgOperation::Union, &vec![1, 5], &vec![3, 8]);
    assert_eq!(r, vec![b(1, Side::Left, 0, false), b(8, Side::Right, 1, false)]);
}

#[test]
fn union_of_disjoint_intervals_keeps_all() {
    let r = combine(CsgOperation::Union, &vec![1, 2], &vec![3, 4]);
    assert_eq!(
        r,
        vec![
            b(1, Side::Left, 0, false),
            b(2, Side::Left, 1, false),
            b(3, Side::Right, 0, false),
            b(4, Side::Right, 1, false),
        ]
    );
}

#[test]
fn intersection_of_overlapping_intervals() {
    let r = combine(CsgOperation::Intersection, &vec![1, 5], &vec![3, 8]);
    assert_eq!(r, vec![b(3, Side::Right, 0, false), b(5, Side::Left, 1, false)]);
}

#[test]
fn intersection_of_disjoint_intervals_is_empty() {
    let r = combine(CsgOperation::Intersection, &vec![1, 2], &vec![3, 4]);
    assert!(r.is_empty());
}

#[test]
fn difference_flips_the_subtracted_surface() {
    let r = combine(CsgOperation::Difference, &vec![1, 5], &vec![3, 8]);
    assert_eq!(r, vec![b(1, Side::Left, 0, false), b(3, Side::Right, 0, true)]);
}

#[test]
fn difference_with_hole_inside() {
    let r = combine(CsgOperation::Difference, &vec![1, 10], &vec![3, 4]);
    assert_eq!(
        r,
        vec![
            b(1, Side::Left, 0, false),
            b(3, Side::Right, 0, true),
            b(4, Side::Right, 1, true),
            b(10, Side::Left, 1, false),
        ]
    );
}

#[test]
fn select_boundaries_on_a_given_walk() {
    let walk = vec![
        Crossing { t_key: 1, side: Side::Right, index: 0 },
        Crossing { t_key: 2, side: Side::Left, index: 0 },
        Crossing { t_key: 3, side: Side::Right, index: 1 },
        Crossing { t_key: 4, side: Side::Left, index: 1 },
    ];
    let r = select_boundaries(CsgOperation::Intersection, &walk);
    assert_eq!(r, vec![b(2, Side::Left, 0, false), b(3, Side::Right, 1, false)]);
}

#[test]
fn biconvex_lens_from_two_spheres() {
    // spheres of radius 12 centred at x = -2 and x = 2, ray along +x from x = -20 at y = 2
    let half = (144.0f32 - 4.0).sqrt();
    let left = vec![key(20.0 - 2.0 - half), key(20.0 - 2.0 + half)];
    let right = vec![key(20.0 + 2.0 - half), key(20.0 + 2.0 + half)];
    let r = combine(CsgOperation::Intersection, &left, &right);
    assert_eq!(r.len(), 2);
    assert_eq!((r[0].side, r[0].index), (Side::Right, 0));
    assert_eq!((r[1].side, r[1].index), (Side::Left, 1));
    assert!(r[0].t_key < r[1].t_key);
}

#[test]
fn union_with_empty_is_identity() {
    let left = vec![2, 4, 4, 9];
    let r = combine(CsgOperation::Union, &left, &vec![]);
    let expected: Vec<Boundary> =
        left.iter().enumerate().map(|(i, &k)| b(k, Side::Left, i, false)).collect();
    assert_eq!(r, expected);
}

#[test]
fn difference_with_empty_is_identity() {
    let left = vec![2, 4, 6, 9];
    let r = combine(CsgOperation::Difference, &left, &vec![]);
    let expected: Vec<Boundary> =
        left.iter().enumerate().map(|(i, &k)| b(k, Side::Left, i, false)).collect();
    assert_eq!(r, expected);
}

#[test]
fn intersection_with_enclosing_solid_is_identity() {
    let left = vec![2, 4, 6, 9];
    let r = combine(CsgOperation::Intersection, &left, &vec![1, 9]);
    let expected: Vec<Boundary> =
        left.iter().enumerate().map(|(i, &k)| b(k, Side::Left, i, false)).collect();
    assert_eq!(r, expected);
}

#[test]
fn intersection_with_empty_is_empty() {
    let r = combine(CsgOperation::Intersection, &vec![2, 4], &vec![]);
    assert!(r.is_empty());
}

#[test]
fn closed_inputs_give_paired_output() {
    let cases: Vec<(Vec<u32>, Vec<u32>)> = vec![
        (vec![1, 5], vec![3, 8]),
        (vec![1, 2, 6, 9], vec![3, 7]),
        (vec![], vec![3, 7]),
        (vec![4, 4], vec![4, 4]),
        (vec![1, 10], vec![1, 10]),
    ];
    for (l, r) in &cases {
        for op in [CsgOperation::Union, CsgOperation::Intersection, CsgOperation::Difference] {
            assert_eq!(combine(op, l, r).len() % 2, 0);
        }
    }
}

#[test]
fn output_is_sorted_by_key() {
    let l = vec![1, 4, 6, 12];
    let r = vec![2, 5, 5, 13];
    for op in [CsgOperation::Union, CsgOperation::Intersection, CsgOperation::Difference] {
        let out = combine(op, &l, &r);
        assert!(out.windows(2).all(|w| w[0].t_key <= w[1].t_key));
    }
}

#[test]
fn kept_boundaries_match_inside_oracle() {
    // between successive crossings, inside the combined solid by the oracle
    // exactly when an odd number of boundaries were kept before
    let l = vec![1, 4, 6, 12];
    let r = vec![2, 5, 7, 13];
    for op in [CsgOperation::Union, CsgOperation::Intersection, CsgOperation::Difference] {
        let out = combine(op, &l, &r);
        for probe in 0..15u32 {
            let in_l = l.iter().filter(|&&k| k <= probe).count() % 2 == 1;
            let in_r = r.iter().filter(|&&k| k <= probe).count() % 2 == 1;
            let kept = out.iter().filter(|x| x.t_key <= probe).count();
            assert_eq!(kept % 2 == 1, op.contains(in_l, in_r));
        }
    }
}
