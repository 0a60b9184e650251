use symbios_texture::twig::{attachment_plan, LeafSide};

#[test]
fn monopodial_plan_count() {
    // Two leaves per node plus the terminal.
    let plan = attachment_plan(4, false);
    assert_eq!(plan.len(), 4 * 2 + 1);
}

#[test]
fn sympodial_plan_count() {
    // One leaf per node plus the terminal.
    let plan = attachment_plan(4, true);
    assert_eq!(plan.len(), 4 + 1);
}

#[test]
fn monopodial_leaves_come_in_opposite_pairs() {
    let plan = attachment_plan(5, false);
    for i in 0..5 {
        let right = &plan[2 * i];
        let left = &plan[2 * i + 1];
        assert_eq!(right.node, i);
        assert_eq!(left.node, i);
        assert_eq!(right.side, LeafSide::Right);
        assert_eq!(left.side, LeafSide::Left);
        assert_eq!(right.num, i);
        assert_eq!(left.num, i);
        assert_eq!(right.den, 5);
        assert_eq!(left.den, 5);
        assert!(!right.terminal && !left.terminal);
    }
}

#[test]
fn sympodial_leaves_alternate_sides_at_sine_extrema() {
    let plan = attachment_plan(4, true);
    for i in 0..4 {
        let leaf = &plan[i];
        assert_eq!(leaf.node, i);
        let expected = if i % 2 == 0 {
            LeafSide::Right
        } else {
            LeafSide::Left
        };
        assert_eq!(leaf.side, expected, "leaf {i} on the wrong side");
        assert_eq!(leaf.num, 2 * i + 1);
        assert_eq!(leaf.den, 2 * 4);
        assert!(!leaf.terminal);
    }
}

#[test]
fn terminal_leaf_is_always_last() {
    for pairs in [0usize, 1, 3, 8] {
        for sympodial in [false, true] {
            let plan = attachment_plan(pairs, sympodial);
            let last = plan.last().expect("plan never empty");
            assert!(last.terminal);
            for slot in &plan[..plan.len() - 1] {
                assert!(!slot.terminal);
            }
        }
    }
}

#[test]
fn zero_nodes_are_planned_as_one() {
    assert_eq!(attachment_plan(0, false).len(), 3);
    assert_eq!(attachment_plan(0, true).len(), 2);
}
