//! Phyllotaxis planning for twig cards.
//!
//! A twig composites a tapering stem with leaves at attachment nodes.  The
//! combinatorial part of that layout — how many leaves there are, at which
//! node and span fraction each sits, on which side it branches, and that a
//! terminal leaf always caps the twig — is planned here; turning a slot
//! into texture-space coordinates and angles is a geometric concern of the
//! renderer that consumes the plan.
//!
//! Two topologies exist: monopodial twigs carry opposite leaf pairs at each
//! node of a continuous axis, sympodial twigs carry one leaf per node on
//! alternating sides of a zigzag axis, each leaf at a sine extremum
//! `(2 i + 1) / (2 n)` of the lateral span.

use vstd::prelude::*;

verus! {

/// Which side of the stem a lateral leaf branches to.
#[derive(Clone, Copy, PartialEq, Eq, Structural, Debug)]
pub enum LeafSide {
    /// Positive angle off the local stem tangent.
    Right,
    /// Negative angle off the local stem tangent.
    Left,
}

/// One planned leaf of a twig.
///
/// `num / den` is the node's position along the lateral leaf span, from
/// just below the terminal leaf toward the base.  The terminal leaf sits
/// at the twig tip rather than on the span; it carries `num == 0` and
/// `den == 1`.
#[derive(Clone, Copy, PartialEq, Eq, Structural, Debug)]
pub struct AttachmentSlot {
    /// Index of the node this leaf sits on, counted from the tip.
    pub node: usize,
    /// Side of the stem the leaf branches to.
    pub side: LeafSide,
    /// Numerator of the span fraction.
    pub num: usize,
    /// Denominator of the span fraction.
    pub den: usize,
    /// Whether this is the terminal leaf capping the twig.
    pub terminal: bool,
}

/// The side a sympodial leaf branches to: the convex side of the zigzag,
/// which alternates starting at the right.
pub open spec fn sympodial_side(i: int) -> LeafSide {
    if i % 2 == 0 {
        LeafSide::Right
    } else {
        LeafSide::Left
    }
}

/// Plan the leaves of a twig with `leaf_pairs` lateral nodes.
///
/// Monopodial twigs get one opposite pair per node — the right leaf first,
/// then its mirror — with the node at span fraction `i / n`; sympodial
/// twigs get a single leaf per node at span fraction `(2 i + 1) / (2 n)`,
/// on alternating sides starting at the right.  A terminal leaf is always
/// appended last.  A request for zero nodes is treated as one node.
pub fn attachment_plan(leaf_pairs: usize, sympodial: bool) -> (plan: Vec<AttachmentSlot>)
    requires
        leaf_pairs < 0x1000_0000,
    ensures
        ({
            let n = if leaf_pairs == 0 {
                1int
            } else {
                leaf_pairs as int
            };
            &&& plan@.len() == (if sympodial {
                n + 1
            } else {
                2 * n + 1
            })
            &&& plan@.last().terminal
            &&& forall|i: int| 0 <= i < plan@.len() - 1 ==> !(#[trigger] plan@[i]).terminal
            &&& sympodial ==> forall|i: int|
                0 <= i < n ==> (#[trigger] plan@[i]).node == i && plan@[i].side
                    == sympodial_side(i) && plan@[i].num == 2 * i + 1 && plan@[i].den == 2 * n
            &&& !sympodial ==> forall|i: int|
                0 <= i < n ==> (#[trigger] plan@[2 * i]).node == i && plan@[2 * i].side
                    == LeafSide::Right && plan@[2 * i].num == i && plan@[2 * i].den == n
                    && plan@[2 * i + 1].node == i && plan@[2 * i + 1].side == LeafSide::Left
                    && plan@[2 * i + 1].num == i && plan@[2 * i + 1].den == n
        }),
{
    let n: usize = if leaf_pairs == 0 {
        1
    } else {
        leaf_pairs
    };
    let mut plan: Vec<AttachmentSlot> = Vec::new();
    if sympodial {
        let mut i: usize = 0;
        while i < n
            invariant
                1 <= n < 0x1000_0000,
                i <= n,
                plan@.len() == i,
                forall|k: int|
                    0 <= k < i ==> (#[trigger] plan@[k]).node == k && plan@[k].side
                        == sympodial_side(k) && plan@[k].num == 2 * k + 1 && plan@[k].den == 2 * n
                        && !plan@[k].terminal,
            decreases n - i,
        {
            let side = if i % 2 == 0 {
                LeafSide::Right
            } else {
                LeafSide::Left
            };
            plan.push(
                AttachmentSlot { node: i, side, num: 2 * i + 1, den: 2 * n, terminal: false },
            );
            i = i + 1;
        }
        plan.push(
            AttachmentSlot { node: n, side: LeafSide::Right, num: 0, den: 1, terminal: true },
        );
    } else {
        let mut i: usize = 0;
        while i < n
            invariant
                1 <= n < 0x1000_0000,
                i <= n,
                plan@.len() == 2 * i,
                forall|j: int| 0 <= j < plan@.len() ==> !(#[trigger] plan@[j]).terminal,
                forall|k: int|
                    0 <= k < i ==> (#[trigger] plan@[2 * k]).node == k && plan@[2 * k].side
                        == LeafSide::Right && plan@[2 * k].num == k && plan@[2 * k].den == n && !plan@[2
                        * k].terminal && plan@[2 * k + 1].node == k && plan@[2 * k + 1].side
                        == LeafSide::Left && plan@[2 * k + 1].num == k && plan@[2 * k + 1].den == n
                        && !plan@[2 * k + 1].terminal,
            decreases n - i,
        {
            plan.push(
                AttachmentSlot {
                    node: i,
                    side: LeafSide::Right,
                    num: i,
                    den: n,
                    terminal: false,
                },
            );
            plan.push(
                AttachmentSlot { node: i, side: LeafSide::Left, num: i, den: n, terminal: false },
            );
            i = i + 1;
        }
        plan.push(
            AttachmentSlot { node: n, side: LeafSide::Right, num: 0, den: 1, terminal: true },
        );
    }
    plan
}

} // verus!
