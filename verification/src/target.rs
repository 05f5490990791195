use vstd::prelude::*;

verus! {

/// An on-screen target: a bounding rectangle with top-left corner `(x, y)`,
/// a point value, and an age window. A target is immutable once created; it
/// disappears either by being hit or by outliving `lifetime`.
#[derive(Clone, Copy, Debug, PartialEq, Eq, Structural)]
pub struct Target {
    pub x: u16,
    pub y: u16,
    pub width: u16,
    pub height: u16,
    /// Point value awarded (hostile) or deducted (friendly) on a hit.
    pub bounty: u16,
    /// Tick count at creation.
    pub birthday: usize,
    /// Maximum age in ticks; the target expires once `tick - birthday`
    /// exceeds it.
    pub lifetime: usize,
}

/// The target's corner arithmetic stays within `u16` range.
pub open spec fn target_box_wf(t: Target) -> bool {
    &&& t.x + t.width <= u16::MAX
    &&& t.y + t.height <= u16::MAX
}

/// Half-open containment: the far edges do not count as inside.
pub open spec fn touch_in_target(touch: (u16, u16), t: Target) -> bool {
    &&& t.x <= touch.0 < t.x + t.width
    &&& t.y <= touch.1 < t.y + t.height
}

/// At least one touch of the batch lands inside the target.
pub open spec fn target_hit(t: Target, touches: Seq<(u16, u16)>) -> bool {
    exists|j: int| 0 <= j < touches.len() && touch_in_target(touches[j], t)
}

/// The index entries one target contributes to a hit scan: its index `i`,
/// repeated once per touch that lands inside it, in touch order.
pub open spec fn hits_for_target(t: Target, touches: Seq<(u16, u16)>, i: usize) -> Seq<usize>
    decreases touches.len(),
{
    if touches.len() == 0 {
        Seq::empty()
    } else {
        hits_for_target(t, touches.drop_last(), i) + if touch_in_target(touches.last(), t) {
            seq![i]
        } else {
            Seq::empty()
        }
    }
}

/// The full hit scan over a target list: for each target in index order, its
/// index once per touch inside it. The result is sorted ascending by
/// construction, and an index appears more than once when several touches
/// land in the same target.
pub open spec fn hit_indices(targets: Seq<Target>, touches: Seq<(u16, u16)>) -> Seq<usize>
    decreases targets.len(),
{
    if targets.len() == 0 {
        Seq::empty()
    } else {
        hit_indices(targets.drop_last(), touches) + hits_for_target(
            targets.last(),
            touches,
            (targets.len() - 1) as usize,
        )
    }
}

impl Target {
    pub fn new(
        x: u16,
        y: u16,
        width: u16,
        height: u16,
        bounty: u16,
        birthday: usize,
        lifetime: usize,
    ) -> (t: Target)
        ensures
            t == (Target { x, y, width, height, bounty, birthday, lifetime }),
    {
        Target { x, y, width, height, bounty, birthday, lifetime }
    }

    /// Whether the point `(x, y)` lies inside this target's half-open
    /// bounding box.
    pub fn coord_is_inside(&self, x: u16, y: u16) -> (r: bool)
        requires
            target_box_wf(*self),
        ensures
            r == touch_in_target((x, y), *self),
    {
        x >= self.x && x < self.x + self.width && y >= self.y && y < self.y + self.height
    }

    /// Whether any touch of the batch lands inside this target.
    pub fn hit_by_any(&self, touches: &Vec<(u16, u16)>) -> (r: bool)
        requires
            target_box_wf(*self),
        ensures
            r == target_hit(*self, touches@),
    {
        let mut j: usize = 0;
        while j < touches.len()
            invariant
                j <= touches.len(),
                target_box_wf(*self),
                forall|k: int| 0 <= k < j ==> !touch_in_target(touches@[k], *self),
            decreases touches.len() - j,
        {
            let touch = touches[j];
            if self.coord_is_inside(touch.0, touch.1) {
                return true;
            }
            j += 1;
        }
        false
    }

    /// Scan every target against every touch and collect the indices of the
    /// targets hit, in index order, once per matching touch.
    pub fn check_for_hit(targets: &Vec<Target>, touches: &Vec<(u16, u16)>) -> (r: Vec<usize>)
        requires
            forall|i: int| 0 <= i < targets@.len() ==> target_box_wf(targets@[i]),
        ensures
            r@ == hit_indices(targets@, touches@),
    {
        let mut indices: Vec<usize> = Vec::new();
        let mut i: usize = 0;
        while i < targets.len()
            invariant
                i <= targets.len(),
                forall|k: int| 0 <= k < targets@.len() ==> target_box_wf(targets@[k]),
                indices@ == hit_indices(targets@.take(i as int), touches@),
            decreases targets.len() - i,
        {
            let target = &targets[i];
            let mut j: usize = 0;
            while j < touches.len()
                invariant
                    i < targets.len(),
                    j <= touches.len(),
                    target == targets@[i as int],
                    target_box_wf(*target),
                    indices@ == hit_indices(targets@.take(i as int), touches@)
                        + hits_for_target(*target, touches@.take(j as int), i),
                decreases touches.len() - j,
            {
                let touch = touches[j];
                proof {
                    assert(touches@.take(j + 1 as int).drop_last() == touches@.take(j as int));
                    assert(touches@.take(j + 1 as int).last() == touches@[j as int]);
                }
                if target.coord_is_inside(touch.0, touch.1) {
                    indices.push(i);
                    proof {
                        assert(indices@ == hit_indices(targets@.take(i as int), touches@)
                            + hits_for_target(*target, touches@.take(j + 1 as int), i));
                    }
                } else {
                    proof {
                        assert(hits_for_target(*target, touches@.take(j + 1 as int), i)
                            == hits_for_target(*target, touches@.take(j as int), i)
                                + Seq::<usize>::empty());
                        assert(hits_for_target(*target, touches@.take(j + 1 as int), i)
                            == hits_for_target(*target, touches@.take(j as int), i));
                    }
                }
                j += 1;
            }
            proof {
                assert(touches@.take(touches@.len() as int) == touches@);
                assert(targets@.take(i + 1 as int).drop_last() == targets@.take(i as int));
                assert(targets@.take(i + 1 as int).last() == targets@[i as int]);
            }
            i += 1;
        }
        proof {
            assert(targets@.take(targets@.len() as int) == targets@);
        }
        indices
    }
}

} // verus!
