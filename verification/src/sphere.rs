//! Which crossing of a sphere a ray is taken to strike.
//!
//! A line that meets a sphere crosses it at two parameters, the near and the
//! far root of one quadratic; for a tangent line the two coincide. Of these,
//! a ray strikes the first that lies within the window it was cast with.

use vstd::prelude::*;

verus! {

/// One of the two crossings of a line and a sphere.
#[derive(Clone, Copy, Debug, PartialEq, Eq, Structural)]
pub enum Root {
    /// The crossing with the smaller parameter.
    Near,
    /// The crossing with the larger parameter.
    Far,
}

impl Root {
    /// The rank of this crossing, out of the two.
    pub open spec fn of(self, near: i64, far: i64) -> i64 {
        match self {
            Root::Near => near,
            Root::Far => far,
        }
    }
}

/// Whether `t` lies in the window from `t_min` to `t_max`, ends included.
pub open spec fn within(t: i64, t_min: i64, t_max: i64) -> bool {
    t_min <= t && t <= t_max
}

/// The crossing that counts: the near one if it lies in the window, else the
/// far one if that does, else none.
pub open spec fn first_within(near: i64, far: i64, t_min: i64, t_max: i64) -> Option<Root> {
    if within(near, t_min, t_max) {
        Some(Root::Near)
    } else if within(far, t_min, t_max) {
        Some(Root::Far)
    } else {
        None
    }
}

/// Chooses the crossing that a ray cast with the window `t_min..=t_max`
/// strikes, given the ranks of both crossings. A ray that starts inside the
/// sphere has its near crossing behind it and strikes the far one.
pub fn select_root(near: i64, far: i64, t_min: i64, t_max: i64) -> (root: Option<Root>)
    ensures
        root == first_within(near, far, t_min, t_max),
{
    if t_min <= near && near <= t_max {
        Some(Root::Near)
    } else if t_min <= far && far <= t_max {
        Some(Root::Far)
    } else {
        None
    }
}

/// The crossing chosen is the nearest one within the window, and one is
/// chosen whenever either lies within it.
pub proof fn lemma_selected_root_is_nearest(near: i64, far: i64, t_min: i64, t_max: i64)
    requires
        near <= far,
    ensures
        match first_within(near, far, t_min, t_max) {
            Some(root) => {
                &&& within(root.of(near, far), t_min, t_max)
                &&& within(near, t_min, t_max) ==> root.of(near, far) <= near
                &&& within(far, t_min, t_max) ==> root.of(near, far) <= far
            },
            None => !within(near, t_min, t_max) && !within(far, t_min, t_max),
        },
{
}

/// A tangent ray, whose two crossings coincide, has one crossing to strike:
/// the second is never tried in place of the first.
pub proof fn lemma_tangent_has_one_root(t: i64, t_min: i64, t_max: i64)
    ensures
        first_within(t, t, t_min, t_max) == if within(t, t_min, t_max) {
            Some(Root::Near)
        } else {
            None
        },
{
}

} // verus!
