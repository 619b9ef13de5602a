//! A scene as a list of members, and the search for the member that a ray
//! strikes first.
//!
//! The members are tested in the order in which they were added. Each is
//! tested only up to the nearest strike found before it, so that whatever
//! lies behind a nearer surface is never reported.

use vstd::prelude::*;

verus! {

/// The members of a scene, in the order in which they were added.
pub struct HittableList<T> {
    objects: Vec<T>,
}

impl<T> View for HittableList<T> {
    type V = Seq<T>;

    closed spec fn view(&self) -> Seq<T> {
        self.objects@
    }
}

impl<T> HittableList<T> {
    /// A scene without members.
    pub fn new() -> (list: Self)
        ensures
            list@ == Seq::<T>::empty(),
    {
        HittableList { objects: Vec::new() }
    }

    /// Removes every member.
    pub fn clear(&mut self)
        ensures
            final(self)@ == Seq::<T>::empty(),
    {
        self.objects = Vec::new();
    }

    /// Adds a member behind those already there.
    pub fn add(&mut self, object: T)
        ensures
            final(self)@ == old(self)@.push(object),
    {
        self.objects.push(object);
    }

    /// The number of members.
    pub fn len(&self) -> (n: usize)
        ensures
            n == self@.len(),
    {
        self.objects.len()
    }

    /// The member at `index`, if there is one.
    pub fn get(&self, index: usize) -> (object: Option<&T>)
        ensures
            match object {
                Some(found) => index < self@.len() && *found == self@[index as int],
                None => index >= self@.len(),
            },
    {
        if index < self.objects.len() {
            Some(&self.objects[index])
        } else {
            None
        }
    }
}

/// The nearest strike found so far while the members of a scene are tested
/// one after another.
pub struct Nearest<H> {
    limit: i64,
    record: Option<H>,
}

impl<H> Nearest<H> {
    /// The rank up to which the next member is to be tested: that of the
    /// nearest strike so far, or the far end of the ray's window while
    /// nothing was struck.
    pub closed spec fn bound(&self) -> i64 {
        self.limit
    }

    /// What was recorded with the nearest strike so far.
    pub closed spec fn held(&self) -> Option<H> {
        self.record
    }

    /// Starts a search in which nothing beyond `t_max` counts.
    pub fn new(t_max: i64) -> (nearest: Self)
        ensures
            nearest.bound() == t_max,
            nearest.held().is_none(),
    {
        Nearest { limit: t_max, record: None }
    }

    /// The rank up to which the next member is to be tested.
    pub fn limit(&self) -> (t: i64)
        ensures
            t == self.bound(),
    {
        self.limit
    }

    /// Whether any strike was taken so far.
    pub fn is_hit(&self) -> (hit: bool)
        ensures
            hit == self.held().is_some(),
    {
        self.record.is_some()
    }

    /// Reports a strike at rank `t`. It is taken, and replaces what was held,
    /// if it lies no farther than the bound; a strike beyond the bound is
    /// hidden behind a nearer surface and changes nothing. Returns whether
    /// it was taken.
    pub fn offer(&mut self, t: i64, record: H) -> (taken: bool)
        ensures
            taken == (t <= old(self).bound()),
            taken ==> final(self).bound() == t && final(self).held() == Some(record),
            !taken ==> final(self).bound() == old(self).bound() && final(self).held() == old(
                self,
            ).held(),
    {
        if t <= self.limit {
            self.limit = t;
            self.record = Some(record);
            true
        } else {
            false
        }
    }

    /// Ends the search and hands out what was recorded with the nearest
    /// strike, or `None` if nothing was struck.
    pub fn into_record(self) -> (record: Option<H>)
        ensures
            record == self.held(),
    {
        self.record
    }
}

/// Whether member `index` counts as struck first: it is struck within the
/// window, no member is struck nearer, and no later member is struck equally
/// near.
pub open spec fn is_closest(hits: Seq<Option<i64>>, t_max: i64, index: int) -> bool {
    &&& 0 <= index < hits.len()
    &&& hits[index] matches Some(t)
    &&& t <= t_max
    &&& forall|j: int|
        0 <= j < hits.len() ==> (#[trigger] hits[j] matches Some(u) ==> u > t_max || t <= u)
    &&& forall|j: int| index < j < hits.len() ==> (#[trigger] hits[j] matches Some(u) ==> u != t)
}

/// Finds the member that a ray strikes first. `hits[i]` is the rank at which
/// member `i` is struck, or `None` where the ray passes it by; strikes beyond
/// `t_max` do not count. Of several members struck at the same rank the one
/// added last is taken.
pub fn closest(hits: &Vec<Option<i64>>, t_max: i64) -> (found: Option<usize>)
    ensures
        match found {
            Some(index) => is_closest(hits@, t_max, index as int),
            None => forall|j: int|
                0 <= j < hits.len() ==> (#[trigger] hits[j] matches Some(u) ==> u > t_max),
        },
{
    let mut nearest: Nearest<usize> = Nearest::new(t_max);
    let mut i: usize = 0;
    while i < hits.len()
        invariant
            i <= hits.len(),
            nearest.bound() <= t_max,
            match nearest.held() {
                Some(index) => {
                    &&& index < i
                    &&& hits[index as int] == Some(nearest.bound())
                    &&& forall|j: int|
                        0 <= j < i ==> (#[trigger] hits[j] matches Some(u) ==> u > t_max
                            || nearest.bound() <= u)
                    &&& forall|j: int|
                        index < j < i ==> (#[trigger] hits[j] matches Some(u) ==> u
                            != nearest.bound())
                },
                None => nearest.bound() == t_max && forall|j: int|
                    0 <= j < i ==> (#[trigger] hits[j] matches Some(u) ==> u > t_max),
            },
        decreases hits.len() - i,
    {
        match hits[i] {
            Some(t) => {
                nearest.offer(t, i);
            },
            None => {},
        }
        i = i + 1;
    }
    nearest.into_record()
}

/// Whether the strike on member `index` is out of sight: it lies beyond the
/// window, or an earlier member is struck nearer.
pub open spec fn is_occluded(hits: Seq<Option<i64>>, t_max: i64, index: int) -> bool {
    &&& 0 <= index < hits.len()
    &&& hits[index] matches Some(u)
    &&& u > t_max || exists|i: int|
        0 <= i < index && (#[trigger] hits[i]).is_some() && hits[i].unwrap() < u
}

/// Whether `narrowed` is what the members report when each may keep silent
/// about a strike that is out of sight: it is `hits` with some occluded
/// strikes left out.
pub open spec fn is_narrowing(
    hits: Seq<Option<i64>>,
    narrowed: Seq<Option<i64>>,
    t_max: i64,
) -> bool {
    &&& narrowed.len() == hits.len()
    &&& forall|j: int|
        0 <= j < hits.len() ==> #[trigger] narrowed[j] == hits[j] || (narrowed[j].is_none()
            && is_occluded(hits, t_max, j))
}

/// A strike within the window that a narrowing leaves out has a nearer
/// strike before it that the narrowing kept.
proof fn lemma_left_out_has_kept_nearer(
    hits: Seq<Option<i64>>,
    narrowed: Seq<Option<i64>>,
    t_max: i64,
    j: int,
) -> (i: int)
    requires
        is_narrowing(hits, narrowed, t_max),
        0 <= j < hits.len(),
        hits[j].is_some(),
        hits[j].unwrap() <= t_max,
        narrowed[j] != hits[j],
    ensures
        0 <= i < j,
        narrowed[i] == hits[i],
        hits[i].is_some(),
        hits[i].unwrap() < hits[j].unwrap(),
    decreases j,
{
    assert(is_occluded(hits, t_max, j));
    let u = hits[j].unwrap();
    let i = choose|i: int| 0 <= i < j && (#[trigger] hits[i]).is_some() && hits[i].unwrap() < u;
    if narrowed[i] == hits[i] {
        i
    } else {
        lemma_left_out_has_kept_nearer(hits, narrowed, t_max, i)
    }
}

/// Testing each member only up to the nearest strike before it loses
/// nothing: the member struck first is the same whether or not occluded
/// strikes are reported.
pub proof fn lemma_narrowing_keeps_closest(
    hits: Seq<Option<i64>>,
    narrowed: Seq<Option<i64>>,
    t_max: i64,
    index: int,
)
    requires
        is_narrowing(hits, narrowed, t_max),
    ensures
        is_closest(hits, t_max, index) <==> is_closest(narrowed, t_max, index),
{
    if is_closest(hits, t_max, index) {
        let t = hits[index].unwrap();
        if narrowed[index] != hits[index] {
            let i = lemma_left_out_has_kept_nearer(hits, narrowed, t_max, index);
            assert(hits[i] matches Some(u) ==> u > t_max || t <= u);
        }
        assert forall|j: int| 0 <= j < narrowed.len() implies (#[trigger] narrowed[j] matches Some(
            u,
        ) ==> u > t_max || t <= u) by {
            assert(narrowed[j].is_some() ==> narrowed[j] == hits[j]);
        }
        assert forall|j: int| index < j < narrowed.len() implies (#[trigger] narrowed[j] matches Some(
            u,
        ) ==> u != t) by {
            assert(narrowed[j].is_some() ==> narrowed[j] == hits[j]);
        }
        assert(is_closest(narrowed, t_max, index));
    }
    if is_closest(narrowed, t_max, index) {
        let t = narrowed[index].unwrap();
        assert(narrowed[index] == hits[index]);
        assert forall|j: int| 0 <= j < hits.len() implies (#[trigger] hits[j] matches Some(u) ==> u
            > t_max || t <= u) by {
            if hits[j].is_some() && hits[j].unwrap() <= t_max {
                if narrowed[j] != hits[j] {
                    let i = lemma_left_out_has_kept_nearer(hits, narrowed, t_max, j);
                    assert(narrowed[i] matches Some(u) ==> u > t_max || t <= u);
                } else {
                    assert(narrowed[j] matches Some(u) ==> u > t_max || t <= u);
                }
            }
        }
        assert forall|j: int| index < j < hits.len() implies (#[trigger] hits[j] matches Some(u)
            ==> u != t) by {
            if hits[j] == Some(t) {
                if narrowed[j] != hits[j] {
                    let i = lemma_left_out_has_kept_nearer(hits, narrowed, t_max, j);
                    assert(narrowed[i] matches Some(u) ==> u > t_max || t <= u);
                } else {
                    assert(narrowed[j] matches Some(u) ==> u != t);
                }
            }
        }
        assert(is_closest(hits, t_max, index));
    }
}

} // verus!
