//! A texture atlas: a square area split into quarters on demand, each leaf vacant or occupied by
//! one square of a power-of-two size.
use vstd::prelude::*;

use std::sync::Arc;

verus! {

/// A weak handle to a shared value, which can tell when the value has been dropped.
#[verifier::external_body]
#[verifier::reject_recursive_types(T)]
pub struct WeakRef<T> {
    inner: std::sync::Weak<T>,
}

/// `Arc::downgrade`: a weak handle to the shared value.
#[verifier::external_body]
pub fn downgrade<T>(a: &Arc<T>) -> (r: WeakRef<T>) {
    WeakRef { inner: Arc::downgrade(a) }
}

impl<T> WeakRef<T> {
    /// `Weak::strong_count`: how many strong references to the value are left. This depends on
    /// what other owners of the value have done, so nothing is stated of it.
    #[verifier::external_body]
    pub fn strong_count(&self) -> (r: usize) {
        self.inner.strong_count()
    }
}

/// A rectangular area, in pixels.
#[derive(Debug, PartialEq, Eq, Structural)]
pub struct Area {
    pub left: usize,
    pub top: usize,
    pub right: usize,
    pub bottom: usize,
}

impl Clone for Area {
    fn clone(&self) -> (r: Self)
        ensures
            r == *self,
    {
        Area { left: self.left, top: self.top, right: self.right, bottom: self.bottom }
    }
}

/// The smallest power of two that is at least `x`, searching from `r` on.
pub open spec fn pow2_from(x: int, r: int) -> int
    decreases (if x > r { x - r } else { 0 }),
{
    if r >= x || r <= 0 {
        r
    } else {
        pow2_from(x, 2 * r)
    }
}

/// The smallest power of two that is at least `x` (1 for 0).
pub open spec fn ceil_pow2_spec(x: int) -> int {
    pow2_from(x, 1)
}

/// Whether `x` is a power of two.
pub open spec fn is_pow2(x: int) -> bool
    decreases x,
{
    if x <= 0 {
        false
    } else if x == 1 {
        true
    } else {
        x % 2 == 0 && is_pow2(x / 2)
    }
}

proof fn lemma_pow2_from(x: int, r: int)
    requires
        r >= 1,
        is_pow2(r),
    ensures
        pow2_from(x, r) >= x,
        pow2_from(x, r) >= r,
        is_pow2(pow2_from(x, r)),
        is_pow2(x) && r <= x ==> pow2_from(x, r) == x,
    decreases (if x > r { x - r } else { 0 }),
{
    if r < x {
        assert(is_pow2(2 * r)) by {
            assert((2 * r) / 2 == r);
        }
        if is_pow2(x) && r <= x {
            lemma_pow2_between(r, x);
        }
        lemma_pow2_from(x, 2 * r);
    }
}

/// Between a power of two `r` and a larger power of two lies `2 * r`.
pub(crate) proof fn lemma_pow2_between(r: int, x: int)
    requires
        is_pow2(r),
        is_pow2(x),
        r < x,
    ensures
        2 * r <= x,
    decreases x,
{
    if r > 1 {
        lemma_pow2_between(r / 2, x / 2);
    } else {
        assert(x >= 2);
    }
}

/// The smallest power of two that is at least `x`, and `x` itself when `x` is one.
pub proof fn lemma_ceil_pow2(x: int)
    ensures
        ceil_pow2_spec(x) >= x,
        ceil_pow2_spec(x) >= 1,
        is_pow2(ceil_pow2_spec(x)),
        is_pow2(x) ==> ceil_pow2_spec(x) == x,
{
    lemma_pow2_from(x, 1);
}

/// The smallest power of two that is at least `x` (1 for 0).
pub fn ceil_pow2(x: usize) -> (r: usize)
    requires
        ceil_pow2_spec(x as int) <= usize::MAX,
    ensures
        r == ceil_pow2_spec(x as int),
{
    let mut r: usize = 1;
    while r < x
        invariant
            r >= 1,
            pow2_from(x as int, r as int) == ceil_pow2_spec(x as int),
            ceil_pow2_spec(x as int) <= usize::MAX,
            is_pow2(r as int),
        decreases (if x > r { x - r } else { 0 }),
    {
        proof {
            lemma_pow2_from(x as int, 2 * r);
            assert(is_pow2(2 * r)) by {
                assert((2 * r) / 2 == r as int);
            }
            lemma_pow2_from(x as int, 2 * r);
        }
        r *= 2;
    }
    r
}

/// A texture atlas.
pub enum Atlas<T> {
    Split(Area, Box<(Atlas<T>, Atlas<T>, Atlas<T>, Atlas<T>)>),
    Vacant(Area),
    Occupied(Area, T),
}

/// The area of an atlas node.
pub open spec fn area_of<T>(a: Atlas<T>) -> Area {
    match a {
        Atlas::Split(area, _) => area,
        Atlas::Vacant(area) => area,
        Atlas::Occupied(area, _) => area,
    }
}

/// Quarter `i` of an area: top left, top right, bottom left, bottom right.
pub open spec fn quarter(a: Area, i: int) -> Area {
    let mx = ((a.left + a.right) / 2) as usize;
    let my = ((a.top + a.bottom) / 2) as usize;
    if i == 0 {
        Area { left: a.left, top: a.top, right: mx, bottom: my }
    } else if i == 1 {
        Area { left: mx, top: a.top, right: a.right, bottom: my }
    } else if i == 2 {
        Area { left: a.left, top: my, right: mx, bottom: a.bottom }
    } else {
        Area { left: mx, top: my, right: a.right, bottom: a.bottom }
    }
}

/// Whether a node of this area can be asked for a square of size `s` (a power of two, so at
/// least one): its width is defined and at least `s`.
pub open spec fn fits(a: Area, s: int) -> bool {
    a.left <= a.right && 1 <= s <= a.right - a.left
}

/// Inserting into a vacant area: a square that fills the width occupies it; a smaller one splits
/// the area into quarters and goes into the first. `None` where the code panics.
pub open spec fn vacant_insert<T>(a: Area, val: T, s: int) -> Option<(Area, Atlas<T>)>
    decreases a.right - a.left,
{
    if !fits(a, s) {
        None
    } else if s < a.right - a.left {
        if a.left + a.right > usize::MAX || a.top + a.bottom > usize::MAX {
            None
        } else {
            match vacant_insert(quarter(a, 0), val, s) {
                None => None,
                Some((x, c0)) => Some(
                    (
                        x,
                        Atlas::Split(
                            a,
                            Box::new(
                                (
                                    c0,
                                    Atlas::Vacant(quarter(a, 1)),
                                    Atlas::Vacant(quarter(a, 2)),
                                    Atlas::Vacant(quarter(a, 3)),
                                ),
                            ),
                        ),
                    ),
                ),
            }
        }
    } else {
        Some((a, Atlas::Occupied(a, val)))
    }
}

/// Inserting a square of size `s` (a power of two): a split node tries its quarters in order, an
/// occupied node refuses and gives the value back, a vacant node takes it. `None` where the code
/// panics.
pub open spec fn insert_spec<T>(a: Atlas<T>, val: T, s: int) -> Option<(Result<Area, T>, Atlas<T>)>
    decreases a,
{
    match a {
        Atlas::Split(area, cs) => if !fits(area, s) {
            None
        } else {
            match insert_spec(cs.0, val, s) {
                None => None,
                Some((Ok(x), c0)) => Some(
                    (Ok(x), Atlas::Split(area, Box::new((c0, cs.1, cs.2, cs.3)))),
                ),
                Some((Err(v0), c0)) => match insert_spec(cs.1, v0, s) {
                    None => None,
                    Some((Ok(x), c1)) => Some(
                        (Ok(x), Atlas::Split(area, Box::new((c0, c1, cs.2, cs.3)))),
                    ),
                    Some((Err(v1), c1)) => match insert_spec(cs.2, v1, s) {
                        None => None,
                        Some((Ok(x), c2)) => Some(
                            (Ok(x), Atlas::Split(area, Box::new((c0, c1, c2, cs.3)))),
                        ),
                        Some((Err(v2), c2)) => match insert_spec(cs.3, v2, s) {
                            None => None,
                            Some((r, c3)) => Some(
                                (r, Atlas::Split(area, Box::new((c0, c1, c2, c3)))),
                            ),
                        },
                    },
                },
            }
        },
        Atlas::Occupied(area, _) => if !fits(area, s) {
            None
        } else {
            Some((Err(val), a))
        },
        Atlas::Vacant(area) => match vacant_insert(area, val, s) {
            None => None,
            Some((x, n)) => Some((Ok(x), n)),
        },
    }
}

impl<T> Atlas<T> {
    /// A vacant atlas of `size` by `size` pixels.
    pub fn new(size: usize) -> (r: Self)
        ensures
            r == Atlas::<T>::Vacant(Area { left: 0, top: 0, right: size, bottom: size }),
    {
        Atlas::Vacant(Area { left: 0, top: 0, right: size, bottom: size })
    }

    /// The width of the atlas.
    pub fn size(&self) -> (r: usize)
        requires
            area_of(*self).left <= area_of(*self).right,
        ensures
            r == area_of(*self).right - area_of(*self).left,
    {
        match self {
            Atlas::Split(area, _) => area.right - area.left,
            Atlas::Vacant(area) => area.right - area.left,
            Atlas::Occupied(area, _) => area.right - area.left,
        }
    }

    /// The area of the atlas.
    pub fn area(&self) -> (r: Area)
        ensures
            r == area_of(*self),
    {
        match self {
            Atlas::Split(area, _) => area.clone(),
            Atlas::Vacant(area) => area.clone(),
            Atlas::Occupied(area, _) => area.clone(),
        }
    }

    /// Inserts `val`, taking a square of `size` rounded up to a power of two. Returns the area
    /// taken, or gives `val` back when there is no room.
    pub fn insert(&mut self, val: T, size: usize) -> (r: Result<Area, T>)
        requires
            insert_spec(*old(self), val, ceil_pow2_spec(size as int)) is Some,
        ensures
            insert_spec(*old(self), val, ceil_pow2_spec(size as int)) == Some((r, *final(self))),
        decreases *old(self),
    {
        proof {
            lemma_ceil_pow2(size as int);
            lemma_insert_defined_bound(*old(self), val, ceil_pow2_spec(size as int));
        }
        let size = ceil_pow2(size);
        let ghost s = size as int;
        let w = self.size();
        if size > w {
            proof {
                assert(false);
            }
        }
        match self {
            Atlas::Split(_, children) => {
                proof {
                    lemma_ceil_pow2(s);
                }
                let val = match children.0.insert(val, size) {
                    Ok(area) => return Ok(area),
                    Err(val) => val,
                };
                let val = match children.1.insert(val, size) {
                    Ok(area) => return Ok(area),
                    Err(val) => val,
                };
                let val = match children.2.insert(val, size) {
                    Ok(area) => return Ok(area),
                    Err(val) => val,
                };
                match children.3.insert(val, size) {
                    Ok(area) => Ok(area),
                    Err(val) => Err(val),
                }
            },
            Atlas::Occupied(_, _) => Err(val),
            Atlas::Vacant(area) => {
                let area = area.clone();
                Self::insert_vacant(self, area, val, size)
            },
        }
    }

    fn insert_vacant(node: &mut Self, area: Area, val: T, size: usize) -> (r: Result<Area, T>)
        requires
            vacant_insert(area, val, size as int) is Some,
        ensures
            vacant_insert(area, val, size as int) matches Some((x, n)) && r == Ok::<Area, T>(x)
                && *final(node) == n,
        decreases area.right - area.left,
    {
        if size < area.right - area.left {
            let q0 = Area {
                left: area.left,
                top: area.top,
                right: (area.left + area.right) / 2,
                bottom: (area.top + area.bottom) / 2,
            };
            let mut first = Atlas::Vacant(q0.clone());
            let x = match Self::insert_vacant(&mut first, q0, val, size) {
                Ok(x) => x,
                Err(v) => {
                    proof {
                        assert(false);
                    }
                    return Err(v);
                },
            };
            *node = Atlas::Split(
                area.clone(),
                Box::new(
                    (
                        first,
                        Atlas::Vacant(
                            Area {
                                left: (area.left + area.right) / 2,
                                top: area.top,
                                right: area.right,
                                bottom: (area.top + area.bottom) / 2,
                            },
                        ),
                        Atlas::Vacant(
                            Area {
                                left: area.left,
                                top: (area.top + area.bottom) / 2,
                                right: (area.left + area.right) / 2,
                                bottom: area.bottom,
                            },
                        ),
                        Atlas::Vacant(
                            Area {
                                left: (area.left + area.right) / 2,
                                top: (area.top + area.bottom) / 2,
                                right: area.right,
                                bottom: area.bottom,
                            },
                        ),
                    ),
                ),
            );
            Ok(x)
        } else {
            *node = Atlas::Occupied(area.clone(), val);
            Ok(area)
        }
    }
}

/// What `remove_expired` may leave of `old`: vacant nodes stay vacant, an occupied node becomes
/// vacant when its value has expired, and a split node becomes one vacant node when all its
/// quarters became vacant, or else keeps its quarters as they were pruned. Which values have
/// expired depends on their other owners, so that is left open.
pub open spec fn pruned<T>(old: Atlas<T>, new: Atlas<T>) -> bool
    decreases old,
{
    match old {
        Atlas::Split(area, cs) => {
            ||| {
                &&& new == Atlas::<T>::Vacant(area)
                &&& pruned(cs.0, Atlas::<T>::Vacant(area_of(cs.0)))
                &&& pruned(cs.1, Atlas::<T>::Vacant(area_of(cs.1)))
                &&& pruned(cs.2, Atlas::<T>::Vacant(area_of(cs.2)))
                &&& pruned(cs.3, Atlas::<T>::Vacant(area_of(cs.3)))
            }
            ||| {
                &&& new is Split
                &&& area_of(new) == area
                &&& pruned(cs.0, new->Split_1.0)
                &&& pruned(cs.1, new->Split_1.1)
                &&& pruned(cs.2, new->Split_1.2)
                &&& pruned(cs.3, new->Split_1.3)
                &&& !(new->Split_1.0 is Vacant && new->Split_1.1 is Vacant && new->Split_1.2 is Vacant
                    && new->Split_1.3 is Vacant)
            }
        },
        Atlas::Vacant(area) => new == old,
        Atlas::Occupied(area, _) => new == old || new == Atlas::<T>::Vacant(area),
    }
}

/// The atlas with the occupied nodes whose flag is set made vacant, in the order of
/// `occupied`, and every split node whose four quarters are then vacant merged into one vacant
/// node.
pub open spec fn prune_spec<T>(a: Atlas<T>, f: Seq<bool>) -> Atlas<T>
    decreases a,
{
    match a {
        Atlas::Split(area, cs) => {
            let n0 = occupied(cs.0).len() as int;
            let n1 = n0 + occupied(cs.1).len();
            let n2 = n1 + occupied(cs.2).len();
            let p0 = prune_spec(cs.0, f.subrange(0, n0));
            let p1 = prune_spec(cs.1, f.subrange(n0, n1));
            let p2 = prune_spec(cs.2, f.subrange(n1, n2));
            let p3 = prune_spec(cs.3, f.subrange(n2, f.len() as int));
            if p0 is Vacant && p1 is Vacant && p2 is Vacant && p3 is Vacant {
                Atlas::Vacant(area)
            } else {
                Atlas::Split(area, Box::new((p0, p1, p2, p3)))
            }
        },
        Atlas::Occupied(area, _) => if f.len() > 0 && f[0] {
            Atlas::Vacant(area)
        } else {
            a
        },
        Atlas::Vacant(_) => a,
    }
}

impl<T> Atlas<T> {
    /// Makes vacant the occupied nodes whose flag in `expired`, from `start` on in the order of
    /// `occupied`, is set, merging quarters that all became vacant. Returns whether this node is
    /// vacant afterwards, and how many flags it read.
    fn prune_from(&mut self, expired: &Vec<bool>, start: usize) -> (r: (bool, usize))
        requires
            start + occupied(*old(self)).len() <= expired@.len(),
        ensures
            r.1 == occupied(*old(self)).len(),
            *final(self) == prune_spec(*old(self), expired@.subrange(start as int, start + r.1)),
            r.0 == (*final(self) is Vacant),
        decreases *old(self),
    {
        let ghost f = expired@;
        let n = expired.len();
        assert(n == f.len());
        let (area, empty, read) = match self {
            Atlas::Split(area, children) => {
                let a = area.clone();
                let ghost c = **children;
                proof {
                    assert(*old(self) == Atlas::Split(a, Box::new(c)));
                    assert(occupied(*old(self)).len() == occupied(c.0).len() + occupied(c.1).len()
                        + occupied(c.2).len() + occupied(c.3).len());
                }
                let (e0, k0) = children.0.prune_from(expired, start);
                let (e1, k1) = children.1.prune_from(expired, start + k0);
                let (e2, k2) = children.2.prune_from(expired, start + k0 + k1);
                let (e3, k3) = children.3.prune_from(expired, start + k0 + k1 + k2);
                let total = k0 + k1 + k2 + k3;
                proof {
                    let g = f.subrange(start as int, start + total);
                    assert(g.subrange(0, k0 as int) =~= f.subrange(start as int, start + k0));
                    assert(g.subrange(k0 as int, k0 + k1) =~= f.subrange(start + k0, start + k0 + k1));
                    assert(g.subrange(k0 + k1, k0 + k1 + k2) =~= f.subrange(start + k0 + k1, start + k0 + k1 + k2));
                    assert(g.subrange(k0 + k1 + k2, g.len() as int) =~= f.subrange(start + k0 + k1 + k2, start + total));
                }
                (a, e0 && e1 && e2 && e3, total)
            },
            Atlas::Vacant(area) => (area.clone(), true, 0),
            Atlas::Occupied(area, _) => {
                let e = expired[start];
                proof {
                    assert(f.subrange(start as int, start + 1)[0] == e);
                }
                (area.clone(), e, 1)
            },
        };
        if empty {
            *self = Atlas::Vacant(area);
        }
        (empty, read)
    }

    /// Makes vacant the occupied nodes whose flag in `expired` is set, in the order of
    /// `occupied`, merging quarters that all became vacant. Returns whether the atlas is vacant
    /// afterwards.
    pub fn prune(&mut self, expired: &Vec<bool>) -> (r: bool)
        requires
            expired@.len() == occupied(*old(self)).len(),
        ensures
            *final(self) == prune_spec(*old(self), expired@),
            r == (*final(self) is Vacant),
    {
        let (r, k) = self.prune_from(expired, 0);
        proof {
            assert(expired@.subrange(0, k as int) =~= expired@);
        }
        r
    }
}

impl<T> Atlas<WeakRef<T>> {
    fn collect_expiry(&self, out: &mut Vec<bool>)
        ensures
            final(out)@.len() == old(out)@.len() + occupied(*self).len(),
        decreases *self,
    {
        match self {
            Atlas::Split(_, children) => {
                children.0.collect_expiry(out);
                children.1.collect_expiry(out);
                children.2.collect_expiry(out);
                children.3.collect_expiry(out);
            },
            Atlas::Vacant(_) => {},
            Atlas::Occupied(_, content) => {
                out.push(content.strong_count() == 0);
            },
        }
    }

    /// For each occupied node, in the order of `occupied`, whether no strong reference to its
    /// value is left.
    pub fn expiry_flags(&self) -> (f: Vec<bool>)
        ensures
            f@.len() == occupied(*self).len(),
    {
        let mut out: Vec<bool> = Vec::new();
        self.collect_expiry(&mut out);
        out
    }

    /// Frees the areas whose values have expired, merging quarters that all became vacant.
    /// Returns whether this node is vacant afterwards.
    pub fn remove_expired(&mut self) -> (r: bool)
        ensures
            exists|f: Seq<bool>|
                f.len() == occupied(*old(self)).len() && *final(self) == #[trigger] prune_spec(*old(self), f),
            pruned(*old(self), *final(self)),
            r == (*final(self) is Vacant),
            area_of(*final(self)) == area_of(*old(self)),
    {
        let flags = self.expiry_flags();
        proof {
            lemma_prune_pruned(*old(self), flags@);
        }
        self.prune(&flags)
    }
}

/// Pruning by flags, one for each occupied node, is one of the outcomes `pruned` allows, and keeps
/// the area.
pub proof fn lemma_prune_pruned<T>(a: Atlas<T>, f: Seq<bool>)
    requires
        f.len() == occupied(a).len(),
    ensures
        pruned(a, prune_spec(a, f)),
        area_of(prune_spec(a, f)) == area_of(a),
    decreases a,
{
    if let Atlas::Split(area, cs) = a {
        let n0 = occupied(cs.0).len() as int;
        let n1 = n0 + occupied(cs.1).len();
        let n2 = n1 + occupied(cs.2).len();
        lemma_prune_pruned(cs.0, f.subrange(0, n0));
        lemma_prune_pruned(cs.1, f.subrange(n0, n1));
        lemma_prune_pruned(cs.2, f.subrange(n1, n2));
        lemma_prune_pruned(cs.3, f.subrange(n2, f.len() as int));
    }
}

/// An atlas as `Atlas::new` starts it and `insert` and `remove_expired` keep it: every node is a
/// square whose side is a power of two, away from the end of the `usize` range, and a split node
/// holds exactly its four quarters.
pub open spec fn atlas_wf<T>(a: Atlas<T>) -> bool
    decreases a,
{
    let ar = area_of(a);
    &&& square(ar)
    &&& match a {
        Atlas::Split(_, cs) => {
            &&& ar.right - ar.left >= 2
            &&& area_of(cs.0) == quarter(ar, 0) && atlas_wf(cs.0)
            &&& area_of(cs.1) == quarter(ar, 1) && atlas_wf(cs.1)
            &&& area_of(cs.2) == quarter(ar, 2) && atlas_wf(cs.2)
            &&& area_of(cs.3) == quarter(ar, 3) && atlas_wf(cs.3)
        },
        _ => true,
    }
}

/// A square area whose side is a power of two, whose coordinates stay below half the `usize`
/// range.
pub open spec fn square(ar: Area) -> bool {
    &&& ar.left <= ar.right
    &&& ar.top <= ar.bottom
    &&& ar.right - ar.left == ar.bottom - ar.top
    &&& is_pow2(ar.right - ar.left)
    &&& ar.right <= usize::MAX / 2
    &&& ar.bottom <= usize::MAX / 2
}

/// Whether `x` lies within `ar`.
pub open spec fn within(x: Area, ar: Area) -> bool {
    ar.left <= x.left && x.right <= ar.right && ar.top <= x.top && x.bottom <= ar.bottom
}

/// The quarters of a square of side at least two are squares of half the side, within it.
proof fn lemma_quarter(ar: Area, i: int)
    requires
        square(ar),
        ar.right - ar.left >= 2,
    ensures
        square(quarter(ar, i)),
        quarter(ar, i).right - quarter(ar, i).left == (ar.right - ar.left) / 2,
        within(quarter(ar, i), ar),
{
    let w = ar.right - ar.left;
    assert(w % 2 == 0 && is_pow2(w / 2));
    assert((ar.left + ar.right) / 2 == ar.left + w / 2);
    assert((ar.top + ar.bottom) / 2 == ar.top + w / 2);
}

/// A vacant square takes a smaller power-of-two square into a well-formed atlas, at a square of
/// exactly that side within it.
proof fn lemma_vacant_insert_wf<T>(ar: Area, val: T, s: int)
    requires
        square(ar),
        is_pow2(s),
        vacant_insert(ar, val, s) is Some,
    ensures
        vacant_insert(ar, val, s) matches Some((x, n)) && atlas_wf(n) && area_of(n) == ar && square(x)
            && x.right - x.left == s && within(x, ar),
    decreases ar.right - ar.left,
{
    if s < ar.right - ar.left {
        lemma_pow2_between(s, ar.right - ar.left);
        lemma_quarter(ar, 0);
        lemma_quarter(ar, 1);
        lemma_quarter(ar, 2);
        lemma_quarter(ar, 3);
        lemma_vacant_insert_wf(quarter(ar, 0), val, s);
        assert(atlas_wf(Atlas::<T>::Vacant(quarter(ar, 1))));
        assert(atlas_wf(Atlas::<T>::Vacant(quarter(ar, 2))));
        assert(atlas_wf(Atlas::<T>::Vacant(quarter(ar, 3))));
        let (x, c0) = vacant_insert(quarter(ar, 0), val, s)->Some_0;
        let n = Atlas::Split(ar, Box::new((c0, Atlas::<T>::Vacant(quarter(ar, 1)), Atlas::<T>::Vacant(quarter(ar, 2)), Atlas::<T>::Vacant(quarter(ar, 3)))));
        assert(atlas_wf(n));
        assert(within(quarter(ar, 0), ar));
    }
}

/// Inserting into a well-formed atlas keeps it well-formed, and a square that is taken has the
/// side asked for and lies within the atlas.
pub proof fn lemma_insert_wf<T>(a: Atlas<T>, val: T, s: int)
    requires
        atlas_wf(a),
        is_pow2(s),
        insert_spec(a, val, s) is Some,
    ensures
        insert_spec(a, val, s) matches Some((r, n)) && atlas_wf(n) && area_of(n) == area_of(a) && (
        r matches Ok(x) ==> square(x) && x.right - x.left == s && within(x, area_of(a))),
    decreases a,
{
    match a {
        Atlas::Split(area, cs) => {
            lemma_quarter(area, 0);
            lemma_quarter(area, 1);
            lemma_quarter(area, 2);
            lemma_quarter(area, 3);
            lemma_insert_wf(cs.0, val, s);
            if let Some((Err(v0), c0)) = insert_spec(cs.0, val, s) {
                lemma_insert_wf(cs.1, v0, s);
                if let Some((Err(v1), c1)) = insert_spec(cs.1, v0, s) {
                    lemma_insert_wf(cs.2, v1, s);
                    if let Some((Err(v2), c2)) = insert_spec(cs.2, v1, s) {
                        lemma_insert_wf(cs.3, v2, s);
                    }
                }
            }
        },
        Atlas::Occupied(_, _) => {},
        Atlas::Vacant(area) => {
            lemma_vacant_insert_wf(area, val, s);
        },
    }
}

/// Pruning keeps an atlas well-formed, over the same area.
pub proof fn lemma_pruned_wf<T>(a: Atlas<T>, n: Atlas<T>)
    requires
        atlas_wf(a),
        pruned(a, n),
    ensures
        atlas_wf(n),
        area_of(n) == area_of(a),
    decreases a,
{
    if let Atlas::Split(area, cs) = a {
        if n is Split {
            let ns = n->Split_1;
            lemma_pruned_wf(cs.0, ns.0);
            lemma_pruned_wf(cs.1, ns.1);
            lemma_pruned_wf(cs.2, ns.2);
            lemma_pruned_wf(cs.3, ns.3);
        }
    }
}

/// A node that can be inserted into has a width, at least the size asked for.
proof fn lemma_insert_defined_bound<T>(a: Atlas<T>, val: T, s: int)
    requires
        insert_spec(a, val, s) is Some,
    ensures
        fits(area_of(a), s),
{
}

/// The areas of the occupied nodes of an atlas, quarters in order.
pub open spec fn occupied<T>(a: Atlas<T>) -> Seq<Area>
    decreases a,
{
    match a {
        Atlas::Split(_, cs) => occupied(cs.0) + occupied(cs.1) + occupied(cs.2) + occupied(cs.3),
        Atlas::Vacant(_) => Seq::empty(),
        Atlas::Occupied(ar, _) => seq![ar],
    }
}

/// Whether two areas do not overlap: one lies wholly to one side of the other.
pub open spec fn disjoint(x: Area, y: Area) -> bool {
    x.right <= y.left || y.right <= x.left || x.bottom <= y.top || y.bottom <= x.top
}

/// Whether no two of the areas overlap.
pub open spec fn apart(s: Seq<Area>) -> bool {
    forall|i: int, j: int| 0 <= i < j < s.len() ==> disjoint(#[trigger] s[i], #[trigger] s[j])
}

/// Two runs of areas, each apart, every area of the one clear of every area of the other, are
/// apart together.
proof fn lemma_apart_concat(a: Seq<Area>, b: Seq<Area>)
    requires
        apart(a),
        apart(b),
        forall|i: int, j: int| 0 <= i < a.len() && 0 <= j < b.len() ==> disjoint(#[trigger] a[i], #[trigger] b[j]),
    ensures
        apart(a + b),
{
    let s = a + b;
    assert forall|i: int, j: int| 0 <= i < j < s.len() implies disjoint(#[trigger] s[i], #[trigger] s[j]) by {
        if j < a.len() {
            assert(s[i] == a[i] && s[j] == a[j]);
        } else if i >= a.len() {
            assert(s[i] == b[i - a.len()] && s[j] == b[j - a.len()]);
        } else {
            assert(s[i] == a[i] && s[j] == b[j - a.len()]);
        }
    }
}

/// Areas within two areas that do not overlap do not overlap either.
proof fn lemma_within_disjoint(x: Area, y: Area, a: Area, b: Area)
    requires
        within(x, a),
        within(y, b),
        disjoint(a, b),
    ensures
        disjoint(x, y),
{
}

/// The occupied areas of a well-formed atlas lie within it and do not overlap: no two images
/// share a texel.
pub proof fn lemma_occupied_apart<T>(a: Atlas<T>)
    requires
        atlas_wf(a),
    ensures
        apart(occupied(a)),
        forall|k: int| 0 <= k < occupied(a).len() ==> within(#[trigger] occupied(a)[k], area_of(a)),
    decreases a,
{
    match a {
        Atlas::Split(ar, cs) => {
            lemma_occupied_apart(cs.0);
            lemma_occupied_apart(cs.1);
            lemma_occupied_apart(cs.2);
            lemma_occupied_apart(cs.3);
            lemma_quarter(ar, 0);
            lemma_quarter(ar, 1);
            lemma_quarter(ar, 2);
            lemma_quarter(ar, 3);
            let w = ar.right - ar.left;
            assert((ar.left + ar.right) / 2 == ar.left + w / 2);
            assert((ar.top + ar.bottom) / 2 == ar.top + w / 2);
            let q0 = quarter(ar, 0);
            let q1 = quarter(ar, 1);
            let q2 = quarter(ar, 2);
            let q3 = quarter(ar, 3);
            let s0 = occupied(cs.0);
            let s1 = occupied(cs.1);
            let s2 = occupied(cs.2);
            let s3 = occupied(cs.3);
            assert forall|i: int, j: int| 0 <= i < s0.len() && 0 <= j < s1.len() implies disjoint(#[trigger] s0[i], #[trigger] s1[j]) by {
                lemma_within_disjoint(s0[i], s1[j], q0, q1);
            }
            lemma_apart_concat(s0, s1);
            let s01 = s0 + s1;
            assert forall|i: int, j: int| 0 <= i < s01.len() && 0 <= j < s2.len() implies disjoint(#[trigger] s01[i], #[trigger] s2[j]) by {
                if i < s0.len() {
                    lemma_within_disjoint(s0[i], s2[j], q0, q2);
                } else {
                    lemma_within_disjoint(s1[i - s0.len()], s2[j], q1, q2);
                }
            }
            lemma_apart_concat(s01, s2);
            let s012 = s01 + s2;
            assert forall|i: int, j: int| 0 <= i < s012.len() && 0 <= j < s3.len() implies disjoint(#[trigger] s012[i], #[trigger] s3[j]) by {
                if i < s0.len() {
                    lemma_within_disjoint(s0[i], s3[j], q0, q3);
                } else if i < s01.len() {
                    lemma_within_disjoint(s1[i - s0.len()], s3[j], q1, q3);
                } else {
                    lemma_within_disjoint(s2[i - s01.len()], s3[j], q2, q3);
                }
            }
            lemma_apart_concat(s012, s3);
            let all = s012 + s3;
            assert(occupied(a) == all);
            assert forall|k: int| 0 <= k < all.len() implies within(#[trigger] all[k], ar) by {
                if k < s0.len() {
                    assert(within(s0[k], q0));
                } else if k < s01.len() {
                    assert(within(s1[k - s0.len()], q1));
                } else if k < s012.len() {
                    assert(within(s2[k - s01.len()], q2));
                } else {
                    assert(within(s3[k - s012.len()], q3));
                }
            }
        },
        Atlas::Vacant(_) => {},
        Atlas::Occupied(ar, _) => {},
    }
}

/// A vacant area filled with a square occupies exactly that square.
proof fn lemma_vacant_insert_occupied<T>(a: Area, val: T, s: int)
    requires
        vacant_insert(a, val, s) is Some,
    ensures
        vacant_insert(a, val, s) matches Some((x, n)) && occupied(n) == seq![x],
    decreases a.right - a.left,
{
    if s < a.right - a.left {
        lemma_vacant_insert_occupied(quarter(a, 0), val, s);
        let (x, n) = vacant_insert(a, val, s)->Some_0;
        let (x0, c0) = vacant_insert(quarter(a, 0), val, s)->Some_0;
        let cs = n->Split_1;
        assert(cs.0 == c0 && x == x0);
        let e = Seq::<Area>::empty();
        assert(occupied(cs.1) =~= e);
        assert(occupied(cs.2) =~= e);
        assert(occupied(cs.3) =~= e);
        assert(occupied(n) =~= seq![x] + e + e + e);
    }
}

/// A run with a piece in the middle, `front + (p + q) + back`, splits at the middle of the piece;
/// with `x` put there it is `front + (p + [x] + q) + back`.
proof fn lemma_splice(front: Seq<Area>, p: Seq<Area>, q: Seq<Area>, back: Seq<Area>, x: Area)
    ensures
        front + (p + q) + back == (front + p) + (q + back),
        front + (p + seq![x] + q) + back == (front + p) + seq![x] + (q + back),
{
    assert(front + (p + q) + back =~= (front + p) + (q + back));
    assert(front + (p + seq![x] + q) + back =~= (front + p) + seq![x] + (q + back));
}

/// Inserting either refuses, giving the value back and leaving the atlas as it was, or occupies
/// the area returned at one place among the areas occupied before, which all stay: the result
/// splits the old occupied areas into the ones before and after it.
#[verifier::spinoff_prover]
#[verifier::rlimit(60)]
proof fn lemma_insert_occupied<T>(a: Atlas<T>, val: T, s: int) -> (r: (Seq<Area>, Seq<Area>))
    requires
        insert_spec(a, val, s) is Some,
    ensures
        match insert_spec(a, val, s) {
            Some((Ok(x), n)) => occupied(a) == r.0 + r.1 && occupied(n) == r.0 + seq![x] + r.1,
            Some((Err(v), n)) => v == val && n == a,
            None => false,
        },
    decreases a,
{
    match a {
        Atlas::Split(area, cs) => {
            let (p0, q0) = lemma_insert_occupied(cs.0, val, s);
            let o0 = occupied(cs.0);
            let o1 = occupied(cs.1);
            let o2 = occupied(cs.2);
            let o3 = occupied(cs.3);
            match insert_spec(cs.0, val, s) {
                Some((Ok(x), c0)) => {
                    let n = Atlas::Split(area, Box::new((c0, cs.1, cs.2, cs.3)));
                    assert(insert_spec(a, val, s) == Some((Ok::<Area, T>(x), n)));
                    assert(occupied(n) == occupied(c0) + o1 + o2 + o3);
                    lemma_splice(seq![], p0, q0, o1 + o2 + o3, x);
                    assert(occupied(a) == o0 + o1 + o2 + o3);
                    assert(o0 + o1 + o2 + o3 =~= o0 + (o1 + o2 + o3));
                    assert(occupied(c0) + o1 + o2 + o3 =~= occupied(c0) + (o1 + o2 + o3));
                    assert(Seq::<Area>::empty() + p0 =~= p0);
                    (p0, q0 + (o1 + o2 + o3))
                },
                Some((Err(v0), c0)) => {
                    assert(c0 == cs.0);
                    let (p1, q1) = lemma_insert_occupied(cs.1, v0, s);
                    match insert_spec(cs.1, v0, s) {
                        Some((Ok(x), c1)) => {
                            let n = Atlas::Split(area, Box::new((c0, c1, cs.2, cs.3)));
                            assert(insert_spec(a, val, s) == Some((Ok::<Area, T>(x), n)));
                            assert(occupied(n) == o0 + occupied(c1) + o2 + o3);
                            lemma_splice(o0, p1, q1, o2 + o3, x);
                            assert(o0 + o1 + o2 + o3 =~= o0 + o1 + (o2 + o3));
                            assert(o0 + occupied(c1) + o2 + o3 =~= o0 + occupied(c1) + (o2 + o3));
                            (o0 + p1, q1 + (o2 + o3))
                        },
                        Some((Err(v1), c1)) => {
                            assert(c1 == cs.1);
                            let (p2, q2) = lemma_insert_occupied(cs.2, v1, s);
                            match insert_spec(cs.2, v1, s) {
                                Some((Ok(x), c2)) => {
                                    let n = Atlas::Split(area, Box::new((c0, c1, c2, cs.3)));
                                    assert(insert_spec(a, val, s) == Some((Ok::<Area, T>(x), n)));
                                    assert(occupied(n) == o0 + o1 + occupied(c2) + o3);
                                    lemma_splice(o0 + o1, p2, q2, o3, x);
                                    ((o0 + o1) + p2, q2 + o3)
                                },
                                Some((Err(v2), c2)) => {
                                    assert(c2 == cs.2);
                                    let (p3, q3) = lemma_insert_occupied(cs.3, v2, s);
                                    match insert_spec(cs.3, v2, s) {
                                        Some((Ok(x), c3)) => {
                                            let n = Atlas::Split(area, Box::new((c0, c1, c2, c3)));
                                            assert(insert_spec(a, val, s) == Some((Ok::<Area, T>(x), n)));
                                            assert(occupied(n) == o0 + o1 + o2 + occupied(c3));
                                            lemma_splice(o0 + o1 + o2, p3, q3, seq![], x);
                                            assert(o0 + o1 + o2 + (p3 + q3) =~= o0 + o1 + o2 + (p3 + q3) + Seq::<Area>::empty());
                                            assert(o0 + o1 + o2 + occupied(c3) =~= o0 + o1 + o2 + occupied(c3) + Seq::<Area>::empty());
                                            assert(q3 + Seq::<Area>::empty() =~= q3);
                                            ((o0 + o1 + o2) + p3, q3)
                                        },
                                        Some((Err(v3), c3)) => {
                                            assert(c3 == cs.3);
                                            assert(insert_spec(a, val, s) == Some((Err::<Area, T>(v3), a)));
                                            (Seq::empty(), Seq::empty())
                                        },
                                        None => (Seq::empty(), Seq::empty()),
                                    }
                                },
                                None => (Seq::empty(), Seq::empty()),
                            }
                        },
                        None => (Seq::empty(), Seq::empty()),
                    }
                },
                None => (Seq::empty(), Seq::empty()),
            }
        },
        Atlas::Occupied(_, _) => (Seq::empty(), Seq::empty()),
        Atlas::Vacant(area) => {
            lemma_vacant_insert_occupied(area, val, s);
            let e = Seq::<Area>::empty();
            let (x, n) = vacant_insert(area, val, s)->Some_0;
            assert(occupied(a) =~= e + e);
            assert(occupied(n) =~= e + seq![x] + e);
            (e, e)
        },
    }
}

/// Inserting into a well-formed atlas either refuses, giving the value back and changing
/// nothing, or occupies the area it returns, which overlaps none of the areas occupied before;
/// those all stay occupied.
pub proof fn lemma_insert_clear<T>(a: Atlas<T>, val: T, s: int)
    requires
        atlas_wf(a),
        is_pow2(s),
        insert_spec(a, val, s) is Some,
    ensures
        match insert_spec(a, val, s) {
            Some((Ok(x), n)) => {
                &&& forall|k: int| 0 <= k < occupied(a).len() ==> disjoint(x, #[trigger] occupied(a)[k])
                &&& forall|k: int| 0 <= k < occupied(a).len() ==> occupied(n).contains(#[trigger] occupied(a)[k])
                &&& occupied(n).contains(x)
                &&& occupied(n).len() == occupied(a).len() + 1
            },
            Some((Err(v), n)) => v == val && n == a,
            None => false,
        },
{
    let (pre, post) = lemma_insert_occupied(a, val, s);
    lemma_insert_wf(a, val, s);
    if let Some((Ok(x), n)) = insert_spec(a, val, s) {
        lemma_occupied_apart(n);
        let on = occupied(n);
        let oa = occupied(a);
        assert(on[pre.len() as int] == x);
        assert forall|k: int| 0 <= k < oa.len() implies disjoint(x, #[trigger] oa[k]) && on.contains(oa[k]) by {
            if k < pre.len() {
                assert(oa[k] == on[k]);
                assert(disjoint(on[k], on[pre.len() as int]));
            } else {
                assert(oa[k] == on[k + 1]);
                assert(disjoint(on[pre.len() as int], on[k + 1]));
            }
        }
    }
}

/// A vacant square takes any square of a power-of-two side that fits in it.
pub proof fn lemma_vacant_accepts<T>(ar: Area, val: T, s: int)
    requires
        square(ar),
        is_pow2(s),
        s <= ar.right - ar.left,
    ensures
        vacant_insert(ar, val, s) is Some,
    decreases ar.right - ar.left,
{
    lemma_pow2_positive(s);
    if s < ar.right - ar.left {
        lemma_pow2_between(s, ar.right - ar.left);
        lemma_quarter(ar, 0);
        lemma_vacant_accepts(quarter(ar, 0), val, s);
    }
}

/// A power of two is at least one.
proof fn lemma_pow2_positive(x: int)
    requires
        is_pow2(x),
    ensures
        x >= 1,
{
}

/// Whether a vacant area can take a square of side `s`: `vacant_insert` is defined there,
/// whatever the value.
pub open spec fn vacant_ok(a: Area, s: int) -> bool
    decreases a.right - a.left,
{
    if !fits(a, s) {
        false
    } else if s < a.right - a.left {
        a.left + a.right <= usize::MAX && a.top + a.bottom <= usize::MAX && vacant_ok(quarter(a, 0), s)
    } else {
        true
    }
}

/// What inserting a square of side `s` comes to, whatever the value: `None` where the code
/// panics, `Some(true)` where the square is taken and `Some(false)` where it is refused.
pub open spec fn outcome<T>(a: Atlas<T>, s: int) -> Option<bool>
    decreases a,
{
    match a {
        Atlas::Split(area, cs) => if !fits(area, s) {
            None
        } else {
            match outcome(cs.0, s) {
                Some(false) => match outcome(cs.1, s) {
                    Some(false) => match outcome(cs.2, s) {
                        Some(false) => outcome(cs.3, s),
                        o => o,
                    },
                    o => o,
                },
                o => o,
            }
        },
        Atlas::Occupied(area, _) => if !fits(area, s) {
            None
        } else {
            Some(false)
        },
        Atlas::Vacant(area) => if vacant_ok(area, s) {
            Some(true)
        } else {
            None
        },
    }
}

/// `vacant_ok` tells exactly where `vacant_insert` is defined.
proof fn lemma_vacant_ok<T>(a: Area, val: T, s: int)
    ensures
        vacant_ok(a, s) == (vacant_insert(a, val, s) is Some),
    decreases a.right - a.left,
{
    if fits(a, s) && s < a.right - a.left {
        lemma_vacant_ok(quarter(a, 0), val, s);
    }
}

/// `outcome` tells what inserting any value comes to.
pub proof fn lemma_outcome<T>(a: Atlas<T>, val: T, s: int)
    ensures
        match insert_spec(a, val, s) {
            None => outcome(a, s) is None,
            Some((Ok(_), _)) => outcome(a, s) == Some(true),
            Some((Err(v), _)) => outcome(a, s) == Some(false) && v == val,
        },
    decreases a,
{
    match a {
        Atlas::Split(area, cs) => {
            lemma_outcome(cs.0, val, s);
            if let Some((Err(v0), _)) = insert_spec(cs.0, val, s) {
                lemma_outcome(cs.1, v0, s);
                if let Some((Err(v1), _)) = insert_spec(cs.1, v0, s) {
                    lemma_outcome(cs.2, v1, s);
                    if let Some((Err(v2), _)) = insert_spec(cs.2, v1, s) {
                        lemma_outcome(cs.3, v2, s);
                    }
                }
            }
        },
        Atlas::Occupied(_, _) => {},
        Atlas::Vacant(area) => {
            lemma_vacant_ok(area, val, s);
        },
    }
}

/// The atlas with every split node whose quarters all end up vacant merged into one vacant node,
/// and nothing else changed: the least that `remove_expired` can leave.
pub open spec fn collapsed<T>(a: Atlas<T>) -> Atlas<T>
    decreases a,
{
    match a {
        Atlas::Split(area, cs) => {
            let c0 = collapsed(cs.0);
            let c1 = collapsed(cs.1);
            let c2 = collapsed(cs.2);
            let c3 = collapsed(cs.3);
            if c0 is Vacant && c1 is Vacant && c2 is Vacant && c3 is Vacant {
                Atlas::Vacant(area)
            } else {
                Atlas::Split(area, Box::new((c0, c1, c2, c3)))
            }
        },
        _ => a,
    }
}

/// `n` is `a` with some nodes made vacant, each keeping its area.
pub open spec fn vacated<T>(a: Atlas<T>, n: Atlas<T>) -> bool
    decreases a,
{
    ||| n == a
    ||| n == Atlas::<T>::Vacant(area_of(a))
    ||| match (a, n) {
        (Atlas::Split(area, cs), Atlas::Split(area2, ds)) => {
            &&& area2 == area
            &&& vacated(cs.0, ds.0)
            &&& vacated(cs.1, ds.1)
            &&& vacated(cs.2, ds.2)
            &&& vacated(cs.3, ds.3)
        },
        _ => false,
    }
}

/// Merging keeps the area of a node.
proof fn lemma_collapsed_area<T>(a: Atlas<T>)
    ensures
        area_of(collapsed(a)) == area_of(a),
{
}

/// The merged atlas is one of those that `remove_expired` may leave.
pub proof fn lemma_collapsed_pruned<T>(a: Atlas<T>)
    ensures
        pruned(a, collapsed(a)),
    decreases a,
{
    if let Atlas::Split(area, cs) = a {
        lemma_collapsed_pruned(cs.0);
        lemma_collapsed_pruned(cs.1);
        lemma_collapsed_pruned(cs.2);
        lemma_collapsed_pruned(cs.3);
        lemma_collapsed_area(cs.0);
        lemma_collapsed_area(cs.1);
        lemma_collapsed_area(cs.2);
        lemma_collapsed_area(cs.3);
    }
}

/// Whatever `remove_expired` may leave is the merged atlas with some nodes made vacant.
proof fn lemma_pruned_vacated<T>(a: Atlas<T>, n: Atlas<T>)
    requires
        pruned(a, n),
    ensures
        vacated(collapsed(a), n),
        area_of(n) == area_of(a),
    decreases a,
{
    match a {
        Atlas::Split(area, cs) => {
            if n is Split {
                let ds = n->Split_1;
                lemma_pruned_vacated(cs.0, ds.0);
                lemma_pruned_vacated(cs.1, ds.1);
                lemma_pruned_vacated(cs.2, ds.2);
                lemma_pruned_vacated(cs.3, ds.3);
                let c = collapsed(a);
                if c is Vacant {
                    // every quarter merges into a vacant node, and then prunes to nothing else
                    lemma_vacated_vacant(collapsed(cs.0), ds.0);
                    lemma_vacated_vacant(collapsed(cs.1), ds.1);
                    lemma_vacated_vacant(collapsed(cs.2), ds.2);
                    lemma_vacated_vacant(collapsed(cs.3), ds.3);
                    assert(false);
                }
            } else {
                lemma_collapsed_area(a);
            }
        },
        _ => {},
    }
}

/// A vacant node made vacant stays itself.
proof fn lemma_vacated_vacant<T>(a: Atlas<T>, n: Atlas<T>)
    requires
        a is Vacant,
        vacated(a, n),
    ensures
        n is Vacant,
{
}

/// Making nodes vacant never turns an insertion that is defined into one that panics, nor a
/// taken square into a refusal.
proof fn lemma_vacated_outcome<T>(a: Atlas<T>, n: Atlas<T>, s: int)
    requires
        atlas_wf(a),
        is_pow2(s),
        vacated(a, n),
        outcome(a, s) is Some,
    ensures
        outcome(n, s) is Some,
        outcome(a, s) == Some(true) ==> outcome(n, s) == Some(true),
    decreases a,
{
    if n == a {
    } else if n == Atlas::<T>::Vacant(area_of(a)) {
        lemma_vacant_accepts(area_of(a), 0u8, s);
        lemma_vacant_ok(area_of(a), 0u8, s);
    } else {
        let cs = a->Split_1;
        let ds = n->Split_1;
        lemma_vacated_outcome(cs.0, ds.0, s);
        if outcome(cs.0, s) == Some(false) {
            lemma_vacated_outcome(cs.1, ds.1, s);
            if outcome(cs.1, s) == Some(false) {
                lemma_vacated_outcome(cs.2, ds.2, s);
                if outcome(cs.2, s) == Some(false) {
                    lemma_vacated_outcome(cs.3, ds.3, s);
                }
            }
        }
    }
}

/// Inserting into whatever `remove_expired` may leave of a well-formed atlas is defined exactly
/// when it is defined for the merged atlas.
pub proof fn lemma_insert_after_pruning<T>(a: Atlas<T>, n: Atlas<T>, val: T, s: int)
    requires
        atlas_wf(a),
        is_pow2(s),
        pruned(a, n),
        outcome(collapsed(a), s) is Some,
    ensures
        insert_spec(n, val, s) is Some,
{
    lemma_collapsed_pruned(a);
    lemma_pruned_wf(a, collapsed(a));
    lemma_pruned_vacated(a, n);
    lemma_vacated_outcome(collapsed(a), n, s);
    lemma_outcome(n, val, s);
}

/// Whether a vacant area can take a square of side `s`; see `vacant_ok`.
fn vacant_takes(a: &Area, s: usize) -> (r: bool)
    ensures
        r == vacant_ok(*a, s as int),
    decreases a.right - a.left,
{
    if !(a.left <= a.right && 1 <= s && s <= a.right - a.left) {
        false
    } else if s < a.right - a.left {
        if a.left > usize::MAX - a.right || a.top > usize::MAX - a.bottom {
            false
        } else {
            let q0 = Area { left: a.left, top: a.top, right: (a.left + a.right) / 2, bottom: (a.top + a.bottom) / 2 };
            vacant_takes(&q0, s)
        }
    } else {
        true
    }
}

impl<T> Atlas<T> {
    /// What inserting a square of side `s` comes to in the merged atlas, and whether that atlas
    /// is one vacant node.
    pub(crate) fn merged_outcome(&self, s: usize) -> (r: (Option<bool>, bool))
        ensures
            r.0 == outcome(collapsed(*self), s as int),
            r.1 == (collapsed(*self) is Vacant),
        decreases self,
    {
        match self {
            Atlas::Split(area, cs) => {
                let (o0, v0) = cs.0.merged_outcome(s);
                let (o1, v1) = cs.1.merged_outcome(s);
                let (o2, v2) = cs.2.merged_outcome(s);
                let (o3, v3) = cs.3.merged_outcome(s);
                if v0 && v1 && v2 && v3 {
                    (if vacant_takes(area, s) { Some(true) } else { None }, true)
                } else if !(area.left <= area.right && 1 <= s && s <= area.right - area.left) {
                    (None, false)
                } else {
                    let o = match o0 {
                        Some(false) => match o1 {
                            Some(false) => match o2 {
                                Some(false) => o3,
                                o => o,
                            },
                            o => o,
                        },
                        o => o,
                    };
                    (o, false)
                }
            },
            Atlas::Occupied(area, _) => {
                if !(area.left <= area.right && 1 <= s && s <= area.right - area.left) {
                    (None, false)
                } else {
                    (Some(false), false)
                }
            },
            Atlas::Vacant(area) => (if vacant_takes(area, s) { Some(true) } else { None }, true),
        }
    }
}

/// Rounding up to a power of two never passes a power of two that is large enough already.
pub proof fn lemma_ceil_pow2_below(x: int, p: int)
    requires
        is_pow2(p),
        x <= p,
    ensures
        ceil_pow2_spec(x) <= p,
{
    lemma_pow2_from_below(x, 1, p);
}

proof fn lemma_pow2_from_below(x: int, r: int, p: int)
    requires
        is_pow2(r),
        r <= p,
        is_pow2(p),
        x <= p,
    ensures
        pow2_from(x, r) <= p,
    decreases p - r,
{
    lemma_pow2_positive(r);
    if r < x {
        lemma_pow2_between(r, p);
        assert(is_pow2(2 * r)) by {
            assert((2 * r) / 2 == r);
        }
        lemma_pow2_from_below(x, 2 * r, p);
    }
}


/// Whether `a` has a vacant node at least `s` wide.
pub open spec fn vacant_room<T>(a: Atlas<T>, s: int) -> bool
    decreases a,
{
    match a {
        Atlas::Split(_, cs) => vacant_room(cs.0, s) || vacant_room(cs.1, s) || vacant_room(cs.2, s)
            || vacant_room(cs.3, s),
        Atlas::Vacant(area) => area.right - area.left >= s,
        Atlas::Occupied(_, _) => false,
    }
}

/// An insertion that is refused gives the value back and leaves the atlas as it was, and comes
/// only where no vacant node is wide enough for the square: where one is, the square is taken.
pub proof fn lemma_refused_no_room<T>(a: Atlas<T>, val: T, s: int)
    requires
        insert_spec(a, val, s) is Some,
    ensures
        insert_spec(a, val, s) matches Some((Err(v), n)) ==> v == val && n == a && !vacant_room(a, s),
        vacant_room(a, s) ==> insert_spec(a, val, s) matches Some((Ok(_), _)),
    decreases a,
{
    match a {
        Atlas::Split(area, cs) => {
            lemma_refused_no_room(cs.0, val, s);
            if let Some((Err(v0), _)) = insert_spec(cs.0, val, s) {
                lemma_refused_no_room(cs.1, v0, s);
                if let Some((Err(v1), _)) = insert_spec(cs.1, v0, s) {
                    lemma_refused_no_room(cs.2, v1, s);
                    if let Some((Err(v2), _)) = insert_spec(cs.2, v1, s) {
                        lemma_refused_no_room(cs.3, v2, s);
                    }
                }
            }
        },
        _ => {},
    }
}


/// Whether `x` is a square of side `k` whose corner lies on multiples of `k`.
pub open spec fn aligned_square(x: Area, k: int) -> bool {
    &&& x.right - x.left == k
    &&& x.bottom - x.top == k
    &&& (x.left as int) % k == 0
    &&& (x.top as int) % k == 0
}

/// The quarters of an aligned square of side at least two are aligned squares of half its side.
proof fn lemma_quarter_aligned(ar: Area, i: int)
    requires
        square(ar),
        ar.right - ar.left >= 2,
        aligned_square(ar, ar.right - ar.left),
        0 <= i < 4,
    ensures
        aligned_square(quarter(ar, i), (ar.right - ar.left) / 2),
{
    let w = ar.right - ar.left;
    crate::qtree::lemma_pow2_half(w);
    crate::qtree::lemma_half_aligned(ar.left as int, w);
    crate::qtree::lemma_half_aligned(ar.top as int, w);
    lemma_quarter(ar, i);
    assert((ar.left + ar.right) / 2 == ar.left + w / 2);
    assert((ar.top + ar.bottom) / 2 == ar.top + w / 2);
}

/// A vacant aligned square takes a power-of-two square at an aligned square of that side within
/// it.
proof fn lemma_vacant_insert_aligned<T>(ar: Area, val: T, s: int)
    requires
        square(ar),
        aligned_square(ar, ar.right - ar.left),
        is_pow2(s),
        vacant_insert(ar, val, s) is Some,
    ensures
        vacant_insert(ar, val, s) matches Some((x, _)) && aligned_square(x, s) && within(x, ar),
    decreases ar.right - ar.left,
{
    if s < ar.right - ar.left {
        lemma_pow2_between(s, ar.right - ar.left);
        lemma_quarter(ar, 0);
        lemma_quarter_aligned(ar, 0);
        lemma_vacant_insert_aligned(quarter(ar, 0), val, s);
    }
}

/// In a well-formed atlas over an aligned square, a square of power-of-two side `s` that is taken
/// is an aligned square of side `s` within the atlas.
proof fn lemma_insert_aligned<T>(a: Atlas<T>, val: T, s: int)
    requires
        atlas_wf(a),
        aligned_square(area_of(a), area_of(a).right - area_of(a).left),
        is_pow2(s),
        insert_spec(a, val, s) is Some,
    ensures
        insert_spec(a, val, s) matches Some((r, _)) && (r matches Ok(x) ==> aligned_square(x, s) && within(
            x,
            area_of(a),
        )),
    decreases a,
{
    match a {
        Atlas::Split(ar, cs) => {
            lemma_quarter_aligned(ar, 0);
            lemma_quarter_aligned(ar, 1);
            lemma_quarter_aligned(ar, 2);
            lemma_quarter_aligned(ar, 3);
            lemma_quarter(ar, 0);
            lemma_quarter(ar, 1);
            lemma_quarter(ar, 2);
            lemma_quarter(ar, 3);
            lemma_insert_aligned(cs.0, val, s);
            if let Some((Err(v0), _)) = insert_spec(cs.0, val, s) {
                lemma_insert_aligned(cs.1, v0, s);
                if let Some((Err(v1), _)) = insert_spec(cs.1, v0, s) {
                    lemma_insert_aligned(cs.2, v1, s);
                    if let Some((Err(v2), _)) = insert_spec(cs.2, v1, s) {
                        lemma_insert_aligned(cs.3, v2, s);
                    }
                }
            }
        },
        Atlas::Vacant(ar) => {
            lemma_vacant_insert_aligned(ar, val, s);
        },
        Atlas::Occupied(_, _) => {},
    }
}

/// Inserting a square of side `size` rounded up to a power of two, `k`, into a well-formed atlas
/// over an aligned square: a square taken is an aligned square of side `k` within the atlas,
/// clear of every area occupied before, all of which stay occupied; a square refused gives the
/// value back, leaves the atlas unchanged, and is refused only where no vacant node is `k` wide.
pub proof fn lemma_insert_law<T>(a: Atlas<T>, val: T, size: usize)
    requires
        atlas_wf(a),
        aligned_square(area_of(a), area_of(a).right - area_of(a).left),
        insert_spec(a, val, ceil_pow2_spec(size as int)) is Some,
    ensures
        ({
            let k = ceil_pow2_spec(size as int);
            match insert_spec(a, val, k) {
                Some((Ok(x), n)) => {
                    &&& aligned_square(x, k)
                    &&& within(x, area_of(a))
                    &&& forall|i: int| 0 <= i < occupied(a).len() ==> disjoint(x, #[trigger] occupied(a)[i])
                    &&& forall|i: int| 0 <= i < occupied(a).len() ==> occupied(n).contains(#[trigger] occupied(a)[i])
                },
                Some((Err(v), n)) => v == val && n == a && !vacant_room(a, k),
                None => false,
            }
        }),
{
    let k = ceil_pow2_spec(size as int);
    lemma_ceil_pow2(size as int);
    lemma_insert_aligned(a, val, k);
    lemma_insert_clear(a, val, k);
    lemma_refused_no_room(a, val, k);
}

} // verus!
