//! A quad tree that hands out square areas of a power-of-two side: a node is empty, holds one
//! value over its area, or is split into four quarters of half its size.
use vstd::prelude::*;

use crate::atlas::{ceil_pow2, ceil_pow2_spec, is_pow2, lemma_ceil_pow2, lemma_pow2_between};

verus! {

/// An area of the tree. `size` is the side of the whole tree the area was handed out from.
#[derive(Debug)]
pub struct Area {
    pub left: usize,
    pub top: usize,
    pub right: usize,
    pub bottom: usize,
    pub size: usize,
}

impl Clone for Area {
    fn clone(&self) -> (r: Self)
        ensures
            r == *self,
    {
        Area {
            left: self.left,
            top: self.top,
            right: self.right,
            bottom: self.bottom,
            size: self.size,
        }
    }
}

/// A node of the tree: its side, what it holds, and which quarter of its parent it is.
pub struct QTree<T> {
    /// The side of the node.
    pub size: usize,
    /// What the node holds.
    pub elements: Elems<T>,
    /// Which quarter of its parent the node is.
    pub parent_index: usize,
}

/// What a node of the tree holds: four quarters, one value over its area, or nothing.
pub enum Elems<T> {
    Node(Box<(QTree<T>, QTree<T>, QTree<T>, QTree<T>)>),
    Leaf(T, Area),
    Empty,
}

enum Action {
    Insert,
    Split,
    Recurse,
    Halt,
}

/// Whether the middle of an area can be computed without leaving the `usize` range.
pub open spec fn halvable(a: Area) -> bool {
    a.left + a.right <= usize::MAX && a.top + a.bottom <= usize::MAX
}

/// Quarter `i` of an area: top left, top right, bottom left, bottom right.
pub open spec fn quarter(a: Area, i: int) -> Area {
    let mx = ((a.left + a.right) / 2) as usize;
    let my = ((a.top + a.bottom) / 2) as usize;
    Area {
        left: if i % 2 == 0 { a.left } else { mx },
        top: if i / 2 == 0 { a.top } else { my },
        right: if i % 2 == 0 { mx } else { a.right },
        bottom: if i / 2 == 0 { my } else { a.bottom },
        size: a.size,
    }
}

impl<T> QTree<T> {
    /// The side of this node.
    pub open spec fn side(self) -> usize {
        self.size
    }

    /// The position of this node among its parent's quarters.
    pub open spec fn position(self) -> usize {
        self.parent_index
    }

    /// Whether this node holds nothing.
    pub open spec fn is_empty(self) -> bool {
        self.elements is Empty
    }

    /// Whether this node holds a value.
    pub open spec fn is_leaf(self) -> bool {
        self.elements is Leaf
    }

    /// Quarter `i` of a split node.
    pub open spec fn kid(self, i: int) -> QTree<T> {
        match self.elements {
            Elems::Node(cs) => if i == 0 {
                cs.0
            } else if i == 1 {
                cs.1
            } else if i == 2 {
                cs.2
            } else {
                cs.3
            },
            _ => self,
        }
    }

    /// Every node is one of the four quarters of its parent, with half its side, and knows which
    /// one it is.
    pub open spec fn wf(self) -> bool
        decreases self,
    {
        match self.elements {
            Elems::Node(cs) => {
                &&& self.size >= 1
                &&& cs.0.size == self.size / 2 && cs.0.parent_index == 0 && cs.0.wf()
                &&& cs.1.size == self.size / 2 && cs.1.parent_index == 1 && cs.1.wf()
                &&& cs.2.size == self.size / 2 && cs.2.parent_index == 2 && cs.2.wf()
                &&& cs.3.size == self.size / 2 && cs.3.parent_index == 3 && cs.3.wf()
            },
            _ => true,
        }
    }

    /// Every value is held over the area its node stands for: the node over `area` holds it
    /// over `area` itself, and the quarters of a split node stand for the quarters of its area.
    pub open spec fn placed_in(self, area: Area) -> bool
        decreases self,
    {
        match self.elements {
            Elems::Node(cs) => {
                &&& halvable(area)
                &&& cs.0.placed_in(quarter(area, 0))
                &&& cs.1.placed_in(quarter(area, 1))
                &&& cs.2.placed_in(quarter(area, 2))
                &&& cs.3.placed_in(quarter(area, 3))
            },
            Elems::Leaf(_, a) => a == area,
            Elems::Empty => true,
        }
    }

    /// Every value is held over the area of its node, the whole tree standing for the square of
    /// its side.
    pub open spec fn placed(self) -> bool {
        self.placed_in(whole(self.size))
    }

    /// Every value held in the tree with its area, quarters in order.
    pub open spec fn stored(self) -> Seq<(T, Area)>
        decreases self,
    {
        match self.elements {
            Elems::Node(cs) => cs.0.stored() + cs.1.stored() + cs.2.stored() + cs.3.stored(),
            Elems::Leaf(v, a) => seq![(v, a)],
            Elems::Empty => Seq::empty(),
        }
    }

    /// What a walk of the tree visits: the values held, quarters in order, except that the last
    /// quarter of each split node is never entered.
    pub open spec fn leaves(self) -> Seq<(T, Area)>
        decreases self,
    {
        match self.elements {
            Elems::Node(cs) => cs.0.leaves() + cs.1.leaves() + cs.2.leaves(),
            Elems::Leaf(v, a) => seq![(v, a)],
            Elems::Empty => Seq::empty(),
        }
    }
}

/// Filling an empty node of side `n` at position `pos` with a square of side `s` over `area`: a
/// larger node splits into four empty quarters and fills the first one. `None` where the middle
/// of an area leaves the `usize` range.
pub open spec fn fill<T>(n: usize, pos: usize, s: usize, area: Area, val: T) -> Option<(Area, QTree<T>)>
    decreases n,
{
    if n > s {
        if !halvable(area) {
            None
        } else {
            match fill((n / 2) as usize, 0, s, quarter(area, 0), val) {
                None => None,
                Some((x, c0)) => Some(
                    (
                        x,
                        QTree {
                            size: n,
                            elements: Elems::Node(
                                Box::new(
                                    (
                                        c0,
                                        QTree { size: (n / 2) as usize, elements: Elems::Empty, parent_index: 1 },
                                        QTree { size: (n / 2) as usize, elements: Elems::Empty, parent_index: 2 },
                                        QTree { size: (n / 2) as usize, elements: Elems::Empty, parent_index: 3 },
                                    ),
                                ),
                            ),
                            parent_index: pos,
                        },
                    ),
                ),
            }
        }
    } else {
        Some((area, QTree { size: n, elements: Elems::Leaf(val, area), parent_index: pos }))
    }
}

/// Inserting a square of side `s` into node `t` over `area`: an empty node takes it, a split
/// node larger than `s` tries its quarters in order, anything else refuses and gives the value
/// back. `None` where the middle of an area leaves the `usize` range.
pub open spec fn place<T>(t: QTree<T>, s: usize, area: Area, val: T) -> Option<(Result<Area, T>, QTree<T>)>
    decreases t,
{
    match t.elements {
        Elems::Empty => match fill(t.size, t.parent_index, s, area, val) {
            None => None,
            Some((x, n)) => Some((Ok(x), n)),
        },
        Elems::Node(cs) => if t.size > s {
            if !halvable(area) {
                None
            } else {
                let mk = |c0: QTree<T>, c1: QTree<T>, c2: QTree<T>, c3: QTree<T>|
                    QTree {
                        size: t.size,
                        elements: Elems::Node(Box::new((c0, c1, c2, c3))),
                        parent_index: t.parent_index,
                    };
                match place(cs.0, s, quarter(area, 0), val) {
                    None => None,
                    Some((Ok(x), c0)) => Some((Ok(x), mk(c0, cs.1, cs.2, cs.3))),
                    Some((Err(v0), c0)) => match place(cs.1, s, quarter(area, 1), v0) {
                        None => None,
                        Some((Ok(x), c1)) => Some((Ok(x), mk(c0, c1, cs.2, cs.3))),
                        Some((Err(v1), c1)) => match place(cs.2, s, quarter(area, 2), v1) {
                            None => None,
                            Some((Ok(x), c2)) => Some((Ok(x), mk(c0, c1, c2, cs.3))),
                            Some((Err(v2), c2)) => match place(cs.3, s, quarter(area, 3), v2) {
                                None => None,
                                Some((r, c3)) => Some((r, mk(c0, c1, c2, c3))),
                            },
                        },
                    },
                }
            }
        } else {
            Some((Err(val), t))
        },
        Elems::Leaf(_, _) => Some((Err(val), t)),
    }
}

/// The area of the whole tree of side `n`.
pub open spec fn whole(n: usize) -> Area {
    Area { left: 0, top: 0, right: n, bottom: n, size: n }
}

/// Inserting `val` with a side of `size` rounded up to a power of two. `None` where the code
/// panics: the rounded side exceeds the tree, or a computation leaves the `usize` range.
pub open spec fn insert_spec<T>(t: QTree<T>, val: T, size: usize) -> Option<(Result<Area, T>, QTree<T>)> {
    let s = ceil_pow2_spec(size as int);
    if s > t.side() {
        None
    } else {
        place(t, s as usize, whole(t.side()), val)
    }
}

impl<T> QTree<T> {
    /// An empty tree of side `size`.
    pub fn new(size: usize) -> (r: Self)
        ensures
            r.side() == size,
            r.is_empty(),
            r.position() == 0,
            r.wf(),
            r.placed(),
            r.stored() == Seq::<(T, Area)>::empty(),
    {
        QTree { size: size, elements: Elems::Empty, parent_index: 0 }
    }

    /// The side of the tree.
    pub fn size(&self) -> (r: usize)
        ensures
            r == self.side(),
    {
        self.size
    }

    /// Inserts `val` into a square of side `size` rounded up to a power of two, and returns its
    /// area; gives `val` back when there is no room.
    pub fn insert(&mut self, val: T, size: usize) -> (r: Result<Area, ()>)
        requires
            insert_spec(*old(self), val, size) is Some,
        ensures
            insert_spec(*old(self), val, size) matches Some((res, t)) && t == *final(self) && match res {
                Ok(a) => r == Ok::<Area, ()>(a),
                Err(_) => r is Err,
            },
    {
        proof {
            lemma_ceil_pow2(size as int);
        }
        let size = ceil_pow2(size);
        let area = Area { left: 0, top: 0, right: self.size, bottom: self.size, size: self.size };
        match self.inner_insert(size, area, val) {
            Ok(a) => Ok(a),
            Err(_) => Err(()),
        }
    }

    fn inner_insert(&mut self, size: usize, area: Area, val: T) -> (r: Result<Area, T>)
        requires
            place(*old(self), size, area, val) is Some,
        ensures
            place(*old(self), size, area, val) == Some((r, *final(self))),
        decreases *old(self),
    {
        let action = match &self.elements {
            Elems::Empty => {
                if self.size > size {
                    Action::Split
                } else {
                    Action::Insert
                }
            },
            Elems::Node(..) => {
                if self.size > size {
                    Action::Recurse
                } else {
                    Action::Halt
                }
            },
            _ => Action::Halt,
        };
        match action {
            Action::Split | Action::Insert => {
                let (x, n) = Self::fill_empty(self.size, self.parent_index, size, area, val);
                *self = n;
                Ok(x)
            },
            Action::Recurse => match &mut self.elements {
                Elems::Node(a) => {
                    let q0 = Area {
                        left: area.left,
                        top: area.top,
                        right: (area.left + area.right) / 2,
                        bottom: (area.top + area.bottom) / 2,
                        size: area.size,
                    };
                    let val = match a.0.inner_insert(size, q0, val) {
                        Ok(x) => return Ok(x),
                        Err(v) => v,
                    };
                    let q1 = Area {
                        left: (area.left + area.right) / 2,
                        top: area.top,
                        right: area.right,
                        bottom: (area.top + area.bottom) / 2,
                        size: area.size,
                    };
                    let val = match a.1.inner_insert(size, q1, val) {
                        Ok(x) => return Ok(x),
                        Err(v) => v,
                    };
                    let q2 = Area {
                        left: area.left,
                        top: (area.top + area.bottom) / 2,
                        right: (area.left + area.right) / 2,
                        bottom: area.bottom,
                        size: area.size,
                    };
                    let val = match a.2.inner_insert(size, q2, val) {
                        Ok(x) => return Ok(x),
                        Err(v) => v,
                    };
                    let q3 = Area {
                        left: (area.left + area.right) / 2,
                        top: (area.top + area.bottom) / 2,
                        right: area.right,
                        bottom: area.bottom,
                        size: area.size,
                    };
                    a.3.inner_insert(size, q3, val)
                },
                _ => Err(val),
            },
            Action::Halt => Err(val),
        }
    }

    /// Fills an empty node, splitting it down to the side asked for.
    fn fill_empty(n: usize, pos: usize, size: usize, area: Area, val: T) -> (r: (Area, QTree<T>))
        requires
            fill(n, pos, size, area, val) is Some,
        ensures
            fill(n, pos, size, area, val) == Some(r),
        decreases n,
    {
        if n > size {
            let q0 = Area {
                left: area.left,
                top: area.top,
                right: (area.left + area.right) / 2,
                bottom: (area.top + area.bottom) / 2,
                size: area.size,
            };
            let (x, c0) = Self::fill_empty(n / 2, 0, size, q0, val);
            let node = QTree {
                size: n,
                elements: Elems::Node(
                    Box::new(
                        (
                            c0,
                            QTree { size: n / 2, elements: Elems::Empty, parent_index: 1 },
                            QTree { size: n / 2, elements: Elems::Empty, parent_index: 2 },
                            QTree { size: n / 2, elements: Elems::Empty, parent_index: 3 },
                        ),
                    ),
                ),
                parent_index: pos,
            };
            (x, node)
        } else {
            let leaf = QTree { size: n, elements: Elems::Leaf(val, area.clone()), parent_index: pos };
            (area, leaf)
        }
    }
}


impl<T> QTree<T> {
    /// What a walk visits of a split node from quarter `i` on, before it leaves the node.
    closed spec fn from(self, i: int) -> Seq<(T, Area)>
        decreases 3 - i,
    {
        if i >= 3 || i < 0 {
            Seq::empty()
        } else {
            self.kid(i).leaves() + self.from(i + 1)
        }
    }

    /// The walk's cost of a node from quarter `i` on: one step down into each quarter left and
    /// one step up out of each node.
    closed spec fn rem(self, i: int) -> nat
        decreases 3 - i,
    {
        if i >= 3 || i < 0 || !(self.elements is Node) {
            0
        } else {
            self.kid(i).cost() + self.rem(i + 1)
        }
    }

    closed spec fn cost(self) -> nat
        decreases self,
    {
        match self.elements {
            Elems::Node(cs) => 2 + cs.0.cost() + cs.1.cost() + cs.2.cost() + cs.3.cost(),
            _ => 2,
        }
    }
}

/// What a walk visits once it leaves the child at position `pos` of the last node of `ps`, and
/// then each node of `ps` in turn.
pub closed spec fn up<'a, T>(ps: Seq<&'a QTree<T>>, pos: int) -> Seq<(T, Area)>
    decreases ps.len(),
{
    if ps.len() == 0 {
        Seq::empty()
    } else {
        ps.last().from(pos + 1) + up(ps.drop_last(), ps.last().parent_index as int)
    }
}

/// The cost of the steps left above a child at position `pos` of the last node of `ps`.
closed spec fn frames<'a, T>(ps: Seq<&'a QTree<T>>, pos: int) -> nat
    decreases ps.len(),
{
    if ps.len() == 0 {
        0
    } else {
        ps.last().rem(pos + 1) + 1 + frames(ps.drop_last(), ps.last().parent_index as int)
    }
}

/// What a walk visits from `node`, entered at quarter `i`, below the nodes of `ps`.
pub closed spec fn ahead<'a, T>(node: &'a QTree<T>, ps: Seq<&'a QTree<T>>, i: int) -> Seq<(T, Area)> {
    match node.elements {
        Elems::Node(_) => node.from(i) + up(ps, node.parent_index as int),
        Elems::Leaf(v, a) => seq![(v, a)] + up(ps, node.parent_index as int),
        Elems::Empty => up(ps, node.parent_index as int),
    }
}

/// The steps a walk from `node`, entered at quarter `i`, below the nodes of `ps`, can take at most.
pub closed spec fn steps<'a, T>(node: &'a QTree<T>, ps: Seq<&'a QTree<T>>, i: int) -> nat {
    node.rem(i) + 1 + frames(ps, node.parent_index as int)
}

/// `ps` is a path of split nodes down the tree, each the quarter of the one before at its
/// position, never the last quarter, and `node` is a quarter of the last of them likewise.
pub closed spec fn path<'a, T>(ps: Seq<&'a QTree<T>>, node: &'a QTree<T>) -> bool {
    &&& node.wf()
    &&& forall|k: int| 0 <= k < ps.len() ==> (#[trigger] ps[k]).wf() && ps[k].elements is Node
    &&& forall|k: int|
        0 <= k < ps.len() - 1 ==> #[trigger] ps[k + 1].parent_index < 3 && *ps[k + 1] == ps[k].kid(
            ps[k + 1].parent_index as int,
        )
    &&& ps.len() > 0 ==> node.parent_index < 3 && *node == ps.last().kid(node.parent_index as int)
}

/// Walks from `node`, entered at quarter `index`, to the next node that holds a value, keeping the
/// path to it in `parents`.
pub fn traverse<'a, T>(node: &'a QTree<T>, parents: &mut Vec<&'a QTree<T>>, index: usize) -> (r: Option<&'a QTree<T>>)
    requires
        path(old(parents)@, node),
        index <= 3,
    ensures
        match r {
            Some(leaf) => {
                &&& leaf.is_leaf()
                &&& path(final(parents)@, leaf)
                &&& ahead(leaf, final(parents)@, 0) == ahead(node, old(parents)@, index as int)
            },
            None => ahead(node, old(parents)@, index as int) == Seq::<(T, Area)>::empty(),
        },
    decreases steps(node, old(parents)@, index as int),
{
    let ghost ps = parents@;
    match &node.elements {
        Elems::Node(a) => {
            if index == 3 {
                match parents.pop() {
                    None => None,
                    Some(parent) => {
                        proof {
                            lemma_path_up(ps, node);
                            assert(node.from(3) =~= Seq::<(T, Area)>::empty());
                            assert(ahead(node, ps, 3) =~= ahead(parent, ps.drop_last(), node.parent_index + 1));
                        }
                        traverse(parent, parents, node.parent_index + 1)
                    },
                }
            } else {
                parents.push(node);
                let child = if index == 0 {
                    &a.0
                } else if index == 1 {
                    &a.1
                } else {
                    &a.2
                };
                proof {
                    lemma_path_down(ps, node, index as int);
                    lemma_rem_cost(*child);
                    lemma_from_leaves(*child);
                    let qs = ps.push(node);
                    assert(qs.drop_last() =~= ps);
                    assert(child.parent_index == index);
                    assert(steps(child, qs, 0) < steps(node, ps, index as int));
                    assert(ahead(child, qs, 0) =~= ahead(node, ps, index as int));
                }
                traverse(child, parents, 0)
            }
        },
        Elems::Leaf(..) => Some(node),
        Elems::Empty => match parents.pop() {
            None => None,
            Some(parent) => {
                proof {
                    lemma_path_up(ps, node);
                    assert(ahead(node, ps, index as int) =~= ahead(parent, ps.drop_last(), node.parent_index + 1));
                }
                traverse(parent, parents, node.parent_index + 1)
            },
        },
    }
}

/// A walk over the values of a tree.
pub struct Iter<'a, T> {
    current: Option<&'a QTree<T>>,
    parents: Vec<&'a QTree<T>>,
}

impl<'a, T> Iter<'a, T> {
    /// The walk stands at a node that holds a value, with the path down to it.
    pub closed spec fn wf(self) -> bool {
        self.current matches Some(t) ==> t.is_leaf() && path(self.parents@, t)
    }

    /// What the walk has left to give.
    pub closed spec fn rest(self) -> Seq<(T, Area)> {
        match self.current {
            Some(t) => ahead(t, self.parents@, 0),
            None => Seq::empty(),
        }
    }

    /// The next value with its area, and the walk moved on past it.
    pub fn next(&mut self) -> (r: Option<(&'a T, Area)>)
        requires
            old(self).wf(),
        ensures
            final(self).wf(),
            old(self).rest().len() == 0 ==> r is None && final(self).rest().len() == 0,
            old(self).rest().len() > 0 ==> (r matches Some((v, a)) && (*v, a) == old(self).rest()[0]
                && final(self).rest() == old(self).rest().drop_first()),
    {
        match self.current {
            None => None,
            Some(tree) => {
                let ghost ps = self.parents@;
                let parent = self.parents.pop();
                self.current = match parent {
                    None => None,
                    Some(parent) => {
                        proof {
                            lemma_path_up(ps, tree);
                        }
                        traverse(parent, &mut self.parents, tree.parent_index + 1)
                    },
                };
                match &tree.elements {
                    Elems::Leaf(val, area) => {
                        proof {
                            let rest = ahead(tree, ps, 0);
                            assert(rest.drop_first() =~= up(ps, tree.parent_index as int));
                        }
                        Some((val, area.clone()))
                    },
                    _ => {
                        proof {
                            assert(false);
                        }
                        None
                    },
                }
            },
        }
    }
}

impl<T> QTree<T> {
    /// A walk over the values of the tree, quarters in order, that never enters the last quarter
    /// of a split node.
    pub fn iter(&self) -> (r: Iter<'_, T>)
        requires
            self.wf(),
        ensures
            r.wf(),
            r.rest() == self.leaves(),
    {
        let mut parents = Vec::new();
        proof {
            lemma_from_leaves(*self);
            assert(up(parents@, self.parent_index as int) =~= Seq::<(T, Area)>::empty());
            assert(ahead(self, parents@, 0) =~= self.leaves());
        }
        let current = traverse(self, &mut parents, 0);
        proof {
            if current is Some {
                let t = current->0;
                assert(ahead(t, parents@, 0) =~= self.leaves());
            }
        }
        Iter { current: current, parents: parents }
    }
}

/// Filling an empty node gives a well-formed node of the same side and position that stores
/// exactly the value, at the area returned.
proof fn lemma_fill<T>(n: usize, pos: usize, s: usize, area: Area, val: T)
    requires
        fill(n, pos, s, area, val) is Some,
    ensures
        fill(n, pos, s, area, val) matches Some((x, t)) && t.wf() && t.size == n && t.parent_index
            == pos && t.stored() == seq![(val, x)] && t.placed_in(area),
    decreases n,
{
    if n > s {
        lemma_fill((n / 2) as usize, 0, s, quarter(area, 0), val);
        let (x, t) = fill(n, pos, s, area, val)->Some_0;
        let (x0, c0) = fill((n / 2) as usize, 0, s, quarter(area, 0), val)->Some_0;
        let e = Seq::<(T, Area)>::empty();
        let cs = t.elements->Node_0;
        assert(cs.0 == c0);
        assert(x == x0);
        assert(cs.1.stored() =~= e);
        assert(cs.2.stored() =~= e);
        assert(cs.3.stored() =~= e);
        assert(cs.1.wf() && cs.2.wf() && cs.3.wf());
        assert(cs.1.placed_in(quarter(area, 1)) && cs.2.placed_in(quarter(area, 2)) && cs.3.placed_in(
            quarter(area, 3),
        ));
        assert(t.placed_in(area));
        assert(t.wf());
        assert(t.stored() =~= seq![(val, x)]);
    }
}

/// An empty node whose area lies within `b`, where twice `b` stays in the `usize` range, can be
/// filled.
proof fn lemma_fill_some<T>(n: usize, pos: usize, s: usize, area: Area, val: T, b: int)
    requires
        2 * b <= usize::MAX,
        area.left <= area.right <= b,
        area.top <= area.bottom <= b,
    ensures
        fill(n, pos, s, area, val) is Some,
    decreases n,
{
    if n > s {
        lemma_fill_some((n / 2) as usize, 0, s, quarter(area, 0), val, b);
    }
}

/// Inserting into a node over an area within the square of side `b`, where twice `b` stays in
/// the `usize` range, is defined.
proof fn lemma_place_some<T>(t: QTree<T>, s: usize, area: Area, val: T, b: int)
    requires
        2 * b <= usize::MAX,
        area.left <= area.right <= b,
        area.top <= area.bottom <= b,
    ensures
        place(t, s, area, val) is Some,
    decreases t,
{
    match t.elements {
        Elems::Empty => lemma_fill_some(t.size, t.parent_index, s, area, val, b),
        Elems::Node(cs) => {
            if t.size > s {
                lemma_quarters(area);
                assert(ordered(quarter(area, 0)) && within(quarter(area, 0), area));
                assert(ordered(quarter(area, 1)) && within(quarter(area, 1), area));
                assert(ordered(quarter(area, 2)) && within(quarter(area, 2), area));
                assert(ordered(quarter(area, 3)) && within(quarter(area, 3), area));
                lemma_place_some(cs.0, s, quarter(area, 0), val, b);
                if let Some((Err(v0), _)) = place(cs.0, s, quarter(area, 0), val) {
                    lemma_place_some(cs.1, s, quarter(area, 1), v0, b);
                    if let Some((Err(v1), _)) = place(cs.1, s, quarter(area, 1), v0) {
                        lemma_place_some(cs.2, s, quarter(area, 2), v1, b);
                        if let Some((Err(v2), _)) = place(cs.2, s, quarter(area, 2), v1) {
                            lemma_place_some(cs.3, s, quarter(area, 3), v2, b);
                        }
                    }
                }
            }
        },
        Elems::Leaf(_, _) => {},
    }
}

/// Inserting into a tree whose side is at most half the `usize` range is defined for any square
/// that fits in it: the value is taken or given back.
pub proof fn lemma_insert_defined<T>(t: QTree<T>, val: T, size: usize)
    requires
        t.side() <= usize::MAX / 2,
        ceil_pow2_spec(size as int) <= t.side(),
    ensures
        insert_spec(t, val, size) is Some,
{
    lemma_place_some(t, ceil_pow2_spec(size as int) as usize, whole(t.size), val, t.size as int);
}

/// Inserting into a well-formed node keeps it well-formed, with the same side and position; a
/// refused value comes back with the node unchanged, and an accepted one is stored at the area
/// returned, beside everything stored before.
proof fn lemma_place<T>(t: QTree<T>, s: usize, area: Area, val: T)
    requires
        t.wf(),
        place(t, s, area, val) is Some,
    ensures
        place(t, s, area, val) matches Some((r, n)) && n.wf() && n.size == t.size
            && n.parent_index == t.parent_index && (t.placed_in(area) ==> n.placed_in(area)) && match r {
            Ok(x) => n.stored().to_multiset() == t.stored().to_multiset().insert((val, x)),
            Err(v) => v == val && n == t,
        },
    decreases t,
{
    broadcast use vstd::seq_lib::lemma_multiset_commutative;
    broadcast use vstd::multiset::group_multiset_axioms;

    match t.elements {
        Elems::Empty => {
            lemma_fill(t.size, t.parent_index, s, area, val);
            let (x, n) = fill(t.size, t.parent_index, s, area, val)->Some_0;
            assert(t.stored() =~= Seq::<(T, Area)>::empty());
            assert(t.stored().to_multiset() =~= vstd::multiset::Multiset::<(T, Area)>::empty()) by {
                broadcast use vstd::seq_lib::group_to_multiset_ensures;

            }
            assert(seq![(val, x)].to_multiset() =~= vstd::multiset::Multiset::<(T, Area)>::empty().insert(
                (val, x),
            )) by {
                broadcast use vstd::seq_lib::group_to_multiset_ensures;

                assert(seq![(val, x)] =~= Seq::<(T, Area)>::empty().push((val, x)));
            }
        },
        Elems::Node(cs) => {
            if t.size > s {
                lemma_place(cs.0, s, quarter(area, 0), val);
                if let Some((Err(v0), c0)) = place(cs.0, s, quarter(area, 0), val) {
                    lemma_place(cs.1, s, quarter(area, 1), v0);
                    if let Some((Err(v1), c1)) = place(cs.1, s, quarter(area, 1), v0) {
                        lemma_place(cs.2, s, quarter(area, 2), v1);
                        if let Some((Err(v2), c2)) = place(cs.2, s, quarter(area, 2), v1) {
                            lemma_place(cs.3, s, quarter(area, 3), v2);
                        }
                    }
                }
            }
        },
        Elems::Leaf(_, _) => {},
    }
}

/// Inserting into a well-formed tree keeps it well-formed and of the same side, with every value
/// over the area of its node. A refused value comes back with the tree unchanged; an accepted one
/// is stored at the area returned, beside everything stored before.
pub proof fn lemma_insert<T>(t: QTree<T>, val: T, size: usize)
    requires
        t.wf(),
        insert_spec(t, val, size) is Some,
    ensures
        insert_spec(t, val, size) matches Some((r, n)) && n.wf() && n.side() == t.side() && (t.placed()
            ==> n.placed()) && match r {
            Ok(x) => n.stored().to_multiset() == t.stored().to_multiset().insert((val, x)),
            Err(v) => v == val && n == t,
        },
{
    lemma_place(t, ceil_pow2_spec(size as int) as usize, whole(t.side()), val);
}

/// An empty tree, whose side is at most half the `usize` range, takes any square that fits in
/// it.
pub proof fn lemma_empty_accepts<T>(t: QTree<T>, val: T, size: usize)
    requires
        t.is_empty(),
        t.side() <= usize::MAX / 2,
        ceil_pow2_spec(size as int) <= t.side(),
    ensures
        insert_spec(t, val, size) matches Some((Ok(_), _)),
{
    lemma_fill_some(t.size, t.parent_index, ceil_pow2_spec(size as int) as usize, whole(t.size), val, t.size as int);
}

/// Whether two areas do not overlap: one lies wholly to one side of the other.
pub open spec fn disjoint(x: Area, y: Area) -> bool {
    x.right <= y.left || y.right <= x.left || x.bottom <= y.top || y.bottom <= x.top
}

/// Whether `x` lies within `a`.
pub open spec fn within(x: Area, a: Area) -> bool {
    a.left <= x.left && x.right <= a.right && a.top <= x.top && x.bottom <= a.bottom
}

/// Whether an area has its sides in order.
pub open spec fn ordered(a: Area) -> bool {
    a.left <= a.right && a.top <= a.bottom
}

/// Whether no two of the areas of the held values overlap.
pub open spec fn apart<T>(s: Seq<(T, Area)>) -> bool {
    forall|i: int, j: int| 0 <= i < j < s.len() ==> disjoint(#[trigger] s[i].1, #[trigger] s[j].1)
}

/// The quarters of an ordered area that can be halved are ordered, lie within it and do not
/// overlap.
proof fn lemma_quarters(a: Area)
    requires
        ordered(a),
        halvable(a),
    ensures
        forall|i: int| 0 <= i < 4 ==> ordered(#[trigger] quarter(a, i)) && within(quarter(a, i), a),
        forall|i: int, j: int| 0 <= i < j < 4 ==> disjoint(#[trigger] quarter(a, i), #[trigger] quarter(a, j)),
{
    assert(a.left <= (a.left + a.right) / 2 <= a.right);
    assert(a.top <= (a.top + a.bottom) / 2 <= a.bottom);
}

/// Two runs of held values, each apart, every area of the one clear of every area of the other,
/// are apart together.
proof fn lemma_apart_concat<T>(a: Seq<(T, Area)>, b: Seq<(T, Area)>)
    requires
        apart(a),
        apart(b),
        forall|i: int, j: int| 0 <= i < a.len() && 0 <= j < b.len() ==> disjoint(#[trigger] a[i].1, #[trigger] b[j].1),
    ensures
        apart(a + b),
{
    let s = a + b;
    assert forall|i: int, j: int| 0 <= i < j < s.len() implies disjoint(#[trigger] s[i].1, #[trigger] s[j].1) by {
        if j < a.len() {
            assert(s[i] == a[i] && s[j] == a[j]);
        } else if i >= a.len() {
            assert(s[i] == b[i - a.len()] && s[j] == b[j - a.len()]);
        } else {
            assert(s[i] == a[i] && s[j] == b[j - a.len()]);
        }
    }
}

/// The values of a node placed over an ordered area lie within it, apart from each other.
proof fn lemma_placed_apart<T>(t: QTree<T>, area: Area)
    requires
        t.placed_in(area),
        ordered(area),
    ensures
        apart(t.stored()),
        forall|k: int| 0 <= k < t.stored().len() ==> within(#[trigger] t.stored()[k].1, area),
    decreases t,
{
    match t.elements {
        Elems::Node(cs) => {
            lemma_quarters(area);
            let q0 = quarter(area, 0);
            let q1 = quarter(area, 1);
            let q2 = quarter(area, 2);
            let q3 = quarter(area, 3);
            assert(ordered(q0) && ordered(q1) && ordered(q2) && ordered(q3));
            lemma_placed_apart(cs.0, q0);
            lemma_placed_apart(cs.1, q1);
            lemma_placed_apart(cs.2, q2);
            lemma_placed_apart(cs.3, q3);
            assert(disjoint(q0, q1) && disjoint(q0, q2) && disjoint(q0, q3));
            assert(disjoint(q1, q2) && disjoint(q1, q3) && disjoint(q2, q3));
            let s0 = cs.0.stored();
            let s1 = cs.1.stored();
            let s2 = cs.2.stored();
            let s3 = cs.3.stored();
            lemma_apart_concat(s0, s1);
            let s01 = s0 + s1;
            assert forall|i: int, j: int| 0 <= i < s01.len() && 0 <= j < s2.len() implies disjoint(#[trigger] s01[i].1, #[trigger] s2[j].1) by {
                if i < s0.len() {
                    assert(within(s0[i].1, q0));
                } else {
                    assert(within(s1[i - s0.len()].1, q1));
                }
            }
            lemma_apart_concat(s01, s2);
            let s012 = s01 + s2;
            assert forall|i: int, j: int| 0 <= i < s012.len() && 0 <= j < s3.len() implies disjoint(#[trigger] s012[i].1, #[trigger] s3[j].1) by {
                if i < s0.len() {
                    assert(within(s0[i].1, q0));
                } else if i < s01.len() {
                    assert(within(s1[i - s0.len()].1, q1));
                } else {
                    assert(within(s2[i - s01.len()].1, q2));
                }
            }
            lemma_apart_concat(s012, s3);
            let all = s012 + s3;
            assert(t.stored() == all);
            assert forall|k: int| 0 <= k < all.len() implies within(#[trigger] all[k].1, area) by {
                if k < s0.len() {
                    assert(within(s0[k].1, q0));
                } else if k < s01.len() {
                    assert(within(s1[k - s0.len()].1, q1));
                } else if k < s012.len() {
                    assert(within(s2[k - s01.len()].1, q2));
                } else {
                    assert(within(s3[k - s012.len()].1, q3));
                }
            }
        },
        Elems::Leaf(v, a) => {},
        Elems::Empty => {},
    }
}

/// The values held in a tree whose values are over the areas of their nodes lie within the
/// square of its side, and no two of their areas overlap.
pub proof fn lemma_stored_apart<T>(t: QTree<T>)
    requires
        t.placed(),
    ensures
        apart(t.stored()),
        forall|k: int| 0 <= k < t.stored().len() ==> within(#[trigger] t.stored()[k].1, whole(t.side())),
{
    lemma_placed_apart(t, whole(t.size));
}

/// Leaving a node for its parent keeps a path.
proof fn lemma_path_up<'a, T>(ps: Seq<&'a QTree<T>>, node: &'a QTree<T>)
    requires
        path(ps, node),
        ps.len() > 0,
    ensures
        path(ps.drop_last(), ps.last()),
        node.parent_index < 3,
        ps.last().elements is Node,
{
    let k = ps.len() - 1;
    assert(ps[k].wf());
    if ps.len() > 1 {
        assert(ps[k - 1 + 1].parent_index < 3);
    }
}

/// Entering quarter `i` of a split node keeps a path.
proof fn lemma_path_down<'a, T>(ps: Seq<&'a QTree<T>>, node: &'a QTree<T>, i: int)
    requires
        path(ps, node),
        node.elements is Node,
        0 <= i < 3,
    ensures
        path(ps.push(node), &node.kid(i)),
        node.kid(i).parent_index == i,
{
    let qs = ps.push(node);
    assert(qs.last() == node);
    assert forall|k: int| 0 <= k < qs.len() - 1 implies #[trigger] qs[k + 1].parent_index < 3 && *qs[k + 1] == qs[k].kid(
        qs[k + 1].parent_index as int,
    ) by {
        if k < ps.len() - 1 {
            assert(qs[k + 1] == ps[k + 1]);
        }
    }
}

/// The walk of a node visits its leaves.
proof fn lemma_from_leaves<T>(t: QTree<T>)
    ensures
        t.elements is Node ==> t.from(0) == t.leaves(),
{
    if t.elements is Node {
        let e = Seq::<(T, Area)>::empty();
        assert(t.from(3) =~= e);
        assert(t.from(2) =~= t.kid(2).leaves() + e);
        assert(t.from(1) == t.kid(1).leaves() + t.from(2));
        assert(t.from(0) == t.kid(0).leaves() + t.from(1));
        assert(t.from(0) =~= t.leaves());
    }
}

/// The steps a walk takes within a node are fewer than its cost.
proof fn lemma_rem_cost<T>(t: QTree<T>)
    ensures
        t.rem(0) + 2 <= t.cost(),
{
    assert(t.rem(3) == 0);
    if t.elements is Node {
        assert(t.rem(2) == t.kid(2).cost() + t.rem(3));
        assert(t.rem(1) == t.kid(1).cost() + t.rem(2));
        assert(t.rem(0) == t.kid(0).cost() + t.rem(1));
    }
}


/// Whether `x` is a square of side `k` whose corner lies on multiples of `k`.
pub open spec fn aligned(x: Area, k: int) -> bool {
    &&& x.right - x.left == k
    &&& x.bottom - x.top == k
    &&& (x.left as int) % k == 0
    &&& (x.top as int) % k == 0
}

impl<T> QTree<T> {
    /// Whether some empty node of the tree is at least `s` wide.
    pub open spec fn has_room(self, s: int) -> bool
        decreases self,
    {
        match self.elements {
            Elems::Node(cs) => cs.0.has_room(s) || cs.1.has_room(s) || cs.2.has_room(s) || cs.3.has_room(s),
            Elems::Leaf(_, _) => false,
            Elems::Empty => self.size >= s,
        }
    }

    /// Whether no value lies in the last quarter of any split node.
    pub open spec fn last_quarters_free(self) -> bool
        decreases self,
    {
        match self.elements {
            Elems::Node(cs) => cs.3.stored().len() == 0 && cs.0.last_quarters_free()
                && cs.1.last_quarters_free() && cs.2.last_quarters_free(),
            _ => true,
        }
    }
}

/// A multiple of an even `n` is a multiple of half of it, and so is the next multiple of the
/// half.
pub(crate) proof fn lemma_half_aligned(x: int, n: int)
    requires
        n >= 2,
        n % 2 == 0,
        x % n == 0,
    ensures
        x % (n / 2) == 0,
        (x + n / 2) % (n / 2) == 0,
{
    let h = n / 2;
    vstd::arithmetic::div_mod::lemma_fundamental_div_mod(x, n);
    let q = x / n;
    assert(x == (2 * q) * h) by (nonlinear_arith)
        requires
            x == n * q + 0,
            n == 2 * h,
    ;
    vstd::arithmetic::div_mod::lemma_mod_multiples_basic(2 * q, h);
    vstd::arithmetic::div_mod::lemma_mod_add_multiples_vanish(x, h);
}

/// A power of two larger than one is even, and its half is a power of two.
pub(crate) proof fn lemma_pow2_half(n: int)
    requires
        is_pow2(n),
        n >= 2,
    ensures
        n % 2 == 0,
        is_pow2(n / 2),
{
}

/// The quarters of an aligned square of an even side `n` are aligned squares of side `n / 2`
/// within it, handed out from the same tree.
proof fn lemma_quarter_aligned(a: Area, n: int, i: int)
    requires
        n >= 2,
        n % 2 == 0,
        aligned(a, n),
        halvable(a),
        0 <= i < 4,
    ensures
        aligned(quarter(a, i), n / 2),
        within(quarter(a, i), a),
        quarter(a, i).size == a.size,
{
    lemma_half_aligned(a.left as int, n);
    lemma_half_aligned(a.top as int, n);
    assert((a.left + a.right) / 2 == a.left + n / 2);
    assert((a.top + a.bottom) / 2 == a.top + n / 2);
}

/// Filling an empty node whose side is a power of two, over an aligned square of that side,
/// takes an aligned square of the side asked for within it.
proof fn lemma_fill_area<T>(n: usize, pos: usize, s: usize, area: Area, val: T)
    requires
        is_pow2(n as int),
        is_pow2(s as int),
        s <= n,
        aligned(area, n as int),
        fill(n, pos, s, area, val) is Some,
    ensures
        fill(n, pos, s, area, val) matches Some((x, _)) && aligned(x, s as int) && within(x, area)
            && x.size == area.size,
    decreases n,
{
    if n > s {
        lemma_pow2_half(n as int);
        lemma_pow2_between(s as int, n as int);
        lemma_quarter_aligned(area, n as int, 0);
        lemma_fill_area((n / 2) as usize, 0, s, quarter(area, 0), val);
    }
}

/// A node whose side is below `s`, and so every node under it, has no empty node `s` wide.
proof fn lemma_no_room_below<T>(t: QTree<T>, s: int)
    requires
        t.wf(),
        t.size < s,
    ensures
        !t.has_room(s),
    decreases t,
{
    if let Elems::Node(cs) = t.elements {
        lemma_no_room_below(cs.0, s);
        lemma_no_room_below(cs.1, s);
        lemma_no_room_below(cs.2, s);
        lemma_no_room_below(cs.3, s);
    }
}

/// Inserting into a node whose side is a power of two, over an aligned square of that side: an
/// accepted square is aligned, of the side asked for, within the node's square; a refused one
/// finds no empty node wide enough.
proof fn lemma_place_area<T>(t: QTree<T>, s: usize, area: Area, val: T)
    requires
        t.wf(),
        is_pow2(t.size as int),
        is_pow2(s as int),
        s <= t.size,
        aligned(area, t.size as int),
        place(t, s, area, val) is Some,
    ensures
        place(t, s, area, val) matches Some((r, _)) && match r {
            Ok(x) => aligned(x, s as int) && within(x, area) && x.size == area.size,
            Err(_) => !t.has_room(s as int),
        },
    decreases t,
{
    match t.elements {
        Elems::Empty => {
            lemma_fill_area(t.size, t.parent_index, s, area, val);
        },
        Elems::Node(cs) => {
            if t.size > s {
                lemma_pow2_half(t.size as int);
                lemma_pow2_between(s as int, t.size as int);
                lemma_quarter_aligned(area, t.size as int, 0);
                lemma_quarter_aligned(area, t.size as int, 1);
                lemma_quarter_aligned(area, t.size as int, 2);
                lemma_quarter_aligned(area, t.size as int, 3);
                lemma_place_area(cs.0, s, quarter(area, 0), val);
                if let Some((Err(v0), _)) = place(cs.0, s, quarter(area, 0), val) {
                    lemma_place_area(cs.1, s, quarter(area, 1), v0);
                    if let Some((Err(v1), _)) = place(cs.1, s, quarter(area, 1), v0) {
                        lemma_place_area(cs.2, s, quarter(area, 2), v1);
                        if let Some((Err(v2), _)) = place(cs.2, s, quarter(area, 2), v1) {
                            lemma_place_area(cs.3, s, quarter(area, 3), v2);
                        }
                    }
                }
            } else {
                lemma_no_room_below(t, s as int + 1);
                lemma_no_room_below(cs.0, s as int);
                lemma_no_room_below(cs.1, s as int);
                lemma_no_room_below(cs.2, s as int);
                lemma_no_room_below(cs.3, s as int);
            }
        },
        Elems::Leaf(_, _) => {},
    }
}

/// In a tree whose side is a power of two, an accepted square has the side asked for rounded up
/// to a power of two, `k`, lies within the tree with its corner on multiples of `k`, and carries
/// the side of the tree. A refused one leaves the tree unchanged and comes only where no empty
/// node is `k` wide.
pub proof fn lemma_insert_square<T>(t: QTree<T>, val: T, size: usize)
    requires
        t.wf(),
        is_pow2(t.side() as int),
        insert_spec(t, val, size) is Some,
    ensures
        insert_spec(t, val, size) matches Some((r, n)) && match r {
            Ok(x) => aligned(x, ceil_pow2_spec(size as int)) && x.right <= t.side() && x.bottom
                <= t.side() && x.size == t.side(),
            Err(v) => v == val && n == t && !t.has_room(ceil_pow2_spec(size as int)),
        },
{
    lemma_ceil_pow2(size as int);
    let s = ceil_pow2_spec(size as int) as usize;
    lemma_place(t, s, whole(t.size), val);
    lemma_place_area(t, s, whole(t.size), val);
}

/// A walk of the tree visits only values that are stored, each no more often than it is stored;
/// where no last quarter holds a value, it visits exactly what is stored, in order.
pub proof fn lemma_leaves_stored<T>(t: QTree<T>)
    ensures
        forall|e: (T, Area)| t.leaves().to_multiset().count(e) <= #[trigger] t.stored().to_multiset().count(e),
        t.last_quarters_free() ==> t.leaves() == t.stored(),
    decreases t,
{
    broadcast use vstd::seq_lib::lemma_multiset_commutative;
    broadcast use vstd::multiset::group_multiset_axioms;

    if let Elems::Node(cs) = t.elements {
        lemma_leaves_stored(cs.0);
        lemma_leaves_stored(cs.1);
        lemma_leaves_stored(cs.2);
        lemma_leaves_stored(cs.3);
        let l = cs.0.leaves() + cs.1.leaves() + cs.2.leaves();
        let st = cs.0.stored() + cs.1.stored() + cs.2.stored() + cs.3.stored();
        assert forall|e: (T, Area)| l.to_multiset().count(e) <= #[trigger] st.to_multiset().count(e) by {
            assert(cs.0.leaves().to_multiset().count(e) <= cs.0.stored().to_multiset().count(e));
            assert(cs.1.leaves().to_multiset().count(e) <= cs.1.stored().to_multiset().count(e));
            assert(cs.2.leaves().to_multiset().count(e) <= cs.2.stored().to_multiset().count(e));
        }
        if t.last_quarters_free() {
            assert(cs.3.stored() =~= Seq::<(T, Area)>::empty());
            assert(st =~= cs.0.stored() + cs.1.stored() + cs.2.stored());
        }
    } else {
        assert(t.leaves() == t.stored());
    }
}

} // verus!
