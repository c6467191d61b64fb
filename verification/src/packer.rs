//! Binary-tree rectangle packer.
//!
//! A [`Node`] covers an axis-aligned region. A leaf is either free or filled;
//! an interior node is cut in two along one axis. What the packer does next
//! depends only on its free leaves, read left to right, so the contracts are
//! stated over that sequence (`free`) and over the set of regions handed out
//! so far (`placed`).

use vstd::prelude::*;
use crate::vec2::Vec2;

verus! {

/// An axis-aligned rectangle: top-left corner and extent.
#[derive(Copy, Clone, Debug, PartialEq, Eq, Structural)]
pub struct Rectangle {
    pub x: u32,
    pub y: u32,
    pub w: u32,
    pub h: u32,
}

impl Rectangle {
    /// First column to the right of the rectangle.
    pub open spec fn right(self) -> int {
        self.x + self.w
    }

    /// First row below the rectangle.
    pub open spec fn bottom(self) -> int {
        self.y + self.h
    }

    /// The two rectangles share interior area, or one of them, being
    /// degenerate, lies strictly inside the other.
    pub open spec fn overlaps(self, other: Rectangle) -> bool {
        &&& self.x < other.right()
        &&& other.x < self.right()
        &&& self.y < other.bottom()
        &&& other.y < self.bottom()
    }

    /// `self` lies inside `outer`, borders included.
    pub open spec fn within(self, outer: Rectangle) -> bool {
        &&& outer.x <= self.x
        &&& outer.y <= self.y
        &&& self.right() <= outer.right()
        &&& self.bottom() <= outer.bottom()
    }

    /// A `w` by `h` request is no larger than the rectangle in either
    /// dimension.
    pub open spec fn holds(self, w: u32, h: u32) -> bool {
        w <= self.w && h <= self.h
    }

    /// The `w` by `h` rectangle in the top-left corner of `self`.
    pub open spec fn corner(self, w: u32, h: u32) -> Rectangle {
        Rectangle { x: self.x, y: self.y, w, h }
    }
}

/// What remains free of `r` once a `w` by `h` request has taken its top-left
/// corner, in the order in which the packer will look at the pieces.
///
/// The dimension with the larger slack is cut first and keeps a strip along
/// the whole of the other dimension; the smaller slack, if any, is cut from
/// what is left beside the request.
pub open spec fn leftover(r: Rectangle, w: u32, h: u32) -> Seq<Rectangle>
    recommends
        r.holds(w, h),
{
    let dw = (r.w - w) as u32;
    let dh = (r.h - h) as u32;
    let beside = Rectangle { x: (r.x + w) as u32, y: r.y, w: dw, h: if dw > dh { r.h } else { h } };
    let below = Rectangle { x: r.x, y: (r.y + h) as u32, w: if dw > dh { w } else { r.w }, h: dh };
    if dw == 0 && dh == 0 {
        Seq::empty()
    } else if dw > dh {
        if dh == 0 {
            seq![beside]
        } else {
            seq![below, beside]
        }
    } else {
        if dw == 0 {
            seq![below]
        } else {
            seq![beside, below]
        }
    }
}

/// `i` is the first position of `free` whose region can hold `w` by `h`.
pub open spec fn is_first_fit(free: Seq<Rectangle>, w: u32, h: u32, i: int) -> bool {
    &&& 0 <= i < free.len()
    &&& free[i].holds(w, h)
    &&& forall|j: int| 0 <= j < i ==> !(#[trigger] free[j]).holds(w, h)
}

/// The first position of `free` that can hold `w` by `h`, if there is one.
pub open spec fn first_fit(free: Seq<Rectangle>, w: u32, h: u32) -> Option<int> {
    if exists|i: int| is_first_fit(free, w, h, i) {
        Some(choose|i: int| is_first_fit(free, w, h, i))
    } else {
        None
    }
}

/// The region a request for `w` by `h` is given: the top-left corner of the
/// first free region that can hold it.
pub open spec fn placement(free: Seq<Rectangle>, w: u32, h: u32) -> Option<Rectangle> {
    match first_fit(free, w, h) {
        Some(i) => Some(free[i].corner(w, h)),
        None => None,
    }
}

/// The free regions after a request for `w` by `h`: the region that took it
/// gives way to its leftover, in place; the others stay as they are.
pub open spec fn free_after(free: Seq<Rectangle>, w: u32, h: u32) -> Seq<Rectangle> {
    match first_fit(free, w, h) {
        Some(i) => free.take(i) + leftover(free[i], w, h) + free.skip(i + 1),
        None => free,
    }
}

/// The placed regions after a request that was answered with `got`.
pub open spec fn placed_after(placed: Set<Rectangle>, got: Option<Rectangle>) -> Set<Rectangle> {
    match got {
        Some(r) => placed.insert(r),
        None => placed,
    }
}

/// Two positions that both are the first fit are the same position.
pub proof fn lemma_first_fit_unique(free: Seq<Rectangle>, w: u32, h: u32, i: int)
    requires
        is_first_fit(free, w, h, i),
    ensures
        first_fit(free, w, h) == Some(i),
{
    let k = choose|k: int| is_first_fit(free, w, h, k);
    assert(is_first_fit(free, w, h, k));
    if k < i {
        assert(!free[k].holds(w, h));
    } else if i < k {
        assert(!free[i].holds(w, h));
    }
}

/// Where some region below `n` can hold the request, one of them is the
/// first.
proof fn lemma_least_fit(free: Seq<Rectangle>, w: u32, h: u32, n: int)
    requires
        0 <= n <= free.len(),
        exists|j: int| 0 <= j < n && (#[trigger] free[j]).holds(w, h),
    ensures
        exists|i: int| is_first_fit(free, w, h, i),
    decreases n,
{
    if exists|j: int| 0 <= j < n - 1 && (#[trigger] free[j]).holds(w, h) {
        lemma_least_fit(free, w, h, n - 1);
    } else {
        let j = choose|j: int| 0 <= j < n && (#[trigger] free[j]).holds(w, h);
        assert(j == n - 1);
        assert(is_first_fit(free, w, h, n - 1));
    }
}

/// No first fit means that no free region can hold the request.
pub proof fn lemma_no_fit(free: Seq<Rectangle>, w: u32, h: u32)
    ensures
        first_fit(free, w, h) is None <==> forall|j: int|
            0 <= j < free.len() ==> !(#[trigger] free[j]).holds(w, h),
{
    if first_fit(free, w, h) is None {
        if exists|j: int| 0 <= j < free.len() && (#[trigger] free[j]).holds(w, h) {
            lemma_least_fit(free, w, h, free.len() as int);
        }
    } else {
        let i = first_fit(free, w, h).unwrap();
        assert(is_first_fit(free, w, h, i));
        assert(free[i].holds(w, h));
    }
}

/// A node of the packing tree.
pub struct Node {
    pos: Vec2<u32>,
    size: Vec2<u32>,
    left: Option<Box<Node>>,
    right: Option<Box<Node>>,
    filled: bool,
}

/// `l` and `r` are the two halves of `p`, cut along one axis, `l` first.
spec fn cuts(p: Rectangle, l: Rectangle, r: Rectangle) -> bool {
    &&& l.x == p.x
    &&& l.y == p.y
    &&& l.w + r.w == p.w && l.h == p.h && r.h == p.h && r.x == p.x + l.w && r.y == p.y
        || l.h + r.h == p.h && l.w == p.w && r.w == p.w && r.y == p.y + l.h && r.x == p.x
}

impl Node {
    /// The region that the node covers.
    pub closed spec fn region(&self) -> Rectangle {
        Rectangle { x: self.pos.x, y: self.pos.y, w: self.size.x, h: self.size.y }
    }

    /// The node has not been cut.
    pub closed spec fn is_leaf(&self) -> bool {
        self.left is None && self.right is None
    }

    /// The tree is well formed: every region ends inside the coordinate
    /// range, only leaves are filled, and every interior node is cut in two
    /// halves that are well formed themselves.
    pub closed spec fn wf(&self) -> bool
        decreases self,
    {
        &&& self.pos.x + self.size.x <= u32::MAX
        &&& self.pos.y + self.size.y <= u32::MAX
        &&& match (self.left, self.right) {
            (Some(l), Some(r)) => {
                &&& !self.filled
                &&& l.wf()
                &&& r.wf()
                &&& cuts(self.region(), l.region(), r.region())
            },
            (None, None) => true,
            _ => false,
        }
    }

    /// The free leaves' regions, left to right.
    pub closed spec fn free(&self) -> Seq<Rectangle>
        decreases self,
    {
        match (self.left, self.right) {
            (Some(l), Some(r)) => l.free() + r.free(),
            _ => if self.filled {
                Seq::empty()
            } else {
                seq![self.region()]
            },
        }
    }

    /// The filled leaves' regions: what the packer has handed out.
    pub closed spec fn placed(&self) -> Set<Rectangle>
        decreases self,
    {
        match (self.left, self.right) {
            (Some(l), Some(r)) => l.placed() + r.placed(),
            _ => if self.filled {
                set![self.region()]
            } else {
                Set::empty()
            },
        }
    }

    /// Number of cuts on the longest way down from the node.
    pub closed spec fn depth(&self) -> nat
        decreases self,
    {
        match (self.left, self.right) {
            (Some(l), Some(r)) => 1 + if l.depth() >= r.depth() {
                l.depth()
            } else {
                r.depth()
            },
            _ => 0,
        }
    }

    /// Room that the node has beyond a `w` by `h` request, both dimensions
    /// added.
    pub closed spec fn slack(&self, w: u32, h: u32) -> nat {
        if self.size.x >= w && self.size.y >= h {
            ((self.size.x - w) + (self.size.y - h)) as nat
        } else {
            0
        }
    }

    /// A free leaf that covers `size` from `pos` on.
    pub fn new(pos: Vec2<u32>, size: Vec2<u32>) -> (node: Node)
        requires
            pos.x + size.x <= u32::MAX,
            pos.y + size.y <= u32::MAX,
        ensures
            node.wf(),
            node.is_leaf(),
            node.region() == (Rectangle { x: pos.x, y: pos.y, w: size.x, h: size.y }),
            node.free() == seq![node.region()],
            node.placed() == Set::<Rectangle>::empty(),
    {
        Node { pos, size, left: None, right: None, filled: false }
    }

    /// Where the node's region begins.
    pub fn pos(&self) -> (pos: Vec2<u32>)
        ensures
            pos.x == self.region().x,
            pos.y == self.region().y,
    {
        self.pos
    }

    /// The extent of the node's region.
    pub fn size(&self) -> (size: Vec2<u32>)
        ensures
            size.x == self.region().w,
            size.y == self.region().h,
    {
        self.size
    }

    /// Places a `size.x` by `size.y` rectangle in the first free leaf, left
    /// to right, that can hold it, cutting the leaf down to the request, and
    /// returns where it went; `None` where no free leaf can hold it, and the
    /// tree is then unchanged.
    pub fn pack(&mut self, size: &Vec2<u32>) -> (got: Option<Rectangle>)
        requires
            old(self).wf(),
        ensures
            final(self).wf(),
            final(self).region() == old(self).region(),
            got == placement(old(self).free(), size.x, size.y),
            final(self).free() == free_after(old(self).free(), size.x, size.y),
            final(self).placed() == placed_after(old(self).placed(), got),
            got is None ==> *final(self) == *old(self),
            got matches Some(r) ==> r.within(old(self).region()) && forall|p: Rectangle| #[trigger]
                old(self).placed().contains(p) ==> !r.overlaps(p),
        decreases old(self).depth(), old(self).slack(size.x, size.y),
    {
        let ghost before = *self;
        proof {
            if placement(before.free(), size.x, size.y) is Some {
                before.lemma_placement_is_fresh(size.x, size.y);
            }
        }
        if self.left.is_none() || self.right.is_none() {
            // A filled leaf, or one that is too small, takes nothing.
            if self.filled {
                proof {
                    lemma_no_fit(before.free(), size.x, size.y);
                }
                return None;
            }
            if self.size.x < size.x || self.size.y < size.y {
                proof {
                    lemma_no_fit(before.free(), size.x, size.y);
                }
                return None;
            }
            proof {
                assert(is_first_fit(before.free(), size.x, size.y, 0));
                lemma_first_fit_unique(before.free(), size.x, size.y, 0);
            }

            // An exact match fills the leaf.
            if self.size.x == size.x && self.size.y == size.y {
                self.filled = true;
                assert(self.free() =~= free_after(before.free(), size.x, size.y));
                assert(self.placed() =~= placed_after(before.placed(), Some(self.region())));
                return Some(Rectangle { x: self.pos.x, y: self.pos.y, w: size.x, h: size.y });
            }

            // The first child starts where its parent does.
            let c1p = self.pos;
            let mut c2p = self.pos;
            let mut c1s = self.size;
            let mut c2s = self.size;

            // Room left over beside and below the request.
            let dw = self.size.x - size.x;
            let dh = self.size.y - size.y;

            if dw > dh {
                // Cut a column as wide as the request off the left.
                c1s.x = size.x;
                c2p.x = self.pos.x + size.x;
                c2s.x = dw;
            } else {
                // Cut a row as high as the request off the top.
                c1s.y = size.y;
                c2p.y = self.pos.y + size.y;
                c2s.y = dh;
            }

            self.left = Some(Box::new(Node::new(c1p, c1s)));
            self.right = Some(Box::new(Node::new(c2p, c2s)));

            // The request goes into the first child.
            let ghost first = *self.left.unwrap();
            let got = self.left.as_mut().unwrap().pack(size);
            proof {
                assert(is_first_fit(first.free(), size.x, size.y, 0));
                lemma_first_fit_unique(first.free(), size.x, size.y, 0);
                assert(self.free() =~= free_after(before.free(), size.x, size.y));
                assert(self.placed() =~= placed_after(before.placed(), got));
            }
            return got;
        }
        let ghost l = *self.left.unwrap();
        let ghost r = *self.right.unwrap();
        let c1 = self.left.as_mut().unwrap().pack(size);
        if c1.is_none() {
            let c2 = self.right.as_mut().unwrap().pack(size);
            proof {
                lemma_fit_in_second(l.free(), r.free(), size.x, size.y);
                assert(self.free() =~= free_after(before.free(), size.x, size.y));
                assert(self.placed() =~= placed_after(before.placed(), c2));
            }
            return c2;
        }
        proof {
            lemma_fit_in_first(l.free(), r.free(), size.x, size.y);
            assert(self.free() =~= free_after(before.free(), size.x, size.y));
            assert(self.placed() =~= placed_after(before.placed(), c1));
        }
        c1
    }
}

/// A request that the first of two runs of free regions can take is taken
/// there, at the same position, whatever follows.
proof fn lemma_fit_in_first(a: Seq<Rectangle>, b: Seq<Rectangle>, w: u32, h: u32)
    requires
        first_fit(a, w, h) is Some,
    ensures
        first_fit(a + b, w, h) == first_fit(a, w, h),
        placement(a + b, w, h) == placement(a, w, h),
        free_after(a + b, w, h) == free_after(a, w, h) + b,
{
    let i = first_fit(a, w, h).unwrap();
    assert(is_first_fit(a, w, h, i));
    assert forall|j: int| 0 <= j < i implies !(#[trigger] (a + b)[j]).holds(w, h) by {
        assert((a + b)[j] == a[j]);
    }
    assert(is_first_fit(a + b, w, h, i));
    lemma_first_fit_unique(a + b, w, h, i);
    assert(free_after(a + b, w, h) =~= free_after(a, w, h) + b);
}

/// A request that the first of two runs of free regions cannot take goes to
/// the second, past the whole of the first.
proof fn lemma_fit_in_second(a: Seq<Rectangle>, b: Seq<Rectangle>, w: u32, h: u32)
    requires
        first_fit(a, w, h) is None,
    ensures
        first_fit(a + b, w, h) == match first_fit(b, w, h) {
            Some(i) => Some(a.len() + i),
            None => None,
        },
        placement(a + b, w, h) == placement(b, w, h),
        free_after(a + b, w, h) == a + free_after(b, w, h),
{
    lemma_no_fit(a, w, h);
    lemma_no_fit(b, w, h);
    lemma_no_fit(a + b, w, h);
    match first_fit(b, w, h) {
        Some(i) => {
            assert(is_first_fit(b, w, h, i));
            let k = a.len() + i;
            assert forall|j: int| 0 <= j < k implies !(#[trigger] (a + b)[j]).holds(w, h) by {
                if j < a.len() {
                    assert((a + b)[j] == a[j]);
                } else {
                    assert((a + b)[j] == b[j - a.len()]);
                }
            }
            assert((a + b)[k] == b[i]);
            assert(is_first_fit(a + b, w, h, k));
            lemma_first_fit_unique(a + b, w, h, k);
            assert(free_after(a + b, w, h) =~= a + free_after(b, w, h));
        },
        None => {
            assert forall|j: int| 0 <= j < (a + b).len() implies !(#[trigger] (a + b)[j]).holds(
                w,
                h,
            ) by {
                if j < a.len() {
                    assert((a + b)[j] == a[j]);
                } else {
                    assert((a + b)[j] == b[j - a.len()]);
                }
            }
        },
    }
}

/// Two rectangles that lie in the two halves of a cut do not overlap.
proof fn lemma_halves_apart(p: Rectangle, l: Rectangle, r: Rectangle, a: Rectangle, b: Rectangle)
    requires
        cuts(p, l, r),
        a.within(l),
        b.within(r),
    ensures
        !a.overlaps(b),
        !b.overlaps(a),
        a.within(p),
        b.within(p),
{
}

impl Node {
    /// Every leaf of a well-formed tree, free or filled, lies inside the
    /// region of its root.
    pub proof fn lemma_leaves_within(self)
        requires
            self.wf(),
        ensures
            forall|i: int|
                0 <= i < self.free().len() ==> (#[trigger] self.free()[i]).within(self.region()),
            forall|p: Rectangle| #[trigger]
                self.placed().contains(p) ==> p.within(self.region()),
        decreases self,
    {
        match (self.left, self.right) {
            (Some(l), Some(r)) => {
                l.lemma_leaves_within();
                r.lemma_leaves_within();
                assert forall|i: int| 0 <= i < self.free().len() implies (#[trigger] self.free()[i]).within(
                    self.region(),
                ) by {
                    if i < l.free().len() {
                        assert(self.free()[i] == l.free()[i]);
                    } else {
                        assert(self.free()[i] == r.free()[i - l.free().len()]);
                    }
                }
                assert forall|p: Rectangle| #[trigger] self.placed().contains(p) implies p.within(
                    self.region(),
                ) by {
                    if l.placed().contains(p) {
                        assert(p.within(l.region()));
                    } else {
                        assert(r.placed().contains(p));
                        assert(p.within(r.region()));
                    }
                }
            },
            _ => {},
        }
    }

    /// In a well-formed tree no two leaves overlap: not two placed regions,
    /// not two free ones, and no placed region with a free one.
    pub proof fn lemma_leaves_disjoint(self)
        requires
            self.wf(),
        ensures
            forall|p: Rectangle, q: Rectangle|
                #![trigger self.placed().contains(p), self.placed().contains(q)]
                self.placed().contains(p) && self.placed().contains(q) && p != q ==> !p.overlaps(q),
            forall|p: Rectangle, i: int|
                #![trigger self.placed().contains(p), self.free()[i]]
                self.placed().contains(p) && 0 <= i < self.free().len() ==> !p.overlaps(
                    self.free()[i],
                ) && !self.free()[i].overlaps(p),
            forall|i: int, j: int|
                #![trigger self.free()[i], self.free()[j]]
                0 <= i < j < self.free().len() ==> !self.free()[i].overlaps(self.free()[j]),
        decreases self,
    {
        match (self.left, self.right) {
            (Some(l), Some(r)) => {
                l.lemma_leaves_disjoint();
                r.lemma_leaves_disjoint();
                l.lemma_leaves_within();
                r.lemma_leaves_within();
                let n = l.free().len() as int;
                assert forall|i: int| 0 <= i < self.free().len() implies #[trigger] self.free()[i] == (if i
                    < n {
                    l.free()[i]
                } else {
                    r.free()[i - n]
                }) by {}
                assert forall|p: Rectangle, q: Rectangle|
                    #![trigger self.placed().contains(p), self.placed().contains(q)]
                    self.placed().contains(p) && self.placed().contains(q) && p != q implies !p.overlaps(
                    q,
                ) by {
                    if l.placed().contains(p) && r.placed().contains(q) {
                        lemma_halves_apart(self.region(), l.region(), r.region(), p, q);
                    } else if r.placed().contains(p) && l.placed().contains(q) {
                        lemma_halves_apart(self.region(), l.region(), r.region(), q, p);
                    }
                }
                assert forall|p: Rectangle, i: int|
                    #![trigger self.placed().contains(p), self.free()[i]]
                    self.placed().contains(p) && 0 <= i < self.free().len() implies !p.overlaps(
                    self.free()[i],
                ) && !self.free()[i].overlaps(p) by {
                    let f = self.free()[i];
                    if i < n {
                        assert(f == l.free()[i]);
                        if !l.placed().contains(p) {
                            assert(r.placed().contains(p));
                            lemma_halves_apart(self.region(), l.region(), r.region(), f, p);
                        }
                    } else {
                        assert(f == r.free()[i - n]);
                        if !r.placed().contains(p) {
                            assert(l.placed().contains(p));
                            lemma_halves_apart(self.region(), l.region(), r.region(), p, f);
                        }
                    }
                }
                assert forall|i: int, j: int|
                    #![trigger self.free()[i], self.free()[j]]
                    0 <= i < j < self.free().len() implies !self.free()[i].overlaps(
                    self.free()[j],
                ) by {
                    if i < n && j >= n {
                        assert(self.free()[i] == l.free()[i]);
                        assert(self.free()[j] == r.free()[j - n]);
                        lemma_halves_apart(
                            self.region(),
                            l.region(),
                            r.region(),
                            self.free()[i],
                            self.free()[j],
                        );
                    } else if j < n {
                        assert(self.free()[i] == l.free()[i]);
                        assert(self.free()[j] == l.free()[j]);
                    } else {
                        assert(self.free()[i] == r.free()[i - n]);
                        assert(self.free()[j] == r.free()[j - n]);
                    }
                }
            },
            _ => {},
        }
    }

    /// A placement lies inside the root's region and overlaps nothing that
    /// was placed before it: a filled leaf is never given out again, whole
    /// or in part.
    pub proof fn lemma_placement_is_fresh(self, w: u32, h: u32)
        requires
            self.wf(),
            placement(self.free(), w, h) is Some,
        ensures
            placement(self.free(), w, h).unwrap().within(self.region()),
            forall|p: Rectangle| #[trigger]
                self.placed().contains(p) ==> !placement(self.free(), w, h).unwrap().overlaps(p),
    {
        self.lemma_leaves_within();
        self.lemma_leaves_disjoint();
        let i = first_fit(self.free(), w, h).unwrap();
        assert(is_first_fit(self.free(), w, h, i));
        let f = self.free()[i];
        let got = f.corner(w, h);
        assert(got.within(f));
        assert forall|p: Rectangle| #[trigger] self.placed().contains(p) implies !got.overlaps(p) by {
            assert(!f.overlaps(p));
        }
    }

    /// A request that is wider or higher than the root's region is refused.
    pub proof fn lemma_oversize_fails(self, w: u32, h: u32)
        requires
            self.wf(),
            w > self.region().w || h > self.region().h,
        ensures
            placement(self.free(), w, h) is None,
            free_after(self.free(), w, h) == self.free(),
    {
        self.lemma_leaves_within();
        assert forall|j: int| 0 <= j < self.free().len() implies !(#[trigger] self.free()[j]).holds(
            w,
            h,
        ) by {
            assert(self.free()[j].within(self.region()));
        }
        lemma_no_fit(self.free(), w, h);
    }
}

/// A request that has exactly the size of some free region is placed.
pub proof fn lemma_exact_size_is_placed(free: Seq<Rectangle>, i: int, w: u32, h: u32)
    requires
        0 <= i < free.len(),
        free[i].w == w,
        free[i].h == h,
    ensures
        placement(free, w, h) is Some,
{
    lemma_no_fit(free, w, h);
    assert(free[i].holds(w, h));
}

/// A request that has exactly the size of the first free region able to hold
/// it is given that region, whole and where it lies, and leaves nothing of
/// it behind.
pub proof fn lemma_exact_fit(free: Seq<Rectangle>, i: int, w: u32, h: u32)
    requires
        is_first_fit(free, w, h, i),
        free[i].w == w,
        free[i].h == h,
    ensures
        placement(free, w, h) == Some(free[i]),
        free_after(free, w, h) == free.remove(i),
{
    lemma_first_fit_unique(free, w, h, i);
    assert(free_after(free, w, h) =~= free.remove(i));
}

/// The free and the placed regions of a packer lie inside `bounds`, and no
/// two of them overlap.
pub open spec fn regions_ok(free: Seq<Rectangle>, placed: Set<Rectangle>, bounds: Rectangle) -> bool {
    &&& bounds.right() <= u32::MAX
    &&& bounds.bottom() <= u32::MAX
    &&& forall|i: int| 0 <= i < free.len() ==> (#[trigger] free[i]).within(bounds)
    &&& forall|p: Rectangle| #[trigger] placed.contains(p) ==> p.within(bounds)
    &&& forall|i: int, j: int|
        #![trigger free[i], free[j]]
        0 <= i < j < free.len() ==> !free[i].overlaps(free[j])
    &&& forall|p: Rectangle, i: int|
        #![trigger placed.contains(p), free[i]]
        placed.contains(p) && 0 <= i < free.len() ==> !p.overlaps(free[i])
    &&& forall|p: Rectangle, q: Rectangle|
        #![trigger placed.contains(p), placed.contains(q)]
        placed.contains(p) && placed.contains(q) && p != q ==> !p.overlaps(q)
}

/// A rectangle inside one that `b` does not overlap does not overlap `b`
/// either.
pub proof fn lemma_inside_apart(a: Rectangle, outer: Rectangle, b: Rectangle)
    requires
        a.within(outer),
        !outer.overlaps(b),
    ensures
        !a.overlaps(b),
        !b.overlaps(a),
{
}

/// The request and what is left over of the region that takes it lie
/// inside that region, and no two of them overlap.
pub proof fn lemma_leftover_tiles(r: Rectangle, w: u32, h: u32)
    requires
        r.holds(w, h),
        r.right() <= u32::MAX,
        r.bottom() <= u32::MAX,
    ensures
        r.corner(w, h).within(r),
        leftover(r, w, h).len() <= 2,
        forall|k: int|
            0 <= k < leftover(r, w, h).len() ==> (#[trigger] leftover(r, w, h)[k]).within(r)
                && !leftover(r, w, h)[k].overlaps(r.corner(w, h)) && !r.corner(w, h).overlaps(
                leftover(r, w, h)[k],
            ),
        leftover(r, w, h).len() == 2 ==> !leftover(r, w, h)[0].overlaps(leftover(r, w, h)[1]),
{
}

/// One request keeps the regions of a packer in order: what was free or
/// placed stays inside the bounds and apart, and where the request is
/// placed, its region lies inside the bounds and overlaps nothing that was
/// placed before.
pub proof fn lemma_request_keeps_regions(
    free: Seq<Rectangle>,
    placed: Set<Rectangle>,
    bounds: Rectangle,
    w: u32,
    h: u32,
)
    requires
        regions_ok(free, placed, bounds),
    ensures
        regions_ok(free_after(free, w, h), placed_after(placed, placement(free, w, h)), bounds),
        placement(free, w, h) matches Some(r) ==> r.within(bounds) && forall|p: Rectangle| #[trigger]
            placed.contains(p) ==> !r.overlaps(p) && !p.overlaps(r),
{
    match first_fit(free, w, h) {
        None => {},
        Some(i) => {
            assert(is_first_fit(free, w, h, i));
            let f = free[i];
            let r = f.corner(w, h);
            let rest = leftover(f, w, h);
            let n = rest.len() as int;
            let after = free_after(free, w, h);
            let placed2 = placed.insert(r);
            assert(f.within(bounds));
            lemma_leftover_tiles(f, w, h);
            // Every region that is free afterwards was free before, or is a
            // piece of the region that took the request.
            assert forall|k: int| 0 <= k < after.len() implies #[trigger] after[k] == (if k < i {
                free[k]
            } else if k < i + n {
                rest[k - i]
            } else {
                free[k - n + 1]
            }) by {}
            assert forall|p: Rectangle| #[trigger] placed.contains(p) implies !r.overlaps(p)
                && !p.overlaps(r) by {
                assert(!p.overlaps(free[i]));
                lemma_inside_apart(r, f, p);
            }
            assert forall|k: int| 0 <= k < after.len() implies (#[trigger] after[k]).within(
                bounds,
            ) by {
                if i <= k < i + n {
                    assert(rest[k - i].within(f));
                } else if k < i {
                    assert(free[k].within(bounds));
                } else {
                    assert(free[k - n + 1].within(bounds));
                }
            }
            assert forall|a: int, b: int|
                #![trigger after[a], after[b]]
                0 <= a < b < after.len() implies !after[a].overlaps(after[b]) by {
                let in_a = i <= a < i + n;
                let in_b = i <= b < i + n;
                let ja = if a < i {
                    a
                } else {
                    a - n + 1
                };
                let jb = if b < i {
                    b
                } else {
                    b - n + 1
                };
                if in_a && in_b {
                    assert(rest[a - i].within(f));
                    assert(rest[b - i].within(f));
                } else if in_a {
                    assert(rest[a - i].within(f));
                    assert(!free[i].overlaps(free[jb]));
                    lemma_inside_apart(after[a], f, free[jb]);
                } else if in_b {
                    assert(rest[b - i].within(f));
                    assert(!free[ja].overlaps(free[i]));
                    lemma_inside_apart(after[b], f, free[ja]);
                } else {
                    assert(!free[ja].overlaps(free[jb]));
                }
            }
            assert forall|p: Rectangle, k: int|
                #![trigger placed2.contains(p), after[k]]
                placed2.contains(p) && 0 <= k < after.len() implies !p.overlaps(after[k]) by {
                let j = if k < i {
                    k
                } else {
                    k - n + 1
                };
                if i <= k < i + n {
                    assert(rest[k - i].within(f));
                    if p != r {
                        assert(placed.contains(p));
                        assert(!p.overlaps(free[i]));
                        lemma_inside_apart(after[k], f, p);
                    }
                } else if p == r {
                    if j < i {
                        assert(!free[j].overlaps(free[i]));
                    } else {
                        assert(!free[i].overlaps(free[j]));
                    }
                    lemma_inside_apart(r, f, free[j]);
                } else {
                    assert(placed.contains(p));
                    assert(!p.overlaps(free[j]));
                }
            }
        },
    }
}

impl Node {
    /// The leaves of a well-formed tree lie inside its region and apart
    /// from each other.
    pub proof fn lemma_regions_ok(self)
        requires
            self.wf(),
        ensures
            regions_ok(self.free(), self.placed(), self.region()),
    {
        self.lemma_leaves_within();
        self.lemma_leaves_disjoint();
    }

    /// Whatever is requested of a packer from now on, and in whatever
    /// order, no two of the placements overlap, each lies inside the
    /// packer's region, and none overlaps what is placed already.
    pub proof fn lemma_placements_apart(self, reqs: Seq<Vec2<u32>>, a: int, b: int)
        requires
            self.wf(),
            0 <= a < b < reqs.len(),
            answer(self.free(), reqs, b) is Some,
        ensures
            answer(self.free(), reqs, b).unwrap().within(self.region()),
            answer(self.free(), reqs, a) matches Some(first) ==> !first.overlaps(
                answer(self.free(), reqs, b).unwrap(),
            ),
            forall|p: Rectangle| #[trigger]
                self.placed().contains(p) ==> !answer(self.free(), reqs, b).unwrap().overlaps(p),
    {
        self.lemma_regions_ok();
        lemma_answers_apart(self.free(), self.placed(), self.region(), reqs, a, b);
    }
}

/// The free regions after the requests `reqs` have been answered, one after
/// the other.
pub open spec fn free_after_all(free: Seq<Rectangle>, reqs: Seq<Vec2<u32>>) -> Seq<Rectangle>
    decreases reqs.len(),
{
    if reqs.len() == 0 {
        free
    } else {
        free_after(free_after_all(free, reqs.drop_last()), reqs.last().x, reqs.last().y)
    }
}

/// The answer to request `k` of `reqs`: where it is placed, if it is.
pub open spec fn answer(free: Seq<Rectangle>, reqs: Seq<Vec2<u32>>, k: int) -> Option<Rectangle>
    recommends
        0 <= k < reqs.len(),
{
    placement(free_after_all(free, reqs.take(k)), reqs[k].x, reqs[k].y)
}

/// The placed regions after the requests `reqs` have been answered.
pub open spec fn placed_after_all(
    free: Seq<Rectangle>,
    placed: Set<Rectangle>,
    reqs: Seq<Vec2<u32>>,
) -> Set<Rectangle>
    decreases reqs.len(),
{
    if reqs.len() == 0 {
        placed
    } else {
        placed_after(
            placed_after_all(free, placed, reqs.drop_last()),
            answer(free, reqs, reqs.len() - 1),
        )
    }
}

/// Any number of requests keeps the regions of a packer inside the bounds
/// and apart.
pub proof fn lemma_requests_keep_regions(
    free: Seq<Rectangle>,
    placed: Set<Rectangle>,
    bounds: Rectangle,
    reqs: Seq<Vec2<u32>>,
)
    requires
        regions_ok(free, placed, bounds),
    ensures
        regions_ok(free_after_all(free, reqs), placed_after_all(free, placed, reqs), bounds),
    decreases reqs.len(),
{
    if reqs.len() > 0 {
        let head = reqs.drop_last();
        lemma_requests_keep_regions(free, placed, bounds, head);
        assert(reqs.take(reqs.len() - 1) =~= head);
        lemma_request_keeps_regions(
            free_after_all(free, head),
            placed_after_all(free, placed, head),
            bounds,
            reqs.last().x,
            reqs.last().y,
        );
    }
}

/// What is placed stays placed: the placed regions after the first `j`
/// requests are among those after the first `k`, for `j <= k`, and each
/// placement is among them from its own request on.
pub proof fn lemma_placed_grows(
    free: Seq<Rectangle>,
    placed: Set<Rectangle>,
    reqs: Seq<Vec2<u32>>,
    j: int,
    k: int,
)
    requires
        0 <= j <= k <= reqs.len(),
    ensures
        placed_after_all(free, placed, reqs.take(j)).subset_of(
            placed_after_all(free, placed, reqs.take(k)),
        ),
        j < k && answer(free, reqs, j) is Some ==> placed_after_all(
            free,
            placed,
            reqs.take(k),
        ).contains(answer(free, reqs, j).unwrap()),
    decreases k - j,
{
    if j < k {
        lemma_placed_grows(free, placed, reqs, j + 1, k);
        let step = reqs.take(j + 1);
        assert(step.drop_last() =~= reqs.take(j));
        assert(step.take(step.len() - 1) =~= reqs.take(j));
        assert(step.last() == reqs[j]);
        assert(answer(free, step, step.len() - 1) == answer(free, reqs, j));
    }
}

/// Whatever is requested of a packer, and in whatever order, no two of the
/// placements overlap, each lies inside the bounds, and none overlaps a
/// region that was placed before the first request.
pub proof fn lemma_answers_apart(
    free: Seq<Rectangle>,
    placed: Set<Rectangle>,
    bounds: Rectangle,
    reqs: Seq<Vec2<u32>>,
    a: int,
    b: int,
)
    requires
        regions_ok(free, placed, bounds),
        0 <= a < b < reqs.len(),
        answer(free, reqs, b) is Some,
    ensures
        answer(free, reqs, b).unwrap().within(bounds),
        answer(free, reqs, a) matches Some(first) ==> !first.overlaps(
            answer(free, reqs, b).unwrap(),
        ) && !answer(free, reqs, b).unwrap().overlaps(first),
        forall|p: Rectangle| #[trigger]
            placed.contains(p) ==> !answer(free, reqs, b).unwrap().overlaps(p),
{
    let head = reqs.take(b);
    lemma_requests_keep_regions(free, placed, bounds, head);
    lemma_request_keeps_regions(
        free_after_all(free, head),
        placed_after_all(free, placed, head),
        bounds,
        reqs[b].x,
        reqs[b].y,
    );
    lemma_placed_grows(free, placed, reqs, a, b);
    lemma_placed_grows(free, placed, reqs, 0, b);
    assert(reqs.take(0) =~= Seq::<Vec2<u32>>::empty());
}

} // verus!
