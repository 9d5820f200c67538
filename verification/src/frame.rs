//! The frame tree.  Every visible structural element - root, display,
//! workspace, container, leaf - is a `Frame` distinguished by its mode.
//! Children are owned by their parent in spatial (on-screen) order; the
//! temporal (most-recently-used) order is kept beside it as a permutation of
//! the spatial indices.  Nodes are addressed by paths of spatial indices
//! counted from the frame an operation starts at.
//!
//! Contracts speak about `FrameView`, the mathematical model of a subtree:
//! the same attributes with the children as a sequence of models.

use vstd::prelude::*;

use crate::defs::{Position, Size, SurfaceId, Vector};

verus! {

broadcast use vstd::std_specs::vec::group_vec_axioms, vstd::set::group_set_axioms, vstd::seq::axiom_seq_index_decreases;

/// What a frame stands for in the tree.
#[derive(Clone, Copy, PartialEq, Eq, Structural, Debug)]
pub enum Mode {
    Root,
    Display,
    Workspace,
    Container,
    Leaf,
    LeafFloating,
}

/// How the anchored children of a frame share its rectangle.
#[derive(Clone, Copy, PartialEq, Eq, Structural, Debug)]
pub enum Geometry {
    Horizontal,
    Vertical,
    Stacked,
}

/// Placement of a jumped frame relative to its target.
#[derive(Clone, Copy, PartialEq, Eq, Structural, Debug)]
pub enum Side {
    Before,
    After,
    On,
}

impl Mode {
    /// Top frames bound the settling operations: root, display, workspace.
    pub open spec fn spec_is_top(self) -> bool {
        self is Root || self is Display || self is Workspace
    }

    /// Leaf frames are the ones bound to a surface.
    pub open spec fn spec_is_leaf(self) -> bool {
        self is Leaf || self is LeafFloating
    }

    pub fn is_top(&self) -> (r: bool)
        ensures
            r == self.spec_is_top(),
    {
        match self {
            Mode::Root | Mode::Display | Mode::Workspace => true,
            _ => false,
        }
    }

    pub fn is_leaf(&self) -> (r: bool)
        ensures
            r == self.spec_is_leaf(),
    {
        match self {
            Mode::Leaf | Mode::LeafFloating => true,
            _ => false,
        }
    }

    pub fn is_workspace(&self) -> (r: bool)
        ensures
            r == (*self is Workspace),
    {
        match self {
            Mode::Workspace => true,
            _ => false,
        }
    }

    /// Only leaves may toggle between floating and anchored.
    pub fn is_reanchorizable(&self) -> (r: bool)
        ensures
            r == self.spec_is_leaf(),
    {
        self.is_leaf()
    }
}

/// One cell of the layout tree.
pub struct Frame {
    /// Surface bound to this frame; the sentinel unless the frame is a leaf.
    pub sid: SurfaceId,
    pub mode: Mode,
    pub geometry: Geometry,
    /// Top-left corner, in the coordinate system of the parent frame.
    pub pos: Position,
    pub size: Size,
    /// Tiled frames are sized by the parent's geometry; unanchored ones float.
    pub anchored: bool,
    /// Owned children, front first in spatial (layout) order.
    pub spatial: Vec<Frame>,
    /// The same children as indices into `spatial`, most recently used first.
    pub temporal: Vec<usize>,
}

/// Mathematical model of a subtree.
#[verifier::ext_equal]
pub struct FrameView {
    pub sid: SurfaceId,
    pub mode: Mode,
    pub geometry: Geometry,
    pub pos: Position,
    pub size: Size,
    pub anchored: bool,
    pub spatial: Seq<FrameView>,
    pub temporal: Seq<usize>,
}

/// The model of a frame: attributes as they stand, children as models.
pub open spec fn view_of(f: Frame) -> FrameView
    decreases f,
{
    FrameView {
        sid: f.sid,
        mode: f.mode,
        geometry: f.geometry,
        pos: f.pos,
        size: f.size,
        anchored: f.anchored,
        spatial: Seq::new(
            f.spatial@.len(),
            |i: int|
                if 0 <= i < f.spatial@.len() {
                    view_of(f.spatial@[i])
                } else {
                    vstd::pervasive::arbitrary()
                },
        ),
        temporal: f.temporal@,
    }
}

impl View for Frame {
    type V = FrameView;

    open spec fn view(&self) -> FrameView {
        view_of(*self)
    }
}

impl FrameView {
    /// The two sibling orders never diverge in membership: `temporal` holds
    /// every position of `spatial` exactly once.
    pub open spec fn node_wf(self) -> bool {
        &&& self.temporal.len() == self.spatial.len()
        &&& forall|k: int|
            0 <= k < self.temporal.len() ==> (#[trigger] self.temporal[k]) < self.spatial.len()
        &&& forall|k: int, l: int|
            0 <= k < l < self.temporal.len() ==> self.temporal[k] != self.temporal[l]
    }

    /// Well-formedness of the whole subtree.
    pub open spec fn wf(self) -> bool
        decreases self,
    {
        &&& self.node_wf()
        &&& forall|i: int| 0 <= i < self.spatial.len() ==> (#[trigger] self.spatial[i]).wf()
    }

    /// Whether `path` leads to a node of this subtree.
    pub open spec fn valid_path(self, path: Seq<usize>) -> bool
        decreases path.len(),
    {
        path.len() == 0 || (path[0] < self.spatial.len() && self.spatial[path[0] as int].valid_path(
            path.skip(1),
        ))
    }

    /// The node reached by following the spatial indices of `path`.
    pub open spec fn frame_at(self, path: Seq<usize>) -> FrameView
        decreases path.len(),
    {
        if path.len() == 0 {
            self
        } else if path[0] < self.spatial.len() {
            self.spatial[path[0] as int].frame_at(path.skip(1))
        } else {
            self
        }
    }

    /// This node with child `i` replaced.
    pub open spec fn with_child(self, i: int, c: FrameView) -> FrameView {
        FrameView { spatial: self.spatial.update(i, c), ..self }
    }

    /// The tree with the node at `path` replaced by `node`.
    pub open spec fn update_at(self, path: Seq<usize>, node: FrameView) -> FrameView
        decreases path.len(),
    {
        if path.len() == 0 {
            node
        } else if path[0] < self.spatial.len() {
            self.with_child(
                path[0] as int,
                self.spatial[path[0] as int].update_at(path.skip(1), node),
            )
        } else {
            self
        }
    }

    /// The temporal entry `t` after a spatial insertion at position `i`:
    /// positions at or beyond `i` move up by one.
    pub open spec fn bump(t: usize, i: int) -> usize {
        if t >= i {
            (t + 1) as usize
        } else {
            t
        }
    }

    /// A child inserted at spatial position `i`; its temporal position is the
    /// front (most recent) when `front` holds, else the back.
    pub open spec fn with_inserted(self, i: int, front: bool, c: FrameView) -> FrameView {
        let n = self.temporal.len() as int;
        FrameView {
            spatial: self.spatial.insert(i, c),
            temporal: if front {
                Seq::new(
                    (n + 1) as nat,
                    |m: int|
                        if m == 0 {
                            i as usize
                        } else {
                            FrameView::bump(self.temporal[m - 1], i)
                        },
                )
            } else {
                Seq::new(
                    (n + 1) as nat,
                    |m: int|
                        if m < n {
                            FrameView::bump(self.temporal[m], i)
                        } else {
                            i as usize
                        },
                )
            },
            ..self
        }
    }

    /// The child at spatial position `i` taken out of both sibling orders.
    pub open spec fn with_removed(self, i: int) -> FrameView {
        let dropped = self.temporal.remove_value(i as usize);
        FrameView {
            spatial: self.spatial.remove(i),
            temporal: Seq::new(
                dropped.len(),
                |k: int|
                    if dropped[k] > i {
                        (dropped[k] - 1) as usize
                    } else {
                        dropped[k]
                    },
            ),
            ..self
        }
    }

    /// Child `i` moved to the front of the temporal order; spatial order kept.
    pub open spec fn with_popped(self, i: int) -> FrameView {
        FrameView {
            temporal: self.temporal.remove_value(i as usize).insert(0, i as usize),
            ..self
        }
    }

    /// How often children `0..i` of a sibling sequence show `sid`.
    pub open spec fn seq_sid_count(s: Seq<FrameView>, sid: SurfaceId, i: int) -> nat
        decreases s, i,
    {
        if i <= 0 {
            0
        } else {
            Self::seq_sid_count(s, sid, i - 1) + (if 0 <= i - 1 < s.len() {
                s[i - 1].sid_count(sid)
            } else {
                0
            })
        }
    }

    /// How often the subtree shows `sid`.
    pub open spec fn sid_count(self, sid: SurfaceId) -> nat
        decreases self, 1int,
    {
        (if self.sid == sid {
            1nat
        } else {
            0nat
        }) + Self::seq_sid_count(self.spatial, sid, self.spatial.len() as int)
    }

    /// Every valid surface identifier appears in the tree at most once.
    pub open spec fn unique_sids(self) -> bool {
        forall|sid: SurfaceId|
            sid.spec_is_valid() ==> #[trigger] self.sid_count(sid) <= 1
    }

    /// The subtree with every position translated by `v`.
    pub open spec fn translated(self, v: Vector) -> FrameView
        decreases self,
    {
        FrameView {
            pos: self.pos.spec_moved(v),
            spatial: Seq::new(
                self.spatial.len(),
                |i: int|
                    if 0 <= i < self.spatial.len() {
                        self.spatial[i].translated(v)
                    } else {
                        self
                    },
            ),
            ..self
        }
    }
}


/// After replacing the node at `path`, that is what `frame_at` finds there.
pub proof fn lemma_update_at_frame_at(fv: FrameView, path: Seq<usize>, node: FrameView)
    requires
        fv.valid_path(path),
    ensures
        fv.update_at(path, node).valid_path(path),
        fv.update_at(path, node).frame_at(path) == node,
    decreases path.len(),
{
    if path.len() == 0 {
    } else {
        let i = path[0] as int;
        lemma_update_at_frame_at(fv.spatial[i], path.skip(1), node);
    }
}

/// A replacement deep in the tree leaves every node strictly above it with
/// its own attributes and sibling orders; only the one child slot changes.
pub proof fn lemma_update_at_keeps_prefix(fv: FrameView, p: Seq<usize>, x: FrameView, d: int)
    requires
        fv.valid_path(p),
        0 <= d < p.len(),
    ensures
        ({
            let a = fv.frame_at(p.take(d));
            let b = fv.update_at(p, x).frame_at(p.take(d));
            b.sid == a.sid && b.mode == a.mode && b.geometry == a.geometry && b.pos == a.pos
                && b.size == a.size && b.anchored == a.anchored && b.temporal == a.temporal
                && b.spatial.len() == a.spatial.len()
        }),
    decreases d,
{
    if d == 0 {
        assert(p.take(0) =~= Seq::<usize>::empty());
    } else {
        let i = p[0] as int;
        assert(p.take(d)[0] == p[0]);
        assert(p.take(d).skip(1) =~= p.skip(1).take(d - 1));
        lemma_update_at_keeps_prefix(fv.spatial[i], p.skip(1), x, d - 1);
    }
}

/// Two replacements at the same path: the second wins.
pub proof fn lemma_update_at_twice(fv: FrameView, path: Seq<usize>, a: FrameView, b: FrameView)
    requires
        fv.valid_path(path),
    ensures
        fv.update_at(path, a).update_at(path, b) == fv.update_at(path, b),
    decreases path.len(),
{
    if path.len() == 0 {
    } else {
        let i = path[0] as int;
        lemma_update_at_twice(fv.spatial[i], path.skip(1), a, b);
        let lhs = fv.update_at(path, a).update_at(path, b);
        let rhs = fv.update_at(path, b);
        assert(fv.update_at(path, a).spatial.len() == fv.spatial.len());
        assert(fv.update_at(path, a).spatial[i] == fv.spatial[i].update_at(path.skip(1), a));
        assert(lhs.spatial =~= rhs.spatial);
        assert(lhs =~= rhs);
    }
}

/// Replacing the `i`-th child of the node at `path` is replacing that node
/// by itself with the child swapped.
pub proof fn lemma_update_at_snoc(fv: FrameView, path: Seq<usize>, i: usize, x: FrameView)
    requires
        fv.valid_path(path),
        (i as int) < fv.frame_at(path).spatial.len(),
    ensures
        fv.update_at(path.push(i), x) == fv.update_at(
            path,
            fv.frame_at(path).with_child(i as int, x),
        ),
    decreases path.len(),
{
    if path.len() == 0 {
        let q = path.push(i);
        assert(q[0] == i);
        assert(q.skip(1) =~= Seq::<usize>::empty());
        assert(fv.spatial[i as int].update_at(q.skip(1), x) == x);
        assert(fv.update_at(q, x) =~= fv.with_child(i as int, x));
    } else {
        let j = path[0] as int;
        lemma_update_at_snoc(fv.spatial[j], path.skip(1), i, x);
        let q = path.push(i);
        assert(q[0] == path[0]);
        assert(q.skip(1) =~= path.skip(1).push(i));
        assert(fv.update_at(q, x).spatial =~= fv.update_at(
            path,
            fv.frame_at(path).with_child(i as int, x),
        ).spatial);
        assert(fv.update_at(q, x) =~= fv.update_at(
            path,
            fv.frame_at(path).with_child(i as int, x),
        ));
    }
}

/// View of a frame after one child was replaced in place.
pub proof fn lemma_child_update_view(pre: Frame, post: Frame, i: int, c: Frame)
    requires
        0 <= i < pre.spatial@.len(),
        post.spatial@ == pre.spatial@.update(i, c),
        post.sid == pre.sid,
        post.mode == pre.mode,
        post.geometry == pre.geometry,
        post.pos == pre.pos,
        post.size == pre.size,
        post.anchored == pre.anchored,
        post.temporal@ == pre.temporal@,
    ensures
        post@ == pre@.with_child(i, c@),
{
    assert(post@.spatial =~= pre@.spatial.update(i, c@));
    assert(post@ =~= pre@.with_child(i, c@));
}

impl Frame {
    /// Number of children.
    pub open spec fn spec_count_children(self) -> nat {
        self.spatial@.len()
    }

    pub fn count_children(&self) -> (r: usize)
        ensures
            r == self@.spatial.len(),
    {
        self.spatial.len()
    }

    pub fn get_sid(&self) -> (r: SurfaceId)
        ensures
            r == self@.sid,
    {
        self.sid
    }

    pub fn get_mode(&self) -> (r: Mode)
        ensures
            r == self@.mode,
    {
        self.mode
    }

    pub fn get_geometry(&self) -> (r: Geometry)
        ensures
            r == self@.geometry,
    {
        self.geometry
    }

    pub fn get_position(&self) -> (r: Position)
        ensures
            r == self@.pos,
    {
        self.pos
    }

    pub fn get_size(&self) -> (r: Size)
        ensures
            r == self@.size,
    {
        self.size
    }

    /// Shared access to the `i`-th spatial child.
    pub fn child(&self, i: usize) -> (r: &Frame)
        requires
            i < self@.spatial.len(),
        ensures
            r@ == self@.spatial[i as int],
    {
        &self.spatial[i]
    }

    /// Spatial position of the `k`-th most recently used child.
    pub fn temporal_at(&self, k: usize) -> (r: usize)
        requires
            k < self@.temporal.len(),
        ensures
            r == self@.temporal[k as int],
    {
        self.temporal[k]
    }

    pub fn is_anchored(&self) -> (r: bool)
        ensures
            r == self@.anchored,
    {
        self.anchored
    }

    pub fn new(
        sid: SurfaceId,
        mode: Mode,
        geometry: Geometry,
        pos: Position,
        size: Size,
        anchored: bool,
    ) -> (r: Frame)
        ensures
            r@ == (FrameView {
                sid,
                mode,
                geometry,
                pos,
                size,
                anchored,
                spatial: Seq::<FrameView>::empty(),
                temporal: Seq::<usize>::empty(),
            }),
            r@.wf(),
    {
        let r = Frame {
            sid,
            mode,
            geometry,
            pos,
            size,
            anchored,
            spatial: Vec::new(),
            temporal: Vec::new(),
        };
        proof {
            assert(r@.spatial =~= Seq::<FrameView>::empty());
            assert(r@.temporal =~= Seq::<usize>::empty());
        }
        r
    }

    /// Shared access to the node at `path`.
    pub fn frame_ref(&self, path: &Vec<usize>) -> (r: &Frame)
        requires
            self@.valid_path(path@),
        ensures
            r@ == self@.frame_at(path@),
    {
        if path.len() == 0 {
            proof {
                assert(path@.len() == 0);
            }
            self
        } else {
            let mut d: usize = 0;
            let mut cur: &Frame = self;
            proof {
                assert(path@.skip(0) =~= path@);
            }
            while d < path.len()
                invariant
                    d <= path@.len(),
                    self@.valid_path(path@),
                    cur@.valid_path(path@.skip(d as int)),
                    cur@.frame_at(path@.skip(d as int)) == self@.frame_at(path@),
                decreases path@.len() - d,
            {
                proof {
                    assert(path@.skip(d as int)[0] == path@[d as int]);
                    assert(path@.skip(d as int).skip(1) =~= path@.skip(d as int + 1));
                }
                cur = &cur.spatial[path[d]];
                d = d + 1;
            }
            proof {
                assert(path@.skip(d as int) =~= Seq::<usize>::empty());
            }
            cur
        }
    }

    /// Insert `child` as the `i`-th spatial child; temporally most recent
    /// when `front` holds, else least recent.
    pub fn insert_child(&mut self, i: usize, front: bool, child: Frame)
        requires
            i <= old(self)@.spatial.len(),
            old(self)@.node_wf(),
        ensures
            final(self)@ == old(self)@.with_inserted(i as int, front, child@),
            final(self)@.node_wf(),
    {
        let ghost pre = self@;
        let n = self.temporal.len();
        let mut k: usize = 0;
        while k < n
            invariant
                n == self.temporal@.len(),
                k <= n,
                self.spatial == old(self).spatial,
                self.sid == old(self).sid,
                self.mode == old(self).mode,
                self.geometry == old(self).geometry,
                self.pos == old(self).pos,
                self.size == old(self).size,
                self.anchored == old(self).anchored,
                pre.node_wf(),
                i <= pre.spatial.len(),
                n == pre.temporal.len(),
                forall|j: int|
                    0 <= j < k ==> #[trigger] self.temporal@[j] == (if pre.temporal[j] >= i {
                        (pre.temporal[j] + 1) as usize
                    } else {
                        pre.temporal[j]
                    }),
                forall|j: int| k <= j < n ==> #[trigger] self.temporal@[j] == pre.temporal[j],
            decreases n - k,
        {
            if self.temporal[k] >= i {
                let t = self.temporal[k];
                self.temporal.set(k, t + 1);
            }
            k = k + 1;
        }
        let ghost tb = self.temporal@;
        if front {
            self.temporal.insert(0, i);
        } else {
            self.temporal.push(i);
        }
        self.spatial.insert(i, child);
        proof {
            let post = pre.with_inserted(i as int, front, child@);
            if front {
                tb.insert_ensures(0, i);
            }
            assert(self@.spatial =~= post.spatial);
            assert(self@.temporal =~= post.temporal);
            assert(self@ =~= post);
        }
    }


    /// Position of spatial child `i` within the temporal order.
    pub(crate) fn find_temporal_slot(&self, i: usize) -> (j: usize)
        requires
            self@.node_wf(),
            i < self@.spatial.len(),
        ensures
            j < self@.temporal.len(),
            self@.temporal[j as int] == i,
            forall|k: int| 0 <= k < j ==> self@.temporal[k] != i,
    {
        let n = self.temporal.len();
        let mut j: usize = 0;
        while j < n && self.temporal[j] != i
            invariant
                n == self@.temporal.len(),
                j <= n,
                self@.node_wf(),
                i < self@.spatial.len(),
                forall|k: int| 0 <= k < j ==> self@.temporal[k] != i,
            decreases n - j,
        {
            j = j + 1;
        }
        proof {
            if j == n {
                lemma_temporal_covers(self@, i as int);
                assert(false);
            }
        }
        j
    }

    /// Take the `i`-th spatial child out of both sibling orders.
    pub fn remove_child(&mut self, i: usize) -> (r: Frame)
        requires
            i < old(self)@.spatial.len(),
            old(self)@.node_wf(),
        ensures
            final(self)@ == old(self)@.with_removed(i as int),
            final(self)@.node_wf(),
            r@ == old(self)@.spatial[i as int],
    {
        let ghost pre = self@;
        let j = self.find_temporal_slot(i);
        self.temporal.remove(j);
        let ghost dropped = self.temporal@;
        let m = self.temporal.len();
        let mut k: usize = 0;
        while k < m
            invariant
                m == self.temporal@.len(),
                k <= m,
                self.spatial == old(self).spatial,
                self.sid == old(self).sid,
                self.mode == old(self).mode,
                self.geometry == old(self).geometry,
                self.pos == old(self).pos,
                self.size == old(self).size,
                self.anchored == old(self).anchored,
                m == dropped.len(),
                forall|l: int|
                    0 <= l < k ==> #[trigger] self.temporal@[l] == (if dropped[l] > i {
                        (dropped[l] - 1) as usize
                    } else {
                        dropped[l]
                    }),
                forall|l: int| k <= l < m ==> #[trigger] self.temporal@[l] == dropped[l],
                forall|l: int| 0 <= l < m ==> dropped[l] <= pre.spatial.len(),
            decreases m - k,
        {
            if self.temporal[k] > i {
                let t = self.temporal[k];
                self.temporal.set(k, t - 1);
            }
            k = k + 1;
        }
        let r = self.spatial.remove(i);
        proof {
            let post = pre.with_removed(i as int);
            assert(dropped =~= pre.temporal.remove_value(i as usize)) by {
                lemma_first_occurrence(pre.temporal, i, j as int);
            }
            assert(self@.spatial =~= post.spatial);
            assert(self@.temporal =~= post.temporal);
            assert(self@ =~= post);
        }
        r
    }

    /// Move child `i` to the front of the temporal order.
    pub fn pop_child(&mut self, i: usize)
        requires
            i < old(self)@.spatial.len(),
            old(self)@.node_wf(),
        ensures
            final(self)@ == old(self)@.with_popped(i as int),
            final(self)@.node_wf(),
    {
        let ghost pre = self@;
        let j = self.find_temporal_slot(i);
        self.temporal.remove(j);
        self.temporal.insert(0, i);
        proof {
            let post = pre.with_popped(i as int);
            assert(pre.temporal.remove(j as int) =~= pre.temporal.remove_value(i as usize)) by {
                lemma_first_occurrence(pre.temporal, i, j as int);
            }
            assert(self@.spatial =~= post.spatial);
            assert(self@.temporal =~= post.temporal);
            assert(self@ =~= post);
        }
    }

    /// Translate this frame and, recursively, every frame below it by `v`.
    /// Positions move with two's-complement wrap-around; nothing else changes.
    pub fn move_with_contents(&mut self, vector: &Vector)
        ensures
            final(self)@ == old(self)@.translated(*vector),
        decreases *old(self),
    {
        let ghost pre = self@;
        self.pos = self.pos.moved(vector);
        let n = self.spatial.len();
        let mut i: usize = 0;
        while i < n
            invariant
                n == self.spatial@.len(),
                i <= n,
                self.sid == old(self).sid,
                self.mode == old(self).mode,
                self.geometry == old(self).geometry,
                self.size == old(self).size,
                self.anchored == old(self).anchored,
                pre == old(self)@,
                self.pos == pre.pos.spec_moved(*vector),
                self.temporal@ == old(self).temporal@,
                self.spatial@.len() == old(self).spatial@.len(),
                forall|k: int| 0 <= k < i ==> #[trigger] self.spatial@[k]@ == pre.spatial[k].translated(*vector),
                forall|k: int| i <= k < n ==> #[trigger] self.spatial@[k] == old(self).spatial@[k],
            decreases n - i,
        {
            let ghost before = self.spatial@;
            let mut child = self.spatial.remove(i);
            child.move_with_contents(vector);
            self.spatial.insert(i, child);
            proof {
                assert(self.spatial@ =~= before.update(i as int, child));
                assert(before[i as int] == old(self).spatial@[i as int]);
                assert(pre.spatial[i as int] == old(self).spatial@[i as int]@);
                assert(self.spatial@[i as int]@ == pre.spatial[i as int].translated(*vector));
                assert(forall|k: int|
                    0 <= k < i ==> #[trigger] self.spatial@[k]@ == pre.spatial[k].translated(
                        *vector,
                    ));
            }
            i = i + 1;
        }
        proof {
            assert forall|k: int| 0 <= k < n implies self@.spatial[k] == pre.translated(
                *vector,
            ).spatial[k] by {
                assert(self@.spatial[k] == self.spatial@[k]@);
            }
            assert(self@.spatial =~= pre.translated(*vector).spatial);
            assert(self@ =~= pre.translated(*vector));
        }
    }

    /// Moving by a vector and then by its opposite restores the whole
    /// subtree, overflow included.
    pub proof fn lemma_translation_round_trip(fv: FrameView, v: Vector)
        ensures
            fv.translated(v).translated(v.spec_opposite()) == fv,
        decreases fv,
    {
        crate::defs::lemma_move_round_trip(fv.pos, v);
        let back = fv.translated(v).translated(v.spec_opposite());
        assert forall|i: int| 0 <= i < fv.spatial.len() implies #[trigger] back.spatial[i]
            == fv.spatial[i] by {
            Self::lemma_translation_round_trip(fv.spatial[i], v);
        }
        assert(back.spatial =~= fv.spatial);
        assert(back =~= fv);
    }
}

/// In a well-formed node every spatial position occurs in the temporal order:
/// `temporal` is injective, as long as `spatial`, and draws its values from
/// the spatial positions, so it cannot avoid one of them.
pub(crate) proof fn lemma_temporal_covers(fv: FrameView, i: int)
    requires
        fv.node_wf(),
        0 <= i < fv.spatial.len(),
    ensures
        exists|j: int| 0 <= j < fv.temporal.len() && fv.temporal[j] == i,
{
    let s = fv.temporal;
    let n = s.len() as int;
    if forall|j: int| 0 <= j < n ==> s[j] != i {
        let t = Seq::new(s.len(), |k: int| s[k] as int);
        assert(t.no_duplicates()) by {
            assert forall|k: int, l: int|
                0 <= k < t.len() && 0 <= l < t.len() && k != l implies t[k] != t[l] by {
                if k < l {
                    assert(s[k] != s[l]);
                } else {
                    assert(s[l] != s[k]);
                }
            }
        }
        t.unique_seq_to_set();
        let range = vstd::set_lib::set_int_range(0, n);
        vstd::set_lib::lemma_int_range(0, n);
        let small = range.remove(i);
        assert(t.to_set().subset_of(small)) by {
            assert forall|v: int| t.to_set().contains(v) implies small.contains(v) by {
                let k = choose|k: int| 0 <= k < t.len() && t[k] == v;
                assert(s[k] < fv.spatial.len());
                assert(s[k] != i);
            }
        }
        assert(range.contains(i));
        vstd::set::axiom_set_remove_len(range, i);
        vstd::set::axiom_set_remove_finite(range, i);
        assert(small.len() == n - 1);
        vstd::set_lib::lemma_len_subset(t.to_set(), small);
        assert(false);
    }
}

/// A linear search that stops at the first hit finds the occurrence that
/// `remove_value` removes.
pub(crate) proof fn lemma_first_occurrence(s: Seq<usize>, v: usize, j: int)
    requires
        0 <= j < s.len(),
        s[j] == v,
        forall|k: int| 0 <= k < j ==> s[k] != v,
    ensures
        s.remove_value(v) == s.remove(j),
{
    assert(s.contains(v)) by {
        assert(s[j] == v);
    }
    s.index_of_first_ensures(v);
    let fj = s.index_of_first(v)->Some_0;
    if fj < j {
        assert(s[fj] != v);
    }
    if fj > j {
        assert(s[j] != v);
    }
}


/// The spatial and temporal sibling orders of every well-formed node hold
/// the same children: the temporal order is as long as the spatial one,
/// names no position twice, and names every spatial position.
pub proof fn lemma_sibling_orders_agree(fv: FrameView)
    requires
        fv.wf(),
    ensures
        fv.temporal.len() == fv.spatial.len(),
        fv.temporal.no_duplicates(),
        forall|i: int| 0 <= i < fv.spatial.len() ==> fv.temporal.contains(#[trigger] (i as usize)),
{
    assert(fv.temporal.no_duplicates()) by {
        assert forall|k: int, l: int|
            0 <= k < fv.temporal.len() && 0 <= l < fv.temporal.len() && k != l
            implies fv.temporal[k] != fv.temporal[l] by {
            if k < l {
                assert(fv.temporal[k] != fv.temporal[l]);
            } else {
                assert(fv.temporal[l] != fv.temporal[k]);
            }
        }
    }
    assert forall|i: int| 0 <= i < fv.spatial.len() implies fv.temporal.contains(
        #[trigger] (i as usize),
    ) by {
        lemma_temporal_covers(fv, i);
        let j = choose|j: int| 0 <= j < fv.temporal.len() && fv.temporal[j] == i;
        assert(fv.temporal[j] == i as usize);
    }
}


/// Two sibling sequences that agree below `i` show every surface equally
/// often there.
proof fn lemma_seq_sid_count_congruence(s1: Seq<FrameView>, s2: Seq<FrameView>, sid: SurfaceId, i: int)
    requires
        i <= s1.len(),
        i <= s2.len(),
        forall|j: int| 0 <= j < i ==> s1[j] == s2[j],
    ensures
        FrameView::seq_sid_count(s1, sid, i) == FrameView::seq_sid_count(s2, sid, i),
    decreases i,
{
    if i > 0 {
        lemma_seq_sid_count_congruence(s1, s2, sid, i - 1);
    }
}

/// Replacing one sibling trades its count for the replacement's.
proof fn lemma_seq_sid_count_update(s: Seq<FrameView>, k: int, c: FrameView, sid: SurfaceId, i: int)
    requires
        0 <= k < i <= s.len(),
    ensures
        FrameView::seq_sid_count(s.update(k, c), sid, i) + s[k].sid_count(sid)
            == FrameView::seq_sid_count(s, sid, i) + c.sid_count(sid),
    decreases i,
{
    if i - 1 == k {
        lemma_seq_sid_count_congruence(s.update(k, c), s, sid, i - 1);
    } else {
        lemma_seq_sid_count_update(s, k, c, sid, i - 1);
        assert(s.update(k, c)[i - 1] == s[i - 1]);
    }
}

/// A sibling's count bounds the siblings' total from below.
proof fn lemma_seq_sid_count_lower(s: Seq<FrameView>, sid: SurfaceId, k: int, i: int)
    requires
        0 <= k < i <= s.len(),
    ensures
        FrameView::seq_sid_count(s, sid, i) >= s[k].sid_count(sid),
    decreases i,
{
    if k < i - 1 {
        lemma_seq_sid_count_lower(s, sid, k, i - 1);
    }
}

/// A positive siblings' total names a sibling with a positive count.
proof fn lemma_seq_sid_count_pos(s: Seq<FrameView>, sid: SurfaceId, i: int)
    requires
        0 < i <= s.len(),
        FrameView::seq_sid_count(s, sid, i) >= 1,
    ensures
        exists|k: int| 0 <= k < i && (#[trigger] s[k]).sid_count(sid) >= 1,
    decreases i,
{
    if s[i - 1].sid_count(sid) >= 1 {
        assert(s[i - 1].sid_count(sid) >= 1);
    } else {
        assert(FrameView::seq_sid_count(s, sid, i - 1) >= 1);
        lemma_seq_sid_count_pos(s, sid, i - 1);
    }
}

/// Showing a surface and counting it agree: a subtree contains `sid`
/// exactly when its count is positive.
pub proof fn lemma_contains_sid_count(fv: FrameView, sid: SurfaceId)
    ensures
        fv.contains_sid(sid) <==> fv.sid_count(sid) >= 1,
    decreases fv,
{
    let n = fv.spatial.len() as int;
    if fv.contains_sid(sid) {
        if fv.sid != sid {
            let k = choose|k: int| 0 <= k < n && (#[trigger] fv.spatial[k]).contains_sid(sid);
            lemma_contains_sid_count(fv.spatial[k], sid);
            lemma_seq_sid_count_lower(fv.spatial, sid, k, n);
        }
    }
    if fv.sid_count(sid) >= 1 && fv.sid != sid {
        lemma_seq_sid_count_pos(fv.spatial, sid, n);
        let k = choose|k: int| 0 <= k < n && (#[trigger] fv.spatial[k]).sid_count(sid) >= 1;
        lemma_contains_sid_count(fv.spatial[k], sid);
    }
}

/// The counting backbone of sid uniqueness: a replacement deep in the tree
/// trades the replaced subtree's count for the new subtree's, for every
/// surface.
pub proof fn lemma_update_at_sid_count(fv: FrameView, p: Seq<usize>, x: FrameView, sid: SurfaceId)
    requires
        fv.valid_path(p),
    ensures
        fv.update_at(p, x).sid_count(sid) + fv.frame_at(p).sid_count(sid) == fv.sid_count(sid)
            + x.sid_count(sid),
    decreases p.len(),
{
    if p.len() == 0 {
    } else {
        let i = p[0] as int;
        lemma_update_at_sid_count(fv.spatial[i], p.skip(1), x, sid);
        let n = fv.spatial.len() as int;
        lemma_seq_sid_count_update(
            fv.spatial,
            i,
            fv.spatial[i].update_at(p.skip(1), x),
            sid,
            n,
        );
    }
}

} // verus!
