//! Geometry propagation and the single-node edits of the tree algebra.
//!
//! `homogenize` recomputes the rectangles of a node's anchored children from
//! the node's geometry; `relax` does the same recursively.  Every structural
//! edit of the tree is an `Edit` applied at the end of a path, so one
//! recursion carries all of them and one statement says what each did.

use vstd::prelude::*;

use crate::defs::{Position, Size, SurfaceAccess, SurfaceId, Vector};
use crate::frame::{lemma_child_update_view, Frame, FrameView, Geometry, Mode};

verus! {

broadcast use vstd::std_specs::vec::group_vec_axioms;

/// Top-left corner of slice `k` among `n` slices of a frame of size `s`
/// arranged by geometry `g`, relative to that frame.
pub open spec fn slice_pos(g: Geometry, s: Size, k: int, n: int) -> Position {
    match g {
        Geometry::Horizontal => Position { x: (k * (s.width as int / n)) as i64, y: 0 },
        Geometry::Vertical => Position { x: 0, y: (k * (s.height as int / n)) as i64 },
        Geometry::Stacked => Position { x: 0, y: 0 },
    }
}

/// Size of slice `k` among `n` slices: the extent along the split axis is
/// divided evenly and the remainder goes to the last slice.
pub open spec fn slice_size(g: Geometry, s: Size, k: int, n: int) -> Size {
    match g {
        Geometry::Horizontal => Size {
            width: (if k == n - 1 {
                s.width as int / n + s.width as int % n
            } else {
                s.width as int / n
            }) as u32,
            height: s.height,
        },
        Geometry::Vertical => Size {
            width: s.width,
            height: (if k == n - 1 {
                s.height as int / n + s.height as int % n
            } else {
                s.height as int / n
            }) as u32,
        },
        Geometry::Stacked => s,
    }
}

/// Every slice of a nonnegative extent stays within that extent.
proof fn lemma_slice(w: int, n: int, k: int)
    requires
        0 <= w,
        1 <= n,
        0 <= k < n,
    ensures
        0 <= w / n,
        0 <= w % n < n,
        k * (w / n) <= w,
        w / n + w % n <= w,
{
    vstd::arithmetic::div_mod::lemma_fundamental_div_mod(w, n);
    vstd::arithmetic::div_mod::lemma_div_pos_is_pos(w, n);
    vstd::arithmetic::div_mod::lemma_mod_bound(w, n);
    let q = w / n;
    let r = w % n;
    assert(k * q <= w && q + r <= w) by (nonlinear_arith)
        requires
            w == n * q + r,
            0 <= r,
            0 <= q,
            0 <= k,
            k < n,
            1 <= n,
    ;
}

/// Rectangle of slice `k`, computed executably.
fn slice_rect(g: Geometry, size: Size, k: usize, n: usize) -> (r: (Position, Size))
    requires
        0 < n,
        k < n,
    ensures
        r.0 == slice_pos(g, size, k as int, n as int),
        r.1 == slice_size(g, size, k as int, n as int),
{
    match g {
        Geometry::Horizontal => {
            let q: u64 = (size.width as u64) / (n as u64);
            let rem: u64 = (size.width as u64) % (n as u64);
            proof {
                lemma_slice(size.width as int, n as int, k as int);
            }
            let off: u64 = (k as u64) * q;
            let wk: u64 = if k == n - 1 {
                q + rem
            } else {
                q
            };
            (
                Position { x: off as i64, y: 0 },
                Size { width: wk as u32, height: size.height },
            )
        },
        Geometry::Vertical => {
            let q: u64 = (size.height as u64) / (n as u64);
            let rem: u64 = (size.height as u64) % (n as u64);
            proof {
                lemma_slice(size.height as int, n as int, k as int);
            }
            let off: u64 = (k as u64) * q;
            let hk: u64 = if k == n - 1 {
                q + rem
            } else {
                q
            };
            (
                Position { x: 0, y: off as i64 },
                Size { width: size.width, height: hk as u32 },
            )
        },
        Geometry::Stacked => (Position { x: 0, y: 0 }, size),
    }
}

impl FrameView {
    /// The node with each anchored child's rectangle recomputed from the
    /// node's geometry; unanchored children keep their rectangles.
    pub open spec fn homogenized(self) -> FrameView {
        let n = self.spatial.len() as int;
        FrameView {
            spatial: Seq::new(
                self.spatial.len(),
                |k: int|
                    if 0 <= k < n {
                        let c = self.spatial[k];
                        if c.anchored {
                            FrameView {
                                pos: slice_pos(self.geometry, self.size, k, n),
                                size: slice_size(self.geometry, self.size, k, n),
                                ..c
                            }
                        } else {
                            c
                        }
                    } else {
                        vstd::pervasive::arbitrary()
                    },
            ),
            ..self
        }
    }

    /// The subtree settled on the rectangle `pos`/`size`: the node takes the
    /// rectangle, and each anchored child, recursively, the slice its spatial
    /// position assigns to it.  Unanchored subtrees are left alone.
    pub open spec fn relaxed(self, pos: Position, size: Size) -> FrameView
        decreases self,
    {
        let n = self.spatial.len() as int;
        FrameView {
            pos,
            size,
            spatial: Seq::new(
                self.spatial.len(),
                |k: int|
                    if 0 <= k < n {
                        let c = self.spatial[k];
                        if c.anchored {
                            c.relaxed(
                                slice_pos(self.geometry, size, k, n),
                                slice_size(self.geometry, size, k, n),
                            )
                        } else {
                            c
                        }
                    } else {
                        vstd::pervasive::arbitrary()
                    },
            ),
            ..self
        }
    }
}

/// Homogenizing keeps the subtree well-formed.
proof fn lemma_homogenized_wf(fv: FrameView)
    requires
        fv.wf(),
    ensures
        fv.homogenized().wf(),
{
    let r = fv.homogenized();
    assert forall|i: int| 0 <= i < r.spatial.len() implies (#[trigger] r.spatial[i]).wf() by {
        assert(fv.spatial[i].wf());
    }
}

/// Relaxing keeps the subtree well-formed.
proof fn lemma_relaxed_wf(fv: FrameView, pos: Position, size: Size)
    requires
        fv.wf(),
    ensures
        fv.relaxed(pos, size).wf(),
    decreases fv,
{
    let r = fv.relaxed(pos, size);
    let n = fv.spatial.len() as int;
    assert forall|i: int| 0 <= i < r.spatial.len() implies (#[trigger] r.spatial[i]).wf() by {
        assert(fv.spatial[i].wf());
        if fv.spatial[i].anchored {
            lemma_relaxed_wf(
                fv.spatial[i],
                slice_pos(fv.geometry, size, i, n),
                slice_size(fv.geometry, size, i, n),
            );
        }
    }
}

/// Translating keeps the subtree well-formed.
pub(crate) proof fn lemma_translated_wf(fv: FrameView, v: Vector)
    requires
        fv.wf(),
    ensures
        fv.translated(v).wf(),
    decreases fv,
{
    let r = fv.translated(v);
    assert forall|i: int| 0 <= i < r.spatial.len() implies (#[trigger] r.spatial[i]).wf() by {
        assert(fv.spatial[i].wf());
        lemma_translated_wf(fv.spatial[i], v);
    }
}

impl Frame {
    /// Recompute the rectangles of the anchored children from this node's
    /// geometry; notify the provider of each leaf child whose rectangle
    /// changed.
    pub fn homogenize(&mut self, sa: &mut SurfaceAccess)
        requires
            old(self)@.wf(),
        ensures
            final(self)@ == old(self)@.homogenized(),
            final(self)@.wf(),
            final(sa).log@ == old(sa).log@ + homogenize_log(
                old(self)@,
                old(self)@.spatial.len() as int,
            ),
    {
        let ghost pre = self@;
        let n = self.spatial.len();
        let mut i: usize = 0;
        while i < n
            invariant
                pre == old(self)@,
                pre.wf(),
                n == self.spatial@.len(),
                n == old(self).spatial@.len(),
                n == pre.spatial.len(),
                i <= n,
                self.sid == old(self).sid,
                self.mode == old(self).mode,
                self.geometry == old(self).geometry,
                self.pos == old(self).pos,
                self.size == old(self).size,
                self.anchored == old(self).anchored,
                self.temporal@ == old(self).temporal@,
                sa.log@ == old(sa).log@ + homogenize_log(pre, i as int),
                forall|k: int|
                    0 <= k < i ==> #[trigger] self.spatial@[k]@ == pre.homogenized().spatial[k],
                forall|k: int| i <= k < n ==> #[trigger] self.spatial@[k] == old(self).spatial@[k],
            decreases n - i,
        {
            proof {
                assert(old(sa).log@ + homogenize_log(pre, 0) =~= old(sa).log@);
            }
            let rect = slice_rect(self.geometry, self.size, i, n);
            let ghost before = self.spatial@;
            let ghost log0 = sa.log@;
            let mut c = self.spatial.remove(i);
            if c.anchored {
                if (c.pos != rect.0 || c.size != rect.1) && c.mode.is_leaf() && c.sid.is_valid() {
                    sa.reconfigure(c.sid, rect.1);
                }
                c.pos = rect.0;
                c.size = rect.1;
            }
            self.spatial.insert(i, c);
            proof {
                assert(before[i as int] == old(self).spatial@[i as int]);
                assert(pre.spatial[i as int] == old(self).spatial@[i as int]@);
                assert(sa.log@ =~= log0 + homogenize_entry(pre, i as int));
                assert(sa.log@ =~= old(sa).log@ + homogenize_log(pre, i as int + 1));
                assert(self.spatial@ =~= before.update(i as int, c));
                assert(c@ == pre.homogenized().spatial[i as int]) by {
                    assert(before[i as int] == old(self).spatial@[i as int]);
                    assert(pre.spatial[i as int] == old(self).spatial@[i as int]@);
                    if !pre.spatial[i as int].anchored {
                        assert(c@ == pre.spatial[i as int]);
                    } else {
                        assert(c@ =~= FrameView {
                            pos: slice_pos(pre.geometry, pre.size, i as int, n as int),
                            size: slice_size(pre.geometry, pre.size, i as int, n as int),
                            ..pre.spatial[i as int]
                        });
                    }
                }
            }
            i = i + 1;
        }
        proof {
            assert forall|k: int| 0 <= k < n implies self@.spatial[k] == pre.homogenized().spatial[k] by {
                assert(self@.spatial[k] == self.spatial@[k]@);
            }
            assert(self@.spatial =~= pre.homogenized().spatial);
            assert(self@ =~= pre.homogenized());
            lemma_homogenized_wf(pre);
        }
    }

    /// Give this subtree the rectangle `pos`/`size` and propagate slices to
    /// the anchored children, recursively; notify the provider of each leaf
    /// whose rectangle changed.
    pub fn relax_into(&mut self, pos: Position, size: Size, sa: &mut SurfaceAccess)
        requires
            old(self)@.wf(),
        ensures
            final(self)@ == old(self)@.relaxed(pos, size),
            final(self)@.wf(),
            final(sa).log@ == old(sa).log@ + relax_log(old(self)@, pos, size),
        decreases *old(self),
    {
        let ghost pre = self@;
        if (self.pos != pos || self.size != size) && self.mode.is_leaf() && self.sid.is_valid() {
            sa.reconfigure(self.sid, size);
        }
        self.pos = pos;
        self.size = size;
        let n = self.spatial.len();
        let mut i: usize = 0;
        while i < n
            invariant
                pre == old(self)@,
                pre.wf(),
                n == self.spatial@.len(),
                n == old(self).spatial@.len(),
                n == pre.spatial.len(),
                i <= n,
                self.sid == old(self).sid,
                self.mode == old(self).mode,
                self.geometry == old(self).geometry,
                self.pos == pos,
                self.size == size,
                self.anchored == old(self).anchored,
                self.temporal@ == old(self).temporal@,
                sa.log@ == old(sa).log@ + relax_self_entry(pre, pos, size) + relax_children_log(
                    pre,
                    size,
                    i as int,
                ),
                forall|k: int|
                    0 <= k < i ==> #[trigger] self.spatial@[k]@ == pre.relaxed(pos, size).spatial[k],
                forall|k: int| i <= k < n ==> #[trigger] self.spatial@[k] == old(self).spatial@[k],
            decreases n - i,
        {
            proof {
                assert(relax_children_log(pre, size, 0) =~= Seq::<(SurfaceId, Size)>::empty());
            }
            let rect = slice_rect(self.geometry, size, i, n);
            let ghost before = self.spatial@;
            let ghost log0 = sa.log@;
            let mut c = self.spatial.remove(i);
            proof {
                assert(before[i as int] == old(self).spatial@[i as int]);
                assert(pre.spatial[i as int] == old(self).spatial@[i as int]@);
                assert(pre.spatial[i as int].wf());
            }
            if c.anchored {
                c.relax_into(rect.0, rect.1, sa);
            }
            self.spatial.insert(i, c);
            proof {
                assert(self.spatial@ =~= before.update(i as int, c));
                assert(c@ == pre.relaxed(pos, size).spatial[i as int]);
                if pre.spatial[i as int].anchored {
                    assert(sa.log@ =~= log0 + pre.spatial[i as int].relax_log_at(rect.0, rect.1));
                } else {
                    assert(sa.log@ =~= log0 + Seq::<(SurfaceId, Size)>::empty());
                }
                assert(sa.log@ =~= old(sa).log@ + relax_self_entry(pre, pos, size)
                    + relax_children_log(pre, size, i as int + 1));
            }
            i = i + 1;
        }
        proof {
            assert forall|k: int| 0 <= k < n implies self@.spatial[k] == pre.relaxed(pos, size).spatial[k] by {
                assert(self@.spatial[k] == self.spatial@[k]@);
            }
            assert(self@.spatial =~= pre.relaxed(pos, size).spatial);
            assert(self@ =~= pre.relaxed(pos, size));
            lemma_relaxed_wf(pre, pos, size);
            assert(sa.log@ =~= old(sa).log@ + relax_log(pre, pos, size));
        }
    }
}


/// A change of a node's scalar attributes leaves the model of the sibling
/// structure untouched.
proof fn lemma_scalar_view(pre: Frame, post: Frame)
    requires
        post.spatial@ == pre.spatial@,
        post.temporal@ == pre.temporal@,
    ensures
        post@.spatial == pre@.spatial,
        post@.temporal == pre@.temporal,
{
    assert(post@.spatial =~= pre@.spatial);
}

/// Well-formedness depends only on the sibling structure, so it survives any
/// change of the scalar attributes.
pub(crate) proof fn lemma_wf_same_structure(a: FrameView, b: FrameView)
    requires
        a.wf(),
        b.spatial == a.spatial,
        b.temporal == a.temporal,
    ensures
        b.wf(),
{
    assert forall|i: int| 0 <= i < b.spatial.len() implies (#[trigger] b.spatial[i]).wf() by {
        assert(a.spatial[i].wf());
    }
}

/// What a pass over one child of a homogenized node reports to the surface
/// provider: the child's surface and new size, when the child is an
/// anchored leaf whose rectangle changed.
pub open spec fn homogenize_entry(fv: FrameView, k: int) -> Seq<(SurfaceId, Size)> {
    let n = fv.spatial.len() as int;
    let c = fv.spatial[k];
    let p = slice_pos(fv.geometry, fv.size, k, n);
    let s = slice_size(fv.geometry, fv.size, k, n);
    if c.anchored && (c.pos != p || c.size != s) && c.mode.spec_is_leaf()
        && c.sid.spec_is_valid() {
        seq![(c.sid, s)]
    } else {
        Seq::<(SurfaceId, Size)>::empty()
    }
}

/// What homogenizing reports for the first `i` children, in spatial order.
pub open spec fn homogenize_log(fv: FrameView, i: int) -> Seq<(SurfaceId, Size)>
    decreases i,
{
    if i <= 0 {
        Seq::<(SurfaceId, Size)>::empty()
    } else {
        homogenize_log(fv, i - 1) + homogenize_entry(fv, i - 1)
    }
}

/// What a relaxed node reports of itself: its surface and new size when it
/// is a leaf whose rectangle changed.
pub open spec fn relax_self_entry(fv: FrameView, pos: Position, size: Size) -> Seq<
    (SurfaceId, Size),
> {
    if (fv.pos != pos || fv.size != size) && fv.mode.spec_is_leaf() && fv.sid.spec_is_valid() {
        seq![(fv.sid, size)]
    } else {
        Seq::<(SurfaceId, Size)>::empty()
    }
}

/// What a relax pass reports: one entry per leaf of the anchored subtree
/// whose rectangle changes, in spatial pre-order.
pub open spec fn relax_log(fv: FrameView, pos: Position, size: Size) -> Seq<(SurfaceId, Size)>
    decreases fv, fv.spatial.len() + 1int,
{
    relax_self_entry(fv, pos, size) + relax_children_log(fv, size, fv.spatial.len() as int)
}

/// The relax reports of the first `i` children, in spatial order.
pub open spec fn relax_children_log(fv: FrameView, size: Size, i: int) -> Seq<(SurfaceId, Size)>
    decreases fv, i,
{
    if i <= 0 {
        Seq::<(SurfaceId, Size)>::empty()
    } else {
        let n = fv.spatial.len() as int;
        relax_children_log(fv, size, i - 1) + (if 0 <= i - 1 < n && fv.spatial[i - 1].anchored {
            fv.spatial[i - 1].relax_log_at(
                slice_pos(fv.geometry, size, i - 1, n),
                slice_size(fv.geometry, size, i - 1, n),
            )
        } else {
            Seq::<(SurfaceId, Size)>::empty()
        })
    }
}

impl FrameView {
    /// `relax_log` as a method, so the recursion through a child is visibly
    /// on the child.
    pub open spec fn relax_log_at(self, pos: Position, size: Size) -> Seq<(SurfaceId, Size)>
        decreases self, self.spatial.len() + 2int,
    {
        relax_log(self, pos, size)
    }
}

/// One structural or geometric edit, applied to the node at the end of a
/// path.
pub enum Edit {
    /// Insert the frame as spatial child `0` at the given position;
    /// temporally most recent when the flag holds, else least recent.
    Insert(usize, bool, Frame),
    /// Take the spatial child at the position out of both sibling orders.
    Remove(usize),
    /// Move the spatial child at the position to the temporal front.
    PopTemporal(usize),
    SetGeometry(Geometry),
    SetAnchored(bool),
    /// Set the size and notify the provider when the node is a leaf.
    SetSize(Size),
    /// Translate the whole subtree.
    Translate(Vector),
    /// Recompute the anchored children's rectangles.
    Homogenize,
    /// Recompute the rectangles of the whole anchored subtree.
    Relax,
    /// Wrap the spatial child at the position into a fresh container with
    /// the given geometry, standing exactly where the child stood.
    RamifyChild(usize, Geometry),
    /// Collapse a redundant single-child container below this node.
    Deramify,
}

/// What an edit asks of the node it is applied to.
pub open spec fn edit_req(e: Edit, fv: FrameView) -> bool {
    match e {
        Edit::Insert(at, _front, child) => at <= fv.spatial.len() && child@.wf(),
        Edit::Remove(at) => (at as int) < fv.spatial.len(),
        Edit::PopTemporal(at) => (at as int) < fv.spatial.len(),
        Edit::RamifyChild(at, _g) => (at as int) < fv.spatial.len(),
        _ => true,
    }
}

impl FrameView {
    /// Child `i` wrapped into a fresh container that takes the child's
    /// place, rectangle and anchoring; the child moves to the container's
    /// origin.  A top child passes its top mode on to the container and
    /// becomes a container itself; a leaf stays a leaf.
    pub open spec fn ramified_child(self, i: int, g: Geometry) -> FrameView {
        let c = self.spatial[i];
        let inner = FrameView {
            mode: if c.mode.spec_is_leaf() {
                c.mode
            } else {
                Mode::Container
            },
            ..c
        }.translated(c.pos.spec_to_origin());
        let host = FrameView {
            sid: SurfaceId { value: 0 },
            mode: if c.mode.spec_is_top() {
                c.mode
            } else {
                Mode::Container
            },
            geometry: g,
            pos: c.pos,
            size: c.size,
            anchored: true,
            spatial: seq![inner],
            temporal: seq![0usize],
        };
        self.with_child(i, host)
    }

    /// A redundant single-child container below this node collapsed: a sole
    /// grandchild is hoisted into this node; a sole childless leaf child of a
    /// non-top node is absorbed into it.
    pub open spec fn deramified(self) -> FrameView {
        if self.spatial.len() == 1 {
            let c = self.spatial[0];
            if c.spatial.len() == 1 {
                FrameView { spatial: seq![c.spatial[0]], temporal: seq![0usize], ..self }
            } else if c.spatial.len() == 0 && c.mode.spec_is_leaf() && !self.mode.spec_is_top() {
                FrameView {
                    mode: c.mode,
                    sid: c.sid,
                    spatial: Seq::<FrameView>::empty(),
                    temporal: Seq::<usize>::empty(),
                    ..self
                }
            } else {
                self
            }
        } else {
            self
        }
    }
}

/// What an edit does to the node it is applied to.
pub open spec fn edit_spec(fv: FrameView, e: Edit) -> FrameView {
    match e {
        Edit::Insert(at, front, child) => fv.with_inserted(at as int, front, child@),
        Edit::Remove(at) => fv.with_removed(at as int),
        Edit::PopTemporal(at) => fv.with_popped(at as int),
        Edit::SetGeometry(g) => FrameView { geometry: g, ..fv },
        Edit::SetAnchored(a) => FrameView { anchored: a, ..fv },
        Edit::SetSize(s) => FrameView { size: s, ..fv },
        Edit::Translate(v) => fv.translated(v),
        Edit::Homogenize => fv.homogenized(),
        Edit::Relax => fv.relaxed(fv.pos, fv.size),
        Edit::RamifyChild(at, g) => fv.ramified_child(at as int, g),
        Edit::Deramify => fv.deramified(),
    }
}

/// What an edit reports to the surface provider: a new size for the edited
/// leaf, the changed anchored leaf children of a homogenized node, the
/// changed leaves of a relaxed anchored subtree in spatial pre-order, and
/// nothing for the purely structural edits.
pub open spec fn edit_log(fv: FrameView, e: Edit) -> Seq<(SurfaceId, Size)> {
    match e {
        Edit::SetSize(s) => if fv.mode.spec_is_leaf() && fv.sid.spec_is_valid() {
            seq![(fv.sid, s)]
        } else {
            Seq::<(SurfaceId, Size)>::empty()
        },
        Edit::Homogenize => homogenize_log(fv, fv.spatial.len() as int),
        Edit::Relax => relax_log(fv, fv.pos, fv.size),
        _ => Seq::<(SurfaceId, Size)>::empty(),
    }
}

/// Whether the edit hands a removed subtree back.
pub open spec fn edit_removes(e: Edit) -> bool {
    e is Remove
}

/// The spatial position a removing edit takes its subtree from.
pub open spec fn edit_remove_at(e: Edit) -> int {
    match e {
        Edit::Remove(at) => at as int,
        _ => 0,
    }
}

/// Inserting a well-formed subtree keeps the node well-formed.
proof fn lemma_insert_wf(fv: FrameView, at: int, front: bool, c: FrameView)
    requires
        fv.wf(),
        c.wf(),
        0 <= at <= fv.spatial.len(),
        fv.spatial.len() <= usize::MAX,
    ensures
        fv.with_inserted(at, front, c).wf(),
{
    let r = fv.with_inserted(at, front, c);
    let n = fv.temporal.len() as int;
    assert(r.node_wf()) by {
        assert forall|k: int, l: int|
            0 <= k < l < r.temporal.len() implies r.temporal[k] != r.temporal[l] by {
            if front {
                if k > 0 {
                    assert(fv.temporal[k - 1] != fv.temporal[l - 1]);
                    assert(fv.temporal[k - 1] < fv.spatial.len());
                }
                assert(fv.temporal[l - 1] < fv.spatial.len());
            } else {
                if l < n {
                    assert(fv.temporal[k] != fv.temporal[l]);
                }
                assert(fv.temporal[k] < fv.spatial.len());
            }
        }
        assert forall|k: int|
            0 <= k < r.temporal.len() implies (#[trigger] r.temporal[k]) < r.spatial.len() by {
            if front {
                if k > 0 {
                    assert(fv.temporal[k - 1] < fv.spatial.len());
                }
            } else {
                if k < n {
                    assert(fv.temporal[k] < fv.spatial.len());
                }
            }
        }
    }
    assert forall|i: int| 0 <= i < r.spatial.len() implies (#[trigger] r.spatial[i]).wf() by {
        if i < at {
            assert(r.spatial[i] == fv.spatial[i]);
        } else if i == at {
            assert(r.spatial[i] == c);
        } else {
            assert(r.spatial[i] == fv.spatial[i - 1]);
        }
    }
}

/// Removing a child keeps the node well-formed.
proof fn lemma_remove_wf(fv: FrameView, at: int)
    requires
        fv.wf(),
        0 <= at < fv.spatial.len(),
    ensures
        fv.with_removed(at).wf(),
{
    let r = fv.with_removed(at);
    crate::frame::lemma_temporal_covers(fv, at);
    let j = choose|j: int| 0 <= j < fv.temporal.len() && fv.temporal[j] == at;
    assert forall|k: int| 0 <= k < j implies fv.temporal[k] != at by {
        if k < j {
            if fv.temporal[k] == at {
                assert(fv.temporal[k] != fv.temporal[j]);
            }
        }
    }
    crate::frame::lemma_first_occurrence(fv.temporal, at as usize, j);
    let dropped = fv.temporal.remove(j);
    assert(fv.temporal.remove_value(at as usize) == dropped);
    assert(r.node_wf()) by {
        assert forall|k: int|
            0 <= k < r.temporal.len() implies (#[trigger] r.temporal[k]) < r.spatial.len() by {
            assert(dropped[k] != at);
        }
        assert forall|k: int, l: int|
            0 <= k < l < r.temporal.len() implies r.temporal[k] != r.temporal[l] by {
            assert(dropped[k] != dropped[l]);
            assert(dropped[k] != at && dropped[l] != at);
        }
    }
    assert forall|i: int| 0 <= i < r.spatial.len() implies (#[trigger] r.spatial[i]).wf() by {
        if i < at {
            assert(r.spatial[i] == fv.spatial[i]);
        } else {
            assert(r.spatial[i] == fv.spatial[i + 1]);
        }
    }
}

/// Popping a child in the temporal order keeps the node well-formed.
proof fn lemma_pop_wf(fv: FrameView, at: int)
    requires
        fv.wf(),
        0 <= at < fv.spatial.len(),
    ensures
        fv.with_popped(at).wf(),
{
    let r = fv.with_popped(at);
    crate::frame::lemma_temporal_covers(fv, at);
    let j = choose|j: int| 0 <= j < fv.temporal.len() && fv.temporal[j] == at;
    assert forall|k: int| 0 <= k < j implies fv.temporal[k] != at by {
        if fv.temporal[k] == at {
            assert(fv.temporal[k] != fv.temporal[j]);
        }
    }
    crate::frame::lemma_first_occurrence(fv.temporal, at as usize, j);
    let dropped = fv.temporal.remove(j);
    assert(fv.temporal.remove_value(at as usize) == dropped);
    dropped.insert_ensures(0, at as usize);
    assert forall|m: int| 0 <= m < dropped.len() implies (#[trigger] dropped[m]) as int != at
        && (dropped[m] as int) < fv.spatial.len() by {
        if m < j {
            assert(dropped[m] == fv.temporal[m]);
            assert(fv.temporal[m] != fv.temporal[j]);
        } else {
            assert(dropped[m] == fv.temporal[m + 1]);
            assert(fv.temporal[m + 1] != fv.temporal[j]);
        }
    }
    assert forall|m: int, p: int| 0 <= m < p < dropped.len() implies dropped[m] != dropped[p] by {
        if p < j {
            assert(fv.temporal[m] != fv.temporal[p]);
        } else if m >= j {
            assert(fv.temporal[m + 1] != fv.temporal[p + 1]);
        } else {
            assert(fv.temporal[m] != fv.temporal[p + 1]);
        }
    }
    assert(r.node_wf()) by {
        assert forall|k: int, l: int|
            0 <= k < l < r.temporal.len() implies r.temporal[k] != r.temporal[l] by {
            if k == 0 {
                assert(r.temporal[l] == dropped[l - 1]);
            } else {
                assert(r.temporal[k] == dropped[k - 1]);
                assert(r.temporal[l] == dropped[l - 1]);
            }
        }
        assert forall|k: int|
            0 <= k < r.temporal.len() implies (#[trigger] r.temporal[k]) < r.spatial.len() by {
            if k > 0 {
                assert(r.temporal[k] == dropped[k - 1]);
            }
        }
    }
    assert forall|i: int| 0 <= i < r.spatial.len() implies (#[trigger] r.spatial[i]).wf() by {
        assert(fv.spatial[i].wf());
    }
}


impl Frame {
    /// Wrap spatial child `at` into a fresh container standing exactly where
    /// the child stood; the child moves to the container's origin.
    fn ramify_child_node(&mut self, at: usize, g: Geometry)
        requires
            old(self)@.wf(),
            (at as int) < old(self)@.spatial.len(),
        ensures
            final(self)@ == old(self)@.ramified_child(at as int, g),
            final(self)@.wf(),
    {
        let ghost pre = self@;
        let ghost before = self.spatial@;
        let mut c = self.spatial.remove(at);
        let hpos = c.pos;
        let hsize = c.size;
        let hmode = if c.mode.is_top() {
            c.mode
        } else {
            Mode::Container
        };
        if !c.mode.is_leaf() {
            c.mode = Mode::Container;
        }
        let ghost cmid = c;
        proof {
            assert(cmid.spatial@ == before[at as int].spatial@);
            lemma_scalar_view(before[at as int], cmid);
            assert(cmid@ =~= FrameView {
                mode: if pre.spatial[at as int].mode.spec_is_leaf() {
                    pre.spatial[at as int].mode
                } else {
                    Mode::Container
                },
                ..pre.spatial[at as int]
            });
        }
        let v = c.pos.to_origin();
        c.move_with_contents(&v);
        let mut host = Frame::new(SurfaceId::invalid(), hmode, g, hpos, hsize, true);
        host.spatial.push(c);
        host.temporal.push(0);
        self.spatial.insert(at, host);
        proof {
            let spec_inner = FrameView {
                mode: if pre.spatial[at as int].mode.spec_is_leaf() {
                    pre.spatial[at as int].mode
                } else {
                    Mode::Container
                },
                ..pre.spatial[at as int]
            }.translated(pre.spatial[at as int].pos.spec_to_origin());
            assert(c@ == spec_inner);
            assert(host.spatial@ =~= seq![c]);
            assert(host.temporal@ =~= seq![0usize]);
            assert(host@.spatial =~= seq![c@]);
            let spec_host = FrameView {
                sid: SurfaceId { value: 0 },
                mode: if pre.spatial[at as int].mode.spec_is_top() {
                    pre.spatial[at as int].mode
                } else {
                    Mode::Container
                },
                geometry: g,
                pos: pre.spatial[at as int].pos,
                size: pre.spatial[at as int].size,
                anchored: true,
                spatial: seq![spec_inner],
                temporal: seq![0usize],
            };
            assert(host@ =~= spec_host);
            assert(self.spatial@ =~= before.update(at as int, host));
            lemma_child_update_view(*old(self), *self, at as int, host);
            assert(self@ =~= pre.ramified_child(at as int, g));
            // well-formedness: the host holds one well-formed subtree
            assert(pre.spatial[at as int].wf());
            lemma_wf_same_structure(pre.spatial[at as int], cmid@);
            lemma_translated_wf(cmid@, pre.spatial[at as int].pos.spec_to_origin());
            assert(spec_host.wf()) by {
                assert(spec_host.node_wf());
                assert forall|j: int| 0 <= j < spec_host.spatial.len() implies (
                #[trigger] spec_host.spatial[j]).wf() by {
                    assert(spec_host.spatial[j] == spec_inner);
                }
            }
            let r = pre.ramified_child(at as int, g);
            assert(r.wf()) by {
                assert forall|j: int| 0 <= j < r.spatial.len() implies (
                #[trigger] r.spatial[j]).wf() by {
                    if j == at as int {
                        assert(r.spatial[j] == spec_host);
                    } else {
                        assert(r.spatial[j] == pre.spatial[j]);
                    }
                }
            }
        }
    }

    /// Collapse a redundant single-child container below this node.
    fn deramify_node(&mut self)
        requires
            old(self)@.wf(),
        ensures
            final(self)@ == old(self)@.deramified(),
            final(self)@.wf(),
    {
        let ghost pre = self@;
        if self.spatial.len() == 1 {
            let clen = self.spatial[0].spatial.len();
            proof {
                assert(pre.spatial[0] == self.spatial@[0]@);
                assert(clen == pre.spatial[0].spatial.len());
            }
            if clen == 1 {
                let ghost before = self.spatial@;
                proof {
                    assert(pre.spatial[0] == before[0]@);
                    assert(before[0].spatial@.len() == 1);
                }
                let mut c = self.spatial.remove(0);
                let g = c.spatial.remove(0);
                self.spatial.insert(0, g);
                proof {
                    assert(pre.temporal.len() == 1);
                    assert(pre.temporal[0] < 1);
                    assert(self.temporal@ =~= seq![0usize]);
                    assert(before[0].spatial@[0]@ == pre.spatial[0].spatial[0]);
                    assert(self@.spatial =~= seq![pre.spatial[0].spatial[0]]);
                    assert(self@ =~= pre.deramified());
                    assert(pre.spatial[0].wf());
                    assert(pre.spatial[0].spatial[0].wf());
                    assert(self@.wf());
                }
            } else if clen == 0 {
                let cmode = self.spatial[0].mode;
                if cmode.is_leaf() && !self.mode.is_top() {
                    let c = self.spatial.remove(0);
                    self.mode = c.mode;
                    self.sid = c.sid;
                    self.temporal = Vec::new();
                    proof {
                        assert(self@.spatial =~= Seq::<FrameView>::empty());
                        assert(self@.temporal =~= Seq::<usize>::empty());
                        assert(self@ =~= pre.deramified());
                        assert(self@.wf());
                    }
                } else {
                    proof {
                        assert(self@ == pre);
                        assert(pre.deramified() == pre);
                    }
                }
            } else {
                proof {
                    assert(self@ == pre);
                    assert(pre.deramified() == pre);
                }
            }
        } else {
            proof {
                assert(self@ == pre);
                assert(pre.deramified() == pre);
            }
        }
    }

    /// Apply one edit to this node.
    pub fn apply_local(&mut self, e: Edit, sa: &mut SurfaceAccess) -> (r: Option<Frame>)
        requires
            old(self)@.wf(),
            edit_req(e, old(self)@),
        ensures
            final(self)@ == edit_spec(old(self)@, e),
            final(self)@.wf(),
            final(sa).log@ == old(sa).log@ + edit_log(old(self)@, e),
            edit_removes(e) ==> r is Some && r->0@ == old(self)@.spatial[edit_remove_at(e)],
            !edit_removes(e) ==> r is None,
    {
        proof {
            assert(old(sa).log@ + Seq::<(SurfaceId, Size)>::empty() =~= old(sa).log@);
        }
        let ghost pre = self@;
        match e {
            Edit::Insert(at, front, child) => {
                let n = self.spatial.len();
                proof {
                    assert(pre.spatial.len() == n);
                    lemma_insert_wf(pre, at as int, front, child@);
                }
                self.insert_child(at, front, child);
                None
            },
            Edit::Remove(at) => {
                proof {
                    lemma_remove_wf(pre, at as int);
                }
                Some(self.remove_child(at))
            },
            Edit::PopTemporal(at) => {
                proof {
                    lemma_pop_wf(pre, at as int);
                }
                self.pop_child(at);
                None
            },
            Edit::SetGeometry(g) => {
                self.geometry = g;
                proof {
                    lemma_scalar_view(*old(self), *self);
                    assert(self@ =~= (FrameView { geometry: g, ..pre }));
                    lemma_wf_same_structure(pre, self@);
                }
                None
            },
            Edit::SetAnchored(a) => {
                self.anchored = a;
                proof {
                    lemma_scalar_view(*old(self), *self);
                    assert(self@ =~= (FrameView { anchored: a, ..pre }));
                    lemma_wf_same_structure(pre, self@);
                }
                None
            },
            Edit::SetSize(s) => {
                if self.mode.is_leaf() && self.sid.is_valid() {
                    sa.reconfigure(self.sid, s);
                    proof {
                        assert(sa.log@ =~= old(sa).log@ + seq![(pre.sid, s)]);
                    }
                }
                self.size = s;
                proof {
                    lemma_scalar_view(*old(self), *self);
                    assert(self@ =~= (FrameView { size: s, ..pre }));
                    lemma_wf_same_structure(pre, self@);
                }
                None
            },
            Edit::Translate(v) => {
                self.move_with_contents(&v);
                proof {
                    lemma_translated_wf(pre, v);
                }
                None
            },
            Edit::Homogenize => {
                self.homogenize(sa);
                None
            },
            Edit::Relax => {
                let p = self.pos;
                let s = self.size;
                self.relax_into(p, s, sa);
                None
            },
            Edit::RamifyChild(at, g) => {
                self.ramify_child_node(at, g);
                None
            },
            Edit::Deramify => {
                self.deramify_node();
                None
            },
        }
    }

    /// Apply one edit to the node at the end of `path`, starting at depth
    /// `d`.  The whole tree afterwards is the old tree with exactly that node
    /// rewritten as the edit says.
    pub fn apply_at(&mut self, path: &Vec<usize>, d: usize, e: Edit, sa: &mut SurfaceAccess) -> (r:
        Option<Frame>)
        requires
            d <= path@.len(),
            old(self)@.wf(),
            old(self)@.valid_path(path@.skip(d as int)),
            edit_req(e, old(self)@.frame_at(path@.skip(d as int))),
        ensures
            final(self)@ == old(self)@.update_at(
                path@.skip(d as int),
                edit_spec(old(self)@.frame_at(path@.skip(d as int)), e),
            ),
            final(self)@.wf(),
            final(sa).log@ == old(sa).log@ + edit_log(
                old(self)@.frame_at(path@.skip(d as int)),
                e,
            ),
            edit_removes(e) ==> r is Some && r->0@ == old(self)@.frame_at(
                path@.skip(d as int),
            ).spatial[edit_remove_at(e)],
            !edit_removes(e) ==> r is None,
        decreases path@.len() - d,
    {
        if d == path.len() {
            proof {
                assert(path@.skip(d as int) =~= Seq::<usize>::empty());
            }
            self.apply_local(e, sa)
        } else {
            let ghost fv = self@;
            let ghost rest = path@.skip(d as int);
            let i = path[d];
            proof {
                assert(rest[0] == path@[d as int]);
                assert(rest.skip(1) =~= path@.skip(d as int + 1));
                assert(fv.spatial[i as int].wf());
            }
            let ghost before = self.spatial@;
            let mut child = self.spatial.remove(i);
            let r = child.apply_at(path, d + 1, e, sa);
            self.spatial.insert(i, child);
            proof {
                assert(self.spatial@ =~= before.update(i as int, child));
                lemma_child_update_view(*old(self), *self, i as int, child);
                assert(self@ == fv.update_at(rest, edit_spec(fv.frame_at(rest), e)));
                assert(self@.node_wf()) by {
                    assert(fv.node_wf());
                    assert(self@.spatial.len() == fv.spatial.len());
                    assert(self@.temporal == fv.temporal);
                }
                assert forall|j: int| 0 <= j < self@.spatial.len() implies (
                #[trigger] self@.spatial[j]).wf() by {
                    if j == i as int {
                        assert(self@.spatial[j] == child@);
                    } else {
                        assert(self@.spatial[j] == fv.spatial[j]);
                    }
                }
            }
            r
        }
    }
}


impl FrameView {
    /// The geometry invariant: every anchored child's rectangle is the one
    /// its parent's geometry assigns to its spatial position, recursively
    /// through the anchored part of the tree.
    pub open spec fn laid_out(self) -> bool
        decreases self,
    {
        let n = self.spatial.len() as int;
        forall|k: int|
            0 <= k < n ==> ((#[trigger] self.spatial[k]).anchored ==> self.spatial[k].pos
                == slice_pos(self.geometry, self.size, k, n) && self.spatial[k].size == slice_size(
                self.geometry,
                self.size,
                k,
                n,
            ) && self.spatial[k].laid_out())
    }
}

/// A relax pass establishes the geometry invariant: afterwards every
/// anchored child holds exactly the rectangle that homogenizing its parent
/// assigns to it, at every depth.
pub proof fn lemma_relax_lays_out(fv: FrameView, pos: Position, size: Size)
    ensures
        fv.relaxed(pos, size).laid_out(),
    decreases fv,
{
    let r = fv.relaxed(pos, size);
    let n = fv.spatial.len() as int;
    assert forall|k: int|
        0 <= k < n && (#[trigger] r.spatial[k]).anchored implies r.spatial[k].pos == slice_pos(
        r.geometry,
        r.size,
        k,
        n,
    ) && r.spatial[k].size == slice_size(r.geometry, r.size, k, n) && r.spatial[k].laid_out() by {
        let c = fv.spatial[k];
        if c.anchored {
            lemma_relax_lays_out(
                c,
                slice_pos(fv.geometry, size, k, n),
                slice_size(fv.geometry, size, k, n),
            );
        }
    }
}


/// Relaxing is idempotent: a second pass over an already relaxed subtree
/// changes nothing.
pub proof fn lemma_relax_idempotent(fv: FrameView, pos: Position, size: Size)
    ensures
        fv.relaxed(pos, size).relaxed(pos, size) == fv.relaxed(pos, size),
    decreases fv,
{
    let r = fv.relaxed(pos, size);
    let n = fv.spatial.len() as int;
    assert forall|k: int| 0 <= k < n implies #[trigger] r.relaxed(pos, size).spatial[k]
        == r.spatial[k] by {
        let c = fv.spatial[k];
        if c.anchored {
            lemma_relax_idempotent(
                c,
                slice_pos(fv.geometry, size, k, n),
                slice_size(fv.geometry, size, k, n),
            );
        }
    }
    assert(r.relaxed(pos, size).spatial =~= r.spatial);
    assert(r.relaxed(pos, size) =~= r);
}

} // verus!
