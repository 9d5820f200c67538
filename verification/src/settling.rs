//! The settling layer: the compound operations that preserve the tree
//! invariants across multi-step edits - settling, resettling, ramification,
//! deramification, jumping, popping, anchoring.  Every operation is a
//! composition of single-node edits, and its contract states that
//! composition exactly.

use vstd::prelude::*;

use crate::defs::{Area, Position, Size, SurfaceAccess, SurfaceId, Vector};
use crate::frame::{Frame, FrameView, Geometry, Mode, Side};
use crate::packing::{edit_spec, Edit};
use crate::searching::{
    clone_path, lemma_valid_path_drop_last, lemma_valid_path_snoc, spec_adjusted_after_remove,
    spec_is_buildable,
};

verus! {

broadcast use vstd::std_specs::vec::group_vec_axioms;

impl FrameView {
    /// The frame as `settle` places it: floating on `area` when one is given
    /// and the buildable is stacked, anchored otherwise.
    pub open spec fn spec_placed(f: FrameView, stacked: bool, area: Option<Area>) -> FrameView {
        if stacked {
            match area {
                Some(a) => FrameView {
                    anchored: false,
                    ..(FrameView { size: a.size, ..f }).translated(a.pos.spec_minus(f.pos))
                },
                None => FrameView { anchored: true, ..f },
            }
        } else {
            FrameView { anchored: true, ..f }
        }
    }

    /// The tree after `f` settled under the buildable of `target`: prepended
    /// (and possibly floating) when the buildable is stacked, appended and
    /// anchored otherwise, with the buildable relaxed afterwards.  Without a
    /// buildable nothing happens.
    pub open spec fn spec_settle(
        root: FrameView,
        f: FrameView,
        target: Seq<usize>,
        area: Option<Area>,
    ) -> FrameView {
        match root.buildable_path(target) {
            None => root,
            Some(b) => {
                let bn = root.frame_at(b);
                let stacked = bn.geometry is Stacked;
                let f2 = Self::spec_placed(f, stacked, area);
                let at = if stacked {
                    0int
                } else {
                    bn.spatial.len() as int
                };
                let t1 = root.update_at(b, bn.with_inserted(at, stacked, f2));
                t1.update_at(b, t1.frame_at(b).relaxed(bn.pos, bn.size))
            },
        }
    }

    /// Where the settled frame lands.
    pub open spec fn spec_settle_path(root: FrameView, target: Seq<usize>) -> Option<Seq<usize>> {
        match root.buildable_path(target) {
            None => None,
            Some(b) => {
                let bn = root.frame_at(b);
                Some(
                    b.push(
                        if bn.geometry is Stacked {
                            0usize
                        } else {
                            bn.spatial.len() as usize
                        },
                    ),
                )
            },
        }
    }

    /// The tree after the node at `p` left it: the old parent is deramified
    /// and relaxed.
    pub open spec fn spec_remove_self(root: FrameView, p: Seq<usize>) -> FrameView {
        let pr = p.drop_last();
        let i = p.last() as int;
        let t1 = root.update_at(pr, root.frame_at(pr).with_removed(i));
        let t2 = t1.update_at(pr, t1.frame_at(pr).deramified());
        let n2 = t2.frame_at(pr);
        t2.update_at(pr, n2.relaxed(n2.pos, n2.size))
    }

    /// What settling reports to the surface provider: the floating resize,
    /// if any, then the relax pass over the buildable.
    pub open spec fn spec_settle_log(
        root: FrameView,
        f: FrameView,
        target: Seq<usize>,
        area: Option<Area>,
    ) -> Seq<(SurfaceId, Size)> {
        match root.buildable_path(target) {
            None => Seq::<(SurfaceId, Size)>::empty(),
            Some(b) => {
                let bn = root.frame_at(b);
                let stacked = bn.geometry is Stacked;
                let f2 = Self::spec_placed(f, stacked, area);
                let at = if stacked {
                    0int
                } else {
                    bn.spatial.len() as int
                };
                let t1 = root.update_at(b, bn.with_inserted(at, stacked, f2));
                let head = if stacked && area is Some && f.mode.spec_is_leaf()
                    && f.sid.spec_is_valid() {
                    seq![(f.sid, area->Some_0.size)]
                } else {
                    Seq::<(SurfaceId, Size)>::empty()
                };
                head + crate::packing::edit_log(t1.frame_at(b), Edit::Relax)
            },
        }
    }

    /// What removing a node reports: the relax pass over the old parent.
    pub open spec fn spec_remove_self_log(root: FrameView, p: Seq<usize>) -> Seq<
        (SurfaceId, Size),
    > {
        let pr = p.drop_last();
        let i = p.last() as int;
        let t1 = root.update_at(pr, root.frame_at(pr).with_removed(i));
        let t2 = t1.update_at(pr, t1.frame_at(pr).deramified());
        crate::packing::edit_log(t2.frame_at(pr), Edit::Relax)
    }
}

impl Frame {
    /// Take the node at `p` (with its whole subtree) out of the tree, then
    /// deramify and relax the old parent.
    pub fn remove_self(&mut self, p: &Vec<usize>, sa: &mut SurfaceAccess) -> (r: Frame)
        requires
            old(self)@.wf(),
            old(self)@.valid_path(p@),
            p@.len() >= 1,
        ensures
            final(self)@ == FrameView::spec_remove_self(old(self)@, p@),
            final(self)@.wf(),
            final(self)@.valid_path(p@.drop_last()),
            r@ == old(self)@.frame_at(p@),
            final(sa).log@ == old(sa).log@ + FrameView::spec_remove_self_log(old(self)@, p@),
    {
        proof {
            assert(old(sa).log@ + Seq::<(SurfaceId, Size)>::empty() =~= old(sa).log@);
        }
        let ghost t0 = self@;
        let mut pr = clone_path(p);
        let i = match pr.pop() {
            Some(i) => i,
            None => 0,
        };
        proof {
            assert(pr@ =~= p@.drop_last());
            assert(i == p@.last());
            lemma_valid_path_drop_last(t0, p@);
            assert(p@.drop_last().skip(0) =~= p@.drop_last());
        }
        let out = self.apply_at(&pr, 0, Edit::Remove(i), sa);
        let ghost t1 = self@;
        proof {
            crate::frame::lemma_update_at_frame_at(
                t0,
                pr@,
                edit_spec(t0.frame_at(pr@), Edit::Remove(i)),
            );
        }
        self.apply_at(&pr, 0, Edit::Deramify, sa);
        let ghost t2 = self@;
        proof {
            crate::frame::lemma_update_at_frame_at(
                t1,
                pr@,
                edit_spec(t1.frame_at(pr@), Edit::Deramify),
            );
        }
        self.apply_at(&pr, 0, Edit::Relax, sa);
        proof {
            crate::frame::lemma_update_at_frame_at(
                t2,
                pr@,
                edit_spec(t2.frame_at(pr@), Edit::Relax),
            );
            assert(sa.log@ =~= old(sa).log@ + FrameView::spec_remove_self_log(t0, p@));
        }
        match out {
            Some(f) => f,
            None => {
                // a removing edit always hands the subtree back
                proof {
                    assert(false);
                }
                Frame::new(
                    SurfaceId::invalid(),
                    Mode::Container,
                    Geometry::Stacked,
                    Position { x: 0, y: 0 },
                    Size { width: 0, height: 0 },
                    true,
                )
            },
        }
    }

    /// Settle `frame` in the buildable of `target` and relax it.  With an
    /// `area` the frame settles floating on that rectangle; otherwise it is
    /// anchored.  Without a buildable the tree stays as it is and the frame
    /// is given up.  Returns where the frame landed.
    pub fn settle(
        &mut self,
        frame: Frame,
        target: &Vec<usize>,
        area: Option<Area>,
        sa: &mut SurfaceAccess,
    ) -> (r: Option<Vec<usize>>)
        requires
            old(self)@.wf(),
            old(self)@.valid_path(target@),
            frame@.wf(),
        ensures
            final(self)@ == FrameView::spec_settle(old(self)@, frame@, target@, area),
            final(self)@.wf(),
            final(sa).log@ == old(sa).log@ + FrameView::spec_settle_log(
                old(self)@,
                frame@,
                target@,
                area,
            ),
            match r {
                Some(q) => FrameView::spec_settle_path(old(self)@, target@) == Some(q@)
                    && final(self)@.valid_path(q@),
                None => FrameView::spec_settle_path(old(self)@, target@) is None,
            },
    {
        proof {
            assert(old(sa).log@ + Seq::<(SurfaceId, Size)>::empty() =~= old(sa).log@);
        }
        let ghost t0 = self@;
        let ghost fv0 = frame@;
        match self.find_buildable(target) {
            None => None,
            Some(b) => {
                let stacked = matches!(self.frame_ref(&b).geometry, Geometry::Stacked);
                let mut frame = frame;
                if stacked {
                    match area {
                        Some(a) => {
                            if frame.get_mode().is_leaf() && frame.get_sid().is_valid() {
                                sa.reconfigure(frame.get_sid(), a.size);
                            }
                            let ghost f0 = frame@;
                            frame.size = a.size;
                            proof {
                                assert(frame@.spatial =~= f0.spatial);
                                assert(frame@ =~= (FrameView { size: a.size, ..f0 }));
                                crate::packing::lemma_wf_same_structure(f0, frame@);
                            }
                            let v = a.pos.minus(&frame.pos);
                            let ghost fs = frame@;
                            frame.move_with_contents(&v);
                            let ghost f1 = frame@;
                            frame.anchored = false;
                            proof {
                                crate::packing::lemma_translated_wf(fs, v);
                                assert(frame@.spatial =~= f1.spatial);
                                assert(frame@ =~= (FrameView { anchored: false, ..f1 }));
                                crate::packing::lemma_wf_same_structure(f1, frame@);
                            }
                        },
                        None => {
                            let ghost f0 = frame@;
                            frame.anchored = true;
                            proof {
                                assert(frame@.spatial =~= f0.spatial);
                                assert(frame@ =~= (FrameView { anchored: true, ..f0 }));
                                crate::packing::lemma_wf_same_structure(f0, frame@);
                            }
                        },
                    }
                } else {
                    let ghost f0 = frame@;
                    frame.anchored = true;
                    proof {
                        assert(frame@.spatial =~= f0.spatial);
                        assert(frame@ =~= (FrameView { anchored: true, ..f0 }));
                        crate::packing::lemma_wf_same_structure(f0, frame@);
                    }
                }
                let at = if stacked {
                    0
                } else {
                    self.frame_ref(&b).count_children()
                };
                proof {
                    assert(b@.skip(0) =~= b@);
                }
                let ghost bn = t0.frame_at(b@);
                let ghost inserted = bn.with_inserted(at as int, stacked, frame@);
                self.apply_at(&b, 0, Edit::Insert(at, stacked, frame), sa);
                proof {
                    crate::frame::lemma_update_at_frame_at(t0, b@, inserted);
                }
                let ghost t1 = self@;
                self.apply_at(&b, 0, Edit::Relax, sa);
                proof {
                    crate::frame::lemma_update_at_frame_at(
                        t1,
                        b@,
                        edit_spec(t1.frame_at(b@), Edit::Relax),
                    );
                    assert(t1.frame_at(b@).pos == bn.pos && t1.frame_at(b@).size == bn.size);
                    assert(sa.log@ =~= old(sa).log@ + FrameView::spec_settle_log(
                        t0,
                        fv0,
                        target@,
                        area,
                    ));
                }
                let mut q = b;
                q.push(at);
                proof {
                    let fin = self@;
                    assert(fin.frame_at(b@).spatial.len() == inserted.spatial.len());
                    lemma_valid_path_snoc(fin, b@, at);
                }
                Some(q)
            },
        }
    }
}


impl FrameView {
    /// The tree after one temporal pop pass: from the node at `p` up to the
    /// root, each frame becomes the most recent child of its parent, and
    /// where the parent stacks its children also the frontmost.
    pub open spec fn spec_pop_recursively(root: FrameView, p: Seq<usize>) -> FrameView
        decreases p.len(),
    {
        if p.len() == 0 {
            root
        } else {
            let pr = p.drop_last();
            let i = p.last() as int;
            let node = root.frame_at(pr);
            let t1 = if node.geometry is Stacked {
                let u = root.update_at(pr, node.with_removed(i));
                u.update_at(pr, u.frame_at(pr).with_inserted(0, true, node.spatial[i]))
            } else {
                root
            };
            let ni = if node.geometry is Stacked {
                0int
            } else {
                i
            };
            let t2 = t1.update_at(pr, t1.frame_at(pr).with_popped(ni));
            Self::spec_pop_recursively(t2, pr)
        }
    }

    /// Where the popped node stands afterwards: at the spatial front below
    /// every stacked ancestor, where it was below the others.
    pub open spec fn spec_pop_path(root: FrameView, p: Seq<usize>) -> Seq<usize> {
        Seq::new(
            p.len(),
            |dd: int|
                if root.frame_at(p.take(dd)).geometry is Stacked {
                    0usize
                } else if 0 <= dd < p.len() {
                    p[dd]
                } else {
                    vstd::pervasive::arbitrary()
                },
        )
    }

    /// The tree after the node at `p` changed its geometry and homogenized.
    pub open spec fn spec_change_geometry(root: FrameView, p: Seq<usize>, g: Geometry) -> FrameView {
        let t1 = root.update_at(p, FrameView { geometry: g, ..root.frame_at(p) });
        t1.update_at(p, t1.frame_at(p).homogenized())
    }

    /// The tree after `ramify` at `p`: unchanged when the node or its parent
    /// already stands alone, else the node wrapped into a fresh container.
    pub open spec fn spec_ramify(root: FrameView, p: Seq<usize>, g: Geometry) -> FrameView {
        if root.frame_at(p).spatial.len() == 1 {
            root
        } else if root.frame_at(p.drop_last()).spatial.len() == 1 {
            root
        } else {
            root.update_at(
                p.drop_last(),
                root.frame_at(p.drop_last()).ramified_child(p.last() as int, g),
            )
        }
    }

    /// The container that `ramify` leaves in charge: the node itself when it
    /// has exactly one child, its parent when the parent does, else the
    /// fresh container standing where the node stood.
    pub open spec fn spec_ramify_path(root: FrameView, p: Seq<usize>) -> Seq<usize> {
        if root.frame_at(p).spatial.len() == 1 {
            p
        } else if root.frame_at(p.drop_last()).spatial.len() == 1 {
            p.drop_last()
        } else {
            p
        }
    }

    /// The tree after the frame at `p` jumped in on `side` of the target:
    /// before or after it among its siblings, or onto it, wrapping a leaf
    /// target into a stacked container as needed.  An orphan target (the
    /// root) makes it a no-op.
    pub open spec fn spec_jumpin(
        root: FrameView,
        f: FrameView,
        side: Side,
        t: Seq<usize>,
    ) -> FrameView {
        if t.len() == 0 {
            root
        } else {
            let pr = t.drop_last();
            let tp = root.frame_at(pr);
            match side {
                Side::Before => {
                    let t1 = root.update_at(pr, tp.with_inserted(t.last() as int, false, f));
                    t1.update_at(pr, t1.frame_at(pr).relaxed(tp.pos, tp.size))
                },
                Side::After => {
                    let t1 = root.update_at(pr, tp.with_inserted(t.last() as int + 1, false, f));
                    t1.update_at(pr, t1.frame_at(pr).relaxed(tp.pos, tp.size))
                },
                Side::On => {
                    if !tp.mode.spec_is_top() && tp.spatial.len() == 1 {
                        Self::spec_settle(root, f, pr, None)
                    } else if root.frame_at(t).mode.spec_is_leaf() {
                        let t1 = root.update_at(
                            pr,
                            tp.ramified_child(t.last() as int, Geometry::Stacked),
                        );
                        Self::spec_settle(t1, f, t, None)
                    } else {
                        Self::spec_settle(root, f, t, None)
                    }
                },
            }
        }
    }

    /// Where the jumped-in frame lands.
    pub open spec fn spec_jumpin_path(
        root: FrameView,
        side: Side,
        t: Seq<usize>,
    ) -> Option<Seq<usize>> {
        if t.len() == 0 {
            None
        } else {
            let pr = t.drop_last();
            let tp = root.frame_at(pr);
            match side {
                Side::Before => Some(t),
                Side::After => Some(pr.push((t.last() + 1) as usize)),
                Side::On => {
                    if !tp.mode.spec_is_top() && tp.spatial.len() == 1 {
                        Self::spec_settle_path(root, pr)
                    } else if root.frame_at(t).mode.spec_is_leaf() {
                        let t1 = root.update_at(
                            pr,
                            tp.ramified_child(t.last() as int, Geometry::Stacked),
                        );
                        Self::spec_settle_path(t1, t)
                    } else {
                        Self::spec_settle_path(root, t)
                    }
                },
            }
        }
    }

    /// What jumping in reports: the relax pass over the target's parent, or
    /// what the settling of the `On` case reports.
    pub open spec fn spec_jumpin_log(
        root: FrameView,
        f: FrameView,
        side: Side,
        t: Seq<usize>,
    ) -> Seq<(SurfaceId, Size)> {
        if t.len() == 0 {
            Seq::<(SurfaceId, Size)>::empty()
        } else {
            let pr = t.drop_last();
            let tp = root.frame_at(pr);
            match side {
                Side::Before => {
                    let t1 = root.update_at(pr, tp.with_inserted(t.last() as int, false, f));
                    crate::packing::edit_log(t1.frame_at(pr), Edit::Relax)
                },
                Side::After => {
                    let t1 = root.update_at(pr, tp.with_inserted(t.last() as int + 1, false, f));
                    crate::packing::edit_log(t1.frame_at(pr), Edit::Relax)
                },
                Side::On => {
                    if !tp.mode.spec_is_top() && tp.spatial.len() == 1 {
                        Self::spec_settle_log(root, f, pr, None)
                    } else if root.frame_at(t).mode.spec_is_leaf() {
                        let t1 = root.update_at(
                            pr,
                            tp.ramified_child(t.last() as int, Geometry::Stacked),
                        );
                        Self::spec_settle_log(t1, f, t, None)
                    } else {
                        Self::spec_settle_log(root, f, t, None)
                    }
                },
            }
        }
    }

    /// The tree after the node at `p` jumped to `side` of the node at `t`:
    /// it leaves the tree first, its old parent is cleaned up, and it jumps
    /// in at the target's adjusted place.  Nothing happens when the target
    /// lies inside the moved subtree or its place vanished with the cleanup.
    pub open spec fn spec_jump(
        root: FrameView,
        p: Seq<usize>,
        side: Side,
        t: Seq<usize>,
    ) -> FrameView {
        if p.is_prefix_of(t) {
            root
        } else {
            let f = root.frame_at(p);
            let c = Self::spec_remove_self(root, p);
            let t1 = spec_adjusted_after_remove(p, t);
            if !c.valid_path(t1) {
                c
            } else {
                Self::spec_jumpin(c, f, side, t1)
            }
        }
    }

    /// Where the jumped frame lands, when it lands at all.
    pub open spec fn spec_jump_path(
        root: FrameView,
        p: Seq<usize>,
        side: Side,
        t: Seq<usize>,
    ) -> Option<Seq<usize>> {
        if p.is_prefix_of(t) {
            None
        } else {
            let c = Self::spec_remove_self(root, p);
            let t1 = spec_adjusted_after_remove(p, t);
            if !c.valid_path(t1) {
                None
            } else {
                Self::spec_jumpin_path(c, side, t1)
            }
        }
    }

    /// What a jump reports: the cleanup of the old parent, then the jump-in.
    pub open spec fn spec_jump_log(
        root: FrameView,
        p: Seq<usize>,
        side: Side,
        t: Seq<usize>,
    ) -> Seq<(SurfaceId, Size)> {
        if p.is_prefix_of(t) {
            Seq::<(SurfaceId, Size)>::empty()
        } else {
            let f = root.frame_at(p);
            let c = Self::spec_remove_self(root, p);
            let t1 = spec_adjusted_after_remove(p, t);
            Self::spec_remove_self_log(root, p) + (if !c.valid_path(t1) {
                Seq::<(SurfaceId, Size)>::empty()
            } else {
                Self::spec_jumpin_log(c, f, side, t1)
            })
        }
    }

    /// The tree after the node at `p` was removed, its old parent cleaned
    /// up, and the node settled again on the buildable of the adjusted
    /// target.  Nothing more happens when the target lies inside the moved
    /// subtree or its place vanished with the cleanup.
    pub open spec fn spec_resettle(root: FrameView, p: Seq<usize>, t: Seq<usize>) -> FrameView {
        if p.is_prefix_of(t) {
            root
        } else {
            let f = root.frame_at(p);
            let c = Self::spec_remove_self(root, p);
            let t1 = spec_adjusted_after_remove(p, t);
            if !c.valid_path(t1) {
                c
            } else {
                Self::spec_settle(c, f, t1, None)
            }
        }
    }

    /// Where the resettled frame lands, when it lands at all.
    pub open spec fn spec_resettle_path(root: FrameView, p: Seq<usize>, t: Seq<usize>) -> Option<
        Seq<usize>,
    > {
        if p.is_prefix_of(t) {
            None
        } else {
            let c = Self::spec_remove_self(root, p);
            let t1 = spec_adjusted_after_remove(p, t);
            if !c.valid_path(t1) {
                None
            } else {
                Self::spec_settle_path(c, t1)
            }
        }
    }

    /// What a resettle reports: the cleanup, then the settling.
    pub open spec fn spec_resettle_log(root: FrameView, p: Seq<usize>, t: Seq<usize>) -> Seq<
        (SurfaceId, Size),
    > {
        if p.is_prefix_of(t) {
            Seq::<(SurfaceId, Size)>::empty()
        } else {
            let f = root.frame_at(p);
            let c = Self::spec_remove_self(root, p);
            let t1 = spec_adjusted_after_remove(p, t);
            Self::spec_remove_self_log(root, p) + (if !c.valid_path(t1) {
                Seq::<(SurfaceId, Size)>::empty()
            } else {
                Self::spec_settle_log(c, f, t1, None)
            })
        }
    }
}

impl Frame {
    /// Pop the node at `path`: make it and each of its ancestors the most
    /// recently used child of its parent, and the frontmost where a stacked
    /// parent is crossed.  Returns the node's path afterwards.
    pub fn pop_recursively(&mut self, path: &Vec<usize>, sa: &mut SurfaceAccess) -> (r: Vec<usize>)
        requires
            old(self)@.wf(),
            old(self)@.valid_path(path@),
        ensures
            final(self)@ == FrameView::spec_pop_recursively(old(self)@, path@),
            final(self)@.wf(),
            r@ == FrameView::spec_pop_path(old(self)@, path@),
            final(sa).log@ == old(sa).log@,
    {
        let ghost orig = self@;
        let mut q = clone_path(path);
        let mut res = clone_path(path);
        let mut d: usize = path.len();
        proof {
            assert(path@.take(path@.len() as int) =~= path@);
        }
        while d > 0
            invariant
                d <= path@.len(),
                q@ == path@.take(d as int),
                res@.len() == path@.len(),
                self@.wf(),
                self@.valid_path(path@.take(d as int)),
                sa.log@ == old(sa).log@,
                forall|dd: int|
                    0 <= dd <= d ==> (#[trigger] self@.frame_at(path@.take(dd))).geometry
                        == orig.frame_at(path@.take(dd)).geometry,
                forall|dd: int| 0 <= dd < d ==> #[trigger] res@[dd] == path@[dd],
                forall|dd: int|
                    d <= dd < path@.len() ==> #[trigger] res@[dd] == (
                    if orig.frame_at(path@.take(dd)).geometry is Stacked {
                        0usize
                    } else {
                        path@[dd]
                    }),
                FrameView::spec_pop_recursively(orig, path@) == FrameView::spec_pop_recursively(
                    self@,
                    path@.take(d as int),
                ),
            decreases d,
        {
            let ghost tcur = self@;
            let ghost cur = path@.take(d as int);
            let i = match q.pop() {
                Some(i) => i,
                None => 0,
            };
            proof {
                assert(q@ =~= cur.drop_last());
                assert(i == cur.last());
                lemma_valid_path_drop_last(tcur, cur);
                assert(q@.skip(0) =~= q@);
                assert(path@.take(d as int).drop_last() =~= path@.take(d as int - 1));
            }
            let stacked = matches!(self.frame_ref(&q).geometry, Geometry::Stacked);
            let ghost node = tcur.frame_at(q@);
            if stacked {
                let out = self.apply_at(&q, 0, Edit::Remove(i), sa);
                let ghost u = self@;
                proof {
                    crate::frame::lemma_update_at_frame_at(
                        tcur,
                        q@,
                        edit_spec(node, Edit::Remove(i)),
                    );
                    crate::searching::lemma_frame_at_wf(tcur, cur);
                }
                let child = match out {
                    Some(c) => c,
                    None => {
                        // a removing edit always hands the subtree back
                        proof {
                            assert(false);
                        }
                        Frame::new(
                            SurfaceId::invalid(),
                            Mode::Container,
                            Geometry::Stacked,
                            Position { x: 0, y: 0 },
                            Size { width: 0, height: 0 },
                            true,
                        )
                    },
                };
                self.apply_at(&q, 0, Edit::Insert(0, true, child), sa);
                let ghost u2 = self@;
                proof {
                    crate::frame::lemma_update_at_frame_at(
                        u,
                        q@,
                        edit_spec(u.frame_at(q@), Edit::Insert(0, true, child)),
                    );
                    assert(u2.frame_at(q@).spatial.len() == node.spatial.len());
                }
                self.apply_at(&q, 0, Edit::PopTemporal(0), sa);
                proof {
                    crate::frame::lemma_update_at_frame_at(
                        u2,
                        q@,
                        edit_spec(u2.frame_at(q@), Edit::PopTemporal(0)),
                    );
                    assert(sa.log@ =~= old(sa).log@);
                    assert(self@.frame_at(q@).geometry == node.geometry);
                    assert forall|dd: int|
                        0 <= dd <= d - 1 implies (#[trigger] self@.frame_at(
                        path@.take(dd),
                    )).geometry == orig.frame_at(path@.take(dd)).geometry by {
                        if dd < d - 1 {
                            assert(q@.take(dd) =~= path@.take(dd));
                            crate::frame::lemma_update_at_keeps_prefix(
                                tcur,
                                q@,
                                edit_spec(node, Edit::Remove(i)),
                                dd,
                            );
                            crate::frame::lemma_update_at_keeps_prefix(
                                u,
                                q@,
                                edit_spec(u.frame_at(q@), Edit::Insert(0, true, child)),
                                dd,
                            );
                            crate::frame::lemma_update_at_keeps_prefix(
                                u2,
                                q@,
                                edit_spec(u2.frame_at(q@), Edit::PopTemporal(0)),
                                dd,
                            );
                        }
                    }
                }
                res.set(d - 1, 0);
                proof {
                    assert(orig.frame_at(path@.take(d as int - 1)).geometry is Stacked);
                }
            } else {
                self.apply_at(&q, 0, Edit::PopTemporal(i), sa);
                proof {
                    crate::frame::lemma_update_at_frame_at(
                        tcur,
                        q@,
                        edit_spec(node, Edit::PopTemporal(i)),
                    );
                    assert(sa.log@ =~= old(sa).log@);
                    assert(self@.frame_at(q@).geometry == node.geometry);
                    assert forall|dd: int|
                        0 <= dd <= d - 1 implies (#[trigger] self@.frame_at(
                        path@.take(dd),
                    )).geometry == orig.frame_at(path@.take(dd)).geometry by {
                        if dd < d - 1 {
                            assert(q@.take(dd) =~= path@.take(dd));
                            crate::frame::lemma_update_at_keeps_prefix(
                                tcur,
                                q@,
                                edit_spec(node, Edit::PopTemporal(i)),
                                dd,
                            );
                        }
                    }
                    assert(!(orig.frame_at(path@.take(d as int - 1)).geometry is Stacked));
                }
            }
            d = d - 1;
        }
        proof {
            assert(path@.take(0) =~= Seq::<usize>::empty());
            assert(res@ =~= FrameView::spec_pop_path(orig, path@));
        }
        res
    }

    /// Give the node at `path` the geometry `g` and homogenize it.
    pub fn change_geometry(&mut self, path: &Vec<usize>, g: Geometry, sa: &mut SurfaceAccess)
        requires
            old(self)@.wf(),
            old(self)@.valid_path(path@),
        ensures
            final(self)@ == FrameView::spec_change_geometry(old(self)@, path@, g),
            final(self)@.wf(),
            final(self)@.valid_path(path@),
            final(sa).log@ == old(sa).log@ + crate::packing::edit_log(
                old(self)@.update_at(
                    path@,
                    FrameView { geometry: g, ..old(self)@.frame_at(path@) },
                ).frame_at(path@),
                Edit::Homogenize,
            ),
    {
        proof {
            assert(old(sa).log@ + Seq::<(SurfaceId, Size)>::empty() =~= old(sa).log@);
        }
        let ghost t0 = self@;
        proof {
            assert(path@.skip(0) =~= path@);
        }
        self.apply_at(path, 0, Edit::SetGeometry(g), sa);
        let ghost t1 = self@;
        proof {
            crate::frame::lemma_update_at_frame_at(
                t0,
                path@,
                edit_spec(t0.frame_at(path@), Edit::SetGeometry(g)),
            );
        }
        self.apply_at(path, 0, Edit::Homogenize, sa);
        proof {
            crate::frame::lemma_update_at_frame_at(
                t1,
                path@,
                edit_spec(t1.frame_at(path@), Edit::Homogenize),
            );
        }
    }

    /// Ensure a dedicated container around the node at `path`, wrapping it
    /// into a fresh container with geometry `g` when neither the node nor
    /// its parent already stands alone.  Returns the container's path.
    pub fn ramify(&mut self, path: &Vec<usize>, g: Geometry) -> (r: Vec<usize>)
        requires
            old(self)@.wf(),
            old(self)@.valid_path(path@),
            path@.len() >= 1,
        ensures
            final(self)@ == FrameView::spec_ramify(old(self)@, path@, g),
            final(self)@.wf(),
            r@ == FrameView::spec_ramify_path(old(self)@, path@),
            final(self)@.valid_path(r@),
    {
        let ghost t0 = self@;
        let mut sink = crate::defs::SurfaceAccess::new();
        if self.frame_ref(path).count_children() == 1 {
            return clone_path(path);
        }
        let mut pr = clone_path(path);
        let i = match pr.pop() {
            Some(i) => i,
            None => 0,
        };
        proof {
            assert(pr@ =~= path@.drop_last());
            assert(i == path@.last());
            lemma_valid_path_drop_last(t0, path@);
        }
        if self.frame_ref(&pr).count_children() == 1 {
            return pr;
        }
        proof {
            assert(pr@.skip(0) =~= pr@);
        }
        self.apply_at(&pr, 0, Edit::RamifyChild(i, g), &mut sink);
        proof {
            crate::frame::lemma_update_at_frame_at(
                t0,
                pr@,
                edit_spec(t0.frame_at(pr@), Edit::RamifyChild(i, g)),
            );
            assert(self@.frame_at(pr@).spatial.len() == t0.frame_at(pr@).spatial.len());
            lemma_valid_path_snoc(self@, pr@, i);
            assert(pr@.push(i) =~= path@);
        }
        clone_path(path)
    }

    /// Collapse a redundant single-child container below the node at `path`.
    pub fn deramify(&mut self, path: &Vec<usize>)
        requires
            old(self)@.wf(),
            old(self)@.valid_path(path@),
        ensures
            final(self)@ == old(self)@.update_at(path@, old(self)@.frame_at(path@).deramified()),
            final(self)@.wf(),
    {
        let mut sink = crate::defs::SurfaceAccess::new();
        proof {
            assert(path@.skip(0) =~= path@);
        }
        self.apply_at(path, 0, Edit::Deramify, &mut sink);
    }

    /// Place `frame` on `side` of the node at `t`.  An orphan target (the
    /// root itself) makes this a silent no-op and the frame is given up.
    pub fn jumpin(
        &mut self,
        frame: Frame,
        side: Side,
        t: &Vec<usize>,
        sa: &mut SurfaceAccess,
    ) -> (r: Option<Vec<usize>>)
        requires
            old(self)@.wf(),
            old(self)@.valid_path(t@),
            frame@.wf(),
        ensures
            final(self)@ == FrameView::spec_jumpin(old(self)@, frame@, side, t@),
            final(self)@.wf(),
            final(sa).log@ == old(sa).log@ + FrameView::spec_jumpin_log(
                old(self)@,
                frame@,
                side,
                t@,
            ),
            match r {
                Some(q) => FrameView::spec_jumpin_path(old(self)@, side, t@) == Some(q@),
                None => FrameView::spec_jumpin_path(old(self)@, side, t@) is None,
            },
    {
        proof {
            assert(old(sa).log@ + Seq::<(SurfaceId, Size)>::empty() =~= old(sa).log@);
        }
        let ghost t0 = self@;
        let ghost fv0 = frame@;
        if t.len() == 0 {
            return None;
        }
        let mut pr = clone_path(t);
        let i = match pr.pop() {
            Some(i) => i,
            None => 0,
        };
        proof {
            assert(pr@ =~= t@.drop_last());
            assert(i == t@.last());
            lemma_valid_path_drop_last(t0, t@);
            assert(pr@.skip(0) =~= pr@);
        }
        let nc = self.frame_ref(&pr).count_children();
        match side {
            Side::Before | Side::After => {
                proof {
                    assert(i < nc);
                }
                let at = if matches!(side, Side::Before) {
                    i
                } else {
                    i + 1
                };
                let ghost tp = t0.frame_at(pr@);
                let ghost fv_frame = frame@;
                self.apply_at(&pr, 0, Edit::Insert(at, false, frame), sa);
                let ghost t1 = self@;
                proof {
                    crate::frame::lemma_update_at_frame_at(
                        t0,
                        pr@,
                        tp.with_inserted(at as int, false, fv_frame),
                    );
                    assert(t1.frame_at(pr@).pos == tp.pos && t1.frame_at(pr@).size == tp.size);
                }
                self.apply_at(&pr, 0, Edit::Relax, sa);
                proof {
                    crate::frame::lemma_update_at_frame_at(
                        t1,
                        pr@,
                        edit_spec(t1.frame_at(pr@), Edit::Relax),
                    );
                    assert(sa.log@ =~= old(sa).log@ + FrameView::spec_jumpin_log(
                        t0,
                        fv0,
                        side,
                        t@,
                    ));
                }
                let mut q = pr;
                q.push(at);
                proof {
                    if matches!(side, Side::Before) {
                        assert(q@ =~= t@);
                    }
                }
                Some(q)
            },
            Side::On => {
                let tp_top = self.frame_ref(&pr).get_mode().is_top();
                let tp_count = self.frame_ref(&pr).count_children();
                if !tp_top && tp_count == 1 {
                    self.settle(frame, &pr, None, sa)
                } else if self.frame_ref(t).get_mode().is_leaf() {
                    self.apply_at(&pr, 0, Edit::RamifyChild(i, Geometry::Stacked), sa);
                    proof {
                        crate::frame::lemma_update_at_frame_at(
                            t0,
                            pr@,
                            edit_spec(
                                t0.frame_at(pr@),
                                Edit::RamifyChild(i, Geometry::Stacked),
                            ),
                        );
                        assert(self@.frame_at(pr@).spatial.len() == t0.frame_at(
                            pr@,
                        ).spatial.len());
                        lemma_valid_path_snoc(self@, pr@, i);
                        assert(pr@.push(i) =~= t@);
                    }
                    self.settle(frame, t, None, sa)
                } else {
                    self.settle(frame, t, None, sa)
                }
            },
        }
    }

    /// Remove the node at `p` from the tree and place it on `side` of the
    /// node at `t` with `jumpin`.
    pub fn jump(
        &mut self,
        p: &Vec<usize>,
        side: Side,
        t: &Vec<usize>,
        sa: &mut SurfaceAccess,
    ) -> (r: Option<Vec<usize>>)
        requires
            old(self)@.wf(),
            old(self)@.valid_path(p@),
            old(self)@.valid_path(t@),
            p@.len() >= 1,
        ensures
            final(self)@ == FrameView::spec_jump(old(self)@, p@, side, t@),
            final(self)@.wf(),
            final(sa).log@ == old(sa).log@ + FrameView::spec_jump_log(old(self)@, p@, side, t@),
            match r {
                Some(q) => FrameView::spec_jump_path(old(self)@, p@, side, t@) == Some(q@),
                None => FrameView::spec_jump_path(old(self)@, p@, side, t@) is None,
            },
    {
        proof {
            assert(old(sa).log@ + Seq::<(SurfaceId, Size)>::empty() =~= old(sa).log@);
        }
        let ghost t0 = self@;
        if crate::searching::path_is_prefix(p, t) {
            return None;
        }
        let f = self.remove_self(p, sa);
        proof {
            crate::searching::lemma_frame_at_wf(t0, p@);
        }
        let t1 = crate::searching::adjust_after_remove(p, t);
        if !self.is_valid_path(&t1) {
            proof {
                assert(sa.log@ =~= old(sa).log@ + FrameView::spec_jump_log(t0, p@, side, t@));
            }
            return None;
        }
        let r = self.jumpin(f, side, &t1, sa);
        proof {
            assert(sa.log@ =~= old(sa).log@ + FrameView::spec_jump_log(t0, p@, side, t@));
        }
        r
    }

    /// Remove the node at `p`, relax its old parent, and settle it again on
    /// the buildable of the node at `t`.
    pub fn resettle(&mut self, p: &Vec<usize>, t: &Vec<usize>, sa: &mut SurfaceAccess) -> (r:
        Option<Vec<usize>>)
        requires
            old(self)@.wf(),
            old(self)@.valid_path(p@),
            old(self)@.valid_path(t@),
            p@.len() >= 1,
        ensures
            final(self)@ == FrameView::spec_resettle(old(self)@, p@, t@),
            final(self)@.wf(),
            final(sa).log@ == old(sa).log@ + FrameView::spec_resettle_log(old(self)@, p@, t@),
            match r {
                Some(q) => FrameView::spec_resettle_path(old(self)@, p@, t@) == Some(q@),
                None => FrameView::spec_resettle_path(old(self)@, p@, t@) is None,
            },
    {
        proof {
            assert(old(sa).log@ + Seq::<(SurfaceId, Size)>::empty() =~= old(sa).log@);
        }
        let ghost t0 = self@;
        if crate::searching::path_is_prefix(p, t) {
            return None;
        }
        let f = self.remove_self(p, sa);
        proof {
            crate::searching::lemma_frame_at_wf(t0, p@);
        }
        let t1 = crate::searching::adjust_after_remove(p, t);
        if !self.is_valid_path(&t1) {
            proof {
                assert(sa.log@ =~= old(sa).log@ + FrameView::spec_resettle_log(t0, p@, t@));
            }
            return None;
        }
        let r = self.settle(f, &t1, None, sa);
        proof {
            assert(sa.log@ =~= old(sa).log@ + FrameView::spec_resettle_log(t0, p@, t@));
        }
        r
    }

    /// Remove the node at `p` from the tree, relax its old parent, and let
    /// the node go.
    pub fn destroy_self(&mut self, p: &Vec<usize>, sa: &mut SurfaceAccess)
        requires
            old(self)@.wf(),
            old(self)@.valid_path(p@),
            p@.len() >= 1,
        ensures
            final(self)@ == FrameView::spec_remove_self(old(self)@, p@),
            final(self)@.wf(),
            final(sa).log@ == old(sa).log@ + FrameView::spec_remove_self_log(old(self)@, p@),
    {
        let _ = self.remove_self(p, sa);
    }
}


impl FrameView {
    /// The tree after the floating leaf at `p` was anchored: it takes its
    /// parent's size, moves to the parent's origin and becomes tiled.
    pub open spec fn spec_anchorize(root: FrameView, p: Seq<usize>) -> FrameView {
        let node = root.frame_at(p);
        if !(node.mode.spec_is_leaf() && !node.anchored) {
            root
        } else {
            let psize = root.frame_at(p.drop_last()).size;
            let t1 = root.update_at(p, FrameView { size: psize, ..node });
            let t2 = t1.update_at(
                p,
                t1.frame_at(p).translated(t1.frame_at(p).pos.spec_to_origin()),
            );
            t2.update_at(p, FrameView { anchored: true, ..t2.frame_at(p) })
        }
    }

    /// The tree after the anchored leaf at `p` was made floating on `area`:
    /// lifted to its enclosing workspace if it was deeper, given the area's
    /// rectangle, and unanchored.
    pub open spec fn spec_deanchorize(root: FrameView, p: Seq<usize>, area: Area) -> FrameView {
        let node = root.frame_at(p);
        if !(node.mode.spec_is_leaf() && node.anchored) {
            root
        } else {
            match root.top_path(p) {
                None => root,
                Some(w) => {
                    if !(root.frame_at(w).mode is Workspace) {
                        root
                    } else if p.len() == w.len() + 1 {
                        let t1 = root.update_at(p, FrameView { size: area.size, ..node });
                        let t2 = t1.update_at(
                            p,
                            t1.frame_at(p).translated(
                                area.pos.spec_minus(t1.frame_at(p).pos),
                            ),
                        );
                        t2.update_at(p, FrameView { anchored: false, ..t2.frame_at(p) })
                    } else {
                        let c = Self::spec_remove_self(root, p);
                        if !(c.valid_path(w) && c.frame_at(w).mode is Workspace) {
                            c
                        } else {
                            let f2 = FrameView {
                                anchored: false,
                                ..(FrameView { size: area.size, ..node }).translated(
                                    area.pos.spec_minus(node.pos),
                                )
                            };
                            c.update_at(w, c.frame_at(w).with_inserted(0, true, f2))
                        }
                    }
                },
            }
        }
    }

    /// What anchoring reports: the leaf's new size, once, when its surface
    /// is valid; nothing when the call is a no-op.
    pub open spec fn spec_anchorize_log(root: FrameView, p: Seq<usize>) -> Seq<(SurfaceId, Size)> {
        let node = root.frame_at(p);
        if !(node.mode.spec_is_leaf() && !node.anchored) {
            Seq::<(SurfaceId, Size)>::empty()
        } else if node.sid.spec_is_valid() {
            seq![(node.sid, root.frame_at(p.drop_last()).size)]
        } else {
            Seq::<(SurfaceId, Size)>::empty()
        }
    }

    /// What deanchoring reports: the cleanup of the old parent when the
    /// leaf is lifted, and the leaf's new size, once, when its surface is
    /// valid; nothing when the call is a no-op.
    pub open spec fn spec_deanchorize_log(root: FrameView, p: Seq<usize>, area: Area) -> Seq<
        (SurfaceId, Size),
    > {
        let node = root.frame_at(p);
        let entry = if node.sid.spec_is_valid() {
            seq![(node.sid, area.size)]
        } else {
            Seq::<(SurfaceId, Size)>::empty()
        };
        if !(node.mode.spec_is_leaf() && node.anchored) {
            Seq::<(SurfaceId, Size)>::empty()
        } else {
            match root.top_path(p) {
                None => Seq::<(SurfaceId, Size)>::empty(),
                Some(w) => {
                    if !(root.frame_at(w).mode is Workspace) {
                        Seq::<(SurfaceId, Size)>::empty()
                    } else if p.len() == w.len() + 1 {
                        entry
                    } else {
                        let c = Self::spec_remove_self(root, p);
                        Self::spec_remove_self_log(root, p) + (if !(c.valid_path(w) && c.frame_at(
                            w,
                        ).mode is Workspace) {
                            Seq::<(SurfaceId, Size)>::empty()
                        } else {
                            entry
                        })
                    }
                },
            }
        }
    }

    /// Where the deanchored leaf stands afterwards: where it was, unless it
    /// was lifted to the front of its workspace.
    pub open spec fn spec_deanchorize_path(root: FrameView, p: Seq<usize>, area: Area) -> Seq<
        usize,
    > {
        let node = root.frame_at(p);
        if !(node.mode.spec_is_leaf() && node.anchored) {
            p
        } else {
            match root.top_path(p) {
                None => p,
                Some(w) => {
                    if !(root.frame_at(w).mode is Workspace) {
                        p
                    } else if p.len() == w.len() + 1 {
                        p
                    } else {
                        let c = Self::spec_remove_self(root, p);
                        if !(c.valid_path(w) && c.frame_at(w).mode is Workspace) {
                            w
                        } else {
                            w.push(0usize)
                        }
                    }
                },
            }
        }
    }
}

impl Frame {
    /// Anchor the floating leaf at `path`: give it its parent's size, move
    /// it to the parent's origin and mark it tiled.
    pub fn anchorize(&mut self, path: &Vec<usize>, sa: &mut SurfaceAccess)
        requires
            old(self)@.wf(),
            old(self)@.valid_path(path@),
            path@.len() >= 1,
        ensures
            final(self)@ == FrameView::spec_anchorize(old(self)@, path@),
            final(self)@.wf(),
            final(sa).log@ == old(sa).log@ + FrameView::spec_anchorize_log(old(self)@, path@),
    {
        proof {
            assert(old(sa).log@ + Seq::<(SurfaceId, Size)>::empty() =~= old(sa).log@);
        }
        let ghost t0 = self@;
        let leaf = self.frame_ref(path).get_mode().is_reanchorizable();
        let anchored = self.frame_ref(path).is_anchored();
        if !(leaf && !anchored) {
            return;
        }
        let mut pr = clone_path(path);
        let _ = pr.pop();
        proof {
            assert(pr@ =~= path@.drop_last());
            lemma_valid_path_drop_last(t0, path@);
            assert(path@.skip(0) =~= path@);
        }
        let psize = self.frame_ref(&pr).get_size();
        self.apply_at(path, 0, Edit::SetSize(psize), sa);
        let ghost t1 = self@;
        proof {
            crate::frame::lemma_update_at_frame_at(
                t0,
                path@,
                edit_spec(t0.frame_at(path@), Edit::SetSize(psize)),
            );
        }
        let v = self.frame_ref(path).get_position().to_origin();
        self.apply_at(path, 0, Edit::Translate(v), sa);
        let ghost t2 = self@;
        proof {
            crate::frame::lemma_update_at_frame_at(
                t1,
                path@,
                edit_spec(t1.frame_at(path@), Edit::Translate(v)),
            );
        }
        self.apply_at(path, 0, Edit::SetAnchored(true), sa);
        proof {
            crate::frame::lemma_update_at_frame_at(
                t2,
                path@,
                edit_spec(t2.frame_at(path@), Edit::SetAnchored(true)),
            );
            assert(final(self)@ == FrameView::spec_anchorize(t0, path@)) by {
                assert(edit_spec(t2.frame_at(path@), Edit::SetAnchored(true)) =~= (FrameView {
                    anchored: true,
                    ..t2.frame_at(path@)
                }));
            }
            assert(sa.log@ =~= old(sa).log@ + FrameView::spec_anchorize_log(t0, path@));
        }
    }

    /// Make the anchored leaf at `path` float on `area`: lift it to its
    /// enclosing workspace when it sits deeper, give it the rectangle and
    /// unanchor it.  Returns the leaf's path afterwards.
    pub fn deanchorize(&mut self, path: &Vec<usize>, area: Area, sa: &mut SurfaceAccess) -> (r:
        Vec<usize>)
        requires
            old(self)@.wf(),
            old(self)@.valid_path(path@),
            path@.len() >= 1,
        ensures
            final(self)@ == FrameView::spec_deanchorize(old(self)@, path@, area),
            final(self)@.wf(),
            final(sa).log@ == old(sa).log@ + FrameView::spec_deanchorize_log(
                old(self)@,
                path@,
                area,
            ),
            r@ == FrameView::spec_deanchorize_path(old(self)@, path@, area),
    {
        proof {
            assert(old(sa).log@ + Seq::<(SurfaceId, Size)>::empty() =~= old(sa).log@);
        }
        let ghost t0 = self@;
        let leaf = self.frame_ref(path).get_mode().is_reanchorizable();
        let anchored = self.frame_ref(path).is_anchored();
        if !(leaf && anchored) {
            return clone_path(path);
        }
        proof {
            assert(path@.skip(0) =~= path@);
        }
        let w = match self.find_top(path) {
            Some(w) => w,
            None => {
                return clone_path(path);
            },
        };
        if !self.frame_ref(&w).get_mode().is_workspace() {
            return clone_path(path);
        }
        if path.len() == w.len() + 1 {
            self.apply_at(path, 0, Edit::SetSize(area.size), sa);
            let ghost t1 = self@;
            proof {
                crate::frame::lemma_update_at_frame_at(
                    t0,
                    path@,
                    edit_spec(t0.frame_at(path@), Edit::SetSize(area.size)),
                );
            }
            let v = area.pos.minus(&self.frame_ref(path).get_position());
            self.apply_at(path, 0, Edit::Translate(v), sa);
            let ghost t2 = self@;
            proof {
                crate::frame::lemma_update_at_frame_at(
                    t1,
                    path@,
                    edit_spec(t1.frame_at(path@), Edit::Translate(v)),
                );
            }
            self.apply_at(path, 0, Edit::SetAnchored(false), sa);
            proof {
                crate::frame::lemma_update_at_frame_at(
                    t2,
                    path@,
                    edit_spec(t2.frame_at(path@), Edit::SetAnchored(false)),
                );
                assert(edit_spec(t2.frame_at(path@), Edit::SetAnchored(false)) =~= (FrameView {
                    anchored: false,
                    ..t2.frame_at(path@)
                }));
                assert(sa.log@ =~= old(sa).log@ + FrameView::spec_deanchorize_log(
                    t0,
                    path@,
                    area,
                ));
            }
            clone_path(path)
        } else {
            let ghost node = t0.frame_at(path@);
            let mut f = self.remove_self(path, sa);
            proof {
                crate::searching::lemma_frame_at_wf(t0, path@);
            }
            if !self.is_valid_path(&w) {
                proof {
                    assert(sa.log@ =~= old(sa).log@ + FrameView::spec_deanchorize_log(
                        t0,
                        path@,
                        area,
                    ));
                }
                return clone_path(&w);
            }
            if !self.frame_ref(&w).get_mode().is_workspace() {
                proof {
                    assert(sa.log@ =~= old(sa).log@ + FrameView::spec_deanchorize_log(
                        t0,
                        path@,
                        area,
                    ));
                }
                return clone_path(&w);
            }
            if f.get_mode().is_leaf() && f.get_sid().is_valid() {
                sa.reconfigure(f.get_sid(), area.size);
            }
            let ghost f0 = f@;
            f.size = area.size;
            proof {
                assert(f@.spatial =~= f0.spatial);
                assert(f@ =~= (FrameView { size: area.size, ..f0 }));
                crate::packing::lemma_wf_same_structure(f0, f@);
            }
            let v = area.pos.minus(&f.pos);
            let ghost fs = f@;
            f.move_with_contents(&v);
            let ghost f1 = f@;
            f.anchored = false;
            proof {
                crate::packing::lemma_translated_wf(fs, v);
                assert(f@.spatial =~= f1.spatial);
                assert(f@ =~= (FrameView { anchored: false, ..f1 }));
                crate::packing::lemma_wf_same_structure(f1, f@);
            }
            let ghost c = self@;
            let ghost fv_f = f@;
            proof {
                assert(w@.skip(0) =~= w@);
            }
            self.apply_at(&w, 0, Edit::Insert(0, true, f), sa);
            proof {
                crate::frame::lemma_update_at_frame_at(
                    c,
                    w@,
                    c.frame_at(w@).with_inserted(0, true, fv_f),
                );
                assert(sa.log@ =~= old(sa).log@ + FrameView::spec_deanchorize_log(
                    t0,
                    path@,
                    area,
                ));
            }
            let mut q = w;
            q.push(0);
            proof {
                assert(q@ =~= FrameView::spec_deanchorize_path(t0, path@, area));
            }
            q
        }
    }

    /// Move this frame so that its top-left corner stands at `pos`; the
    /// subtree moves with it.
    pub fn set_position(&mut self, pos: Position)
        ensures
            final(self)@ == old(self)@.translated(pos.spec_minus(old(self)@.pos)),
    {
        let v = pos.minus(&self.pos);
        self.move_with_contents(&v);
    }
}


/// Ramifying a childless anchored leaf and collapsing the synthesized
/// container restores the tree: the leaf keeps its surface, mode, rectangle,
/// anchoring and place among its siblings in both orders, and only its own
/// geometry now reads as the one the ramification was asked for.
pub proof fn lemma_ramify_deramify_restores_leaf(root: FrameView, p: Seq<usize>, g: Geometry)
    requires
        root.wf(),
        root.valid_path(p),
        p.len() >= 1,
        root.frame_at(p).mode.spec_is_leaf(),
        root.frame_at(p).spatial.len() == 0,
        root.frame_at(p).anchored,
        root.frame_at(p.drop_last()).spatial.len() != 1,
    ensures
        ({
            let r1 = FrameView::spec_ramify(root, p, g);
            let rp = FrameView::spec_ramify_path(root, p);
            r1.update_at(rp, r1.frame_at(rp).deramified()) == root.update_at(
                p,
                FrameView { geometry: g, ..root.frame_at(p) },
            )
        }),
{
    let node = root.frame_at(p);
    let pr = p.drop_last();
    let i = p.last();
    crate::searching::lemma_valid_path_drop_last(root, p);
    crate::searching::lemma_frame_at_wf(root, p);
    assert(node.temporal.len() == 0);
    let parent = root.frame_at(pr);
    let r1 = FrameView::spec_ramify(root, p, g);
    let rp = FrameView::spec_ramify_path(root, p);
    assert(rp == p);
    let host = FrameView {
        sid: SurfaceId { value: 0 },
        mode: Mode::Container,
        geometry: g,
        pos: node.pos,
        size: node.size,
        anchored: true,
        spatial: seq![
            FrameView { mode: node.mode, ..node }.translated(node.pos.spec_to_origin())
        ],
        temporal: seq![0usize],
    };
    assert(parent.ramified_child(i as int, g) == parent.with_child(i as int, host)) by {
        assert(parent.spatial[i as int] == node);
        assert(parent.ramified_child(i as int, g).spatial =~= parent.with_child(
            i as int,
            host,
        ).spatial);
        assert(parent.ramified_child(i as int, g) =~= parent.with_child(i as int, host));
    }
    crate::frame::lemma_update_at_snoc(root, pr, i, host);
    assert(pr.push(i) =~= p);
    assert(r1 == root.update_at(p, host));
    crate::frame::lemma_update_at_frame_at(root, p, host);
    assert(r1.frame_at(p) == host);
    let inner = host.spatial[0];
    assert(inner.spatial.len() == 0);
    assert(inner.mode.spec_is_leaf());
    let absorbed = host.deramified();
    assert(absorbed =~= (FrameView { geometry: g, ..node })) by {
        assert(inner.sid == node.sid);
        assert(absorbed.spatial =~= node.spatial);
        assert(absorbed.temporal =~= node.temporal);
    }
    crate::frame::lemma_update_at_twice(root, p, host, absorbed);
}

} // verus!
