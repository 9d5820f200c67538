//! Structural queries over the tree: the buildable ancestor that can host
//! new children, the enclosing top frame, locating a surface, and the path
//! arithmetic shared by the settling operations.

use vstd::prelude::*;

use crate::defs::SurfaceId;
use crate::frame::{Frame, FrameView, Geometry, Mode};

verus! {

broadcast use vstd::std_specs::vec::group_vec_axioms;

/// Copy of a path.
pub fn clone_path(p: &Vec<usize>) -> (r: Vec<usize>)
    ensures
        r@ == p@,
{
    let mut r: Vec<usize> = Vec::new();
    let mut i: usize = 0;
    while i < p.len()
        invariant
            i <= p@.len(),
            r@ == p@.take(i as int),
        decreases p@.len() - i,
    {
        r.push(p[i]);
        proof {
            assert(r@ =~= p@.take(i as int + 1));
        }
        i = i + 1;
    }
    proof {
        assert(p@.take(p@.len() as int) =~= p@);
    }
    r
}

/// A frame can host new children when it is a container or a workspace.
pub open spec fn spec_is_buildable(m: Mode) -> bool {
    m is Container || m is Workspace
}

impl FrameView {
    /// The nearest prefix of `path` (the node itself first) that leads to a
    /// container or workspace: where a settling frame may land.
    pub open spec fn buildable_path(self, path: Seq<usize>) -> Option<Seq<usize>>
        decreases path.len(),
    {
        if spec_is_buildable(self.frame_at(path).mode) {
            Some(path)
        } else if path.len() == 0 {
            None
        } else {
            self.buildable_path(path.drop_last())
        }
    }

    /// The nearest prefix of `path` that leads to a top frame.
    pub open spec fn top_path(self, path: Seq<usize>) -> Option<Seq<usize>>
        decreases path.len(),
    {
        if self.frame_at(path).mode.spec_is_top() {
            Some(path)
        } else if path.len() == 0 {
            None
        } else {
            self.top_path(path.drop_last())
        }
    }

    /// Whether a surface identifier occurs in the subtree.
    pub open spec fn contains_sid(self, sid: SurfaceId) -> bool
        decreases self,
    {
        self.sid == sid || exists|i: int|
            0 <= i < self.spatial.len() && (#[trigger] self.spatial[i]).contains_sid(sid)
    }
}

/// A prefix of a valid path is valid, and leads onwards to the same node.
pub proof fn lemma_valid_path_drop_last(fv: FrameView, p: Seq<usize>)
    requires
        fv.valid_path(p),
        p.len() > 0,
    ensures
        fv.valid_path(p.drop_last()),
        fv.frame_at(p.drop_last()).spatial.len() > p.last(),
        fv.frame_at(p.drop_last()).spatial[p.last() as int] == fv.frame_at(p),
    decreases p.len(),
{
    if p.len() == 1 {
        assert(p.drop_last() =~= Seq::<usize>::empty());
        assert(p.skip(1) =~= Seq::<usize>::empty());
        assert(p.last() == p[0]);
        assert(fv.spatial[p[0] as int].frame_at(p.skip(1)) == fv.spatial[p[0] as int]);
        assert(fv.frame_at(p) == fv.spatial[p[0] as int]);
    } else {
        let i = p[0] as int;
        lemma_valid_path_drop_last(fv.spatial[i], p.skip(1));
        assert(p.skip(1).drop_last() =~= p.drop_last().skip(1));
        assert(p.skip(1).last() == p.last());
        assert(p.drop_last()[0] == p[0]);
        assert(p.drop_last().len() > 0);
        assert(fv.frame_at(p.drop_last()) == fv.spatial[i].frame_at(p.drop_last().skip(1)));
        assert(fv.frame_at(p) == fv.spatial[i].frame_at(p.skip(1)));
    }
}

impl Frame {
    /// The nearest ancestor (the node itself first) that can host new
    /// children: the nearest container, or the enclosing workspace.
    pub fn find_buildable(&self, path: &Vec<usize>) -> (r: Option<Vec<usize>>)
        requires
            self@.valid_path(path@),
        ensures
            match r {
                Some(q) => self@.buildable_path(path@) == Some(q@) && self@.valid_path(q@)
                    && spec_is_buildable(self@.frame_at(q@).mode),
                None => self@.buildable_path(path@) is None,
            },
    {
        let mut q = clone_path(path);
        loop
            invariant
                self@.valid_path(q@),
                self@.buildable_path(path@) == self@.buildable_path(q@),
            decreases q@.len(),
        {
            let m = self.frame_ref(&q).mode;
            if matches!(m, Mode::Container | Mode::Workspace) {
                return Some(q);
            }
            if q.len() == 0 {
                return None;
            }
            proof {
                lemma_valid_path_drop_last(self@, q@);
            }
            q.pop();
        }
    }

    /// The nearest ancestor (the node itself first) that is a top frame.
    pub fn find_top(&self, path: &Vec<usize>) -> (r: Option<Vec<usize>>)
        requires
            self@.valid_path(path@),
        ensures
            match r {
                Some(q) => self@.top_path(path@) == Some(q@) && self@.valid_path(q@)
                    && self@.frame_at(q@).mode.spec_is_top() && q@.is_prefix_of(path@),
                None => self@.top_path(path@) is None,
            },
    {
        let mut q = clone_path(path);
        loop
            invariant
                self@.valid_path(q@),
                self@.top_path(path@) == self@.top_path(q@),
                q@.is_prefix_of(path@),
            decreases q@.len(),
        {
            let m = self.frame_ref(&q).mode;
            if m.is_top() {
                return Some(q);
            }
            if q.len() == 0 {
                return None;
            }
            proof {
                lemma_valid_path_drop_last(self@, q@);
                assert(q@.drop_last() =~= path@.take(q@.len() - 1));
                assert(q@.drop_last().is_prefix_of(path@));
            }
            q.pop();
        }
    }

    /// Path of the frame carrying `sid`, when the subtree holds one.
    pub fn locate_sid(&self, sid: SurfaceId) -> (r: Option<Vec<usize>>)
        ensures
            match r {
                Some(p) => self@.valid_path(p@) && self@.frame_at(p@).sid == sid,
                None => !self@.contains_sid(sid),
            },
        decreases *self,
    {
        if self.sid.value == sid.value {
            proof {
                assert(self@.frame_at(Seq::<usize>::empty()) == self@);
            }
            return Some(Vec::new());
        }
        let n = self.spatial.len();
        let mut i: usize = 0;
        while i < n
            invariant
                n == self.spatial@.len(),
                i <= n,
                self.sid != sid,
                forall|k: int| 0 <= k < i ==> !(#[trigger] self@.spatial[k]).contains_sid(sid),
            decreases n - i,
        {
            let sub = self.spatial[i].locate_sid(sid);
            match sub {
                Some(mut p) => {
                    let ghost p0 = p@;
                    p.insert(0, i);
                    proof {
                        p0.insert_ensures(0, i);
                        assert(p@[0] == i);
                        assert(p@.skip(1) =~= p0);
                        assert(self@.spatial[i as int] == self.spatial@[i as int]@);
                        assert(self@.valid_path(p@));
                        assert(self@.frame_at(p@).sid == sid);
                    }
                    return Some(p);
                },
                None => {
                    proof {
                        assert(self@.spatial[i as int] == self.spatial@[i as int]@);
                    }
                },
            }
            i = i + 1;
        }
        proof {
            assert(!self@.contains_sid(sid)) by {
                assert(self@.sid == self.sid);
            }
        }
        None
    }
}


/// Whether `a` is a prefix of `b`.
pub fn path_is_prefix(a: &Vec<usize>, b: &Vec<usize>) -> (r: bool)
    ensures
        r == a@.is_prefix_of(b@),
{
    if a.len() > b.len() {
        proof {
            assert(!a@.is_prefix_of(b@));
        }
        return false;
    }
    let mut i: usize = 0;
    while i < a.len()
        invariant
            a@.len() <= b@.len(),
            i <= a@.len(),
            forall|k: int| 0 <= k < i ==> a@[k] == b@[k],
        decreases a@.len() - i,
    {
        if a[i] != b[i] {
            proof {
                assert(a@[i as int] != b@.take(a@.len() as int)[i as int]);
            }
            return false;
        }
        i = i + 1;
    }
    proof {
        assert(a@ =~= b@.take(a@.len() as int));
    }
    true
}

/// The path `p` after the node at `r` (with its subtree) left the tree:
/// a sibling of the removed node that stood behind it moves up one place.
pub open spec fn spec_adjusted_after_remove(r: Seq<usize>, p: Seq<usize>) -> Seq<usize> {
    let k = r.len() - 1;
    if r.len() <= p.len() && r.take(k) == p.take(k) && p[k] > r[k] {
        p.update(k, (p[k] - 1) as usize)
    } else {
        p
    }
}

/// Executable form of `spec_adjusted_after_remove`.
pub fn adjust_after_remove(r: &Vec<usize>, p: &Vec<usize>) -> (q: Vec<usize>)
    requires
        r@.len() >= 1,
    ensures
        q@ == spec_adjusted_after_remove(r@, p@),
{
    let k = r.len() - 1;
    let mut q = clone_path(p);
    if r.len() <= p.len() {
        let mut same = true;
        let mut i: usize = 0;
        proof {
            assert(r@.take(0) =~= p@.take(0));
        }
        while i < k
            invariant
                k < r@.len(),
                r@.len() <= p@.len(),
                i <= k,
                same == (r@.take(i as int) == p@.take(i as int)),
            decreases k - i,
        {
            proof {
                assert(r@.take(i as int + 1).drop_last() =~= r@.take(i as int));
                assert(p@.take(i as int + 1).drop_last() =~= p@.take(i as int));
                assert(r@.take(i as int + 1).last() == r@[i as int]);
                assert(p@.take(i as int + 1).last() == p@[i as int]);
            }
            if r[i] != p[i] {
                same = false;
            }
            proof {
                if same {
                    assert(r@.take(i as int + 1) =~= p@.take(i as int + 1));
                } else {
                    if r@.take(i as int + 1) == p@.take(i as int + 1) {
                        assert(r@.take(i as int + 1)[i as int] == p@.take(i as int + 1)[i as int]);
                        assert(r@.take(i as int) =~= p@.take(i as int));
                    }
                }
            }
            i = i + 1;
        }
        if same && p[k] > r[k] {
            let v = p[k] - 1;
            q.set(k, v);
            proof {
                assert(q@ =~= p@.update(k as int, v));
            }
        }
    }
    q
}

impl Frame {
    /// Whether `p` leads to a node of this tree.
    pub fn is_valid_path(&self, p: &Vec<usize>) -> (r: bool)
        ensures
            r == self@.valid_path(p@),
    {
        let mut d: usize = 0;
        let mut cur: &Frame = self;
        proof {
            assert(p@.skip(0) =~= p@);
        }
        while d < p.len()
            invariant
                d <= p@.len(),
                self@.valid_path(p@) == cur@.valid_path(p@.skip(d as int)),
            decreases p@.len() - d,
        {
            proof {
                assert(p@.skip(d as int)[0] == p@[d as int]);
                assert(p@.skip(d as int).skip(1) =~= p@.skip(d as int + 1));
            }
            if p[d] >= cur.spatial.len() {
                return false;
            }
            cur = &cur.spatial[p[d]];
            d = d + 1;
        }
        proof {
            assert(p@.skip(d as int) =~= Seq::<usize>::empty());
        }
        true
    }
}


/// Concatenating a path inside the reached node walks on from that node.
pub proof fn lemma_valid_path_concat(fv: FrameView, p: Seq<usize>, q: Seq<usize>)
    requires
        fv.valid_path(p),
        fv.frame_at(p).valid_path(q),
    ensures
        fv.valid_path(p + q),
        fv.frame_at(p + q) == fv.frame_at(p).frame_at(q),
    decreases p.len(),
{
    if p.len() == 0 {
        assert(p + q =~= q);
    } else {
        let i = p[0] as int;
        lemma_valid_path_concat(fv.spatial[i], p.skip(1), q);
        assert((p + q)[0] == p[0]);
        assert((p + q).skip(1) =~= p.skip(1) + q);
    }
}

/// One more step at the end of a valid path stays valid.
pub proof fn lemma_valid_path_snoc(fv: FrameView, p: Seq<usize>, i: usize)
    requires
        fv.valid_path(p),
        (i as int) < fv.frame_at(p).spatial.len(),
    ensures
        fv.valid_path(p.push(i)),
        fv.frame_at(p.push(i)) == fv.frame_at(p).spatial[i as int],
{
    let q = seq![i];
    let node = fv.frame_at(p);
    let child = node.spatial[i as int];
    assert(q[0] == i);
    assert(q.skip(1) =~= Seq::<usize>::empty());
    assert(child.valid_path(Seq::<usize>::empty()));
    assert(child.frame_at(Seq::<usize>::empty()) == child);
    assert(node.valid_path(q));
    assert(node.frame_at(q) == child);
    lemma_valid_path_concat(fv, p, q);
    assert(p.push(i) =~= p + q);
}


/// A node that shows a surface witnesses that the tree contains it.
pub proof fn lemma_frame_at_sid_contains(fv: FrameView, p: Seq<usize>, sid: SurfaceId)
    requires
        fv.valid_path(p),
        fv.frame_at(p).sid == sid,
    ensures
        fv.contains_sid(sid),
    decreases p.len(),
{
    if p.len() > 0 {
        lemma_frame_at_sid_contains(fv.spatial[p[0] as int], p.skip(1), sid);
    }
}

/// A node reached by a valid path in a well-formed tree is well-formed.
pub proof fn lemma_frame_at_wf(fv: FrameView, p: Seq<usize>)
    requires
        fv.wf(),
        fv.valid_path(p),
    ensures
        fv.frame_at(p).wf(),
    decreases p.len(),
{
    if p.len() > 0 {
        lemma_frame_at_wf(fv.spatial[p[0] as int], p.skip(1));
    }
}


impl Frame {
    /// Position of the node at `path` in the coordinate system of this
    /// frame: the wrapped sum of the relative positions along the path.
    fn abs_position(&self, path: &Vec<usize>) -> (r: (i64, i64))
        requires
            self@.valid_path(path@),
    {
        let mut x: i64 = 0;
        let mut y: i64 = 0;
        let mut d: usize = 0;
        let mut cur: &Frame = self;
        proof {
            assert(path@.skip(0) =~= path@);
        }
        while d < path.len()
            invariant
                d <= path@.len(),
                cur@.valid_path(path@.skip(d as int)),
            decreases path@.len() - d,
        {
            proof {
                assert(path@.skip(d as int)[0] == path@[d as int]);
                assert(path@.skip(d as int).skip(1) =~= path@.skip(d as int + 1));
            }
            cur = &cur.spatial[path[d]];
            x = x.wrapping_add(cur.pos.x);
            y = y.wrapping_add(cur.pos.y);
            d = d + 1;
        }
        (x, y)
    }

    /// Walk from an entered frame down to the child a seeker at the given
    /// absolute coordinates would reach: along the entered axis the nearest
    /// edge, across it the child spanning the seeker, in a stack the most
    /// recent child.
    fn descend_entry(
        &self,
        seek_x: i64,
        seek_y: i64,
        abs_x: i64,
        abs_y: i64,
        horizontal: bool,
        forward: bool,
    ) -> (r: Vec<usize>)
        requires
            self@.wf(),
        ensures
            self@.valid_path(r@),
        decreases *self,
    {
        if self.mode.is_leaf() || self.spatial.len() == 0 {
            let r: Vec<usize> = Vec::new();
            return r;
        }
        let n = self.spatial.len();
        let along = match self.geometry {
            Geometry::Horizontal => horizontal,
            Geometry::Vertical => !horizontal,
            Geometry::Stacked => false,
        };
        let ci: usize = match self.geometry {
            Geometry::Stacked => self.temporal_at(0),
            Geometry::Horizontal => {
                if along {
                    if forward {
                        0
                    } else {
                        n - 1
                    }
                } else {
                    let mut pick: usize = self.temporal_at(0);
                    let mut k: usize = 0;
                    while k < n
                        invariant
                            n == self.spatial@.len(),
                            k <= n,
                            pick < n,
                        decreases n - k,
                    {
                        let cx = abs_x.wrapping_add(self.spatial[k].pos.x);
                        let cw = self.spatial[k].size.width as i64;
                        if seek_x >= cx && seek_x < cx.wrapping_add(cw) {
                            pick = k;
                        }
                        k = k + 1;
                    }
                    pick
                }
            },
            Geometry::Vertical => {
                if along {
                    if forward {
                        0
                    } else {
                        n - 1
                    }
                } else {
                    let mut pick: usize = self.temporal_at(0);
                    let mut k: usize = 0;
                    while k < n
                        invariant
                            n == self.spatial@.len(),
                            k <= n,
                            pick < n,
                        decreases n - k,
                    {
                        let cy = abs_y.wrapping_add(self.spatial[k].pos.y);
                        let ch = self.spatial[k].size.height as i64;
                        if seek_y >= cy && seek_y < cy.wrapping_add(ch) {
                            pick = k;
                        }
                        k = k + 1;
                    }
                    pick
                }
            },
        };
        let child = &self.spatial[ci];
        let cx = abs_x.wrapping_add(child.pos.x);
        let cy = abs_y.wrapping_add(child.pos.y);
        proof {
            assert(self@.spatial[ci as int] == self.spatial@[ci as int]@);
            assert(self@.spatial[ci as int].wf());
        }
        let mut rest = child.descend_entry(seek_x, seek_y, cx, cy, horizontal, forward);
        let ghost r0 = rest@;
        rest.insert(0, ci);
        proof {
            r0.insert_ensures(0, ci);
            assert(rest@[0] == ci);
            assert(rest@.skip(1) =~= r0);
        }
        rest
    }

    /// Whether the geometry lays children out along the axis of movement.
    pub open spec fn spec_axis_matches(g: Geometry, horizontal: bool) -> bool {
        match g {
            Geometry::Horizontal => horizontal,
            Geometry::Vertical => !horizontal,
            Geometry::Stacked => false,
        }
    }

    /// Whether the ancestor at depth `d` of the node at `sel` is laid out
    /// along the requested axis and offers a sibling on the requested side.
    pub open spec fn spec_neighbour_cond(
        root: FrameView,
        sel: Seq<usize>,
        horizontal: bool,
        forward: bool,
        d: int,
    ) -> bool {
        let parent = root.frame_at(sel.take(d));
        Frame::spec_axis_matches(parent.geometry, horizontal) && (if forward {
            sel[d] + 1 < parent.spatial.len()
        } else {
            sel[d] > 0
        })
    }

    /// The deepest ancestor level at or above `d` that offers a neighbour.
    pub open spec fn spec_neighbour_level(
        root: FrameView,
        sel: Seq<usize>,
        horizontal: bool,
        forward: bool,
        d: int,
    ) -> Option<int>
        decreases d + 1int,
    {
        if d < 0 {
            None
        } else if Frame::spec_neighbour_cond(root, sel, horizontal, forward, d) {
            Some(d)
        } else {
            Frame::spec_neighbour_level(root, sel, horizontal, forward, d - 1)
        }
    }

    /// A found neighbour path passes through the sibling on the requested
    /// side of the deepest ancestor level that offers one.
    pub open spec fn spec_neighbour_result_ok(
        root: FrameView,
        sel: Seq<usize>,
        horizontal: bool,
        forward: bool,
        q: Seq<usize>,
    ) -> bool {
        match Frame::spec_neighbour_level(root, sel, horizontal, forward, sel.len() - 1) {
            None => false,
            Some(d) => q.take(d + 1) == sel.take(d).push(
                if forward {
                    (sel[d] + 1) as usize
                } else {
                    (sel[d] - 1) as usize
                },
            ),
        }
    }

    /// The spatial neighbour of the node at `sel` in the given direction:
    /// ascend until a parent laid out along that axis offers a sibling on
    /// that side, then descend towards the seeker.  `None` at a boundary.
    pub fn find_neighbour(&self, sel: &Vec<usize>, horizontal: bool, forward: bool) -> (r: Option<
        Vec<usize>,
    >)
        requires
            self@.wf(),
            self@.valid_path(sel@),
        ensures
            match r {
                Some(q) => self@.valid_path(q@) && Frame::spec_neighbour_result_ok(
                    self@,
                    sel@,
                    horizontal,
                    forward,
                    q@,
                ),
                None => Frame::spec_neighbour_level(
                    self@,
                    sel@,
                    horizontal,
                    forward,
                    sel@.len() - 1,
                ) is None,
            },
    {
        let (ax, ay) = self.abs_position(sel);
        let node = self.frame_ref(sel);
        let seek_x = ax.wrapping_add((node.get_size().width / 2) as i64);
        let seek_y = ay.wrapping_add((node.get_size().height / 2) as i64);
        let mut q = clone_path(sel);
        proof {
            assert(sel@.take(sel@.len() as int) =~= sel@);
        }
        while q.len() > 0
            invariant
                self@.wf(),
                self@.valid_path(q@),
                q@ == sel@.take(q@.len() as int),
                q@.len() <= sel@.len(),
                Frame::spec_neighbour_level(self@, sel@, horizontal, forward, sel@.len() - 1)
                    == Frame::spec_neighbour_level(
                    self@,
                    sel@,
                    horizontal,
                    forward,
                    q@.len() - 1,
                ),
            decreases q@.len(),
        {
            let ghost t0 = self@;
            proof {
                lemma_valid_path_drop_last(t0, q@);
            }
            let i = q[q.len() - 1];
            let mut pr = clone_path(&q);
            let _ = pr.pop();
            proof {
                assert(pr@ =~= q@.drop_last());
                assert(i == q@.last());
            }
            let ghost d = q@.len() - 1;
            proof {
                assert(pr@ =~= sel@.take(d));
                assert(i == sel@[d]);
            }
            let parent = self.frame_ref(&pr);
            let axis_ok = match parent.get_geometry() {
                Geometry::Horizontal => horizontal,
                Geometry::Vertical => !horizontal,
                Geometry::Stacked => false,
            };
            if axis_ok {
                let count = parent.count_children();
                proof {
                    assert(i < count);
                }
                let cand: Option<usize> = if forward && i + 1 < count {
                    Some(i + 1)
                } else if !forward && i > 0 {
                    Some(i - 1)
                } else {
                    None
                };
                match cand {
                    Some(ci) => {
                        proof {
                            assert(Frame::spec_neighbour_cond(
                                self@,
                                sel@,
                                horizontal,
                                forward,
                                d,
                            ));
                        }
                        let mut cp = pr;
                        cp.push(ci);
                        proof {
                            lemma_valid_path_snoc(t0, q@.drop_last(), ci);
                        }
                        let (cax, cay) = self.abs_position(&cp);
                        proof {
                            crate::searching::lemma_frame_at_wf(t0, cp@);
                        }
                        let rel = self.frame_ref(&cp).descend_entry(
                            seek_x,
                            seek_y,
                            cax,
                            cay,
                            horizontal,
                            forward,
                        );
                        proof {
                            lemma_valid_path_concat(t0, cp@, rel@);
                        }
                        let mut out = cp;
                        let mut k: usize = 0;
                        while k < rel.len()
                            invariant
                                k <= rel@.len(),
                                out@ == cp@ + rel@.take(k as int),
                            decreases rel@.len() - k,
                        {
                            out.push(rel[k]);
                            proof {
                                assert(out@ =~= cp@ + rel@.take(k as int + 1));
                            }
                            k = k + 1;
                        }
                        proof {
                            assert(rel@.take(rel@.len() as int) =~= rel@);
                            assert(out@.take(d + 1) =~= cp@);
                            assert(cp@ =~= sel@.take(d).push(
                                if forward {
                                    (sel@[d] + 1) as usize
                                } else {
                                    (sel@[d] - 1) as usize
                                },
                            ));
                        }
                        return Some(out);
                    },
                    None => {},
                }
            }
            proof {
                assert(!Frame::spec_neighbour_cond(self@, sel@, horizontal, forward, d));
                assert(q@.drop_last() =~= sel@.take(q@.len() - 1));
            }
            q.pop();
        }
        None
    }
}

} // verus!
