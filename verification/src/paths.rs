//! Addressing nodes by path: a path is the sequence of child indices
//! (0 = top left, 1 = top right, 2 = bottom left, 3 = bottom right) leading
//! from a node down to a descendant. The refinement engine keeps its
//! worklists as paths, so subdividing one leaf can be described — and
//! proved — to leave every other cell of the tree untouched.

use vstd::prelude::*;

use crate::arith::four_pow;
use crate::arith::two_pow;
use crate::node::Quadrants;
use crate::node::VisualizerNode;

verus! {

impl VisualizerNode {
    /// The child selected by index `i`; the node itself if it has no
    /// children.
    pub open spec fn child_sel(self, i: u8) -> VisualizerNode {
        match self.children {
            None => self,
            Some(c) => if i == 0 {
                c.tl
            } else if i == 1 {
                c.tr
            } else if i == 2 {
                c.bl
            } else {
                c.br
            },
        }
    }

    /// The path descends through existing children only.
    pub open spec fn path_valid(self, p: Seq<u8>) -> bool
        decreases p.len(),
    {
        p.len() == 0 || (self.children is Some && p[0] < 4 && self.child_sel(p[0]).path_valid(
            p.skip(1),
        ))
    }

    /// The descendant the path leads to.
    pub open spec fn node_at(self, p: Seq<u8>) -> VisualizerNode
        decreases p.len(),
    {
        if p.len() == 0 {
            self
        } else {
            self.child_sel(p[0]).node_at(p.skip(1))
        }
    }

    /// `new` is this tree with exactly one change: the leaf at `p` has been
    /// given four fresh children carrying the four supplied categories.
    pub open spec fn expanded_at(
        self,
        new: Self,
        p: Seq<u8>,
        tl_cat: u8,
        tr_cat: u8,
        bl_cat: u8,
        br_cat: u8,
    ) -> bool
        decreases p.len(),
    {
        &&& new.value == self.value
        &&& new.x0 == self.x0 && new.x1 == self.x1
        &&& new.y0 == self.y0 && new.y1 == self.y1
        &&& if p.len() == 0 {
            new.children matches Some(c) && self.is_fresh_quadrants(
                *c,
                tl_cat,
                tr_cat,
                bl_cat,
                br_cat,
            )
        } else {
            &&& self.children is Some && new.children is Some
            &&& (p[0] != 0 ==> new.child_sel(0) == self.child_sel(0))
            &&& (p[0] != 1 ==> new.child_sel(1) == self.child_sel(1))
            &&& (p[0] != 2 ==> new.child_sel(2) == self.child_sel(2))
            &&& (p[0] != 3 ==> new.child_sel(3) == self.child_sel(3))
            &&& self.child_sel(p[0]).expanded_at(
                new.child_sel(p[0]),
                p.skip(1),
                tl_cat,
                tr_cat,
                bl_cat,
                br_cat,
            )
        }
    }

    /// Frame property of a single expansion: every other path of the same
    /// length still leads to the very same cell.
    pub proof fn lemma_expand_frame(
        self,
        new: Self,
        p: Seq<u8>,
        q: Seq<u8>,
        tl_cat: u8,
        tr_cat: u8,
        bl_cat: u8,
        br_cat: u8,
    )
        requires
            self.expanded_at(new, p, tl_cat, tr_cat, bl_cat, br_cat),
            self.path_valid(q),
            q.len() == p.len(),
            q != p,
        ensures
            new.path_valid(q),
            new.node_at(q) == self.node_at(q),
        decreases p.len(),
    {
        if p.len() == 0 {
            assert(q =~= p);
        } else {
            if q[0] == p[0] {
                if p.skip(1) == q.skip(1) {
                    assert(p =~= q) by {
                        assert forall|k: int| 0 <= k < p.len() implies p[k] == q[k] by {
                            if k > 0 {
                                assert(p.skip(1)[k - 1] == p[k]);
                                assert(q.skip(1)[k - 1] == q[k]);
                            }
                        }
                    }
                } else {
                    self.child_sel(p[0]).lemma_expand_frame(
                        new.child_sel(p[0]),
                        p.skip(1),
                        q.skip(1),
                        tl_cat,
                        tr_cat,
                        bl_cat,
                        br_cat,
                    );
                }
            } else {
                assert(new.child_sel(q[0]) == self.child_sel(q[0]));
            }
        }
    }

    /// A single expansion keeps the tree well formed and its cell sides
    /// halving, provided the expanded leaf still had an even side. The
    /// expanded path now leads to the subdivided cell.
    pub proof fn lemma_expand_preserves(
        self,
        new: Self,
        p: Seq<u8>,
        tl_cat: u8,
        tr_cat: u8,
        bl_cat: u8,
        br_cat: u8,
        s: int,
        t: int,
    )
        requires
            self.expanded_at(new, p, tl_cat, tr_cat, bl_cat, br_cat),
            self.wf(),
            self.sided(s),
            self.pixel_aligned(),
            self.path_valid(p),
            self.node_at(p).is_leaf(),
            s == t * two_pow(p.len()),
            t % 4 == 0,
            t >= 2,
        ensures
            new.wf(),
            new.sided(s),
            new.pixel_aligned(),
            new.path_valid(p),
            !new.node_at(p).is_leaf(),
            new.node_at(p).children matches Some(c) && self.node_at(p).is_fresh_quadrants(
                *c,
                tl_cat,
                tr_cat,
                bl_cat,
                br_cat,
            ),
        decreases p.len(),
    {
        if p.len() == 0 {
            assert(s == t * 1) by {
                assert(two_pow(0) == 1);
                assert(t * 1 == t) by (nonlinear_arith);
            }
            let mx = self.spec_mid_x();
            let my = self.spec_mid_y();
            assert(self.x0 <= mx <= self.x1);
            assert(self.y0 <= my <= self.y1);
            assert((mx as u64) as int == mx);
            assert((my as u64) as int == my);
            let c = new.children.unwrap();
            assert(c.tl.wf() && c.tr.wf() && c.bl.wf() && c.br.wf());
            assert(new.wf());
            assert(c.tl.sided(s / 2) && c.tr.sided(s / 2) && c.bl.sided(s / 2) && c.br.sided(
                s / 2,
            ));
            assert(new.sided(s));
            assert(c.tl.pixel_aligned() && c.tr.pixel_aligned() && c.bl.pixel_aligned()
                && c.br.pixel_aligned());
            assert(new.pixel_aligned());
        } else {
            let m = two_pow((p.len() - 1) as nat);
            assert(two_pow(p.len()) == 2 * m);
            assert(t * (2 * m) == 2 * (t * m)) by (nonlinear_arith);
            assert(s / 2 == t * m);
            self.child_sel(p[0]).lemma_expand_preserves(
                new.child_sel(p[0]),
                p.skip(1),
                tl_cat,
                tr_cat,
                bl_cat,
                br_cat,
                s / 2,
                t,
            );
            let oc = self.children.unwrap();
            let nc = new.children.unwrap();
            assert(self.child_sel(0) == oc.tl && self.child_sel(1) == oc.tr && self.child_sel(2)
                == oc.bl && self.child_sel(3) == oc.br);
            assert(new.child_sel(0) == nc.tl && new.child_sel(1) == nc.tr && new.child_sel(2)
                == nc.bl && new.child_sel(3) == nc.br);
            assert(nc.tl.wf() && nc.tr.wf() && nc.bl.wf() && nc.br.wf());
            assert(new.wf());
            assert(nc.tl.sided(s / 2) && nc.tr.sided(s / 2) && nc.bl.sided(s / 2) && nc.br.sided(
                s / 2,
            ));
            assert(new.sided(s));
            assert(nc.tl.pixel_aligned() && nc.tr.pixel_aligned() && nc.bl.pixel_aligned()
                && nc.br.pixel_aligned());
            assert(new.pixel_aligned());
        }
    }

    /// An expansion whose four categories are `f` sampled at the fresh
    /// children's centers keeps the whole tree a faithful record of `f`.
    pub proof fn lemma_expand_matched(
        self,
        new: Self,
        p: Seq<u8>,
        tl_cat: u8,
        tr_cat: u8,
        bl_cat: u8,
        br_cat: u8,
        f: spec_fn(int, int) -> u8,
    )
        requires
            self.expanded_at(new, p, tl_cat, tr_cat, bl_cat, br_cat),
            self.wf(),
            self.path_valid(p),
            self.node_at(p).is_leaf(),
            self.value_matched(f),
            ({
                let n = self.node_at(p);
                let mx = (n.spec_mid_x() as u64) as int;
                let my = (n.spec_mid_y() as u64) as int;
                let lx = n.x0 + (mx - n.x0) / 2;
                let rx = mx + (n.x1 - mx) / 2;
                let by = n.y0 + (my - n.y0) / 2;
                let ty = my + (n.y1 - my) / 2;
                &&& tl_cat == f(lx, ty)
                &&& tr_cat == f(rx, ty)
                &&& bl_cat == f(lx, by)
                &&& br_cat == f(rx, by)
            }),
        ensures
            new.value_matched(f),
        decreases p.len(),
    {
        if p.len() == 0 {
            let c = new.children.unwrap();
            assert(self.x0 <= self.spec_mid_x() <= self.x1);
            assert(self.y0 <= self.spec_mid_y() <= self.y1);
            assert(c.tl.value_matched(f) && c.tr.value_matched(f) && c.bl.value_matched(f)
                && c.br.value_matched(f));
        } else {
            self.child_sel(p[0]).lemma_expand_matched(
                new.child_sel(p[0]),
                p.skip(1),
                tl_cat,
                tr_cat,
                bl_cat,
                br_cat,
                f,
            );
            let oc = self.children.unwrap();
            let nc = new.children.unwrap();
            assert(self.child_sel(0) == oc.tl && self.child_sel(1) == oc.tr && self.child_sel(2)
                == oc.bl && self.child_sel(3) == oc.br);
            assert(new.child_sel(0) == nc.tl && new.child_sel(1) == nc.tr && new.child_sel(2)
                == nc.bl && new.child_sel(3) == nc.br);
            assert(nc.tl.value_matched(f) && nc.tr.value_matched(f) && nc.bl.value_matched(f)
                && nc.br.value_matched(f));
        }
    }

    /// Every cell reached by a valid path is itself well formed.
    pub proof fn lemma_node_at_wf(self, p: Seq<u8>)
        requires
            self.wf(),
            self.path_valid(p),
        ensures
            self.node_at(p).wf(),
        decreases p.len(),
    {
        if p.len() > 0 {
            self.child_sel(p[0]).lemma_node_at_wf(p.skip(1));
        }
    }

    /// Extending a valid path by one child index.
    pub proof fn lemma_snoc_path(self, p: Seq<u8>, i: u8)
        requires
            self.path_valid(p),
            self.node_at(p).children is Some,
            i < 4,
        ensures
            self.path_valid(p.push(i)),
            self.node_at(p.push(i)) == self.node_at(p).child_sel(i),
        decreases p.len(),
    {
        if p.len() == 0 {
            assert(p.push(i)[0] == i);
            assert(p.push(i).skip(1) =~= Seq::<u8>::empty());
            assert(self.child_sel(i).path_valid(p.push(i).skip(1)));
            assert(self.path_valid(p.push(i)));
            assert(self.node_at(p.push(i)) == self.child_sel(i).node_at(p.push(i).skip(1)));
        } else {
            assert(p.push(i)[0] == p[0]);
            assert(p.push(i).skip(1) =~= p.skip(1).push(i));
            self.child_sel(p[0]).lemma_snoc_path(p.skip(1), i);
            assert(self.path_valid(p.push(i)));
            assert(self.node_at(p.push(i)) == self.child_sel(p[0]).node_at(p.skip(1).push(i)));
        }
    }

    /// The side of the cell a path leads to, from the side of the root.
    pub proof fn lemma_sided_at(self, p: Seq<u8>, s: int, t: int)
        requires
            self.sided(s),
            self.path_valid(p),
            s == t * two_pow(p.len()),
        ensures
            self.node_at(p).sided(t),
        decreases p.len(),
    {
        if p.len() == 0 {
            assert(t * 1 == t) by (nonlinear_arith);
        } else {
            let m = two_pow((p.len() - 1) as nat);
            assert(two_pow(p.len()) == 2 * m);
            assert(t * (2 * m) == 2 * (t * m)) by (nonlinear_arith);
            assert(s / 2 == t * m);
            self.child_sel(p[0]).lemma_sided_at(p.skip(1), s / 2, t);
        }
    }
}

/// Does the worklist hold this path?
pub open spec fn wl_contains(wl: Seq<Vec<u8>>, q: Seq<u8>) -> bool {
    exists|j: int| 0 <= j < wl.len() && wl[j]@ == q
}

/// Every worklist entry is a path of the given length leading to a leaf.
pub open spec fn wl_entries_ok(tree: VisualizerNode, wl: Seq<Vec<u8>>, level: nat) -> bool {
    forall|j: int|
        0 <= j < wl.len() ==> (#[trigger] wl[j])@.len() == level && tree.path_valid(wl[j]@)
            && tree.node_at(wl[j]@).is_leaf()
}

/// No path appears twice, so no cell is processed twice in one level.
pub open spec fn wl_distinct(wl: Seq<Vec<u8>>) -> bool {
    forall|j: int, k: int| 0 <= j < k < wl.len() ==> wl[j]@ != wl[k]@
}

/// Descending one step: a path starting with child `i` behaves in the
/// parent as its tail behaves in that child.
pub proof fn lemma_cons_path(node: VisualizerNode, i: u8, s: Seq<u8>)
    requires
        node.children is Some,
        i < 4,
    ensures
        node.path_valid(seq![i] + s) == node.child_sel(i).path_valid(s),
        node.node_at(seq![i] + s) == node.child_sel(i).node_at(s),
{
    assert((seq![i] + s)[0] == i);
    assert((seq![i] + s).skip(1) =~= s);
}

/// Prepend one child index to every path of a list.
fn prefixed(head: u8, sub: Vec<Vec<u8>>) -> (r: Vec<Vec<u8>>)
    ensures
        r@.len() == sub@.len(),
        forall|j: int| 0 <= j < r@.len() ==> (#[trigger] r@[j])@ == seq![head] + sub@[j]@,
{
    let mut out: Vec<Vec<u8>> = Vec::new();
    let mut k: usize = 0;
    while k < sub.len()
        invariant
            k <= sub@.len(),
            out@.len() == k as int,
            forall|j: int| 0 <= j < k ==> (#[trigger] out@[j])@ == seq![head] + sub@[j]@,
        decreases sub@.len() - k,
    {
        let q = &sub[k];
        let mut np: Vec<u8> = Vec::new();
        np.push(head);
        proof {
            assert(np@ =~= seq![head] + q@.take(0));
        }
        let mut j: usize = 0;
        while j < q.len()
            invariant
                j <= q@.len(),
                np@ == seq![head] + q@.take(j as int),
            decreases q@.len() - j,
        {
            np.push(q[j]);
            proof {
                assert(np@ =~= seq![head] + q@.take(j as int + 1));
            }
            j = j + 1;
        }
        proof {
            assert(q@.take(q@.len() as int) =~= q@);
        }
        out.push(np);
        k = k + 1;
    }
    out
}

/// The paths of every leaf exactly `level` edges below `node`: each entry
/// is a valid path to a leaf, no path repeats, and every such leaf is
/// listed.
pub fn leaf_paths(node: &VisualizerNode, level: usize) -> (r: Vec<Vec<u8>>)
    ensures
        r@.len() <= four_pow(level as nat),
        wl_entries_ok(*node, r@, level as nat),
        wl_distinct(r@),
        forall|q: Seq<u8>|
            q.len() == level && node.path_valid(q) && (#[trigger] node.node_at(q)).is_leaf()
                ==> wl_contains(r@, q),
    decreases level,
{
    if level == 0 {
        match &node.children {
            None => {
                let mut r: Vec<Vec<u8>> = Vec::new();
                let empty_path: Vec<u8> = Vec::new();
                r.push(empty_path);
                proof {
                    assert forall|q: Seq<u8>|
                        q.len() == level && node.path_valid(q) && (#[trigger] node.node_at(
                            q,
                        )).is_leaf() implies wl_contains(r@, q) by {
                        assert(r@[0]@ =~= q);
                    }
                }
                r
            },
            Some(_) => {
                let r: Vec<Vec<u8>> = Vec::new();
                r
            },
        }
    } else {
        match &node.children {
            None => {
                let r: Vec<Vec<u8>> = Vec::new();
                r
            },
            Some(c) => {
                let sub0 = leaf_paths(&c.tl, level - 1);
                let sub1 = leaf_paths(&c.tr, level - 1);
                let sub2 = leaf_paths(&c.bl, level - 1);
                let sub3 = leaf_paths(&c.br, level - 1);
                let ghost g0 = sub0@;
                let ghost g1 = sub1@;
                let ghost g2 = sub2@;
                let ghost g3 = sub3@;
                let mut r = prefixed(0, sub0);
                let mut r1 = prefixed(1, sub1);
                let mut r2 = prefixed(2, sub2);
                let mut r3 = prefixed(3, sub3);
                let ghost n0 = g0.len() as int;
                let ghost n1 = g1.len() as int;
                let ghost n2 = g2.len() as int;
                let ghost n3 = g3.len() as int;
                r.append(&mut r1);
                r.append(&mut r2);
                r.append(&mut r3);
                proof {
                    let lvl = level as nat;
                    let sub = (level - 1) as nat;
                    assert(four_pow(lvl) == 4 * four_pow(sub));
                    let ghost segs: Seq<Seq<Vec<u8>>> = seq![g0, g1, g2, g3];
                    assert forall|j: int|
                        0 <= j < r@.len() implies (#[trigger] r@[j])@.len() == lvl
                        && node.path_valid(r@[j]@) && node.node_at(r@[j]@).is_leaf() by {
                        let (h, s): (u8, Seq<u8>) = if j < n0 {
                            (0u8, g0[j]@)
                        } else if j < n0 + n1 {
                            (1u8, g1[j - n0]@)
                        } else if j < n0 + n1 + n2 {
                            (2u8, g2[j - n0 - n1]@)
                        } else {
                            (3u8, g3[j - n0 - n1 - n2]@)
                        };
                        assert(r@[j]@ == seq![h] + s);
                        lemma_cons_path(*node, h, s);
                    }
                    assert forall|j: int, k: int| 0 <= j < k < r@.len() implies r@[j]@ != r@[k]@ by {
                        let hj: u8 = if j < n0 {
                            0u8
                        } else if j < n0 + n1 {
                            1u8
                        } else if j < n0 + n1 + n2 {
                            2u8
                        } else {
                            3u8
                        };
                        let hk: u8 = if k < n0 {
                            0u8
                        } else if k < n0 + n1 {
                            1u8
                        } else if k < n0 + n1 + n2 {
                            2u8
                        } else {
                            3u8
                        };
                        if hj == hk {
                            let (a, b): (Seq<u8>, Seq<u8>) = if j < n0 {
                                (g0[j]@, g0[k]@)
                            } else if j < n0 + n1 {
                                (g1[j - n0]@, g1[k - n0]@)
                            } else if j < n0 + n1 + n2 {
                                (g2[j - n0 - n1]@, g2[k - n0 - n1]@)
                            } else {
                                (g3[j - n0 - n1 - n2]@, g3[k - n0 - n1 - n2]@)
                            };
                            assert(r@[j]@ == seq![hj] + a);
                            assert(r@[k]@ == seq![hj] + b);
                            assert(a != b);
                            assert((seq![hj] + a).skip(1) =~= a);
                            assert((seq![hj] + b).skip(1) =~= b);
                        } else {
                            assert(r@[j]@[0] == hj && r@[k]@[0] == hk);
                        }
                    }
                    assert forall|q: Seq<u8>|
                        q.len() == level && node.path_valid(q) && (#[trigger] node.node_at(
                            q,
                        )).is_leaf() implies wl_contains(r@, q) by {
                        let h = q[0];
                        let s = q.skip(1);
                        assert(q =~= seq![h] + s);
                        lemma_cons_path(*node, h, s);
                        let child = node.child_sel(h);
                        assert(child.path_valid(s) && child.node_at(s).is_leaf());
                        if h == 0 {
                            let j = choose|j: int| 0 <= j < g0.len() && g0[j]@ == s;
                            assert(r@[j]@ == seq![h] + s);
                        } else if h == 1 {
                            let j = choose|j: int| 0 <= j < g1.len() && g1[j]@ == s;
                            assert(r@[n0 + j]@ == seq![h] + s);
                        } else if h == 2 {
                            let j = choose|j: int| 0 <= j < g2.len() && g2[j]@ == s;
                            assert(r@[n0 + n1 + j]@ == seq![h] + s);
                        } else {
                            let j = choose|j: int| 0 <= j < g3.len() && g3[j]@ == s;
                            assert(r@[n0 + n1 + n2 + j]@ == seq![h] + s);
                        }
                    }
                }
                r
            },
        }
    }
}

/// Subdivide the leaf at the given path (from position `i` on) into four
/// children carrying the supplied categories; nothing else in the tree
/// changes.
pub fn expand_at(
    node: &mut VisualizerNode,
    path: &Vec<u8>,
    i: usize,
    tl_cat: u8,
    tr_cat: u8,
    bl_cat: u8,
    br_cat: u8,
)
    requires
        i <= path@.len(),
        old(node).wf(),
        old(node).path_valid(path@.skip(i as int)),
        old(node).node_at(path@.skip(i as int)).is_leaf(),
    ensures
        old(node).expanded_at(*final(node), path@.skip(i as int), tl_cat, tr_cat, bl_cat, br_cat),
    decreases path@.len() - i,
{
    if i == path.len() {
        node.gen_children(tl_cat, tr_cat, bl_cat, br_cat);
    } else {
        let b: u8 = path[i];
        proof {
            assert(path@.skip(i as int)[0] == path@[i as int]);
            assert(path@.skip(i as int).skip(1) =~= path@.skip(i as int + 1));
        }
        let children = node.children.take();
        match children {
            None => {
                proof {
                    assert(false);
                }
            },
            Some(bx) => {
                let mut q: Quadrants = *bx;
                if b == 0 {
                    expand_at(&mut q.tl, path, i + 1, tl_cat, tr_cat, bl_cat, br_cat);
                } else if b == 1 {
                    expand_at(&mut q.tr, path, i + 1, tl_cat, tr_cat, bl_cat, br_cat);
                } else if b == 2 {
                    expand_at(&mut q.bl, path, i + 1, tl_cat, tr_cat, bl_cat, br_cat);
                } else {
                    expand_at(&mut q.br, path, i + 1, tl_cat, tr_cat, bl_cat, br_cat);
                }
                node.children = Some(Box::new(q));
            },
        }
    }
}

} // verus!
