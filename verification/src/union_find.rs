//! A disjoint-set forest with union by size and path compression.
//!
//! The abstract state is the representative map: `self@[i]` is the root of
//! the set element `i` belongs to.  Two ghost sequences carry the proof: the
//! representative of every element, and a depth that strictly decreases
//! along parent links, which bounds the walk to the root.  A root entry of
//! `parent` stores the negated size of its set.

use vstd::prelude::*;
use vstd::set_lib::{lemma_int_range, lemma_len_subset, lemma_set_disjoint_lens, set_int_range};

verus! {

/// The elements whose representative is `r`, among `n` elements.
pub open spec fn member_set(rep: Seq<int>, n: int, r: int) -> Set<int> {
    Set::new(|i: int| 0 <= i < n && rep[i] == r)
}

pub struct UnionFind {
    parent: Vec<i32>,
    size: usize,
    rep: Ghost<Seq<int>>,
    dist: Ghost<Seq<nat>>,
}

impl View for UnionFind {
    type V = Seq<int>;

    /// The representative of each element.
    closed spec fn view(&self) -> Seq<int> {
        self.rep@
    }
}

impl UnionFind {
    /// The number of elements.
    pub closed spec fn spec_len(self) -> int {
        self.parent@.len() as int
    }

    /// The roots: entries that store a negated set size.
    pub closed spec fn root_set(self) -> Set<int> {
        Set::new(|i: int| 0 <= i < self.spec_len() && self.parent@[i] < 0)
    }

    /// True when `r` indexes a root entry.
    pub closed spec fn is_root_idx(self, r: int) -> bool {
        0 <= r < self.spec_len() && self.parent@[r] < 0
    }

    /// The ghost depth sequence; exposed only so that contracts can state
    /// that path compression leaves it unchanged.
    pub closed spec fn depths(self) -> Seq<nat> {
        self.dist@
    }

    /// True when `post` has exactly the root entries of `pre`, with the
    /// same stored sizes.
    pub closed spec fn roots_unchanged(pre: UnionFind, post: UnionFind) -> bool {
        forall|i: int|
            0 <= i < pre.spec_len() ==> ((#[trigger] post.parent@[i] < 0 <==> pre.parent@[i] < 0)
                && (pre.parent@[i] < 0 ==> post.parent@[i] == pre.parent@[i]))
    }

    /// Structural well-formedness: parent links stay in range, agree with
    /// the representative map, strictly descend in depth, and every root
    /// entry stores the negated size of its set; `size` counts the sets.
    pub closed spec fn wf(self) -> bool {
        let n = self.spec_len();
        &&& self.rep@.len() == n
        &&& self.dist@.len() == n
        &&& n <= i32::MAX
        &&& forall|i: int|
            0 <= i < n ==> (#[trigger] self.parent@[i] < 0 ==> self.rep@[i] == i)
        &&& forall|i: int|
            0 <= i < n ==> (#[trigger] self.parent@[i] >= 0 ==> {
                &&& self.parent@[i] < n
                &&& self.rep@[self.parent@[i] as int] == self.rep@[i]
                &&& self.dist@[self.parent@[i] as int] < self.dist@[i]
            })
        &&& forall|i: int|
            0 <= i < n ==> 0 <= #[trigger] self.rep@[i] < n && self.parent@[self.rep@[i]] < 0
        &&& forall|r: int|
            0 <= r < n && #[trigger] self.parent@[r] < 0 ==> self.parent@[r] == -(member_set(
                self.rep@,
                n,
                r,
            ).len() as int) && member_set(self.rep@, n, r).finite()
        &&& self.size == self.root_set().len()
        &&& self.root_set().finite()
    }

    /// A fresh structure of `size` singleton sets.
    pub fn new(size: usize) -> (r: UnionFind)
        requires
            size <= i32::MAX,
        ensures
            r.wf(),
            r.spec_len() == size,
            forall|i: int| 0 <= i < size ==> r@[i] == i,
            r.root_set().len() == size,
    {
        let parent: Vec<i32> = vec![-1i32; size];
        let uf = UnionFind {
            parent,
            size,
            rep: Ghost(Seq::new(size as nat, |i: int| i)),
            dist: Ghost(Seq::new(size as nat, |i: int| 0nat)),
        };
        proof {
            let n = size as int;
            assert forall|r: int| 0 <= r < n && #[trigger] uf.parent@[r] < 0 implies uf.parent@[r]
                == -(member_set(uf.rep@, n, r).len() as int) && member_set(
                uf.rep@,
                n,
                r,
            ).finite() by {
                assert(member_set(uf.rep@, n, r) =~= Set::empty().insert(r));
            }
            assert(uf.root_set() =~= set_int_range(0, n));
            lemma_int_range(0, n);
        }
        uf
    }

    /// The root of `x`'s set, compressing the path behind itself: every
    /// node visited now points directly at the root.  The partition is
    /// unchanged.
    pub fn root(&mut self, x: usize) -> (r: usize)
        requires
            old(self).wf(),
            x < old(self).spec_len(),
        ensures
            final(self).wf(),
            final(self).spec_len() == old(self).spec_len(),
            final(self)@ == old(self)@,
            final(self).root_set() == old(self).root_set(),
            final(self).depths() == old(self).depths(),
            UnionFind::roots_unchanged(*old(self), *final(self)),
            r < old(self).spec_len(),
            r as int == old(self)@[x as int],
            final(self)@[r as int] == r as int,
            final(self).is_root_idx(r as int),
            old(self).depths()[r as int] <= old(self).depths()[x as int],
        decreases self.depths()[x as int],
    {
        let p = self.parent[x];
        if p < 0 {
            return x;
        }
        let up = p as usize;
        let r = self.root(up);
        let ghost mid = *self;
        self.parent[x] = r as i32;
        proof {
            let n = self.spec_len();
            assert(self.parent@ =~= mid.parent@.update(x as int, r as i32));
            assert(self.rep@[x as int] == r as int);
            assert forall|i: int|
                0 <= i < n implies (#[trigger] self.parent@[i] >= 0 ==> {
                &&& self.parent@[i] < n
                &&& self.rep@[self.parent@[i] as int] == self.rep@[i]
                &&& self.dist@[self.parent@[i] as int] < self.dist@[i]
            }) by {
                if i != x as int && self.parent@[i] >= 0 {
                    assert(mid.parent@[i] == self.parent@[i]);
                }
            }
            assert(self.root_set() =~= mid.root_set());
            assert forall|rr: int|
                0 <= rr < n && #[trigger] self.parent@[rr] < 0 implies self.parent@[rr]
                == -(member_set(self.rep@, n, rr).len() as int) && member_set(
                self.rep@,
                n,
                rr,
            ).finite() by {
                assert(mid.parent@[rr] == self.parent@[rr]);
            }
        }
        r
    }

    /// True when `x` is the representative of its own set.
    pub fn is_root(&mut self, x: usize) -> (r: bool)
        requires
            old(self).wf(),
            x < old(self).spec_len(),
        ensures
            final(self).wf(),
            final(self)@ == old(self)@,
            final(self).spec_len() == old(self).spec_len(),
            final(self).root_set() == old(self).root_set(),
            r == (old(self)@[x as int] == x as int),
    {
        let rt = self.root(x);
        rt == x
    }

    /// True when `x` and `y` lie in the same set.
    pub fn is_same_set(&mut self, x: usize, y: usize) -> (r: bool)
        requires
            old(self).wf(),
            x < old(self).spec_len(),
            y < old(self).spec_len(),
        ensures
            final(self).wf(),
            final(self)@ == old(self)@,
            final(self).spec_len() == old(self).spec_len(),
            final(self).root_set() == old(self).root_set(),
            r == (old(self)@[x as int] == old(self)@[y as int]),
    {
        let rx = self.root(x);
        let ry = self.root(y);
        rx == ry
    }

    /// The number of elements in `x`'s set.
    pub fn union_size(&mut self, x: usize) -> (r: usize)
        requires
            old(self).wf(),
            x < old(self).spec_len(),
        ensures
            final(self).wf(),
            final(self)@ == old(self)@,
            final(self).spec_len() == old(self).spec_len(),
            final(self).root_set() == old(self).root_set(),
            r == member_set(old(self)@, old(self).spec_len(), old(self)@[x as int]).len(),
            r >= 1,
    {
        let rt = self.root(x);
        proof {
            let n = self.spec_len();
            let ms = member_set(self.rep@, n, rt as int);
            assert(ms.contains(x as int));
            lemma_int_range(0, n);
            assert(ms.subset_of(set_int_range(0, n)));
            lemma_len_subset(ms, set_int_range(0, n));
            assert(self.parent@[rt as int] == -(ms.len() as int));
        }
        let set_size = -self.parent[rt];
        set_size as usize
    }

    /// The number of disjoint sets.
    pub fn size(&self) -> (r: usize)
        requires
            self.wf(),
        ensures
            r == self.root_set().len(),
    {
        self.size
    }

    /// Merges the sets of `x` and `y`; the smaller set's root is attached
    /// under the larger set's root.  Returns the surviving root and the
    /// merged root, or `None` when `x` and `y` already share a set.  On a
    /// merge, exactly the elements of the merged root's set change their
    /// representative to the surviving root, and the number of sets drops
    /// by one.
    pub fn unite(&mut self, x: usize, y: usize) -> (r: Option<(usize, usize)>)
        requires
            old(self).wf(),
            x < old(self).spec_len(),
            y < old(self).spec_len(),
        ensures
            final(self).wf(),
            final(self).spec_len() == old(self).spec_len(),
            match r {
                None => old(self)@[x as int] == old(self)@[y as int] && final(self)@ == old(
                    self,
                )@ && final(self).root_set() == old(self).root_set(),
                Some((new_root, merged_root)) => {
                    let nx = member_set(
                        old(self)@,
                        old(self).spec_len(),
                        old(self)@[x as int],
                    ).len();
                    let ny = member_set(
                        old(self)@,
                        old(self).spec_len(),
                        old(self)@[y as int],
                    ).len();
                    &&& old(self)@[x as int] != old(self)@[y as int]
                    &&& new_root as int == if nx >= ny {
                        old(self)@[x as int]
                    } else {
                        old(self)@[y as int]
                    }
                    &&& merged_root as int == if nx >= ny {
                        old(self)@[y as int]
                    } else {
                        old(self)@[x as int]
                    }
                    &&& member_set(final(self)@, old(self).spec_len(), new_root as int).len() == nx
                        + ny
                    &&& forall|i: int|
                        0 <= i < old(self).spec_len() ==> final(self)@[i] == (if old(self)@[i]
                            == merged_root as int {
                            new_root as int
                        } else {
                            old(self)@[i]
                        })
                    &&& final(self).root_set().len() + 1 == old(self).root_set().len()
                },
            },
    {
        let x_root = self.root(x);
        let y_root = self.root(y);
        if x_root == y_root {
            return None;
        }
        let ghost pre = *self;
        let ghost n = self.spec_len();
        let size1 = self.parent[x_root];
        let size2 = self.parent[y_root];
        proof {
            let msx = member_set(pre.rep@, n, x_root as int);
            let msy = member_set(pre.rep@, n, y_root as int);
            assert(msx.disjoint(msy));
            lemma_set_disjoint_lens(msx, msy);
            lemma_int_range(0, n);
            assert((msx + msy).subset_of(set_int_range(0, n)));
            lemma_len_subset(msx + msy, set_int_range(0, n));
        }
        proof {
            assert(size1 == -(member_set(pre.rep@, n, x_root as int).len() as int));
            assert(size2 == -(member_set(pre.rep@, n, y_root as int).len() as int));
        }
        let (keep, merged) = if size1 <= size2 {
            self.parent[x_root] = size1 + size2;
            self.parent[y_root] = x_root as i32;
            (x_root, y_root)
        } else {
            self.parent[y_root] = size1 + size2;
            self.parent[x_root] = y_root as i32;
            (y_root, x_root)
        };
        let ghost bump = pre.dist@[keep as int] + 1;
        proof {
            self.rep@ = Seq::new(n as nat, |i: int| if pre.rep@[i] == merged as int {
                keep as int
            } else {
                pre.rep@[i]
            });
            self.dist@ = Seq::new(n as nat, |i: int| if pre.rep@[i] == merged as int {
                (pre.dist@[i] + bump) as nat
            } else {
                pre.dist@[i]
            });
        }
        proof {
            assert(pre.root_set().contains(merged as int));
            assert(pre.root_set().remove(merged as int).len() == pre.root_set().len() - 1);
            assert(pre.size == pre.root_set().len());
        }
        self.size = self.size - 1;
        proof {
            let msk = member_set(pre.rep@, n, keep as int);
            let msm = member_set(pre.rep@, n, merged as int);
            assert(msk.disjoint(msm));
            lemma_set_disjoint_lens(msk, msm);
            // Every invariant piece, one group at a time.
            assert forall|i: int|
                0 <= i < n implies (#[trigger] self.parent@[i] < 0 ==> self.rep@[i] == i) by {}
            assert forall|i: int|
                0 <= i < n implies (#[trigger] self.parent@[i] >= 0 ==> {
                &&& self.parent@[i] < n
                &&& self.rep@[self.parent@[i] as int] == self.rep@[i]
                &&& self.dist@[self.parent@[i] as int] < self.dist@[i]
            }) by {
                if self.parent@[i] >= 0 {
                    if i == merged as int {
                        assert(self.parent@[i] == keep as i32);
                        assert(pre.rep@[merged as int] == merged as int);
                        assert(self.dist@[merged as int] == pre.dist@[merged as int] + bump);
                    } else {
                        assert(pre.parent@[i] == self.parent@[i]);
                    }
                }
            }
            assert forall|i: int|
                0 <= i < n implies 0 <= #[trigger] self.rep@[i] < n && self.parent@[self.rep@[i]]
                < 0 by {}
            assert forall|r2: int|
                0 <= r2 < n && #[trigger] self.parent@[r2] < 0 implies self.parent@[r2]
                == -(member_set(self.rep@, n, r2).len() as int) && member_set(
                self.rep@,
                n,
                r2,
            ).finite() by {
                if r2 == keep as int {
                    assert(member_set(self.rep@, n, r2) =~= msk + msm);
                } else {
                    assert(member_set(self.rep@, n, r2) =~= member_set(pre.rep@, n, r2));
                }
            }
            assert(self.root_set() =~= pre.root_set().remove(merged as int));
            assert(pre.root_set().contains(merged as int));
            assert(pre.root_set().contains(keep as int));
        }
        Some((keep, merged))
    }
}

} // verus!
