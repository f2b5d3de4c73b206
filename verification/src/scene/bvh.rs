use vstd::prelude::*;
use vstd::set_lib::set_int_range;

verus! {

broadcast use vstd::seq_lib::group_to_multiset_ensures;

/// Exchanging two entries of a sequence keeps its multiset of values.
pub proof fn lemma_swap_to_multiset<A>(s: Seq<A>, i: int, j: int)
    requires
        0 <= i < s.len(),
        0 <= j < s.len(),
    ensures
        s.update(i, s[j]).update(j, s[i]).to_multiset() =~= s.to_multiset(),
{
    broadcast use {
        vstd::seq_lib::to_multiset_update,
        vstd::multiset::group_multiset_axioms,
        vstd::multiset::group_multiset_properties,
    };
    let t = s.update(i, s[j]);
    assert(t.to_multiset() == s.to_multiset().insert(s[j]).remove(s[i]));
    assert(t.update(j, s[i]).to_multiset() == t.to_multiset().insert(s[i]).remove(t[j]));
    assert forall|x: A| #[trigger] t.update(j, s[i]).to_multiset().count(x) == s.to_multiset().count(x) by {
        if i == j {
            assert(t.update(j, s[i]) =~= s);
        }
    }
}

/// The in-place scan that reorders the entries at positions `i ..= j` of `s`: the
/// front cursor `i` passes over entries that go left; an entry that does not is
/// exchanged with the one at the back cursor `j`, which then moves one step down.
/// The scan ends when the cursors cross (or after an exchange at position 0) and
/// gives the reordered sequence and the front cursor, where the right side begins.
pub open spec fn partition_scan(s: Seq<u32>, goes_left: Seq<bool>, i: int, j: int) -> (Seq<u32>, int)
    decreases j + 1 - i,
{
    if i > j {
        (s, i)
    } else if goes_left[s[i] as int] {
        partition_scan(s, goes_left, i + 1, j)
    } else {
        let t = s.update(i, s[j]).update(j, s[i]);
        if j == 0 {
            (t, i)
        } else {
            partition_scan(t, goes_left, i, j - 1)
        }
    }
}

/// Reorders `indices[first .. first + count]` in place so that the triangles for which
/// `goes_left` holds come first; returns the position where the others begin.
/// Entries outside the range are left as they are.
pub fn partition_triangles(
    indices: &mut Vec<u32>,
    first: usize,
    count: usize,
    goes_left: &Vec<bool>,
) -> (split: usize)
    requires
        first + count >= 1,
        first + count <= old(indices)@.len(),
        forall|p: int| first <= p < first + count ==> #[trigger] old(indices)@[p] < goes_left@.len(),
    ensures
        final(indices)@.len() == old(indices)@.len(),
        final(indices)@.to_multiset() == old(indices)@.to_multiset(),
        forall|p: int|
            0 <= p < old(indices)@.len() && !(first <= p < first + count) ==> #[trigger] final(indices)@[p]
                == old(indices)@[p],
        first <= split <= first + count,
        forall|p: int| first <= p < split ==> goes_left@[#[trigger] final(indices)@[p] as int],
        forall|p: int| split <= p < first + count ==> !goes_left@[#[trigger] final(indices)@[p] as int],
        (final(indices)@, split as int) == partition_scan(
            old(indices)@,
            goes_left@,
            first as int,
            first + count - 1,
        ),
{
    let ghost orig = indices@;
    let len: usize = indices.len();
    let mut i: usize = first;
    let mut j: usize = first + count - 1;
    while i <= j
        invariant_except_break
            first <= i <= j + 1 <= first + count,
            forall|p: int| j < p < first + count ==> !goes_left@[#[trigger] indices@[p] as int],
            partition_scan(indices@, goes_left@, i as int, j as int) == partition_scan(
                orig,
                goes_left@,
                first as int,
                first + count - 1,
            ),
        invariant
            first + count <= len,
            len == indices@.len(),
            first <= i,
            indices@.len() == orig.len(),
            indices@.to_multiset() == orig.to_multiset(),
            forall|p: int|
                0 <= p < orig.len() && !(first <= p < first + count) ==> #[trigger] indices@[p] == orig[p],
            forall|p: int| first <= p < first + count ==> #[trigger] indices@[p] < goes_left@.len(),
            forall|p: int| first <= p < i ==> goes_left@[#[trigger] indices@[p] as int],
        ensures
            first <= i <= first + count,
            forall|p: int| i <= p < first + count ==> !goes_left@[#[trigger] indices@[p] as int],
            (indices@, i as int) == partition_scan(orig, goes_left@, first as int, first + count - 1),
        decreases j + 1 - i,
    {
        let idx: u32 = indices[i];
        if goes_left[idx as usize] {
            i += 1;
            continue;
        }
        let ghost before = indices@;
        let a: u32 = indices[i];
        let b: u32 = indices[j];
        indices.set(i, b);
        indices.set(j, a);
        proof {
            lemma_swap_to_multiset(before, i as int, j as int);
            assert(indices@ == before.update(i as int, before[j as int]).update(j as int, before[i as int]));
        }
        if j == 0 {
            break;
        }
        j -= 1;
    }
    i
}


/// Largest number of triangles a hierarchy can hold: node indices and triangle
/// counts are stored as `u32`, and `2 * n - 1` nodes are reserved.
pub const MAX_TRIANGLES: usize = 0x7fff_ffff;

/// The integer part of a hierarchy node: a leaf holds `num_triangles > 0`
/// entries of the triangle index list starting at `left_child_or_first_triangle`;
/// an interior node has `num_triangles == 0` and its children at
/// `left_child_or_first_triangle` and the entry after it.
#[derive(Debug, Clone, Copy, PartialEq, Eq, Structural)]
pub struct BvhNodeLinks {
    pub left_child_or_first_triangle: u32,
    pub num_triangles: u32,
}

/// What a hierarchy is, seen from outside: the node array, how many of its nodes
/// belong to the tree, and the triangle index list that leaves refer to.
pub ghost struct BvhView {
    pub nodes: Seq<BvhNodeLinks>,
    pub used: nat,
    pub triangle_indices: Seq<u32>,
}

impl BvhView {
    /// Number of triangles in the hierarchy.
    pub open spec fn triangle_count(self) -> nat {
        self.triangle_indices.len()
    }

    /// First entry of the triangle index list (leaf) or left child (interior) of node `k`.
    pub open spec fn first(self, k: int) -> int {
        self.nodes[k].left_child_or_first_triangle as int
    }

    /// Number of triangles that node `k` lists (0 for an interior node).
    pub open spec fn count(self, k: int) -> int {
        self.nodes[k].num_triangles as int
    }

    /// Node `k` is a leaf of the tree.
    pub open spec fn is_leaf(self, k: int) -> bool {
        0 <= k < self.used && self.count(k) > 0
    }

    /// Node `k` is an interior node of the tree.
    pub open spec fn is_interior(self, k: int) -> bool {
        0 <= k < self.used && self.count(k) == 0
    }

    /// Leaf `k` lists position `p` of the triangle index list.
    pub open spec fn leaf_covers(self, k: int, p: int) -> bool {
        self.is_leaf(k) && self.first(k) <= p < self.first(k) + self.count(k)
    }

    /// Some leaf lists position `p` of the triangle index list.
    pub open spec fn listed_by_some_leaf(self, p: int) -> bool {
        exists|k: int| #[trigger] self.leaf_covers(k, p)
    }

    /// Node `p` is an interior node of the tree with node `k` as one of its children.
    pub open spec fn is_parent(self, p: int, k: int) -> bool {
        self.is_interior(p) && (self.first(p) == k || self.first(p) + 1 == k)
    }

    /// Node `k` has a parent that comes before it.
    pub open spec fn has_parent_below(self, k: int) -> bool {
        exists|p: int| 0 <= p < k && #[trigger] self.is_parent(p, k)
    }

    /// `path` leads from the root down to its last node, each node a child of the one before.
    pub open spec fn is_root_path(self, path: Seq<int>) -> bool {
        &&& path.len() >= 1
        &&& path[0] == 0
        &&& forall|q: int| 0 <= q < path.len() - 1 ==> #[trigger] self.is_parent(path[q], path[q + 1])
    }

    /// Node `k` can be reached from the root by going from parent to child.
    pub open spec fn reachable(self, k: int) -> bool {
        exists|path: Seq<int>| #[trigger] self.is_root_path(path) && path.last() == k
    }

    /// Construction has begun: the root holds the triangles or has been split.
    pub open spec fn is_built(self) -> bool {
        self.used > 1 || self.nodes[0].num_triangles > 0
    }

    /// The triangle index list is a permutation of `0 .. n`: it holds the same
    /// values, as often, as `0, 1, .., n - 1`.
    pub open spec fn indices_are_permutation(self) -> bool {
        self.triangle_indices.to_multiset() == identity_indices(self.triangle_count()).to_multiset()
    }
}

/// The triangle index list `0, 1, .., n - 1`.
pub open spec fn identity_indices(n: nat) -> Seq<u32> {
    Seq::new(n, |i: int| i as u32)
}

/// Topology of a bounding volume hierarchy over `n` triangles: the node array
/// (room for `2 * n - 1` nodes, of which the first `used` are in the tree) and the
/// order in which the leaves list the triangles.
pub struct BVH {
    pub nodes: Vec<BvhNodeLinks>,
    root: usize,
    used: usize,
    pub triangle_indices: Vec<u32>,
    /// For each position of the triangle index list, the leaf that lists it.
    owner: Ghost<Seq<int>>,
    /// The positions at which a leaf was ever cut in two.
    cuts: Ghost<Set<int>>,
}

impl View for BVH {
    type V = BvhView;

    closed spec fn view(&self) -> BvhView {
        BvhView { nodes: self.nodes@, used: self.used as nat, triangle_indices: self.triangle_indices@ }
    }
}

impl BVH {
    spec fn tree_wf(&self) -> bool {
        let v = self@;
        let n: int = v.triangle_count() as int;
        let owner = self.owner@;
        let cuts = self.cuts@;
        &&& forall|k: int| #[trigger] v.is_leaf(k) ==> v.first(k) + v.count(k) <= n
        &&& forall|k: int|
            #[trigger] v.is_interior(k) ==> k < v.first(k) && v.first(k) + 1 < v.used
        &&& forall|k: int| #[trigger] v.is_interior(k) ==> v.first(k) % 2 == 1
        &&& forall|k1: int, k2: int|
            #[trigger] v.is_interior(k1) && #[trigger] v.is_interior(k2) && k1 != k2 ==> v.first(k1) != v.first(k2)
        &&& forall|k: int| 0 < k < v.used ==> #[trigger] v.has_parent_below(k)
        &&& owner.len() == n
        &&& forall|p: int| 0 <= p < n ==> #[trigger] v.leaf_covers(owner[p], p)
        &&& forall|k: int, p: int| #[trigger] v.leaf_covers(k, p) ==> owner[p] == k
        &&& cuts.finite()
        &&& cuts.subset_of(set_int_range(1, n))
        &&& v.used == 2 * cuts.len() + 1
        &&& forall|k: int, c: int|
            #[trigger] v.is_leaf(k) && #[trigger] cuts.contains(c) ==> !(v.first(k) < c < v.first(k)
                + v.count(k))
    }

    /// The invariant of the hierarchy.
    pub closed spec fn wf(&self) -> bool {
        let v = self@;
        let n: int = v.triangle_count() as int;
        &&& 1 <= n <= MAX_TRIANGLES
        &&& self.nodes@.len() == 2 * n - 1
        &&& self.root == 0
        &&& 1 <= self.used <= self.nodes@.len()
        &&& v.indices_are_permutation()
        &&& v.triangle_indices.no_duplicates()
        &&& forall|p: int| 0 <= p < n ==> #[trigger] v.triangle_indices[p] < n
        &&& forall|k: int|
            self.used <= k < self.nodes@.len() ==> (#[trigger] self.nodes@[k]).num_triangles == 0
        &&& if v.is_built() {
            self.tree_wf()
        } else {
            &&& self.used == 1
            &&& self.nodes@[0].left_child_or_first_triangle == 0
        }
    }

    /// A hierarchy over `num_triangles` triangles, before construction: the triangle
    /// index list is `0, 1, .., n - 1` and room for `2 * n - 1` empty nodes is reserved.
    pub fn new(num_triangles: usize) -> (bvh: Self)
        requires
            1 <= num_triangles <= MAX_TRIANGLES,
        ensures
            bvh.wf(),
            !bvh@.is_built(),
            bvh@.used == 1,
            bvh@.triangle_indices == Seq::new(num_triangles as nat, |i: int| i as u32),
            bvh@.nodes == Seq::new(
                (2 * num_triangles - 1) as nat,
                |k: int| BvhNodeLinks { left_child_or_first_triangle: 0, num_triangles: 0 },
            ),
    {
        let mut triangle_indices: Vec<u32> = Vec::new();
        let mut t: usize = 0;
        while t < num_triangles
            invariant
                t <= num_triangles <= MAX_TRIANGLES,
                triangle_indices@ == Seq::new(t as nat, |i: int| i as u32),
            decreases num_triangles - t,
        {
            triangle_indices.push(t as u32);
            t += 1;
        }
        let empty = BvhNodeLinks { left_child_or_first_triangle: 0, num_triangles: 0 };
        let num_nodes: usize = num_triangles * 2 - 1;
        let mut nodes: Vec<BvhNodeLinks> = Vec::new();
        let mut k: usize = 0;
        while k < num_nodes
            invariant
                k <= num_nodes,
                nodes@ == Seq::new(k as nat, |q: int| empty),
            decreases num_nodes - k,
        {
            nodes.push(empty);
            k += 1;
        }
        let bvh = BVH {
            nodes,
            root: 0,
            used: 1,
            triangle_indices,
            owner: Ghost(Seq::empty()),
            cuts: Ghost(Set::empty()),
        };
        assert(bvh.triangle_indices@.no_duplicates());
        bvh
    }

    /// Starts construction: the root becomes a leaf that lists every triangle. It
    /// may start over as long as the root has not been split.
    pub fn begin_build(&mut self)
        requires
            old(self).wf(),
            old(self)@.used == 1,
        ensures
            final(self).wf(),
            final(self)@.is_built(),
            final(self)@.used == 1,
            final(self)@.triangle_indices == old(self)@.triangle_indices,
            final(self)@.nodes == old(self)@.nodes.update(
                0,
                BvhNodeLinks {
                    left_child_or_first_triangle: old(self)@.nodes[0].left_child_or_first_triangle,
                    num_triangles: old(self)@.triangle_count() as u32,
                },
            ),
    {
        proof {
            if self@.is_built() {
                assert(self@.leaf_covers(self.owner@[0], 0));
            }
        }
        let num_triangles: u32 = self.triangle_indices.len() as u32;
        let root: usize = self.root;
        let mut node = self.nodes[root];
        node.num_triangles = num_triangles;
        self.nodes.set(root, node);
        proof {
            let n: int = self@.triangle_count() as int;
            self.owner@ = Seq::new(n as nat, |p: int| 0int);
            self.cuts@ = Set::empty();
            assert(self.nodes@[0].left_child_or_first_triangle == 0);
            assert forall|k: int, p: int| #[trigger] self@.leaf_covers(k, p) implies self.owner@[p] == k by {
                assert(k == 0);
            }
            assert forall|p: int| 0 <= p < n implies #[trigger] self@.leaf_covers(self.owner@[p], p) by {
                assert(self.owner@[p] == 0);
            }
        }
    }

    /// One step of the top-down construction. A node with at most two triangles
    /// (an interior node lists none) stays as it is. Otherwise its part of the
    /// triangle index list is reordered so that the triangles for which `goes_left`
    /// holds come first; if both sides are nonempty, the next two free nodes become
    /// its children (left, then right), each listing one side, and the node becomes
    /// interior. The children are returned.
    pub fn split_node(&mut self, node_idx: usize, goes_left: &Vec<bool>) -> (children: Option<(usize, usize)>)
        requires
            old(self).wf(),
            old(self)@.is_built(),
            node_idx < old(self)@.nodes.len(),
            goes_left@.len() == old(self)@.triangle_count(),
        ensures
            final(self).wf(),
            final(self)@.is_built(),
            final(self)@.indices_are_permutation(),
            final(self)@.triangle_count() == old(self)@.triangle_count(),
            final(self)@.nodes.len() == old(self)@.nodes.len(),
            old(self)@.count(node_idx as int) <= 2 ==> children is None && final(self)@ == old(self)@,
            old(self)@.count(node_idx as int) > 2 ==> keeps_outside(
                old(self)@,
                final(self)@,
                old(self)@.first(node_idx as int),
                old(self)@.first(node_idx as int) + old(self)@.count(node_idx as int),
            ),
            old(self)@.count(node_idx as int) > 2 ==> final(self)@.triangle_indices == partition_scan(
                old(self)@.triangle_indices,
                goes_left@,
                old(self)@.first(node_idx as int),
                old(self)@.first(node_idx as int) + old(self)@.count(node_idx as int) - 1,
            ).0,
            old(self)@.count(node_idx as int) > 2 && children is None ==> {
                &&& final(self)@.nodes == old(self)@.nodes
                &&& final(self)@.used == old(self)@.used
                &&& one_sided(
                    final(self)@,
                    goes_left@,
                    old(self)@.first(node_idx as int),
                    old(self)@.first(node_idx as int) + old(self)@.count(node_idx as int),
                )
            },
            children matches Some((left, right)) ==> {
                let o = old(self)@;
                let f = final(self)@;
                let k: int = node_idx as int;
                let split: int = f.first(right as int);
                &&& o.count(k) > 2
                &&& left == o.used
                &&& right == left + 1
                &&& right < f.nodes.len()
                &&& f.used == o.used + 2
                &&& o.first(k) < split < o.first(k) + o.count(k)
                &&& split == partition_scan(
                    o.triangle_indices,
                    goes_left@,
                    o.first(k),
                    o.first(k) + o.count(k) - 1,
                ).1
                &&& f.nodes == o.nodes.update(
                    k,
                    BvhNodeLinks { left_child_or_first_triangle: left as u32, num_triangles: 0 },
                ).update(
                    left as int,
                    BvhNodeLinks {
                        left_child_or_first_triangle: o.first(k) as u32,
                        num_triangles: (split - o.first(k)) as u32,
                    },
                ).update(
                    right as int,
                    BvhNodeLinks {
                        left_child_or_first_triangle: split as u32,
                        num_triangles: (o.first(k) + o.count(k) - split) as u32,
                    },
                )
                &&& splits_at(f, goes_left@, o.first(k), split, o.first(k) + o.count(k))
            },
    {
        let node = self.nodes[node_idx];
        let first_triangle: u32 = node.left_child_or_first_triangle;
        let num_triangles: u32 = node.num_triangles;
        if num_triangles <= 2 {
            return None;
        }
        let ghost o = self@;
        let ghost n: int = o.triangle_count() as int;
        let ghost lo: int = first_triangle as int;
        let ghost hi: int = first_triangle + num_triangles;
        assert(o.is_leaf(node_idx as int));
        let i: usize = partition_triangles(
            &mut self.triangle_indices,
            first_triangle as usize,
            num_triangles as usize,
            goes_left,
        );
        proof {
            lemma_permutation_preserved(o.triangle_indices, self.triangle_indices@, n);
        }
        let left_num: u32 = i as u32 - first_triangle;
        if left_num == 0 || left_num == num_triangles {
            proof {
                assert(self@.nodes == o.nodes);
                assert forall|q: int| 0 <= q < n implies #[trigger] self@.leaf_covers(self.owner@[q], q) by {
                    assert(o.leaf_covers(self.owner@[q], q));
                }
                assert forall|k: int, q: int| #[trigger] self@.leaf_covers(k, q) implies self.owner@[q] == k by {
                    assert(o.leaf_covers(k, q));
                }
                assert forall|k: int, c: int|
                    #[trigger] self@.is_leaf(k) && #[trigger] self.cuts@.contains(c) implies !(self@.first(k) < c
                        < self@.first(k) + self@.count(k)) by {
                    assert(o.is_leaf(k));
                }
                assert forall|k: int| #[trigger] self@.is_leaf(k) implies self@.first(k) + self@.count(k) <= n by {
                    assert(o.is_leaf(k));
                }
                assert forall|k: int| #[trigger] self@.is_interior(k) implies k < self@.first(k) && self@.first(
                    k,
                ) + 1 < self@.used by {
                    assert(o.is_interior(k));
                }
                assert forall|k: int| #[trigger] self@.is_interior(k) implies self@.first(k) % 2 == 1 by {
                    assert(o.is_interior(k));
                }
                assert forall|k1: int, k2: int|
                    #[trigger] self@.is_interior(k1) && #[trigger] self@.is_interior(k2) && k1 != k2 implies self@.first(
                    k1,
                ) != self@.first(k2) by {
                    assert(o.is_interior(k1) && o.is_interior(k2));
                }
                assert forall|k: int| 0 < k < self@.used implies #[trigger] self@.has_parent_below(k) by {
                    assert(o.has_parent_below(k));
                    let p: int = choose|p: int| 0 <= p < k && #[trigger] o.is_parent(p, k);
                    assert(self@.is_parent(p, k));
                }
            }
            return None;
        }
        let left_child_idx: usize = self.used;
        proof {
            assert(!self.cuts@.contains(i as int)) by {
                if self.cuts@.contains(i as int) {
                    assert(o.is_leaf(node_idx as int));
                }
            }
            lemma_one_more_cut(self.cuts@, i as int, n);
        }
        let right_child_idx: usize = self.used + 1;
        self.used = self.used + 2;
        let ghost cuts = self.cuts@;
        let ghost owner = self.owner@;
        let ghost mid: int = i as int;
        self.nodes.set(
            left_child_idx,
            BvhNodeLinks { left_child_or_first_triangle: first_triangle, num_triangles: left_num },
        );
        self.nodes.set(
            right_child_idx,
            BvhNodeLinks { left_child_or_first_triangle: i as u32, num_triangles: num_triangles - left_num },
        );
        self.nodes.set(
            node_idx,
            BvhNodeLinks { left_child_or_first_triangle: left_child_idx as u32, num_triangles: 0 },
        );
        proof {
            let l: int = left_child_idx as int;
            let r: int = right_child_idx as int;
            let k0: int = node_idx as int;
            self.cuts@ = cuts.insert(mid);
            self.owner@ = Seq::new(
                n as nat,
                |q: int|
                    if lo <= q < mid {
                        l
                    } else if mid <= q < hi {
                        r
                    } else {
                        owner[q]
                    },
            );
            let v = self@;
            assert(v.is_leaf(l) && v.is_leaf(r) && !v.is_leaf(k0));
            assert forall|k: int| #[trigger] v.is_leaf(k) && k != l && k != r implies o.is_leaf(k) && k != k0
                && v.nodes[k] == o.nodes[k] by {}
            assert forall|k: int| #[trigger] v.is_leaf(k) implies v.first(k) + v.count(k) <= n by {
                if k != l && k != r {
                    assert(o.is_leaf(k));
                }
            }
            assert forall|k: int| #[trigger] v.is_interior(k) implies k < v.first(k) && v.first(k) + 1 < v.used by {
                if k != k0 {
                    assert(o.is_interior(k));
                }
            }
            assert forall|k: int| #[trigger] v.is_interior(k) implies v.first(k) % 2 == 1 by {
                if k != k0 {
                    assert(o.is_interior(k));
                }
            }
            assert forall|k1: int, k2: int|
                #[trigger] v.is_interior(k1) && #[trigger] v.is_interior(k2) && k1 != k2 implies v.first(k1)
                != v.first(k2) by {
                if k1 != k0 {
                    assert(o.is_interior(k1));
                }
                if k2 != k0 {
                    assert(o.is_interior(k2));
                }
            }
            assert forall|k: int| 0 < k < v.used implies #[trigger] v.has_parent_below(k) by {
                if k == l || k == r {
                    assert(v.is_parent(k0, k));
                } else {
                    assert(o.has_parent_below(k));
                    let p: int = choose|p: int| 0 <= p < k && #[trigger] o.is_parent(p, k);
                    assert(o.is_interior(p));
                    assert(p != k0);
                    assert(v.is_parent(p, k));
                }
            }
            assert forall|q: int| 0 <= q < n implies #[trigger] v.leaf_covers(self.owner@[q], q) by {
                if !(lo <= q < hi) {
                    assert(o.leaf_covers(owner[q], q));
                    assert(owner[q] != k0);
                }
            }
            assert forall|k: int, q: int| #[trigger] v.leaf_covers(k, q) implies self.owner@[q] == k by {
                if k != l && k != r {
                    assert(o.leaf_covers(k, q));
                    if lo <= q < hi {
                        assert(o.leaf_covers(k0, q));
                    }
                }
            }
            assert forall|k: int, c: int|
                #[trigger] v.is_leaf(k) && #[trigger] self.cuts@.contains(c) implies !(v.first(k) < c < v.first(k)
                    + v.count(k)) by {
                if k == l || k == r {
                    if c != mid {
                        assert(cuts.contains(c));
                        assert(o.is_leaf(k0));
                    }
                } else {
                    assert(o.is_leaf(k));
                    if c == mid {
                        if v.first(k) < c < v.first(k) + v.count(k) {
                            assert(o.leaf_covers(k, mid));
                            assert(o.leaf_covers(k0, mid));
                        }
                    } else {
                        assert(cuts.contains(c));
                    }
                }
            }
        }
        Some((left_child_idx, right_child_idx))
    }
}

/// Positions outside `lo .. hi` of the triangle index list are the same in `a` and `b`.
pub open spec fn keeps_outside(a: BvhView, b: BvhView, lo: int, hi: int) -> bool {
    forall|p: int|
        0 <= p < a.triangle_count() && !(lo <= p < hi) ==> #[trigger] b.triangle_indices[p]
            == a.triangle_indices[p]
}

/// In `v`, the triangles at positions `lo .. split` are those of `lo .. hi` for which
/// `goes_left` holds.
pub open spec fn splits_at(v: BvhView, goes_left: Seq<bool>, lo: int, split: int, hi: int) -> bool {
    &&& forall|p: int| lo <= p < split ==> goes_left[#[trigger] v.triangle_indices[p] as int]
    &&& forall|p: int| split <= p < hi ==> !goes_left[#[trigger] v.triangle_indices[p] as int]
}

/// All triangles at positions `lo .. hi` lie on the same side of `goes_left`.
pub open spec fn one_sided(v: BvhView, goes_left: Seq<bool>, lo: int, hi: int) -> bool {
    splits_at(v, goes_left, lo, lo, hi) || splits_at(v, goes_left, lo, hi, hi)
}

/// Rearranging a permutation of `0 .. n` (same multiset) gives a permutation of `0 .. n`.
proof fn lemma_permutation_preserved(s: Seq<u32>, t: Seq<u32>, n: int)
    requires
        s.len() == n,
        t.len() == n,
        s.no_duplicates(),
        forall|p: int| 0 <= p < n ==> #[trigger] s[p] < n,
        t.to_multiset() == s.to_multiset(),
    ensures
        t.no_duplicates(),
        forall|p: int| 0 <= p < n ==> #[trigger] t[p] < n,
{
    s.lemma_multiset_has_no_duplicates();
    t.lemma_multiset_has_no_duplicates_conv();
    assert forall|p: int| 0 <= p < n implies #[trigger] t[p] < n by {
        assert(t.to_multiset().contains(t[p]));
        assert(s.contains(t[p]));
    }
}

/// A set of cuts inside `1 .. n` that misses `c` (also inside) has room for it:
/// at most `n - 2` elements.
proof fn lemma_one_more_cut(cuts: Set<int>, c: int, n: int)
    requires
        cuts.finite(),
        cuts.subset_of(set_int_range(1, n)),
        1 <= c < n,
        !cuts.contains(c),
    ensures
        cuts.len() + 1 <= n - 1,
        cuts.insert(c).len() == cuts.len() + 1,
        cuts.insert(c).finite(),
        cuts.insert(c).subset_of(set_int_range(1, n)),
{
    vstd::set_lib::lemma_int_range(1, n);
    vstd::set_lib::lemma_len_subset(cuts.insert(c), set_int_range(1, n));
}

/// In a hierarchy under construction, every position of the triangle index list
/// is listed by exactly one leaf.
pub proof fn lemma_leaves_partition_positions(bvh: &BVH)
    requires
        bvh.wf(),
        bvh@.is_built(),
    ensures
        forall|p: int| 0 <= p < bvh@.triangle_count() ==> #[trigger] bvh@.listed_by_some_leaf(p),
        forall|k1: int, k2: int, p: int|
            #[trigger] bvh@.leaf_covers(k1, p) && #[trigger] bvh@.leaf_covers(k2, p) ==> k1 == k2,
{
    assert forall|p: int| 0 <= p < bvh@.triangle_count() implies #[trigger] bvh@.listed_by_some_leaf(p) by {
        assert(bvh@.leaf_covers(bvh.owner@[p], p));
    }
}

/// Every triangle `t < n` sits at exactly one position of the triangle index list,
/// and so (by `lemma_leaves_partition_positions`) in exactly one leaf.
pub proof fn lemma_each_triangle_listed_once(bvh: &BVH)
    requires
        bvh.wf(),
    ensures
        bvh@.indices_are_permutation(),
        forall|t: u32| t < bvh@.triangle_count() ==> #[trigger] bvh@.triangle_indices.contains(t),
        forall|p1: int, p2: int|
            0 <= p1 < bvh@.triangle_count() && 0 <= p2 < bvh@.triangle_count() && #[trigger] bvh@.triangle_indices[p1]
                == #[trigger] bvh@.triangle_indices[p2] ==> p1 == p2,
{
    broadcast use vstd::seq_lib::group_to_multiset_ensures;
    let v = bvh@;
    let ids = identity_indices(v.triangle_count());
    assert forall|t: u32| t < v.triangle_count() implies #[trigger] v.triangle_indices.contains(t) by {
        assert(ids[t as int] == t);
        assert(ids.to_multiset().contains(t));
    }
}

/// The node array always has room for the tree, whose shape is well founded:
/// at most `2 * n - 1` nodes are in use, leaves list triangles that exist, and the
/// two children of an interior node come after it and are in use.
pub proof fn lemma_tree_shape(bvh: &BVH)
    requires
        bvh.wf(),
        bvh@.is_built(),
    ensures
        1 <= bvh@.triangle_count() <= MAX_TRIANGLES,
        1 <= bvh@.used <= bvh@.nodes.len() == 2 * bvh@.triangle_count() - 1,
        forall|k: int| #[trigger] bvh@.is_leaf(k) ==> bvh@.first(k) + bvh@.count(k) <= bvh@.triangle_count(),
        forall|k: int|
            #[trigger] bvh@.is_interior(k) ==> k < bvh@.first(k) && bvh@.first(k) + 1 < bvh@.used,
{
}

/// Every node in use is reachable from the root: following a node's parent (which
/// comes before it) leads back to node 0.
proof fn lemma_reachable_from_parents(v: BvhView, k: int)
    requires
        0 <= k < v.used,
        forall|q: int| 0 < q < v.used ==> #[trigger] v.has_parent_below(q),
    ensures
        v.reachable(k),
    decreases k,
{
    if k == 0 {
        let path = seq![0int];
        assert(v.is_root_path(path));
    } else {
        assert(v.has_parent_below(k));
        let p: int = choose|p: int| 0 <= p < k && #[trigger] v.is_parent(p, k);
        lemma_reachable_from_parents(v, p);
        let path: Seq<int> = choose|path: Seq<int>| #[trigger] v.is_root_path(path) && path.last() == p;
        let longer = path.push(k);
        assert forall|q: int| 0 <= q < longer.len() - 1 implies #[trigger] v.is_parent(longer[q], longer[q + 1]) by {
            if q < path.len() - 1 {
                assert(longer[q] == path[q] && longer[q + 1] == path[q + 1]);
            }
        }
        assert(v.is_root_path(longer));
        assert(longer.last() == k);
    }
}

/// The hierarchy is a tree rooted at node 0: every node in use is reachable from
/// the root, the root has no parent, and every other node has exactly one parent.
/// With `lemma_leaves_partition_positions`, the leaves reached from the root list
/// every position of the triangle index list exactly once.
pub proof fn lemma_tree_rooted(bvh: &BVH)
    requires
        bvh.wf(),
        bvh@.is_built(),
    ensures
        forall|k: int| 0 <= k < bvh@.used ==> #[trigger] bvh@.reachable(k),
        forall|p: int| !#[trigger] bvh@.is_parent(p, 0),
        forall|k: int, p1: int, p2: int|
            #[trigger] bvh@.is_parent(p1, k) && #[trigger] bvh@.is_parent(p2, k) ==> p1 == p2,
{
    let v = bvh@;
    assert forall|k: int| 0 <= k < v.used implies #[trigger] v.reachable(k) by {
        lemma_reachable_from_parents(v, k);
    }
    assert forall|p: int| !#[trigger] v.is_parent(p, 0) by {
        if v.is_parent(p, 0) {
            assert(v.is_interior(p));
        }
    }
    assert forall|k: int, p1: int, p2: int|
        #[trigger] v.is_parent(p1, k) && #[trigger] v.is_parent(p2, k) implies p1 == p2 by {
        assert(v.is_interior(p1) && v.is_interior(p2));
        if p1 != p2 {
            assert(v.first(p1) != v.first(p2));
            assert(v.first(p1) % 2 == 1 && v.first(p2) % 2 == 1);
        }
    }
}

/// A leaf whose positions lie outside `klo .. khi` keeps its triangles, and so its
/// one-sidedness, when only positions `klo .. khi` are reordered.
proof fn lemma_one_sided_kept(o: BvhView, f: BvhView, d: Seq<bool>, lo: int, hi: int, klo: int, khi: int)
    requires
        one_sided(o, d, lo, hi),
        0 <= lo <= hi <= o.triangle_count(),
        keeps_outside(o, f, klo, khi),
        hi <= klo || khi <= lo,
    ensures
        one_sided(f, d, lo, hi),
{
    assert forall|p: int| lo <= p < hi implies #[trigger] f.triangle_indices[p] == o.triangle_indices[p] by {}
    if splits_at(o, d, lo, lo, hi) {
        assert forall|p: int| lo <= p < hi implies !d[#[trigger] f.triangle_indices[p] as int] by {
            assert(f.triangle_indices[p] == o.triangle_indices[p]);
        }
        assert(splits_at(f, d, lo, lo, hi));
    } else {
        assert forall|p: int| lo <= p < hi implies d[#[trigger] f.triangle_indices[p] as int] by {
            assert(f.triangle_indices[p] == o.triangle_indices[p]);
        }
        assert(splits_at(f, d, lo, hi, hi));
    }
}

/// Top-down construction of a hierarchy, one node at a time in depth-first order,
/// left child before right: the node to decide on next is `current()`, and `step`
/// takes the left/right decision for its triangles (worked out by the caller from
/// their positions) and splits it or leaves it a leaf.
pub struct BvhBuilder {
    bvh: BVH,
    /// Leaves still to decide on; the next one is the last.
    pending: Vec<usize>,
    /// For each leaf that a decision left whole although it has more than two
    /// triangles, that decision.
    decisions: Ghost<Map<int, Seq<bool>>>,
}

impl BvhBuilder {
    /// The hierarchy built so far.
    pub closed spec fn tree(&self) -> BvhView {
        self.bvh@
    }

    /// The leaves still to decide on, the next one last.
    pub closed spec fn pending(&self) -> Seq<usize> {
        self.pending@
    }

    /// The decision that left leaf `k` whole, if one did while it had more than two
    /// triangles.
    pub closed spec fn decision(&self, k: int) -> Option<Seq<bool>> {
        if self.decisions@.contains_key(k) {
            Some(self.decisions@[k])
        } else {
            None
        }
    }

    /// The invariant of the construction: the hierarchy's own, and every leaf is
    /// still to decide on, has at most two triangles, or lies on one side of the
    /// decision that left it whole.
    pub closed spec fn wf(&self) -> bool {
        let v = self.bvh@;
        &&& self.bvh.wf()
        &&& v.is_built()
        &&& self.pending@.no_duplicates()
        &&& forall|q: int| 0 <= q < self.pending@.len() ==> v.is_leaf(#[trigger] self.pending@[q] as int)
        &&& forall|k: int|
            #[trigger] v.is_leaf(k) ==> {
                ||| self.pending@.contains(k as usize)
                ||| v.count(k) <= 2
                ||| self.decisions@.contains_key(k) && one_sided(
                    v,
                    self.decisions@[k],
                    v.first(k),
                    v.first(k) + v.count(k),
                )
            }
    }

    /// Starts construction of `bvh`, whose root has not been split: the root
    /// becomes a leaf of every triangle and is the first node to decide on.
    pub fn start(bvh: BVH) -> (builder: Self)
        requires
            bvh.wf(),
            bvh@.used == 1,
        ensures
            builder.wf(),
            builder.tree().used == 1,
            builder.tree().triangle_indices == bvh@.triangle_indices,
            builder.tree().nodes == bvh@.nodes.update(
                0,
                BvhNodeLinks {
                    left_child_or_first_triangle: bvh@.nodes[0].left_child_or_first_triangle,
                    num_triangles: bvh@.triangle_count() as u32,
                },
            ),
            builder.pending() == seq![0usize],
    {
        let mut bvh = bvh;
        bvh.begin_build();
        let mut pending: Vec<usize> = Vec::new();
        pending.push(0);
        let builder = BvhBuilder { bvh, pending, decisions: Ghost(Map::empty()) };
        proof {
            let v = builder.bvh@;
            assert(v.is_leaf(0));
            assert forall|k: int| #[trigger] v.is_leaf(k) implies builder.pending@.contains(k as usize) by {
                assert(k == 0);
                assert(builder.pending@[0] == 0usize);
            }
        }
        builder
    }

    /// The hierarchy built so far.
    pub fn bvh(&self) -> (bvh: &BVH)
        requires
            self.wf(),
        ensures
            bvh.wf(),
            bvh@ == self.tree(),
    {
        &self.bvh
    }

    /// The node to decide on next, if any is left.
    pub fn current(&self) -> (node: Option<usize>)
        ensures
            node == (if self.pending().len() == 0 {
                None
            } else {
                Some(self.pending().last())
            }),
    {
        if self.pending.len() == 0 {
            None
        } else {
            Some(self.pending[self.pending.len() - 1])
        }
    }

    /// Decides on the current node with `goes_left` (one entry per triangle), as
    /// `BVH::split_node` does. If the node is split, its children become the next
    /// nodes to decide on, the left one first.
    pub fn step(&mut self, goes_left: &Vec<bool>) -> (children: Option<(usize, usize)>)
        requires
            old(self).wf(),
            old(self).pending().len() > 0,
            goes_left@.len() == old(self).tree().triangle_count(),
        ensures
            final(self).wf(),
            final(self).tree().triangle_count() == old(self).tree().triangle_count(),
            final(self).tree().nodes.len() == old(self).tree().nodes.len(),
            ({
                let o = old(self).tree();
                let f = final(self).tree();
                let k: int = old(self).pending().last() as int;
                &&& o.is_leaf(k)
                &&& o.count(k) <= 2 ==> children is None && f == o
                &&& o.count(k) > 2 ==> keeps_outside(o, f, o.first(k), o.first(k) + o.count(k))
                &&& o.count(k) > 2 ==> f.triangle_indices == partition_scan(
                    o.triangle_indices,
                    goes_left@,
                    o.first(k),
                    o.first(k) + o.count(k) - 1,
                ).0
                &&& o.count(k) > 2 && children is None ==> {
                    &&& f.nodes == o.nodes
                    &&& f.used == o.used
                    &&& one_sided(f, goes_left@, o.first(k), o.first(k) + o.count(k))
                    &&& final(self).decision(k) == Some(goes_left@)
                }
                &&& children matches Some((left, right)) ==> {
                    let split: int = f.first(right as int);
                    &&& o.count(k) > 2
                    &&& left == o.used
                    &&& right == left + 1
                    &&& f.used == o.used + 2
                    &&& o.first(k) < split < o.first(k) + o.count(k)
                    &&& f.nodes == o.nodes.update(
                        k,
                        BvhNodeLinks { left_child_or_first_triangle: left as u32, num_triangles: 0 },
                    ).update(
                        left as int,
                        BvhNodeLinks {
                            left_child_or_first_triangle: o.first(k) as u32,
                            num_triangles: (split - o.first(k)) as u32,
                        },
                    ).update(
                        right as int,
                        BvhNodeLinks {
                            left_child_or_first_triangle: split as u32,
                            num_triangles: (o.first(k) + o.count(k) - split) as u32,
                        },
                    )
                    &&& splits_at(f, goes_left@, o.first(k), split, o.first(k) + o.count(k))
                }
            }),
            final(self).pending() == (match children {
                Some((left, right)) => old(self).pending().drop_last().push(right).push(left),
                None => old(self).pending().drop_last(),
            }),
    {
        let ghost o = self.bvh@;
        let ghost old_pending = self.pending@;
        let ghost old_owner = self.bvh.owner@;
        let ghost decisions = self.decisions@;
        let node = self.pending.pop().unwrap();
        assert(old_pending[old_pending.len() - 1] == node);
        assert(o.is_leaf(node as int));
        let ghost k: int = node as int;
        let ghost lo: int = o.first(k);
        let ghost hi: int = o.first(k) + o.count(k);
        let children = self.bvh.split_node(node, goes_left);
        match children {
            Some((left, right)) => {
                self.pending.push(right);
                self.pending.push(left);
            },
            None => {
                proof {
                    if o.count(k) > 2 {
                        self.decisions@ = decisions.insert(k, goes_left@);
                    }
                }
            },
        }
        proof {
            let f = self.bvh@;
            assert(self.pending@ == (match children {
                Some((left, right)) => old_pending.drop_last().push(right).push(left),
                None => old_pending.drop_last(),
            }));
            assert forall|q: int| 0 <= q < old_pending.len() - 1 implies #[trigger] old_pending[q] != node by {
                assert(old_pending[q] == old_pending.drop_last()[q]);
            }
            // Leaves other than the decided node keep their links, and their
            // positions lie outside the decided node's range.
            assert forall|j: int| #[trigger] o.is_leaf(j) && j != k implies o.first(j) + o.count(j) <= lo || hi
                <= o.first(j) by {
                if !(o.first(j) + o.count(j) <= lo || hi <= o.first(j)) {
                    let p: int = if o.first(j) < lo { lo } else { o.first(j) };
                    assert(o.leaf_covers(j, p));
                    assert(o.leaf_covers(k, p));
                }
            }
            assert forall|q: int| 0 <= q < self.pending@.len() implies f.is_leaf(
                #[trigger] self.pending@[q] as int,
            ) by {
                if q < old_pending.len() - 1 {
                    assert(self.pending@[q] == old_pending[q]);
                    let j: int = old_pending[q] as int;
                    assert(o.is_leaf(j));
                    assert(j != k);
                }
            }
            if children is Some {
                assert forall|a: int, b: int|
                    0 <= a < self.pending@.len() && 0 <= b < self.pending@.len() && a != b implies self.pending@[a]
                    != self.pending@[b] by {
                    if a < old_pending.len() - 1 {
                        assert(o.is_leaf(old_pending[a] as int));
                    }
                    if b < old_pending.len() - 1 {
                        assert(o.is_leaf(old_pending[b] as int));
                    }
                }
            } else {
                assert forall|a: int, b: int|
                    0 <= a < self.pending@.len() && 0 <= b < self.pending@.len() && a != b implies self.pending@[a]
                    != self.pending@[b] by {
                    assert(self.pending@[a] == old_pending[a]);
                    assert(self.pending@[b] == old_pending[b]);
                }
            }
            assert forall|j: int| #[trigger] f.is_leaf(j) implies {
                ||| self.pending@.contains(j as usize)
                ||| f.count(j) <= 2
                ||| self.decisions@.contains_key(j) && one_sided(
                    f,
                    self.decisions@[j],
                    f.first(j),
                    f.first(j) + f.count(j),
                )
            } by {
                match children {
                Some((left, right)) => {
                    if j == left as int {
                        assert(self.pending@[self.pending@.len() - 1] == left);
                    } else if j == right as int {
                        assert(self.pending@[self.pending@.len() - 2] == right);
                    } else {
                        assert(o.is_leaf(j) && j != k);
                        assert(f.nodes[j] == o.nodes[j]);
                        if old_pending.contains(j as usize) {
                            let q: int = choose|q: int| 0 <= q < old_pending.len() && old_pending[q] == j as usize;
                            assert(q != old_pending.len() - 1);
                            assert(self.pending@[q] == old_pending[q]);
                        } else if o.count(j) > 2 {
                            lemma_one_sided_kept(o, f, decisions[j], o.first(j), o.first(j) + o.count(j), lo, hi);
                        }
                    }
                },
                None => {
                    assert(f.nodes == o.nodes);
                    assert(o.is_leaf(j));
                    if j == k {
                    } else {
                        if old_pending.contains(j as usize) {
                            let q: int = choose|q: int| 0 <= q < old_pending.len() && old_pending[q] == j as usize;
                            assert(q != old_pending.len() - 1);
                            assert(self.pending@[q] == old_pending[q]);
                        } else if o.count(j) > 2 {
                            assert(self.decisions@[j] == decisions[j]);
                            if o.count(k) > 2 {
                                lemma_one_sided_kept(o, f, decisions[j], o.first(j), o.first(j) + o.count(j), lo, hi);
                            }
                        }
                    }
                },
                }
            }
        }
        children
    }

    /// Ends construction once no node is left to decide on. Every leaf of the result
    /// has at most two triangles or lies on one side of the decision that left it
    /// whole; with `lemma_tree_rooted`, every one of them is reached from the root.
    pub fn finish(self) -> (bvh: BVH)
        requires
            self.wf(),
            self.pending().len() == 0,
        ensures
            bvh.wf(),
            bvh@.is_built(),
            bvh@ == self.tree(),
            forall|k: int|
                #[trigger] bvh@.is_leaf(k) ==> bvh@.count(k) <= 2 || (self.decision(k) matches Some(d)
                    && one_sided(bvh@, d, bvh@.first(k), bvh@.first(k) + bvh@.count(k))),
    {
        self.bvh
    }
}

} // verus!
