//! The flat scene: parallel fixed-stride buffers and the node index table.

use vstd::prelude::*;
use crate::hierarchy::{
    bare_node, child_of, forest, forest_ok, fuel_for, left_of, lemma_bare_no_in_edges,
    lemma_concat_contains, lemma_detach_forest, lemma_forest_in_range, lemma_forest_mono,
    lemma_insert_forest, lemma_member_in_edge, lemma_no_dup_insert, lemma_no_dup_join,
    lemma_no_dup_len, lemma_no_dup_parts, lemma_no_in_edge_not_in_forest, lemma_ok_tightens,
    lemma_parent_before_root, lemma_self_right_not_member, lemma_to_ints_push, lemma_traversal_head, parent_of, reachable,
    right_of, stack_exp, sub_seq, to_ints, traversal_seq, valid_ref, wf_links, wf_table,
};
use crate::math::{identity_mat, mat4_mul, update_worldmatrix_by_parent};

verus! {

/// Elements per node in the local and world transform buffers.
pub const TRANSFORM_ARRAY_STRIDE: usize = 16;

/// Elements per node in the local position buffer.
pub const POSITION_ARRAY_STRIDE: usize = 3;

/// Elements per node in the world axis-aligned-bounds buffer.
pub const WORLD_AABB_ARRAY_STRIDE: usize = 12;

/// Elements per node in the world bounding-sphere buffer.
pub const WORLD_BSPHERE_ARRAY_STRIDE: usize = 4;

/// Entries per node in the node index table.
pub const NODE_INDEX_STRIDE: usize = 4;

/// What a scene operation can fail with.
#[derive(Clone, Copy, Debug, PartialEq, Eq, Structural)]
pub enum SceneError {
    /// The requested capacity cannot be satisfied.
    AllocationFailure,
    /// A structural edit would break the hierarchy invariants.
    InvalidTopology,
    /// A node index outside `[0, capacity)` was addressed.
    OutOfRangeIndex,
}

/// A transform tree in structure-of-arrays form. All buffers are indexed
/// by node index times the buffer's stride; the node index table encodes
/// parent, left sibling, right sibling and first child per node, with
/// `-1` for "no such relation". Node 0 is the permanent root.
pub struct ArrayScene {
    local_transform_array: Vec<i32>,
    local_position_array: Vec<i32>,
    world_transform_array: Vec<i32>,
    world_aabb_array: Vec<i32>,
    world_bsphere_array: Vec<i32>,
    empty_array: Vec<u8>,
    empty_list_array: Vec<u16>,
    empty_count: u16,
    // [parent, left brother, right brother, first child]
    nodes_indexs: Vec<i16>,
}

impl ArrayScene {
    /// The node index table, entry by entry.
    pub closed spec fn table(self) -> Seq<i16> {
        self.nodes_indexs@
    }

    /// The local transform buffer, word by word.
    pub closed spec fn local_transform_words(self) -> Seq<i32> {
        self.local_transform_array@
    }

    /// The local position buffer, word by word.
    pub closed spec fn local_position_words(self) -> Seq<i32> {
        self.local_position_array@
    }

    /// The world transform buffer, word by word.
    pub closed spec fn world_transform_words(self) -> Seq<i32> {
        self.world_transform_array@
    }

    /// The world axis-aligned-bounds buffer, word by word.
    pub closed spec fn world_aabb_words(self) -> Seq<i32> {
        self.world_aabb_array@
    }

    /// The world bounding-sphere buffer, word by word.
    pub closed spec fn world_bsphere_words(self) -> Seq<i32> {
        self.world_bsphere_array@
    }

    /// Contents of the free-slot marker array (reserved storage).
    pub closed spec fn empty_bytes(self) -> Seq<u8> {
        self.empty_array@
    }

    /// Contents of the free-slot list array (reserved storage).
    pub closed spec fn empty_list(self) -> Seq<u16> {
        self.empty_list_array@
    }

    /// The free-slot counter (reserved storage).
    pub closed spec fn empty_count_val(self) -> u16 {
        self.empty_count
    }

    /// Node capacity: how many nodes the buffers hold.
    pub open spec fn capacity(self) -> int {
        self.table().len() as int / 4
    }

    /// All buffers sized together for `capacity()` nodes.
    pub open spec fn buffers_wf(self) -> bool {
        &&& self.table().len() == 4 * self.capacity()
        &&& self.local_transform_words().len() == 16 * self.capacity()
        &&& self.local_position_words().len() == 3 * self.capacity()
        &&& self.world_transform_words().len() == 16 * self.capacity()
        &&& self.world_aabb_words().len() == 12 * self.capacity()
        &&& self.world_bsphere_words().len() == 4 * self.capacity()
        &&& self.empty_bytes().len() == self.capacity()
        &&& self.empty_list().len() == self.capacity()
    }

    /// A usable scene: buffers allocated in step and the table well formed.
    pub open spec fn wf(self) -> bool {
        &&& self.buffers_wf()
        &&& wf_table(self.table(), self.capacity())
    }

    /// A live node: one an update pass visits.
    pub open spec fn live(self, n: int) -> bool {
        reachable(self.table(), self.capacity(), n)
    }

    /// The 16 local transform words of node `n`.
    pub open spec fn local_slice(self, n: int) -> Seq<i32> {
        self.local_transform_words().subrange(16 * n, 16 * n + 16)
    }

    /// The 16 world transform words of node `n`.
    pub open spec fn world_slice(self, n: int) -> Seq<i32> {
        self.world_transform_words().subrange(16 * n, 16 * n + 16)
    }

    /// An empty scene; nothing may be done with it before `allocate`.
    pub fn new() -> (scene: ArrayScene)
        ensures
            scene.capacity() == 0,
            scene.table().len() == 0,
            scene.local_transform_words().len() == 0,
            scene.local_position_words().len() == 0,
            scene.world_transform_words().len() == 0,
            scene.world_aabb_words().len() == 0,
            scene.world_bsphere_words().len() == 0,
            scene.empty_bytes().len() == 0,
            scene.empty_list().len() == 0,
            scene.empty_count_val() == 0,
    {
        ArrayScene {
            local_transform_array: Vec::new(),
            local_position_array: Vec::new(),
            world_transform_array: Vec::new(),
            world_aabb_array: Vec::new(),
            world_bsphere_array: Vec::new(),
            empty_array: Vec::new(),
            empty_list_array: Vec::new(),
            empty_count: 0,
            nodes_indexs: Vec::new(),
        }
    }

    /// Resize every buffer to hold exactly `capacity` nodes, zero the
    /// numeric buffers and set every table relation to -1, leaving only
    /// the root live. Fails with `AllocationFailure`, changing nothing,
    /// when the capacity is zero or the largest buffer length would not
    /// fit in `usize`.
    pub fn allocate(&mut self, capacity: usize) -> (result: Result<(), SceneError>)
        ensures
            result is Ok <==> 1 <= capacity && 16 * capacity <= usize::MAX,
            result is Err ==> result == Err::<(), SceneError>(SceneError::AllocationFailure)
                && *final(self) == *old(self),
            result is Ok ==> {
                &&& final(self).capacity() == capacity
                &&& final(self).wf()
                &&& forall|i: int|
                    0 <= i < 4 * capacity ==> final(self).table()[i] == -1i16
                &&& forall|i: int|
                    0 <= i < 16 * capacity ==> final(self).local_transform_words()[i] == 0i32
                &&& forall|i: int|
                    0 <= i < 3 * capacity ==> final(self).local_position_words()[i] == 0i32
                &&& forall|i: int|
                    0 <= i < 16 * capacity ==> final(self).world_transform_words()[i] == 0i32
                &&& forall|i: int|
                    0 <= i < 12 * capacity ==> final(self).world_aabb_words()[i] == 0i32
                &&& forall|i: int|
                    0 <= i < 4 * capacity ==> final(self).world_bsphere_words()[i] == 0i32
                &&& forall|i: int|
                    0 <= i < capacity ==> final(self).empty_bytes()[i] == 0u8
                &&& forall|i: int|
                    0 <= i < capacity ==> final(self).empty_list()[i] == 0u16
                &&& final(self).empty_count_val() == 0
            },
    {
        if capacity == 0 {
            return Err(SceneError::AllocationFailure);
        }
        let transform_len: usize = match capacity.checked_mul(TRANSFORM_ARRAY_STRIDE) {
            Some(len) => len,
            None => {
                return Err(SceneError::AllocationFailure);
            },
        };
        self.local_transform_array = filled(transform_len, 0i32);
        self.local_position_array = filled(capacity * POSITION_ARRAY_STRIDE, 0i32);
        self.world_transform_array = filled(transform_len, 0i32);
        self.world_aabb_array = filled(capacity * WORLD_AABB_ARRAY_STRIDE, 0i32);
        self.world_bsphere_array = filled(capacity * WORLD_BSPHERE_ARRAY_STRIDE, 0i32);
        self.empty_array = filled(capacity, 0u8);
        self.empty_list_array = filled(capacity, 0u16);
        self.empty_count = 0;
        self.nodes_indexs = filled(capacity * NODE_INDEX_STRIDE, -1i16);
        proof {
            lemma_fresh_table_wf(self.nodes_indexs@, capacity as int);
        }
        Ok(())
    }

    /// Iterative depth-first walk with an explicit stack: pop a node,
    /// visit it, then push its child chain, so every child is visited
    /// after its parent and siblings come out in reverse discovery
    /// order. Returns the visit order, which is exactly `traversal_seq`:
    /// each live node once, no other node at all.
    #[verifier::loop_isolation(false)]
    pub fn traverse_from(&self, index: i16) -> (order: Vec<i16>)
        requires
            self.wf(),
            index == 0i16,
        ensures
            to_ints(order@) == traversal_seq(self.table(), self.capacity()),
            order@.no_duplicates(),
            forall|k: int| 0 <= k < order@.len() ==> 0 <= #[trigger] order@[k] < self.capacity(),
    {
        let ghost t = self.table();
        let ghost cap = self.capacity();
        let ghost fl = fuel_for(cap);
        let ghost full = traversal_seq(t, cap);

        let mut travers_stack: Vec<i16> = Vec::with_capacity(100);
        let mut order: Vec<i16> = Vec::new();
        travers_stack.push(index);
        proof {
            assert(forest(t, -1, (fl - 1) as nat) =~= Seq::<int>::empty());
            lemma_forest_mono(t, child_of(t, 0), (fl - 1) as nat, fl);
            assert(travers_stack@.drop_last() =~= Seq::<i16>::empty());
            assert(stack_exp(t, travers_stack@, fl) == sub_seq(t, 0, fl) + stack_exp(
                t,
                travers_stack@.drop_last(),
                fl,
            ));
            assert(to_ints(order@) + stack_exp(t, travers_stack@, fl) =~= full);
        }
        while travers_stack.len() != 0
            invariant
                to_ints(order@) + stack_exp(t, travers_stack@, fl) == full,
                forall|i: int|
                    0 <= i < travers_stack@.len() ==> 0 <= #[trigger] travers_stack@[i] < cap
                        && forest_ok(t, child_of(t, travers_stack@[i] as int), fl),
                forall|k: int| 0 <= k < order@.len() ==> 0 <= #[trigger] order@[k] < cap,
                order@.len() <= full.len(),
            decreases full.len() - order@.len(),
        {
            let ghost pre_stack = travers_stack@;
            let node_to_visit = travers_stack.pop().unwrap();
            let ghost nodei = node_to_visit as int;
            proof {
                assert(node_to_visit == pre_stack.last());
                assert(travers_stack@ =~= pre_stack.drop_last());
                assert(stack_exp(t, pre_stack, fl) == sub_seq(t, nodei, fl) + stack_exp(
                    t,
                    travers_stack@,
                    fl,
                ));
            }
            let ghost pre_order = order@;
            order.push(node_to_visit);
            proof {
                lemma_to_ints_push(pre_order, node_to_visit);
                assert(to_ints(order@) + (forest(t, child_of(t, nodei), fl) + stack_exp(
                    t,
                    travers_stack@,
                    fl,
                )) =~= full);
            }
            let first_child: i16 = self.nodes_indexs[4 * (node_to_visit as usize) + 3];
            proof {
                assert(first_child as int == child_of(t, nodei));
            }
            let ghost base_exp = stack_exp(t, travers_stack@, fl);
            let mut current: i16 = first_child;
            while current != -1
                invariant
                    current == -1 || (0 <= current < cap && forest_ok(t, current as int, fl)),
                    forest(t, current as int, fl) + stack_exp(t, travers_stack@, fl) == forest(
                        t,
                        child_of(t, nodei),
                        fl,
                    ) + base_exp,
                    forall|i: int|
                        0 <= i < travers_stack@.len() ==> 0 <= #[trigger] travers_stack@[i] < cap
                            && forest_ok(t, child_of(t, travers_stack@[i] as int), fl),
                decreases forest(t, current as int, fl).len(),
            {
                let ghost cur = current as int;
                let ghost mid_stack = travers_stack@;
                travers_stack.push(current);
                proof {
                    assert(travers_stack@.last() == current);
                    assert(travers_stack@.drop_last() =~= mid_stack);
                    assert(stack_exp(t, travers_stack@, fl) == sub_seq(t, cur, fl) + stack_exp(
                        t,
                        mid_stack,
                        fl,
                    ));
                    lemma_forest_mono(t, right_of(t, cur), (fl - 1) as nat, fl);
                    lemma_forest_mono(t, child_of(t, cur), (fl - 1) as nat, fl);
                    assert(forest(t, cur, fl) == forest(t, right_of(t, cur), fl) + seq![cur]
                        + forest(t, child_of(t, cur), fl));
                    assert(forest(t, right_of(t, cur), fl) + stack_exp(t, travers_stack@, fl)
                        =~= forest(t, child_of(t, nodei), fl) + base_exp);
                }
                current = self.nodes_indexs[4 * (current as usize) + 2];
                proof {
                    assert(current as int == right_of(t, cur));
                }
            }
            proof {
                assert(forest(t, -1, fl) =~= Seq::<int>::empty());
                assert(to_ints(order@) + stack_exp(t, travers_stack@, fl) =~= full);
            }
        }
        proof {
            assert(stack_exp(t, travers_stack@, fl) =~= Seq::<int>::empty());
            assert(to_ints(order@) =~= full);
            assert forall|i: int, j: int|
                0 <= i < j < order@.len() implies order@[i] != order@[j] by {
                assert(to_ints(order@)[i] == order@[i] as int);
                assert(to_ints(order@)[j] == order@[j] as int);
            }
        }
        order
    }

    /// One full update pass: walk the hierarchy from the root and
    /// recompute every live node's world transform from its local
    /// transform and its parent's world transform as computed by this
    /// same pass; the root, having no parent, takes its local transform
    /// unchanged. Exactly the live nodes are written; every other buffer
    /// and every non-live node's world words keep their values.
    #[verifier::loop_isolation(false)]
    pub fn update_hirerachy(&mut self)
        requires
            old(self).wf(),
        ensures
            final(self).wf(),
            update_rel(*old(self), *final(self)),
    {
        let ghost pre = *old(self);
        let ghost t = old(self).table();
        let ghost cap = old(self).capacity();
        let ghost full = traversal_seq(t, cap);
        let order = self.traverse_from(0);
        proof {
            lemma_traversal_head(t, cap);
            lemma_forest_in_range(t, cap, 0, fuel_for(cap));
            assert(full.subrange(0, 0) =~= Seq::<int>::empty());
        }
        let order_len: usize = order.len();
        let mut k: usize = 0;
        while k < order_len
            invariant
                k <= order_len,
                self.table() == t,
                self.local_transform_words() == pre.local_transform_words(),
                self.local_position_words() == pre.local_position_words(),
                self.world_aabb_words() == pre.world_aabb_words(),
                self.world_bsphere_words() == pre.world_bsphere_words(),
                self.empty_bytes() == pre.empty_bytes(),
                self.empty_list() == pre.empty_list(),
                self.empty_count_val() == pre.empty_count_val(),
                self.world_transform_words().len() == pre.world_transform_words().len(),
                forall|j: int| 0 <= j < k ==> node_done(*self, t, #[trigger] full[j]),
                forall|n: int|
                    0 <= n < cap && !full.subrange(0, k as int).contains(n) ==> self.world_slice(n)
                        == pre.world_slice(n),
            decreases order_len - k,
        {
            let node: i16 = order[k];
            let ghost ni = node as int;
            let ghost before = *self;
            proof {
                assert(to_ints(order@)[k as int] == order@[k as int] as int);
                assert(full[k as int] == ni);
                assert(0 <= ni < cap);
                if ni != 0 {
                    assert(full[0] == 0int);
                    assert(k as int >= 1);
                    let i = lemma_parent_before_root(t, cap, k as int);
                    assert(0 <= full[i] < cap);
                }
            }
            update_hirerachy_visitor(node, self);
            proof {
                let p = parent_of(t, ni);
                assert forall|j: int| 0 <= j < k + 1 implies node_done(
                    *self,
                    t,
                    #[trigger] full[j],
                ) by {
                    if j < k {
                        let e = full[j];
                        assert(full[j] != full[k as int]);
                        lemma_slice_stable(
                            before.world_transform_words(),
                            self.world_transform_words(),
                            ni,
                            e,
                        );
                        if parent_of(t, e) != -1 && e != 0 {
                            let i2 = lemma_parent_before_root(t, cap, j);
                            assert(full[i2] != full[k as int]);
                            lemma_slice_stable(
                                before.world_transform_words(),
                                self.world_transform_words(),
                                ni,
                                parent_of(t, e),
                            );
                        }
                        assert(node_done(before, t, e));
                    } else {
                        assert(full[j] == ni);
                        if p != -1 {
                            assert(ni != 0);
                            let i = lemma_parent_before_root(t, cap, k as int);
                            assert(full[i] == p);
                            assert(full[i] != full[k as int]);
                            lemma_slice_stable(
                                before.world_transform_words(),
                                self.world_transform_words(),
                                ni,
                                p,
                            );
                        }
                    }
                }
                assert forall|n: int|
                    0 <= n < cap && !full.subrange(0, (k + 1) as int).contains(
                        n,
                    ) implies self.world_slice(n) == pre.world_slice(n) by {
                    assert(full.subrange(0, (k + 1) as int) =~= full.subrange(0, k as int).push(
                        full[k as int],
                    ));
                    assert(full.subrange(0, (k + 1) as int)[k as int] == ni);
                    assert(n != ni);
                    assert(!full.subrange(0, k as int).contains(n));
                    lemma_slice_stable(
                        before.world_transform_words(),
                        self.world_transform_words(),
                        ni,
                        n,
                    );
                }
            }
            k = k + 1;
        }
        proof {
            assert(full.subrange(0, full.len() as int) =~= full);
            assert forall|n: int|
                0 <= n < cap && pre.live(n) implies {
                let p = parent_of(pre.table(), n);
                &&& (n == 0 ==> p == -1)
                &&& (n != 0 ==> 0 <= p < pre.capacity() && pre.live(p))
                &&& node_done(*self, pre.table(), n)
            } by {
                let j = choose|j: int| 0 <= j < full.len() && full[j] == n;
                assert(node_done(*self, t, full[j]));
                if n != 0 {
                    assert(full[0] == 0int);
                    assert(j >= 1);
                    let i = lemma_parent_before_root(t, cap, j);
                    assert(full[i] == parent_of(t, n));
                    assert(full.contains(full[i]));
                }
            }
        }
    }

    /// Whether `index` is a live node, that is, reachable from the root
    /// and so visited by every update pass.
    #[verifier::loop_isolation(false)]
    pub fn is_live(&self, index: i16) -> (r: bool)
        requires
            self.wf(),
        ensures
            r == self.live(index as int),
    {
        let ghost full = traversal_seq(self.table(), self.capacity());
        let order = self.traverse_from(0);
        let n = order.len();
        let mut found = false;
        let mut k: usize = 0;
        proof {
            assert(full.subrange(0, 0) =~= Seq::<int>::empty());
        }
        while k < n
            invariant
                k <= n,
                found == full.subrange(0, k as int).contains(index as int),
            decreases n - k,
        {
            proof {
                assert(to_ints(order@)[k as int] == order@[k as int] as int);
                assert(full.subrange(0, (k + 1) as int) =~= full.subrange(0, k as int).push(
                    full[k as int],
                ));
            }
            if order[k] == index {
                found = true;
                proof {
                    assert(full.subrange(0, (k + 1) as int)[k as int] == index as int);
                }
            } else {
                proof {
                    if full.subrange(0, (k + 1) as int).contains(index as int) {
                        let i = choose|i: int|
                            0 <= i < k + 1 && #[trigger] full.subrange(0, (k + 1) as int)[i]
                                == index as int;
                        assert(full.subrange(0, k as int)[i] == index as int);
                    }
                    if full.subrange(0, k as int).contains(index as int) {
                        let i = choose|i: int|
                            0 <= i < k && #[trigger] full.subrange(0, k as int)[i] == index as int;
                        assert(full.subrange(0, (k + 1) as int)[i] == index as int);
                    }
                }
            }
            k = k + 1;
        }
        proof {
            assert(full.subrange(0, n as int) =~= full);
        }
        found
    }

    /// Link the bare slot `child_index` as the first child of the live
    /// node `parent_index`. Fails with `OutOfRangeIndex` when either
    /// index is outside the table, and with `InvalidTopology` when the
    /// child is the root or not a bare slot, or the parent is not live;
    /// a failed edit changes nothing.
    #[verifier::rlimit(80)]
    pub fn insert_child(&mut self, parent_index: i16, child_index: i16) -> (result: Result<
        (),
        SceneError,
    >)
        requires
            old(self).wf(),
        ensures
            final(self).wf(),
            ({
                let cap = old(self).capacity();
                let t = old(self).table();
                let p = parent_index as int;
                let c = child_index as int;
                let in_range = 0 <= p < cap && 0 <= c < cap;
                let valid = in_range && c != 0 && bare_node(t, c) && old(self).live(p);
                &&& (result == Ok::<(), SceneError>(()) <==> valid)
                &&& (!in_range ==> result == Err::<(), SceneError>(SceneError::OutOfRangeIndex))
                &&& (in_range && !valid ==> result == Err::<(), SceneError>(
                    SceneError::InvalidTopology,
                ))
                &&& (result is Err ==> *final(self) == *old(self))
                &&& (result is Ok ==> {
                    &&& insert_effect(t, final(self).table(), p, c)
                    &&& final(self).local_transform_words() == old(self).local_transform_words()
                    &&& final(self).local_position_words() == old(self).local_position_words()
                    &&& final(self).world_transform_words() == old(self).world_transform_words()
                    &&& final(self).world_aabb_words() == old(self).world_aabb_words()
                    &&& final(self).world_bsphere_words() == old(self).world_bsphere_words()
                    &&& final(self).empty_bytes() == old(self).empty_bytes()
                    &&& final(self).empty_list() == old(self).empty_list()
                    &&& final(self).empty_count_val() == old(self).empty_count_val()
                    &&& forall|n: int|
                        #![trigger final(self).live(n)]
                        final(self).live(n) <==> (old(self).live(n) || n == c)
                })
            }),
    {
        let cap_nodes = self.nodes_indexs.len() / 4;
        if parent_index < 0 || child_index < 0 || parent_index as usize >= cap_nodes
            || child_index as usize >= cap_nodes {
            return Err(SceneError::OutOfRangeIndex);
        }
        let p = parent_index as usize;
        let c = child_index as usize;
        let bare = self.nodes_indexs[4 * c] == -1 && self.nodes_indexs[4 * c + 1] == -1
            && self.nodes_indexs[4 * c + 2] == -1 && self.nodes_indexs[4 * c + 3] == -1;
        if child_index == 0 || !bare || !self.is_live(parent_index) {
            return Err(SceneError::InvalidTopology);
        }
        let ghost t = self.nodes_indexs@;
        let ghost capi = self.capacity();
        let ghost pi = parent_index as int;
        let ghost ci = child_index as int;
        let fc: i16 = self.nodes_indexs[4 * p + 3];
        let ghost fci = fc as int;
        proof {
            assert(fci == child_of(t, pi));
            assert(valid_ref(child_of(t, pi), capi));
        }
        self.nodes_indexs.set(4 * c, parent_index);
        self.nodes_indexs.set(4 * c + 2, fc);
        self.nodes_indexs.set(4 * p + 3, child_index);
        if fc != -1 {
            self.nodes_indexs.set(4 * (fc as usize) + 1, child_index);
        }
        proof {
            let t2 = self.nodes_indexs@;
            let fl = fuel_for(capi);
            assert(fci == child_of(t, pi));
            assert(bare_node(t, ci));
            lemma_bare_no_in_edges(t, capi, ci);
            lemma_no_in_edge_not_in_forest(t, capi, ci, 0, fl);
            assert(fci != ci) by {
                assert(child_of(t, pi) != ci);
            }
            assert(insert_effect(t, t2, pi, ci));
            assert(fci != 0) by {
                if fci == 0 {
                    assert(parent_of(t, 0) == pi);
                }
            }
            lemma_insert_links_wf(t, t2, capi, pi, ci);
            assert(traversal_seq(t, capi).contains(pi));
            let (x, y) = lemma_insert_forest(t, t2, capi, pi, ci, 0, fl);
            let s2 = forest(t2, 0, (fl + 1) as nat);
            assert(traversal_seq(t, capi) == x + y);
            assert(s2 == x + seq![ci] + y);
            lemma_concat_contains(x, y);
            lemma_no_dup_insert(x, y, ci);
            lemma_forest_in_range(t2, capi, 0, (fl + 1) as nat);
            lemma_no_dup_len(s2, capi);
            lemma_ok_tightens(t2, 0, (fl + 1) as nat);
            lemma_forest_mono(t2, 0, (s2.len() + 1) as nat, fl);
            lemma_forest_mono(t2, 0, (s2.len() + 1) as nat, (fl + 1) as nat);
            assert(traversal_seq(t2, capi) == s2);
            assert forall|n: int| reachable(t2, capi, n) <==> (reachable(t, capi, n) || n
                == ci) by {
                lemma_concat_contains(x + seq![ci], y);
                lemma_concat_contains(x, seq![ci]);
                assert(seq![ci].contains(n) == (n == ci)) by {
                    if seq![ci].contains(n) {
                        let i = choose|i: int| 0 <= i < 1 && seq![ci][i] == n;
                        assert(seq![ci][0] == ci);
                    }
                    if n == ci {
                        assert(seq![ci][0] == n);
                    }
                }
            }
            assert forall|n: int|
                0 <= n < capi && !reachable(t2, capi, n) implies bare_node(t2, n) by {
                assert(n != ci);
                assert(!reachable(t, capi, n));
                assert(bare_node(t, n));
                assert(n != pi);
                if fci != -1 {
                    assert(parent_of(t, fci) == pi);
                    assert(n != fci);
                }
                assert(parent_of(t2, n) == parent_of(t, n));
                assert(left_of(t2, n) == left_of(t, n));
                assert(right_of(t2, n) == right_of(t, n));
                assert(child_of(t2, n) == child_of(t, n));
            }
            assert(wf_table(t2, capi));
        }
        Ok(())
    }

    /// Unlink the leaf `index` from its parent and siblings, leaving it
    /// a bare slot; its former subtree position closes up. Fails with
    /// `OutOfRangeIndex` when the index is outside the table, and with
    /// `InvalidTopology` when the node is the root, still has children,
    /// or is not live; a failed edit changes nothing.
    #[verifier::rlimit(80)]
    pub fn detach(&mut self, index: i16) -> (result: Result<(), SceneError>)
        requires
            old(self).wf(),
        ensures
            final(self).wf(),
            ({
                let cap = old(self).capacity();
                let t = old(self).table();
                let c = index as int;
                let in_range = 0 <= c < cap;
                let valid = in_range && c != 0 && child_of(t, c) == -1 && old(self).live(c);
                &&& (result == Ok::<(), SceneError>(()) <==> valid)
                &&& (!in_range ==> result == Err::<(), SceneError>(SceneError::OutOfRangeIndex))
                &&& (in_range && !valid ==> result == Err::<(), SceneError>(
                    SceneError::InvalidTopology,
                ))
                &&& (result is Err ==> *final(self) == *old(self))
                &&& (result is Ok ==> {
                    &&& detach_effect(t, final(self).table(), c)
                    &&& bare_node(final(self).table(), c)
                    &&& final(self).local_transform_words() == old(self).local_transform_words()
                    &&& final(self).local_position_words() == old(self).local_position_words()
                    &&& final(self).world_transform_words() == old(self).world_transform_words()
                    &&& final(self).world_aabb_words() == old(self).world_aabb_words()
                    &&& final(self).world_bsphere_words() == old(self).world_bsphere_words()
                    &&& final(self).empty_bytes() == old(self).empty_bytes()
                    &&& final(self).empty_list() == old(self).empty_list()
                    &&& final(self).empty_count_val() == old(self).empty_count_val()
                    &&& forall|n: int|
                        #![trigger final(self).live(n)]
                        final(self).live(n) <==> (old(self).live(n) && n != c)
                })
            }),
    {
        let cap_nodes = self.nodes_indexs.len() / 4;
        if index < 0 || index as usize >= cap_nodes {
            return Err(SceneError::OutOfRangeIndex);
        }
        let c = index as usize;
        if index == 0 || self.nodes_indexs[4 * c + 3] != -1 || !self.is_live(index) {
            return Err(SceneError::InvalidTopology);
        }
        let ghost t = self.nodes_indexs@;
        let ghost capi = self.capacity();
        let ghost ci = index as int;
        let ghost fl = fuel_for(capi);
        let par: i16 = self.nodes_indexs[4 * c];
        let lef: i16 = self.nodes_indexs[4 * c + 1];
        let rig: i16 = self.nodes_indexs[4 * c + 2];
        proof {
            assert(par as int == parent_of(t, ci));
            assert(lef as int == left_of(t, ci));
            assert(rig as int == right_of(t, ci));
            assert(valid_ref(parent_of(t, ci), capi));
            assert(valid_ref(left_of(t, ci), capi));
            assert(valid_ref(right_of(t, ci), capi));
            if rig as int == ci {
                lemma_self_right_not_member(t, capi, ci, 0, fl);
            }
            assert(rig as int != ci);
            assert(lef as int != ci) by {
                if lef as int == ci {
                    assert(right_of(t, ci) == ci);
                }
            }
            if lef == -1 {
                let m = lemma_member_in_edge(t, capi, 0, fl, ci);
                assert(child_of(t, m) == ci) by {
                    if right_of(t, m) == ci {
                        assert(left_of(t, ci) == m);
                    }
                }
                assert(parent_of(t, ci) == m);
                assert(m != ci) by {
                    if m == ci {
                        assert(child_of(t, ci) == ci);
                    }
                }
                assert(0 <= par as int && (par as int) < capi);
            }
        }
        if lef == -1 {
            self.nodes_indexs.set(4 * (par as usize) + 3, rig);
        } else {
            self.nodes_indexs.set(4 * (lef as usize) + 2, rig);
        }
        if rig != -1 {
            self.nodes_indexs.set(4 * (rig as usize) + 1, lef);
        }
        self.nodes_indexs.set(4 * c, -1);
        self.nodes_indexs.set(4 * c + 1, -1);
        self.nodes_indexs.set(4 * c + 2, -1);
        proof {
            let t2 = self.nodes_indexs@;
            assert(detach_effect(t, t2, ci));
            lemma_detach_links_wf(t, t2, capi, ci);
            let (x, y) = lemma_detach_forest(t, t2, capi, ci, 0, fl);
            assert(traversal_seq(t, capi) == x + seq![ci] + y);
            assert(traversal_seq(t2, capi) == x + y);
            lemma_no_dup_parts(x + seq![ci], y);
            lemma_no_dup_parts(x, seq![ci]);
            lemma_concat_contains(x + seq![ci], y);
            lemma_concat_contains(x, seq![ci]);
            lemma_concat_contains(x, y);
            assert(seq![ci].contains(ci)) by {
                assert(seq![ci][0] == ci);
            }
            assert forall|e: int| !(#[trigger] x.contains(e) && y.contains(e)) by {
                if x.contains(e) {
                    assert((x + seq![ci]).contains(e));
                }
            }
            lemma_no_dup_join(x, y);
            assert(bare_node(t2, ci));
            assert forall|n: int| reachable(t2, capi, n) <==> (reachable(t, capi, n) && n
                != ci) by {
                assert(seq![ci].contains(n) == (n == ci)) by {
                    if seq![ci].contains(n) {
                        let i = choose|i: int| 0 <= i < 1 && seq![ci][i] == n;
                        assert(seq![ci][0] == ci);
                    }
                }
                if n == ci {
                    if (x + y).contains(n) {
                        assert(x.contains(ci) || y.contains(ci));
                    }
                }
            }
            let pari = par as int;
            let lefi = lef as int;
            let rigi = rig as int;
            assert forall|n: int|
                0 <= n < capi && !reachable(t2, capi, n) implies bare_node(t2, n) by {
                if n == ci {
                    assert(bare_node(t2, ci));
                } else {
                    assert(!reachable(t, capi, n));
                    assert(bare_node(t, n));
                    if lefi == -1 {
                        assert(n != pari) by {
                            if n == pari {
                                assert(child_of(t, pari) == ci);
                            }
                        }
                    } else {
                        assert(n != lefi) by {
                            if n == lefi {
                                assert(right_of(t, lefi) == ci);
                            }
                        }
                    }
                    if rigi != -1 {
                        assert(n != rigi) by {
                            if n == rigi {
                                assert(left_of(t, rigi) == lefi);
                                assert(left_of(t, ci) == lefi);
                                assert(lefi != -1 ==> right_of(t, lefi) == ci);
                                assert(parent_of(t, rigi) == parent_of(t, ci));
                            }
                        }
                    }
                    assert(parent_of(t2, n) == parent_of(t, n));
                    assert(left_of(t2, n) == left_of(t, n));
                    assert(right_of(t2, n) == right_of(t, n));
                    assert(child_of(t2, n) == child_of(t, n));
                }
            }
            assert(wf_table(t2, capi));
        }
        Ok(())
    }

    /// Overwrite node `index`'s 16 local transform words; the producer
    /// chooses their numeric meaning. Fails with `OutOfRangeIndex`,
    /// changing nothing, for an index outside the table.
    pub fn write_local_transform(&mut self, index: i16, m: &Vec<i32>) -> (result: Result<
        (),
        SceneError,
    >)
        requires
            old(self).buffers_wf(),
            m@.len() == 16,
        ensures
            result == Ok::<(), SceneError>(()) <==> (0 <= index as int && (index as int) < old(self).capacity()),
            result is Err ==> result == Err::<(), SceneError>(SceneError::OutOfRangeIndex)
                && *final(self) == *old(self),
            result is Ok ==> {
                &&& final(self).local_slice(index as int) == m@
                &&& final(self).local_transform_words().len() == old(
                    self,
                ).local_transform_words().len()
                &&& forall|i: int|
                    0 <= i < old(self).local_transform_words().len() && !(16 * index <= i < 16
                        * index + 16) ==> final(self).local_transform_words()[i] == old(
                        self,
                    ).local_transform_words()[i]
                &&& final(self).table() == old(self).table()
                &&& final(self).local_position_words() == old(self).local_position_words()
                &&& final(self).world_transform_words() == old(self).world_transform_words()
                &&& final(self).world_aabb_words() == old(self).world_aabb_words()
                &&& final(self).world_bsphere_words() == old(self).world_bsphere_words()
                &&& final(self).empty_bytes() == old(self).empty_bytes()
                &&& final(self).empty_list() == old(self).empty_list()
                &&& final(self).empty_count_val() == old(self).empty_count_val()
            },
    {
        let cap_nodes = self.nodes_indexs.len() / 4;
        if index < 0 || index as usize >= cap_nodes {
            return Err(SceneError::OutOfRangeIndex);
        }
        crate::math::write_slice16(&mut self.local_transform_array, 16 * (index as usize), m);
        Ok(())
    }

    /// Copy out node `index`'s 16 local transform words. Fails with
    /// `OutOfRangeIndex` for an index outside the table.
    pub fn read_local_transform(&self, index: i16) -> (result: Result<Vec<i32>, SceneError>)
        requires
            self.buffers_wf(),
        ensures
            result is Ok <==> (0 <= index as int && (index as int) < self.capacity()),
            result is Err ==> result == Err::<Vec<i32>, SceneError>(SceneError::OutOfRangeIndex),
            result matches Ok(v) ==> v@ == self.local_slice(index as int),
    {
        let cap_nodes = self.nodes_indexs.len() / 4;
        if index < 0 || index as usize >= cap_nodes {
            return Err(SceneError::OutOfRangeIndex);
        }
        Ok(crate::math::read_slice16(&self.local_transform_array, 16 * (index as usize)))
    }

    /// Copy out node `index`'s 16 world transform words. Fails with
    /// `OutOfRangeIndex` for an index outside the table.
    pub fn read_world_transform(&self, index: i16) -> (result: Result<Vec<i32>, SceneError>)
        requires
            self.buffers_wf(),
        ensures
            result is Ok <==> (0 <= index as int && (index as int) < self.capacity()),
            result is Err ==> result == Err::<Vec<i32>, SceneError>(SceneError::OutOfRangeIndex),
            result matches Ok(v) ==> v@ == self.world_slice(index as int),
    {
        let cap_nodes = self.nodes_indexs.len() / 4;
        if index < 0 || index as usize >= cap_nodes {
            return Err(SceneError::OutOfRangeIndex);
        }
        Ok(crate::math::read_slice16(&self.world_transform_array, 16 * (index as usize)))
    }

    /// The node capacity the buffers were allocated for.
    pub fn node_capacity(&self) -> (r: usize)
        requires
            self.buffers_wf(),
        ensures
            r as int == self.capacity(),
    {
        self.nodes_indexs.len() / 4
    }

    /// Borrow the local transform buffer, for zero-copy host views.
    pub fn local_transform_buffer(&self) -> (r: &Vec<i32>)
        ensures
            r@ == self.local_transform_words(),
    {
        &self.local_transform_array
    }

    /// Borrow the local position buffer, for zero-copy host views.
    pub fn local_position_buffer(&self) -> (r: &Vec<i32>)
        ensures
            r@ == self.local_position_words(),
    {
        &self.local_position_array
    }

    /// Borrow the world transform buffer, for zero-copy host views.
    pub fn world_transform_buffer(&self) -> (r: &Vec<i32>)
        ensures
            r@ == self.world_transform_words(),
    {
        &self.world_transform_array
    }

    /// Borrow the world axis-aligned-bounds buffer, for zero-copy host
    /// views.
    pub fn world_aabb_buffer(&self) -> (r: &Vec<i32>)
        ensures
            r@ == self.world_aabb_words(),
    {
        &self.world_aabb_array
    }

    /// Borrow the world bounding-sphere buffer, for zero-copy host
    /// views.
    pub fn world_bsphere_buffer(&self) -> (r: &Vec<i32>)
        ensures
            r@ == self.world_bsphere_words(),
    {
        &self.world_bsphere_array
    }

    /// Borrow the node index table, for zero-copy host views.
    pub fn nodes_indexs_buffer(&self) -> (r: &Vec<i16>)
        ensures
            r@ == self.table(),
    {
        &self.nodes_indexs
    }

    /// Move the childless node `index` under a new parent: detach it
    /// from its present place if it is live, then link it as
    /// `parent_index`'s first child. The node may also be a bare slot,
    /// which is simply adopted. Fails with `OutOfRangeIndex` when either
    /// index is outside the table, and with `InvalidTopology` when the
    /// node is the root or its own parent, still has children, the
    /// parent is not live, or the node is neither live nor bare; a
    /// failed edit changes nothing.
    pub fn set_parent(&mut self, index: i16, parent_index: i16) -> (result: Result<
        (),
        SceneError,
    >)
        requires
            old(self).wf(),
        ensures
            final(self).wf(),
            ({
                let cap = old(self).capacity();
                let t = old(self).table();
                let c = index as int;
                let p = parent_index as int;
                let in_range = 0 <= c < cap && 0 <= p < cap;
                let valid = in_range && c != 0 && p != c && child_of(t, c) == -1 && old(self).live(
                    p,
                ) && (old(self).live(c) || bare_node(t, c));
                &&& (result == Ok::<(), SceneError>(()) <==> valid)
                &&& (!in_range ==> result == Err::<(), SceneError>(SceneError::OutOfRangeIndex))
                &&& (in_range && !valid ==> result == Err::<(), SceneError>(
                    SceneError::InvalidTopology,
                ))
                &&& (result is Err ==> *final(self) == *old(self))
                &&& (result is Ok ==> {
                    &&& parent_of(final(self).table(), c) == p
                    &&& child_of(final(self).table(), p) == c
                    &&& (old(self).live(c) ==> exists|mid: Seq<i16>|
                        detach_effect(t, mid, c) && #[trigger] insert_effect(mid,
                            final(self).table(),
                            p,
                            c,
                        ))
                    &&& (!old(self).live(c) ==> insert_effect(t, final(self).table(), p, c))
                    &&& final(self).local_transform_words() == old(self).local_transform_words()
                    &&& final(self).local_position_words() == old(self).local_position_words()
                    &&& final(self).world_transform_words() == old(self).world_transform_words()
                    &&& final(self).world_aabb_words() == old(self).world_aabb_words()
                    &&& final(self).world_bsphere_words() == old(self).world_bsphere_words()
                    &&& final(self).empty_bytes() == old(self).empty_bytes()
                    &&& final(self).empty_list() == old(self).empty_list()
                    &&& final(self).empty_count_val() == old(self).empty_count_val()
                    &&& forall|n: int|
                        #![trigger final(self).live(n)]
                        final(self).live(n) <==> (old(self).live(n) || n == c)
                })
            }),
    {
        let cap_nodes = self.nodes_indexs.len() / 4;
        if index < 0 || parent_index < 0 || index as usize >= cap_nodes
            || parent_index as usize >= cap_nodes {
            return Err(SceneError::OutOfRangeIndex);
        }
        let c = index as usize;
        if index == 0 || parent_index == index || self.nodes_indexs[4 * c + 3] != -1
            || !self.is_live(parent_index) {
            return Err(SceneError::InvalidTopology);
        }
        let c_live = self.is_live(index);
        if !c_live {
            let bare = self.nodes_indexs[4 * c] == -1 && self.nodes_indexs[4 * c + 1] == -1
                && self.nodes_indexs[4 * c + 2] == -1;
            if !bare {
                return Err(SceneError::InvalidTopology);
            }
        }
        let ghost t = self.table();
        if c_live {
            let detached = self.detach(index);
            match detached {
                Ok(()) => {},
                Err(e) => {
                    proof {
                        assert(false);
                    }
                    return Err(e);
                },
            }
        }
        let ghost tm = self.table();
        let inserted = self.insert_child(parent_index, index);
        match inserted {
            Ok(()) => {
                proof {
                    if old(self).live(index as int) {
                        assert(detach_effect(t, tm, index as int) && insert_effect(
                            tm,
                            self.table(),
                            parent_index as int,
                            index as int,
                        ));
                    }
                }
                Ok(())
            },
            Err(e) => {
                proof {
                    assert(false);
                }
                Err(e)
            },
        }
    }

    /// Batch entry point of the render loop: run one full update pass.
    pub fn batch_renderlist(&mut self)
        requires
            old(self).wf(),
        ensures
            final(self).wf(),
            update_rel(*old(self), *final(self)),
    {
        self.update_hirerachy()
    }
}

/// The per-node result of a pass, stated over the scene `s` the pass
/// left behind: the node's world slice is its local slice when it has no
/// parent, else the product of its parent's world slice with its local
/// slice.
pub open spec fn node_done(s: ArrayScene, tab: Seq<i16>, n: int) -> bool {
    s.world_slice(n) == if parent_of(tab, n) == -1 {
        s.local_slice(n)
    } else {
        mat4_mul(s.world_slice(parent_of(tab, n)), s.local_slice(n))
    }
}

/// How one update pass relates the scene it leaves (`post`) to the scene
/// it found (`pre`): every buffer but the world transforms is unchanged;
/// the world words of nodes that are not live are unchanged; and every
/// live node obeys the composition rule of `node_done`, its parent being
/// live and visited by the same pass.
pub open spec fn update_rel(pre: ArrayScene, post: ArrayScene) -> bool {
    &&& post.table() == pre.table()
    &&& post.local_transform_words() == pre.local_transform_words()
    &&& post.local_position_words() == pre.local_position_words()
    &&& post.world_aabb_words() == pre.world_aabb_words()
    &&& post.world_bsphere_words() == pre.world_bsphere_words()
    &&& post.empty_bytes() == pre.empty_bytes()
    &&& post.empty_list() == pre.empty_list()
    &&& post.empty_count_val() == pre.empty_count_val()
    &&& post.world_transform_words().len() == pre.world_transform_words().len()
    &&& forall|n: int|
        #![trigger post.world_slice(n)]
        0 <= n < pre.capacity() && !pre.live(n) ==> post.world_slice(n) == pre.world_slice(n)
    &&& forall|n: int|
        #![trigger post.world_slice(n)]
        0 <= n < pre.capacity() && pre.live(n) ==> {
            let p = parent_of(pre.table(), n);
            &&& (n == 0 ==> p == -1)
            &&& (n != 0 ==> 0 <= p < pre.capacity() && pre.live(p))
            &&& node_done(post, pre.table(), n)
        }
}

/// Pointwise effect on the table of linking the bare node `c` as the
/// first child of `p`: `c`'s parent becomes `p` and its right sibling
/// the previous first child, which in turn gets `c` as its left sibling;
/// `p`'s first child becomes `c`; every other entry is unchanged.
pub open spec fn insert_effect(pre: Seq<i16>, post: Seq<i16>, p: int, c: int) -> bool {
    let fc = child_of(pre, p);
    &&& post.len() == pre.len()
    &&& parent_of(post, c) == p
    &&& left_of(post, c) == -1
    &&& right_of(post, c) == fc
    &&& child_of(post, c) == -1
    &&& child_of(post, p) == c
    &&& (fc != -1 ==> left_of(post, fc) == c)
    &&& forall|i: int|
        0 <= i < pre.len() && i != 4 * c && i != 4 * c + 2 && i != 4 * p + 3 && (fc == -1 || i != 4
            * fc + 1) ==> post[i] == pre[i]
}

/// Linking a bare node as a first child keeps the table's links
/// consistent.
#[verifier::rlimit(80)]
proof fn lemma_insert_links_wf(t: Seq<i16>, t2: Seq<i16>, cap: int, p: int, c: int)
    requires
        wf_links(t, cap),
        0 <= p < cap,
        0 <= c < cap,
        c != 0,
        p != c,
        bare_node(t, c),
        insert_effect(t, t2, p, c),
    ensures
        wf_links(t2, cap),
{
    lemma_bare_no_in_edges(t, cap, c);
    let fc = child_of(t, p);
    assert(fc != c);
    assert(fc != 0) by {
        if fc == 0 {
            assert(parent_of(t, 0) == p);
        }
    }
    assert forall|n: int| 0 <= n < cap implies valid_ref(#[trigger] parent_of(t2, n), cap) by {
        if n == c {
            assert(parent_of(t2, c) == p);
        } else {
            assert(parent_of(t2, n) == parent_of(t, n));
        }
    }
    assert forall|n: int| 0 <= n < cap implies valid_ref(#[trigger] left_of(t2, n), cap) by {
        if fc != -1 && n == fc {
            assert(left_of(t2, fc) == c);
        } else {
            assert(left_of(t2, n) == left_of(t, n));
        }
    }
    assert forall|n: int| 0 <= n < cap implies valid_ref(#[trigger] right_of(t2, n), cap) by {
        if n == c {
            assert(right_of(t2, c) == fc);
            assert(valid_ref(child_of(t, p), cap));
        } else {
            assert(right_of(t2, n) == right_of(t, n));
        }
    }
    assert forall|n: int| 0 <= n < cap implies valid_ref(#[trigger] child_of(t2, n), cap) by {
        if n == p {
            assert(child_of(t2, p) == c);
        } else if n == c {
            assert(child_of(t2, c) == -1);
        } else {
            assert(child_of(t2, n) == child_of(t, n));
        }
    }
    assert(parent_of(t2, 0) == parent_of(t, 0));
    assert(left_of(t2, 0) == left_of(t, 0));
    assert(right_of(t2, 0) == right_of(t, 0));
    assert forall|n: int|
        0 <= n < cap && #[trigger] right_of(t2, n) != -1 implies left_of(t2, right_of(t2, n)) == n
        && parent_of(t2, right_of(t2, n)) == parent_of(t2, n) by {
        if n == c {
            assert(right_of(t2, c) == fc);
            if fc != -1 {
                assert(left_of(t2, fc) == c);
                assert(parent_of(t, fc) == p);
                assert(parent_of(t2, fc) == p);
                assert(parent_of(t2, c) == p);
            }
        } else {
            let m = right_of(t, n);
            assert(right_of(t2, n) == m);
            assert(left_of(t, m) == n);
            assert(m != fc) by {
                if m == fc && fc != -1 {
                    assert(left_of(t, fc) == -1);
                }
            }
            assert(right_of(t, n) != c);
            assert(left_of(t2, m) == left_of(t, m));
            assert(parent_of(t2, m) == parent_of(t, m));
            assert(parent_of(t2, n) == parent_of(t, n));
        }
    }
    assert forall|n: int|
        0 <= n < cap && #[trigger] left_of(t2, n) != -1 implies right_of(t2, left_of(t2, n)) == n
        && parent_of(t2, left_of(t2, n)) == parent_of(t2, n) by {
        if fc != -1 && n == fc {
            assert(left_of(t2, fc) == c);
            assert(right_of(t2, c) == fc);
            assert(parent_of(t2, c) == p);
            assert(parent_of(t, fc) == p);
            assert(parent_of(t2, fc) == p);
        } else if n == c {
            assert(left_of(t2, c) == -1);
        } else {
            let l = left_of(t, n);
            assert(left_of(t2, n) == l);
            assert(right_of(t, l) == n);
            assert(l != c) by {
                if l == c {
                    assert(right_of(t, c) == n);
                }
            }
            assert(right_of(t2, l) == right_of(t, l));
            assert(parent_of(t2, l) == parent_of(t, l));
            assert(parent_of(t2, n) == parent_of(t, n));
        }
    }
    assert forall|n: int|
        0 <= n < cap && #[trigger] child_of(t2, n) != -1 implies left_of(t2, child_of(t2, n)) == -1
        && parent_of(t2, child_of(t2, n)) == n by {
        if n == p {
            assert(child_of(t2, p) == c);
            assert(left_of(t2, c) == -1);
            assert(parent_of(t2, c) == p);
        } else if n == c {
            assert(child_of(t2, c) == -1);
        } else {
            let ch = child_of(t, n);
            assert(child_of(t2, n) == ch);
            assert(left_of(t, ch) == -1);
            assert(parent_of(t, ch) == n);
            assert(ch != fc) by {
                if fc != -1 && ch == fc {
                    assert(parent_of(t, fc) == p);
                }
            }
            assert(child_of(t, n) != c);
            assert(left_of(t2, ch) == left_of(t, ch));
            assert(parent_of(t2, ch) == parent_of(t, ch));
        }
    }
}

/// Pointwise effect on the table of unlinking the leaf `c`: its left
/// sibling (or, for a first child, its parent) now points past it to its
/// right sibling, which in turn takes over `c`'s left link, and all of
/// `c`'s own links are cleared; every other entry is unchanged.
pub open spec fn detach_effect(pre: Seq<i16>, post: Seq<i16>, c: int) -> bool {
    let p = parent_of(pre, c);
    let l = left_of(pre, c);
    let r = right_of(pre, c);
    &&& post.len() == pre.len()
    &&& parent_of(post, c) == -1
    &&& left_of(post, c) == -1
    &&& right_of(post, c) == -1
    &&& child_of(post, c) == child_of(pre, c)
    &&& (l == -1 ==> child_of(post, p) == r)
    &&& (l != -1 ==> right_of(post, l) == r)
    &&& (r != -1 ==> left_of(post, r) == l)
    &&& forall|i: int|
        0 <= i < pre.len() && i != 4 * c && i != 4 * c + 1 && i != 4 * c + 2 && i != (if l == -1 {
            4 * p + 3
        } else {
            4 * l + 2
        }) && (r == -1 || i != 4 * r + 1) ==> post[i] == pre[i]
}

/// Unlinking a leaf keeps the table's links consistent.
#[verifier::rlimit(80)]
proof fn lemma_detach_links_wf(t: Seq<i16>, t2: Seq<i16>, cap: int, c: int)
    requires
        wf_links(t, cap),
        0 <= c < cap,
        c != 0,
        child_of(t, c) == -1,
        left_of(t, c) == -1 ==> 0 <= parent_of(t, c) < cap && child_of(t, parent_of(t, c)) == c
            && parent_of(t, c) != c,
        right_of(t, c) != c,
        left_of(t, c) != c,
        detach_effect(t, t2, c),
    ensures
        wf_links(t2, cap),
{
    let p = parent_of(t, c);
    let l = left_of(t, c);
    let r = right_of(t, c);
    assert(r != 0) by {
        if r == 0 {
            assert(left_of(t, 0) == c);
        }
    }
    assert(l != 0) by {
        if l == 0 {
            assert(right_of(t, 0) == c);
        }
    }
    assert(r != -1 ==> left_of(t, r) == c && parent_of(t, r) == parent_of(t, c));
    assert(l != -1 ==> right_of(t, l) == c && parent_of(t, l) == parent_of(t, c));
    assert forall|n: int| 0 <= n < cap implies valid_ref(#[trigger] parent_of(t2, n), cap) by {
        if n == c {
            assert(parent_of(t2, c) == -1);
        } else {
            assert(parent_of(t2, n) == parent_of(t, n));
        }
    }
    assert forall|n: int| 0 <= n < cap implies valid_ref(#[trigger] left_of(t2, n), cap) by {
        if n == c {
            assert(left_of(t2, c) == -1);
        } else if r != -1 && n == r {
            assert(left_of(t2, r) == l);
            assert(valid_ref(left_of(t, c), cap));
        } else {
            assert(left_of(t2, n) == left_of(t, n));
        }
    }
    assert forall|n: int| 0 <= n < cap implies valid_ref(#[trigger] right_of(t2, n), cap) by {
        if n == c {
            assert(right_of(t2, c) == -1);
        } else if l != -1 && n == l {
            assert(right_of(t2, l) == r);
            assert(valid_ref(right_of(t, c), cap));
        } else {
            assert(right_of(t2, n) == right_of(t, n));
        }
    }
    assert forall|n: int| 0 <= n < cap implies valid_ref(#[trigger] child_of(t2, n), cap) by {
        if l == -1 && n == p {
            assert(child_of(t2, p) == r);
            assert(valid_ref(right_of(t, c), cap));
        } else {
            assert(child_of(t2, n) == child_of(t, n));
        }
    }
    assert(parent_of(t2, 0) == parent_of(t, 0));
    assert(left_of(t2, 0) == left_of(t, 0));
    assert(right_of(t2, 0) == right_of(t, 0));
    assert forall|n: int|
        0 <= n < cap && #[trigger] right_of(t2, n) != -1 implies left_of(t2, right_of(t2, n)) == n
        && parent_of(t2, right_of(t2, n)) == parent_of(t2, n) by {
        if n == c {
            assert(right_of(t2, c) == -1);
        } else if l != -1 && n == l {
            assert(right_of(t2, l) == r);
            if r != -1 {
                assert(left_of(t2, r) == l);
                assert(parent_of(t2, r) == parent_of(t, r));
                assert(parent_of(t2, l) == parent_of(t, l));
            }
        } else {
            let m = right_of(t, n);
            assert(right_of(t2, n) == m);
            if m != -1 {
                assert(left_of(t, m) == n);
                assert(m != c) by {
                    if m == c {
                        assert(left_of(t, c) == n);
                    }
                }
                assert(m != r || r == -1) by {
                    if r != -1 && m == r {
                        assert(left_of(t, r) == n);
                        assert(left_of(t, r) == c);
                    }
                }
                assert(left_of(t2, m) == left_of(t, m));
                assert(parent_of(t2, m) == parent_of(t, m));
                assert(parent_of(t2, n) == parent_of(t, n));
            }
        }
    }
    assert forall|n: int|
        0 <= n < cap && #[trigger] left_of(t2, n) != -1 implies right_of(t2, left_of(t2, n)) == n
        && parent_of(t2, left_of(t2, n)) == parent_of(t2, n) by {
        if n == c {
            assert(left_of(t2, c) == -1);
        } else if r != -1 && n == r {
            assert(left_of(t2, r) == l);
            if l != -1 {
                assert(right_of(t2, l) == r);
                assert(parent_of(t2, l) == parent_of(t, l));
                assert(parent_of(t2, r) == parent_of(t, r));
            }
        } else {
            let m = left_of(t, n);
            assert(left_of(t2, n) == m);
            if m != -1 {
                assert(right_of(t, m) == n);
                assert(m != c) by {
                    if m == c {
                        assert(right_of(t, c) == n);
                        assert(n == r);
                    }
                }
                assert(m != l || l == -1) by {
                    if l != -1 && m == l {
                        assert(right_of(t, l) == n);
                        assert(right_of(t, l) == c);
                    }
                }
                assert(right_of(t2, m) == right_of(t, m));
                assert(parent_of(t2, m) == parent_of(t, m));
                assert(parent_of(t2, n) == parent_of(t, n));
            }
        }
    }
    assert forall|n: int|
        0 <= n < cap && #[trigger] child_of(t2, n) != -1 implies left_of(t2, child_of(t2, n)) == -1
        && parent_of(t2, child_of(t2, n)) == n by {
        if l == -1 && n == p {
            assert(child_of(t2, p) == r);
            if r != -1 {
                assert(parent_of(t, r) == parent_of(t, c));
                assert(parent_of(t, c) == p);
                assert(left_of(t2, r) == -1);
                assert(parent_of(t2, r) == parent_of(t, r));
            }
        } else {
            let m = child_of(t, n);
            assert(child_of(t2, n) == m);
            if m != -1 {
                assert(left_of(t, m) == -1);
                assert(parent_of(t, m) == n);
                assert(m != c) by {
                    if m == c {
                        assert(parent_of(t, c) == n);
                    }
                }
                assert(m != r || r == -1) by {
                    if r != -1 && m == r {
                        assert(left_of(t, r) == c);
                        assert(left_of(t, r) == -1);
                    }
                }
                assert(left_of(t2, m) == left_of(t, m));
                assert(parent_of(t2, m) == parent_of(t, m));
            }
        }
    }
}

/// One step of the update pass: apply the world-transform visitor to one
/// node, writing only that node's 16 world words.
fn update_hirerachy_visitor(index: i16, scene: &mut ArrayScene)
    requires
        0 <= index,
        4 * index + 4 <= old(scene).table().len(),
        16 * index + 16 <= old(scene).local_transform_words().len(),
        old(scene).world_transform_words().len() == old(scene).local_transform_words().len(),
        parent_of(old(scene).table(), index as int) == -1 || (0 <= parent_of(
            old(scene).table(),
            index as int,
        ) && 16 * parent_of(old(scene).table(), index as int) + 16 <= old(
            scene,
        ).local_transform_words().len()),
    ensures
        final(scene).table() == old(scene).table(),
        final(scene).local_transform_words() == old(scene).local_transform_words(),
        final(scene).local_position_words() == old(scene).local_position_words(),
        final(scene).world_aabb_words() == old(scene).world_aabb_words(),
        final(scene).world_bsphere_words() == old(scene).world_bsphere_words(),
        final(scene).empty_bytes() == old(scene).empty_bytes(),
        final(scene).empty_list() == old(scene).empty_list(),
        final(scene).empty_count_val() == old(scene).empty_count_val(),
        final(scene).world_transform_words().len() == old(scene).world_transform_words().len(),
        forall|i: int|
            0 <= i < old(scene).world_transform_words().len() && !(16 * index <= i < 16 * index
                + 16) ==> final(scene).world_transform_words()[i] == old(
                scene,
            ).world_transform_words()[i],
        ({
            let n = index as int;
            let p = parent_of(old(scene).table(), n);
            final(scene).world_slice(n) == if p == -1 {
                old(scene).local_slice(n)
            } else {
                mat4_mul(old(scene).world_slice(p), old(scene).local_slice(n))
            }
        }),
{
    update_worldmatrix_by_parent(
        index,
        &scene.nodes_indexs,
        &scene.local_transform_array,
        &mut scene.world_transform_array,
    );
}

/// Root identity: a pass gives the root its local transform as its world
/// transform, so with the root's local transform set to the identity the
/// root's world transform after the pass is exactly the identity.
pub proof fn lemma_root_identity(pre: ArrayScene, post: ArrayScene)
    requires
        pre.wf(),
        update_rel(pre, post),
        pre.local_slice(0) == identity_mat(),
    ensures
        post.world_slice(0) == identity_mat(),
{
    lemma_traversal_head(pre.table(), pre.capacity());
    let full = traversal_seq(pre.table(), pre.capacity());
    assert(full[0] == 0int);
    assert(full.contains(0int));
    assert(pre.live(0));
    assert(node_done(post, pre.table(), 0));
    assert(parent_of(pre.table(), 0) == -1);
    assert(post.local_slice(0) == pre.local_slice(0));
}

/// The worlds two consecutive passes compute agree on the first `k`
/// visited nodes: both satisfy the same composition recurrence over the
/// same table and local data, and each node's parent is settled earlier
/// in the same order.
#[verifier::spinoff_prover]
#[verifier::rlimit(100)]
proof fn lemma_pass_agree(pre: ArrayScene, mid: ArrayScene, post: ArrayScene, k: int)
    requires
        wf_links(pre.table(), pre.capacity()),
        forest_ok(pre.table(), 0, fuel_for(pre.capacity())),
        traversal_seq(pre.table(), pre.capacity()).no_duplicates(),
        update_rel(pre, mid),
        update_rel(mid, post),
        0 <= k <= traversal_seq(pre.table(), pre.capacity()).len(),
    ensures
        forall|j: int|
            0 <= j < k ==> post.world_slice(
                #[trigger] traversal_seq(pre.table(), pre.capacity())[j],
            ) == mid.world_slice(traversal_seq(pre.table(), pre.capacity())[j]),
    decreases k,
{
    let t = pre.table();
    let cap = pre.capacity();
    let full = traversal_seq(t, cap);
    if k > 0 {
        lemma_pass_agree(pre, mid, post, k - 1);
        let n = full[k - 1];
        lemma_forest_in_range(t, cap, 0, fuel_for(cap));
        assert(0 <= n < cap);
        assert(full.contains(n));
        assert(pre.live(n));
        assert(mid.table() == t);
        assert(mid.live(n) == pre.live(n));
        assert(node_done(mid, t, n));
        assert(node_done(post, t, n));
        if n == 0 {
            assert(parent_of(t, 0) == -1);
            assert(post.local_slice(0) == mid.local_slice(0));
        } else {
            lemma_traversal_head(t, cap);
            assert(full[0] == 0int);
            assert(k - 1 >= 1);
            let i = lemma_parent_before_root(t, cap, k - 1);
            let p = parent_of(t, n);
            assert(full[i] == p);
            assert(post.world_slice(full[i]) == mid.world_slice(full[i]));
            assert(post.local_slice(n) == mid.local_slice(n));
        }
    }
}

/// Idempotence: running a second pass over unchanged local data leaves
/// the whole world transform buffer exactly as the first pass left it.
pub proof fn lemma_update_idempotent(pre: ArrayScene, mid: ArrayScene, post: ArrayScene)
    requires
        pre.wf(),
        update_rel(pre, mid),
        update_rel(mid, post),
    ensures
        post.world_transform_words() == mid.world_transform_words(),
{
    let t = pre.table();
    let cap = pre.capacity();
    let full = traversal_seq(t, cap);
    lemma_pass_agree(pre, mid, post, full.len() as int);
    assert forall|n: int| 0 <= n < cap implies post.world_slice(n) == mid.world_slice(n) by {
        if pre.live(n) {
            let j = choose|j: int| 0 <= j < full.len() && full[j] == n;
            assert(post.world_slice(full[j]) == mid.world_slice(full[j]));
        } else {
            assert(mid.live(n) == pre.live(n));
        }
    }
    let pw = post.world_transform_words();
    let mw = mid.world_transform_words();
    assert(pw.len() == 16 * cap);
    assert forall|i: int| 0 <= i < pw.len() implies pw[i] == mw[i] by {
        let n = i / 16;
        assert(0 <= n < cap);
        assert(16 * n <= i < 16 * n + 16);
        assert(post.world_slice(n)[i - 16 * n] == pw[i]);
        assert(mid.world_slice(n)[i - 16 * n] == mw[i]);
    }
    assert(pw =~= mw);
}

/// Writing one node's 16-word window leaves every other node's window
/// untouched.
proof fn lemma_slice_stable(pre: Seq<i32>, post: Seq<i32>, n: int, m: int)
    requires
        pre.len() == post.len(),
        0 <= n,
        16 * n + 16 <= pre.len(),
        0 <= m,
        16 * m + 16 <= pre.len(),
        m != n,
        forall|i: int| 0 <= i < pre.len() && !(16 * n <= i < 16 * n + 16) ==> post[i] == pre[i],
    ensures
        post.subrange(16 * m, 16 * m + 16) == pre.subrange(16 * m, 16 * m + 16),
{
    assert(post.subrange(16 * m, 16 * m + 16) =~= pre.subrange(16 * m, 16 * m + 16));
}

/// A vector of `len` copies of `value`.
fn filled<T: Copy>(len: usize, value: T) -> (r: Vec<T>)
    ensures
        r@.len() == len,
        forall|i: int| 0 <= i < len ==> r@[i] == value,
{
    let mut v: Vec<T> = Vec::new();
    let mut i: usize = 0;
    while i < len
        invariant
            i <= len,
            v@.len() == i,
            forall|j: int| 0 <= j < i ==> v@[j] == value,
        decreases len - i,
    {
        v.push(value);
        i = i + 1;
    }
    v
}

/// A freshly allocated table, every entry -1, is well formed and its one
/// pass visits exactly the root.
proof fn lemma_fresh_table_wf(t: Seq<i16>, cap: int)
    requires
        cap >= 1,
        t.len() == 4 * cap,
        forall|i: int| 0 <= i < 4 * cap ==> t[i] == -1i16,
    ensures
        wf_table(t, cap),
        traversal_seq(t, cap) == seq![0int],
{
    assert forall|n: int| 0 <= n < cap implies valid_ref(#[trigger] parent_of(t, n), cap)
        && valid_ref(left_of(t, n), cap) && valid_ref(right_of(t, n), cap) && valid_ref(
        child_of(t, n),
        cap,
    ) by {
        assert(t[4 * n + 0] == -1i16);
        assert(t[4 * n + 1] == -1i16);
        assert(t[4 * n + 2] == -1i16);
        assert(t[4 * n + 3] == -1i16);
    }
    assert(wf_links(t, cap));
    let f1 = (fuel_for(cap) - 1) as nat;
    assert(forest_ok(t, -1, f1));
    assert(forest_ok(t, 0, fuel_for(cap)));
    assert(forest(t, -1, f1) =~= Seq::<int>::empty());
    assert(traversal_seq(t, cap) =~= seq![0int]);
    assert(seq![0int].no_duplicates());
}

} // verus!
