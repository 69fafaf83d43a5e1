//! Specification of the hierarchy encoded in the node index table.
//!
//! The table is a flat sequence of `i16` entries, four per node:
//! parent, left sibling, right sibling, first child, in that order, with
//! `-1` meaning "no such relation". Node `0` is the permanent root.
//!
//! The traversal order of the iterative depth-first walk is described by
//! `forest`: the walk pops a node, visits it, and pushes its child chain,
//! so the siblings of a chain are visited in reverse discovery order. A
//! fuel argument bounds the recursion; `forest_ok` says the fuel was
//! enough, and for a well-formed table `fuel_for(cap)` always is.

use vstd::prelude::*;

verus! {

/// Entry `k` of node `n` in the table, as a mathematical integer.
pub open spec fn entry_of(t: Seq<i16>, n: int, k: int) -> int {
    t[4 * n + k] as int
}

/// Parent index of node `n`, or -1.
pub open spec fn parent_of(t: Seq<i16>, n: int) -> int {
    entry_of(t, n, 0)
}

/// Left-sibling index of node `n`, or -1.
pub open spec fn left_of(t: Seq<i16>, n: int) -> int {
    entry_of(t, n, 1)
}

/// Right-sibling index of node `n`, or -1.
pub open spec fn right_of(t: Seq<i16>, n: int) -> int {
    entry_of(t, n, 2)
}

/// First-child index of node `n`, or -1.
pub open spec fn child_of(t: Seq<i16>, n: int) -> int {
    entry_of(t, n, 3)
}

/// A table entry is either the sentinel -1 or a node index below `cap`.
pub open spec fn valid_ref(v: int, cap: int) -> bool {
    v == -1 || (0 <= v && v < cap)
}

/// Local link consistency of the table: every entry is in range, the root
/// has no parent and no siblings, sibling links are doubly linked and stay
/// within one parent, and a first child has no left sibling.
pub open spec fn wf_links(t: Seq<i16>, cap: int) -> bool {
    &&& cap >= 1
    &&& t.len() == 4 * cap
    &&& forall|n: int|
        0 <= n < cap ==> valid_ref(#[trigger] parent_of(t, n), cap)
    &&& forall|n: int|
        0 <= n < cap ==> valid_ref(#[trigger] left_of(t, n), cap)
    &&& forall|n: int|
        0 <= n < cap ==> valid_ref(#[trigger] right_of(t, n), cap)
    &&& forall|n: int|
        0 <= n < cap ==> valid_ref(#[trigger] child_of(t, n), cap)
    &&& parent_of(t, 0) == -1
    &&& left_of(t, 0) == -1
    &&& right_of(t, 0) == -1
    &&& forall|n: int|
        0 <= n < cap && #[trigger] right_of(t, n) != -1 ==> left_of(t, right_of(t, n)) == n
            && parent_of(t, right_of(t, n)) == parent_of(t, n)
    &&& forall|n: int|
        0 <= n < cap && #[trigger] left_of(t, n) != -1 ==> right_of(t, left_of(t, n)) == n
            && parent_of(t, left_of(t, n)) == parent_of(t, n)
    &&& forall|n: int|
        0 <= n < cap && #[trigger] child_of(t, n) != -1 ==> left_of(t, child_of(t, n)) == -1
            && parent_of(t, child_of(t, n)) == n
}

/// The visit order of the iterative walk over the sibling chain starting
/// at `n` (or nothing, for the sentinel -1): later siblings first, then
/// `n` itself, then the chain of `n`'s children.
pub open spec fn forest(t: Seq<i16>, n: int, fuel: nat) -> Seq<int>
    decreases fuel,
{
    if n == -1 || fuel == 0 {
        Seq::empty()
    } else {
        forest(t, right_of(t, n), (fuel - 1) as nat) + seq![n] + forest(
            t,
            child_of(t, n),
            (fuel - 1) as nat,
        )
    }
}

/// True when `fuel` suffices to unfold `forest(t, n, fuel)` completely.
pub open spec fn forest_ok(t: Seq<i16>, n: int, fuel: nat) -> bool
    decreases fuel,
{
    if n == -1 {
        true
    } else if fuel == 0 {
        false
    } else {
        forest_ok(t, right_of(t, n), (fuel - 1) as nat) && forest_ok(
            t,
            child_of(t, n),
            (fuel - 1) as nat,
        )
    }
}

/// Fuel that suffices for any acyclic table of capacity `cap`.
pub open spec fn fuel_for(cap: int) -> nat {
    (cap + 1) as nat
}

/// The visit order of one full pass: the subtree of the root.
pub open spec fn traversal_seq(t: Seq<i16>, cap: int) -> Seq<int> {
    forest(t, 0, fuel_for(cap))
}

/// A live node: one the pass visits.
pub open spec fn reachable(t: Seq<i16>, cap: int, n: int) -> bool {
    traversal_seq(t, cap).contains(n)
}

/// Well-formed table: consistent links, the walk from the root completes
/// within `fuel_for(cap)`, no node is visited twice, and every slot
/// outside the hierarchy is bare, so every sibling chain in the table is
/// finite, acyclic and ends in -1.
pub open spec fn wf_table(t: Seq<i16>, cap: int) -> bool {
    &&& wf_links(t, cap)
    &&& forest_ok(t, 0, fuel_for(cap))
    &&& traversal_seq(t, cap).no_duplicates()
    &&& forall|n: int| 0 <= n < cap && !reachable(t, cap, n) ==> #[trigger] bare_node(t, n)
}

/// A stack entry's contribution to the rest of the walk: the node itself,
/// then the chain of its children.
pub open spec fn sub_seq(t: Seq<i16>, n: int, fuel: nat) -> Seq<int> {
    seq![n] + forest(t, child_of(t, n), fuel)
}

/// What the walk will still visit, given the explicit stack: the top
/// entry's subtree first.
pub open spec fn stack_exp(t: Seq<i16>, st: Seq<i16>, fuel: nat) -> Seq<int>
    decreases st.len(),
{
    if st.len() == 0 {
        Seq::empty()
    } else {
        sub_seq(t, st.last() as int, fuel) + stack_exp(t, st.drop_last(), fuel)
    }
}

/// An `i16` sequence read as mathematical integers.
pub open spec fn to_ints(s: Seq<i16>) -> Seq<int> {
    s.map_values(|x: i16| x as int)
}

/// Reading a pushed `i16` sequence as integers appends the pushed value.
pub proof fn lemma_to_ints_push(s: Seq<i16>, x: i16)
    ensures
        to_ints(s.push(x)) == to_ints(s).push(x as int),
{
    assert(to_ints(s.push(x)) =~= to_ints(s).push(x as int));
}

/// The first node of a full pass is the root.
pub proof fn lemma_traversal_head(t: Seq<i16>, cap: int)
    requires
        wf_links(t, cap),
        forest_ok(t, 0, fuel_for(cap)),
    ensures
        traversal_seq(t, cap).len() >= 1,
        traversal_seq(t, cap)[0] == 0,
{
    let f = fuel_for(cap);
    let b = forest(t, right_of(t, 0), (f - 1) as nat);
    assert(b =~= Seq::<int>::empty());
    assert(traversal_seq(t, cap) == b + seq![0int] + forest(t, child_of(t, 0), (f - 1) as nat));
}

/// In the visit order of a chain, every visited node's parent either is
/// the chain's common parent or appears earlier in the order. Applied to
/// the full pass this is parent-before-child: the root opens the order,
/// and every later node's parent stands before it.
pub proof fn lemma_parent_before(t: Seq<i16>, cap: int, n: int, f: nat)
    requires
        wf_links(t, cap),
        0 <= n < cap,
        forest_ok(t, n, f),
    ensures
        forall|j: int|
            0 <= j < forest(t, n, f).len() ==> parent_of(t, #[trigger] forest(t, n, f)[j])
                == parent_of(t, n) || exists|i: int|
                0 <= i < j && forest(t, n, f)[i] == parent_of(t, forest(t, n, f)[j]),
    decreases f,
{
    let s = forest(t, n, f);
    let r = right_of(t, n);
    let c = child_of(t, n);
    let b = forest(t, r, (f - 1) as nat);
    let a = forest(t, c, (f - 1) as nat);
    assert(s == b + seq![n] + a);
    if r != -1 {
        lemma_parent_before(t, cap, r, (f - 1) as nat);
    } else {
        assert(b =~= Seq::<int>::empty());
    }
    if c != -1 {
        lemma_parent_before(t, cap, c, (f - 1) as nat);
    } else {
        assert(a =~= Seq::<int>::empty());
    }
    assert forall|j: int|
        0 <= j < s.len() implies parent_of(t, #[trigger] s[j]) == parent_of(t, n) || exists|i: int|
        0 <= i < j && s[i] == parent_of(t, s[j]) by {
        if j < b.len() {
            assert(s[j] == b[j]);
            if parent_of(t, b[j]) == parent_of(t, r) {
                assert(parent_of(t, r) == parent_of(t, n));
            } else {
                let i = choose|i: int| 0 <= i < j && b[i] == parent_of(t, b[j]);
                assert(s[i] == b[i]);
            }
        } else if j == b.len() {
            assert(s[j] == n);
        } else {
            let jj = j - b.len() - 1;
            assert(s[j] == a[jj]);
            if parent_of(t, a[jj]) == parent_of(t, c) {
                assert(parent_of(t, c) == n);
                assert(s[b.len() as int] == n);
            } else {
                let i = choose|i: int| 0 <= i < jj && a[i] == parent_of(t, a[jj]);
                assert(s[b.len() + 1 + i] == a[i]);
            }
        }
    }
}

/// Every visited node is a node index below the capacity.
pub proof fn lemma_forest_in_range(t: Seq<i16>, cap: int, n: int, f: nat)
    requires
        wf_links(t, cap),
        valid_ref(n, cap),
        forest_ok(t, n, f),
    ensures
        forall|j: int| 0 <= j < forest(t, n, f).len() ==> 0 <= #[trigger] forest(t, n, f)[j] < cap,
    decreases f,
{
    if n != -1 {
        let s = forest(t, n, f);
        let b = forest(t, right_of(t, n), (f - 1) as nat);
        let a = forest(t, child_of(t, n), (f - 1) as nat);
        assert(s == b + seq![n] + a);
        lemma_forest_in_range(t, cap, right_of(t, n), (f - 1) as nat);
        lemma_forest_in_range(t, cap, child_of(t, n), (f - 1) as nat);
        assert forall|j: int| 0 <= j < s.len() implies 0 <= #[trigger] s[j] < cap by {
            if j < b.len() {
                assert(s[j] == b[j]);
            } else if j == b.len() {
                assert(s[j] == n);
            } else {
                assert(s[j] == a[j - b.len() - 1]);
            }
        }
    }
}

/// Parent-before-child over the full pass: the root opens the order, and
/// a later node's parent stands at an earlier position, which this lemma
/// hands back.
pub proof fn lemma_parent_before_root(t: Seq<i16>, cap: int, j: int) -> (i: int)
    requires
        wf_links(t, cap),
        forest_ok(t, 0, fuel_for(cap)),
        1 <= j < traversal_seq(t, cap).len(),
    ensures
        0 <= i < j,
        traversal_seq(t, cap)[i] == parent_of(t, traversal_seq(t, cap)[j]),
{
    let f = fuel_for(cap);
    let full = traversal_seq(t, cap);
    let c = child_of(t, 0);
    let b = forest(t, right_of(t, 0), (f - 1) as nat);
    let a = forest(t, c, (f - 1) as nat);
    assert(b =~= Seq::<int>::empty());
    assert(full == b + seq![0int] + a);
    if c != -1 {
        lemma_parent_before(t, cap, c, (f - 1) as nat);
    } else {
        assert(a =~= Seq::<int>::empty());
    }
    let jj = j - 1;
    assert(full[j] == a[jj]);
    if parent_of(t, a[jj]) == parent_of(t, c) {
        assert(parent_of(t, c) == 0);
        assert(full[0] == 0int);
        0
    } else {
        let i = choose|i: int| 0 <= i < jj && a[i] == parent_of(t, a[jj]);
        assert(full[i + 1] == a[i]);
        i + 1
    }
}

/// A free slot: a node all four of whose links are cleared.
pub open spec fn bare_node(t: Seq<i16>, n: int) -> bool {
    &&& parent_of(t, n) == -1
    &&& left_of(t, n) == -1
    &&& right_of(t, n) == -1
    &&& child_of(t, n) == -1
}

/// Membership distributes over sequence concatenation.
pub proof fn lemma_concat_contains(x: Seq<int>, y: Seq<int>)
    ensures
        forall|e: int| #[trigger] (x + y).contains(e) == (x.contains(e) || y.contains(e)),
{
    assert forall|e: int| #[trigger] (x + y).contains(e) == (x.contains(e) || y.contains(e)) by {
        if (x + y).contains(e) {
            let i = choose|i: int| 0 <= i < (x + y).len() && (x + y)[i] == e;
            if i < x.len() {
                assert(x[i] == e);
            } else {
                assert(y[i - x.len()] == e);
            }
        }
        if x.contains(e) {
            let i = choose|i: int| 0 <= i < x.len() && x[i] == e;
            assert((x + y)[i] == e);
        }
        if y.contains(e) {
            let i = choose|i: int| 0 <= i < y.len() && y[i] == e;
            assert((x + y)[x.len() + i] == e);
        }
    }
}

/// The parts of a duplicate-free concatenation are duplicate-free and
/// share no element.
pub proof fn lemma_no_dup_parts(x: Seq<int>, y: Seq<int>)
    requires
        (x + y).no_duplicates(),
    ensures
        x.no_duplicates(),
        y.no_duplicates(),
        forall|e: int| x.contains(e) ==> !y.contains(e),
{
    assert forall|i: int, j: int| 0 <= i < j < x.len() implies x[i] != x[j] by {
        assert((x + y)[i] == x[i]);
        assert((x + y)[j] == x[j]);
    }
    assert forall|i: int, j: int| 0 <= i < j < y.len() implies y[i] != y[j] by {
        assert((x + y)[x.len() + i] == y[i]);
        assert((x + y)[x.len() + j] == y[j]);
    }
    assert forall|e: int| x.contains(e) implies !y.contains(e) by {
        if y.contains(e) {
            let i = choose|i: int| 0 <= i < x.len() && x[i] == e;
            let j = choose|j: int| 0 <= j < y.len() && y[j] == e;
            assert((x + y)[i] == e);
            assert((x + y)[x.len() + j] == e);
        }
    }
}

/// A bare node has no link pointing at it: an edge into it would force
/// one of its own links to be set.
pub proof fn lemma_bare_no_in_edges(t: Seq<i16>, cap: int, c: int)
    requires
        wf_links(t, cap),
        0 <= c < cap,
        bare_node(t, c),
    ensures
        forall|m: int| 0 <= m < cap ==> #[trigger] child_of(t, m) != c,
        forall|m: int| 0 <= m < cap ==> #[trigger] right_of(t, m) != c,
{
    assert forall|m: int| 0 <= m < cap implies #[trigger] child_of(t, m) != c by {
        if child_of(t, m) == c {
            assert(parent_of(t, c) == m);
        }
    }
    assert forall|m: int| 0 <= m < cap implies #[trigger] right_of(t, m) != c by {
        if right_of(t, m) == c {
            assert(left_of(t, c) == m);
        }
    }
}

/// A node that no link points at is visited by no walk that does not
/// start at it.
pub proof fn lemma_no_in_edge_not_in_forest(t: Seq<i16>, cap: int, c: int, n: int, f: nat)
    requires
        wf_links(t, cap),
        valid_ref(n, cap),
        forest_ok(t, n, f),
        0 <= c < cap,
        forall|m: int| 0 <= m < cap ==> #[trigger] child_of(t, m) != c,
        forall|m: int| 0 <= m < cap ==> #[trigger] right_of(t, m) != c,
        n != c,
    ensures
        !forest(t, n, f).contains(c),
    decreases f,
{
    if n != -1 {
        let g = (f - 1) as nat;
        let b = forest(t, right_of(t, n), g);
        let a = forest(t, child_of(t, n), g);
        assert(forest(t, n, f) == b + seq![n] + a);
        lemma_no_in_edge_not_in_forest(t, cap, c, right_of(t, n), g);
        lemma_no_in_edge_not_in_forest(t, cap, c, child_of(t, n), g);
        lemma_concat_contains(b + seq![n], a);
        lemma_concat_contains(b, seq![n]);
        assert(!seq![n].contains(c));
    }
}

/// A duplicate-free walk needs no more fuel than one past its own
/// length.
pub proof fn lemma_ok_tightens(t: Seq<i16>, n: int, f: nat)
    requires
        forest_ok(t, n, f),
        forest(t, n, f).no_duplicates(),
    ensures
        forest_ok(t, n, (forest(t, n, f).len() + 1) as nat),
    decreases f,
{
    if n != -1 {
        let g = (f - 1) as nat;
        let b = forest(t, right_of(t, n), g);
        let a = forest(t, child_of(t, n), g);
        let s = forest(t, n, f);
        assert(s == b + seq![n] + a);
        lemma_no_dup_parts(b + seq![n], a);
        lemma_no_dup_parts(b, seq![n]);
        lemma_ok_tightens(t, right_of(t, n), g);
        lemma_ok_tightens(t, child_of(t, n), g);
        lemma_forest_mono(t, right_of(t, n), (b.len() + 1) as nat, s.len() as nat);
        lemma_forest_mono(t, child_of(t, n), (a.len() + 1) as nat, s.len() as nat);
        assert(forest_ok(t, n, (s.len() + 1) as nat));
    }
}

/// Effect on the visit order of linking a bare node `c` at the front of
/// `p`'s child chain. A walk that never reaches `p` is unchanged; one
/// that reaches `p` keeps its order and gains exactly one visit of `c`,
/// placed right after the subtrees of `p`'s previous children. The pair
/// returned splits the old order at the insertion point.
#[verifier::rlimit(60)]
pub proof fn lemma_insert_forest(
    t: Seq<i16>,
    t2: Seq<i16>,
    cap: int,
    p: int,
    c: int,
    n: int,
    f: nat,
) -> (r: (Seq<int>, Seq<int>))
    requires
        wf_links(t, cap),
        0 <= p < cap,
        0 <= c < cap,
        forall|m: int| 0 <= m < cap ==> #[trigger] child_of(t, m) != c,
        forall|m: int| 0 <= m < cap ==> #[trigger] right_of(t, m) != c,
        child_of(t2, p) == c,
        right_of(t2, c) == child_of(t, p),
        child_of(t2, c) == -1,
        forall|m: int| 0 <= m < cap && m != p ==> #[trigger] child_of(t2, m) == child_of(t, m),
        forall|m: int| 0 <= m < cap && m != c ==> #[trigger] right_of(t2, m) == right_of(t, m),
        valid_ref(n, cap),
        n != c,
        forest_ok(t, n, f),
        forest(t, n, f).no_duplicates(),
    ensures
        !forest(t, n, f).contains(p) ==> forest_ok(t2, n, f) && forest(t2, n, f) == forest(
            t,
            n,
            f,
        ),
        forest(t, n, f).contains(p) ==> forest_ok(t2, n, (f + 1) as nat) && forest(t, n, f) == r.0
            + r.1 && forest(t2, n, (f + 1) as nat) == r.0 + seq![c] + r.1,
    decreases f,
{
    if n == -1 {
        (Seq::empty(), Seq::empty())
    } else {
        let s = forest(t, n, f);
        let g = (f - 1) as nat;
        let rr = right_of(t, n);
        let ch = child_of(t, n);
        let b = forest(t, rr, g);
        let a = forest(t, ch, g);
        assert(s == b + seq![n] + a);
        lemma_concat_contains(b + seq![n], a);
        lemma_concat_contains(b, seq![n]);
        lemma_no_dup_parts(b + seq![n], a);
        lemma_no_dup_parts(b, seq![n]);
        assert(rr != c && ch != c);
        assert(right_of(t2, n) == rr && (n != p ==> child_of(t2, n) == ch));
        if n == p {
            assert(s[b.len() as int] == n);
            assert(s.contains(p));
            assert(!b.contains(p) && !a.contains(p)) by {
                if b.contains(p) {
                    let i = choose|i: int| 0 <= i < b.len() && b[i] == p;
                    assert(s[i] == p);
                }
                if a.contains(p) {
                    let i = choose|i: int| 0 <= i < a.len() && a[i] == p;
                    assert(s[b.len() + 1 + i] == p);
                }
            }
            let _ = lemma_insert_forest(t, t2, cap, p, c, rr, g);
            lemma_forest_mono(t2, rr, g, f);
            let _ = lemma_insert_forest(t, t2, cap, p, c, ch, g);
            assert(forest_ok(t2, rr, f));
            assert(forest_ok(t2, ch, g));
            assert(forest_ok(t2, -1, g));
            assert(forest_ok(t2, c, f));
            assert(forest_ok(t2, n, (f + 1) as nat));
            assert(forest(t2, -1, g) =~= Seq::<int>::empty());
            assert(forest(t2, c, f) == forest(t2, ch, g) + seq![c] + forest(t2, -1, g));
            assert(forest(t2, c, f) =~= a + seq![c]);
            assert(forest(t2, n, (f + 1) as nat) == forest(t2, rr, f) + seq![n] + forest(
                t2,
                c,
                f,
            ));
            assert(forest(t2, n, (f + 1) as nat) =~= s + seq![c]);
            assert(s == s + Seq::<int>::empty()) by {
                assert(s =~= s + Seq::<int>::empty());
            }
            assert(forest(t2, n, (f + 1) as nat) == s + seq![c] + Seq::<int>::empty()) by {
                assert(s + seq![c] =~= s + seq![c] + Seq::<int>::empty());
            }
            (s, Seq::<int>::empty())
        } else if b.contains(p) {
            assert(s.contains(p)) by {
                let i = choose|i: int| 0 <= i < b.len() && b[i] == p;
                assert(s[i] == p);
            }
            assert(!a.contains(p));
            let (xb, yb) = lemma_insert_forest(t, t2, cap, p, c, rr, g);
            let _ = lemma_insert_forest(t, t2, cap, p, c, ch, g);
            lemma_forest_mono(t2, ch, g, f);
            assert((g + 1) as nat == f);
            assert(forest_ok(t2, rr, f));
            assert(forest_ok(t2, ch, f));
            assert(forest_ok(t2, n, (f + 1) as nat));
            assert(forest(t2, n, (f + 1) as nat) == forest(t2, rr, f) + seq![n] + forest(
                t2,
                ch,
                f,
            ));
            let y = yb + seq![n] + a;
            assert(s =~= xb + y);
            assert(forest(t2, n, (f + 1) as nat) =~= xb + seq![c] + y);
            (xb, y)
        } else if a.contains(p) {
            assert(s.contains(p)) by {
                let i = choose|i: int| 0 <= i < a.len() && a[i] == p;
                assert(s[b.len() + 1 + i] == p);
            }
            let _ = lemma_insert_forest(t, t2, cap, p, c, rr, g);
            lemma_forest_mono(t2, rr, g, f);
            let (xa, ya) = lemma_insert_forest(t, t2, cap, p, c, ch, g);
            assert((g + 1) as nat == f);
            assert(forest_ok(t2, rr, f));
            assert(forest_ok(t2, ch, f));
            assert(forest_ok(t2, n, (f + 1) as nat));
            assert(forest(t2, n, (f + 1) as nat) == forest(t2, rr, f) + seq![n] + forest(
                t2,
                ch,
                f,
            ));
            let x = b + seq![n] + xa;
            assert(s =~= x + ya);
            assert(forest(t2, n, (f + 1) as nat) =~= x + seq![c] + ya);
            (x, ya)
        } else {
            assert(!s.contains(p));
            let _ = lemma_insert_forest(t, t2, cap, p, c, rr, g);
            let _ = lemma_insert_forest(t, t2, cap, p, c, ch, g);
            assert(forest_ok(t2, rr, g));
            assert(forest_ok(t2, ch, g));
            assert(forest_ok(t2, n, f));
            assert(forest(t2, n, f) == forest(t2, rr, g) + seq![n] + forest(t2, ch, g));
            (Seq::empty(), Seq::empty())
        }
    }
}

/// Effect on the visit order of unlinking the leaf `c` from its sibling
/// chain. A walk that never reaches `c` is unchanged; one that reaches
/// it loses exactly the one visit of `c` and keeps everything else in
/// order. The pair returned splits the old order around `c`.
#[verifier::rlimit(60)]
pub proof fn lemma_detach_forest(
    t: Seq<i16>,
    t2: Seq<i16>,
    cap: int,
    c: int,
    n: int,
    f: nat,
) -> (r: (Seq<int>, Seq<int>))
    requires
        wf_links(t, cap),
        0 <= c < cap,
        c != 0,
        child_of(t, c) == -1,
        ({
            let l = left_of(t, c);
            let p = parent_of(t, c);
            let rr = right_of(t, c);
            &&& (l == -1 ==> 0 <= p < cap && child_of(t, p) == c && child_of(t2, p) == rr
                && (forall|m: int|
                0 <= m < cap && m != p ==> #[trigger] child_of(t2, m) == child_of(t, m)) && (
            forall|m: int|
                0 <= m < cap && m != c ==> #[trigger] right_of(t2, m) == right_of(t, m)))
            &&& (l != -1 ==> 0 <= l < cap && right_of(t2, l) == rr && (forall|m: int|
                0 <= m < cap && m != l && m != c ==> #[trigger] right_of(t2, m) == right_of(
                    t,
                    m,
                )) && (forall|m: int|
                0 <= m < cap ==> #[trigger] child_of(t2, m) == child_of(t, m)))
        }),
        valid_ref(n, cap),
        n != c,
        forest_ok(t, n, f),
        forest(t, n, f).no_duplicates(),
    ensures
        !forest(t, n, f).contains(c) ==> forest_ok(t2, n, f) && forest(t2, n, f) == forest(
            t,
            n,
            f,
        ),
        forest(t, n, f).contains(c) ==> forest_ok(t2, n, f) && forest(t, n, f) == r.0 + seq![c]
            + r.1 && forest(t2, n, f) == r.0 + r.1,
    decreases f,
{
    let l = left_of(t, c);
    let p = parent_of(t, c);
    let crr = right_of(t, c);
    if n == -1 {
        (Seq::empty(), Seq::empty())
    } else {
        let s = forest(t, n, f);
        let g = (f - 1) as nat;
        let rr = right_of(t, n);
        let ch = child_of(t, n);
        let b = forest(t, rr, g);
        let a = forest(t, ch, g);
        assert(s == b + seq![n] + a);
        lemma_concat_contains(b + seq![n], a);
        lemma_concat_contains(b, seq![n]);
        lemma_no_dup_parts(b + seq![n], a);
        lemma_no_dup_parts(b, seq![n]);
        if rr == c {
            // `n` is the left sibling of `c`: splice `c` out of this chain.
            assert(l == n) by {
                assert(left_of(t, c) == n);
            }
            assert(forest_ok(t, c, g));
            assert(g != 0) by {
                if g == 0 {
                    assert(!forest_ok(t, c, 0));
                }
            }
            let gg = (g - 1) as nat;
            assert(forest_ok(t, crr, gg));
            assert(forest_ok(t, -1, gg));
            assert(valid_ref(crr, cap));
            assert(crr != c) by {
                if crr == c {
                    assert(left_of(t, c) == c);
                }
            }
            assert(ch != c) by {
                if ch == c {
                    assert(parent_of(t, c) == n && left_of(t, c) == -1);
                }
            }
            let binner = forest(t, crr, gg);
            assert(forest(t, -1, gg) =~= Seq::<int>::empty());
            assert(b == forest(t, crr, gg) + seq![c] + forest(t, -1, gg));
            assert(b =~= binner + seq![c]);
            assert(b.contains(c)) by {
                assert(b[binner.len() as int] == c);
            }
            assert(s.contains(c)) by {
                let i = choose|i: int| 0 <= i < b.len() && b[i] == c;
                assert(s[i] == c);
            }
            lemma_no_dup_parts(binner, seq![c]);
            assert(!binner.contains(c)) by {
                if binner.contains(c) {
                    assert(seq![c].contains(c)) by {
                        assert(seq![c][0] == c);
                    }
                }
            }
            assert(!a.contains(c));
            let _ = lemma_detach_forest(t, t2, cap, c, crr, gg);
            lemma_forest_mono(t2, crr, gg, g);
            let _ = lemma_detach_forest(t, t2, cap, c, ch, g);
            assert(right_of(t2, n) == crr);
            assert(child_of(t2, n) == ch);
            assert(forest_ok(t2, crr, g));
            assert(forest_ok(t2, ch, g));
            assert(forest_ok(t2, n, f));
            assert(forest(t2, n, f) == forest(t2, crr, g) + seq![n] + forest(t2, ch, g));
            let y = seq![n] + a;
            assert(s =~= binner + seq![c] + y);
            assert(forest(t2, n, f) =~= binner + y);
            (binner, y)
        } else if n == p && l == -1 {
            // `c` heads `n`'s child chain: splice it out there.
            assert(ch == c);
            assert(forest_ok(t, c, g));
            assert(g != 0) by {
                if g == 0 {
                    assert(!forest_ok(t, c, 0));
                }
            }
            let gg = (g - 1) as nat;
            assert(forest_ok(t, crr, gg));
            assert(forest_ok(t, -1, gg));
            assert(valid_ref(crr, cap));
            assert(crr != c) by {
                if crr == c {
                    assert(left_of(t, c) == c);
                }
            }
            assert(rr != c) by {
                if rr == c {
                    assert(left_of(t, c) == n);
                }
            }
            let ainner = forest(t, crr, gg);
            assert(forest(t, -1, gg) =~= Seq::<int>::empty());
            assert(a == forest(t, crr, gg) + seq![c] + forest(t, -1, gg));
            assert(a =~= ainner + seq![c]);
            assert(s.contains(c)) by {
                assert(a[ainner.len() as int] == c);
                let i = choose|i: int| 0 <= i < a.len() && a[i] == c;
                assert(s[b.len() + 1 + i] == c);
            }
            lemma_no_dup_parts(ainner, seq![c]);
            assert(!ainner.contains(c)) by {
                if ainner.contains(c) {
                    assert(seq![c].contains(c)) by {
                        assert(seq![c][0] == c);
                    }
                }
            }
            assert(a.contains(c)) by {
                assert(a[ainner.len() as int] == c);
            }
            assert(!b.contains(c)) by {
                if b.contains(c) {
                    assert((b + seq![n]).contains(c));
                }
            }
            let _ = lemma_detach_forest(t, t2, cap, c, rr, g);
            let _ = lemma_detach_forest(t, t2, cap, c, crr, gg);
            lemma_forest_mono(t2, crr, gg, g);
            assert(right_of(t2, n) == rr);
            assert(child_of(t2, n) == crr);
            assert(forest_ok(t2, rr, g));
            assert(forest_ok(t2, crr, g));
            assert(forest_ok(t2, n, f));
            assert(forest(t2, n, f) == forest(t2, rr, g) + seq![n] + forest(t2, crr, g));
            let x = b + seq![n] + ainner;
            assert(s =~= x + seq![c] + Seq::<int>::empty());
            assert(forest(t2, n, f) =~= x + Seq::<int>::empty());
            (x, Seq::<int>::empty())
        } else {
            assert(rr != c);
            assert(ch != c) by {
                if ch == c {
                    assert(parent_of(t, c) == n && left_of(t, c) == -1);
                }
            }
            assert(right_of(t2, n) == rr) by {
                if l != -1 {
                    assert(n != l) by {
                        if n == l {
                            assert(right_of(t, l) == c) by {
                                assert(left_of(t, c) == l);
                            }
                        }
                    }
                }
            }
            assert(child_of(t2, n) == ch);
            if b.contains(c) {
                assert(s.contains(c)) by {
                    let i = choose|i: int| 0 <= i < b.len() && b[i] == c;
                    assert(s[i] == c);
                }
                assert(!a.contains(c));
                let (xb, yb) = lemma_detach_forest(t, t2, cap, c, rr, g);
                let _ = lemma_detach_forest(t, t2, cap, c, ch, g);
                assert(forest_ok(t2, rr, g));
                assert(forest_ok(t2, ch, g));
                assert(forest_ok(t2, n, f));
                assert(forest(t2, n, f) == forest(t2, rr, g) + seq![n] + forest(t2, ch, g));
                let y = yb + seq![n] + a;
                assert(s =~= xb + seq![c] + y);
                assert(forest(t2, n, f) =~= xb + y);
                (xb, y)
            } else if a.contains(c) {
                assert(s.contains(c)) by {
                    let i = choose|i: int| 0 <= i < a.len() && a[i] == c;
                    assert(s[b.len() + 1 + i] == c);
                }
                let _ = lemma_detach_forest(t, t2, cap, c, rr, g);
                let (xa, ya) = lemma_detach_forest(t, t2, cap, c, ch, g);
                assert(forest_ok(t2, rr, g));
                assert(forest_ok(t2, ch, g));
                assert(forest_ok(t2, n, f));
                assert(forest(t2, n, f) == forest(t2, rr, g) + seq![n] + forest(t2, ch, g));
                let x = b + seq![n] + xa;
                assert(s =~= x + seq![c] + ya);
                assert(forest(t2, n, f) =~= x + ya);
                (x, ya)
            } else {
                assert(!s.contains(c));
                let _ = lemma_detach_forest(t, t2, cap, c, rr, g);
                let _ = lemma_detach_forest(t, t2, cap, c, ch, g);
                assert(forest_ok(t2, rr, g));
                assert(forest_ok(t2, ch, g));
                assert(forest_ok(t2, n, f));
                assert(forest(t2, n, f) == forest(t2, rr, g) + seq![n] + forest(t2, ch, g));
                (Seq::empty(), Seq::empty())
            }
        }
    }
}

/// Inserting a value that occurs nowhere between the parts of a
/// duplicate-free split keeps the whole duplicate-free.
pub proof fn lemma_no_dup_insert(x: Seq<int>, y: Seq<int>, c: int)
    requires
        (x + y).no_duplicates(),
        !(x + y).contains(c),
    ensures
        (x + seq![c] + y).no_duplicates(),
{
    let s = x + seq![c] + y;
    assert forall|i: int, j: int| 0 <= i < j < s.len() implies s[i] != s[j] by {
        if i < x.len() {
            assert(s[i] == x[i]);
            assert((x + y)[i] == x[i]);
        } else if i == x.len() {
            assert(s[i] == c);
        } else {
            assert(s[i] == y[i - x.len() - 1]);
            assert((x + y)[i - 1] == y[i - x.len() - 1]);
        }
        if j < x.len() {
            assert(s[j] == x[j]);
            assert((x + y)[j] == x[j]);
        } else if j == x.len() {
            assert(s[j] == c);
        } else {
            assert(s[j] == y[j - x.len() - 1]);
            assert((x + y)[j - 1] == y[j - x.len() - 1]);
        }
    }
}

/// A duplicate-free sequence of node indices below `cap` has at most
/// `cap` elements.
pub proof fn lemma_no_dup_len(s: Seq<int>, cap: int)
    requires
        s.no_duplicates(),
        forall|j: int| 0 <= j < s.len() ==> 0 <= #[trigger] s[j] < cap,
        cap >= 0,
    ensures
        s.len() <= cap,
{
    s.unique_seq_to_set();
    vstd::set_lib::lemma_int_range(0, cap);
    assert(s.to_set().subset_of(vstd::set_lib::set_int_range(0, cap))) by {
        assert forall|e: int|
            s.to_set().contains(e) implies vstd::set_lib::set_int_range(0, cap).contains(e) by {
            let i = choose|i: int| 0 <= i < s.len() && s[i] == e;
            assert(0 <= s[i] < cap);
        }
    }
    vstd::set_lib::lemma_len_subset(s.to_set(), vstd::set_lib::set_int_range(0, cap));
}

/// Joining two duplicate-free sequences with no common element gives a
/// duplicate-free sequence.
pub proof fn lemma_no_dup_join(x: Seq<int>, y: Seq<int>)
    requires
        x.no_duplicates(),
        y.no_duplicates(),
        forall|e: int| !(#[trigger] x.contains(e) && y.contains(e)),
    ensures
        (x + y).no_duplicates(),
{
    assert forall|i: int, j: int| 0 <= i < j < (x + y).len() implies (x + y)[i] != (x + y)[j] by {
        if i < x.len() {
            assert((x + y)[i] == x[i]);
            assert(x.contains(x[i]));
        } else {
            assert((x + y)[i] == y[i - x.len()]);
        }
        if j < x.len() {
            assert((x + y)[j] == x[j]);
        } else {
            assert((x + y)[j] == y[j - x.len()]);
            assert(y.contains(y[j - x.len()]));
        }
    }
}

/// Every visited node other than the walk's starting point has a link
/// pointing at it; the witness is handed back.
pub proof fn lemma_member_in_edge(t: Seq<i16>, cap: int, n: int, f: nat, e: int) -> (m: int)
    requires
        wf_links(t, cap),
        valid_ref(n, cap),
        forest_ok(t, n, f),
        forest(t, n, f).contains(e),
        e != n,
    ensures
        0 <= m < cap,
        child_of(t, m) == e || right_of(t, m) == e,
    decreases f,
{
    let g = (f - 1) as nat;
    let rr = right_of(t, n);
    let ch = child_of(t, n);
    let b = forest(t, rr, g);
    let a = forest(t, ch, g);
    let s = forest(t, n, f);
    assert(s == b + seq![n] + a);
    lemma_concat_contains(b + seq![n], a);
    lemma_concat_contains(b, seq![n]);
    if b.contains(e) {
        if e == rr {
            n
        } else {
            lemma_member_in_edge(t, cap, rr, g, e)
        }
    } else if a.contains(e) {
        if e == ch {
            n
        } else {
            lemma_member_in_edge(t, cap, ch, g, e)
        }
    } else {
        assert(seq![n].contains(e)) by {
            assert(s.contains(e));
        }
        assert(e == n) by {
            let i = choose|i: int| 0 <= i < 1 && seq![n][i] == e;
            assert(seq![n][0] == n);
        }
        proof_from_false()
    }
}

/// A node that is its own right sibling is never visited: the walk's
/// fuel accounting rules such a cycle out.
pub proof fn lemma_self_right_not_member(t: Seq<i16>, cap: int, c: int, n: int, f: nat)
    requires
        wf_links(t, cap),
        valid_ref(n, cap),
        forest_ok(t, n, f),
        forest(t, n, f).no_duplicates(),
        right_of(t, c) == c,
        c != -1,
    ensures
        !forest(t, n, f).contains(c),
    decreases f,
{
    if n != -1 {
        let g = (f - 1) as nat;
        let rr = right_of(t, n);
        let ch = child_of(t, n);
        let b = forest(t, rr, g);
        let a = forest(t, ch, g);
        let s = forest(t, n, f);
        assert(s == b + seq![n] + a);
        lemma_concat_contains(b + seq![n], a);
        lemma_concat_contains(b, seq![n]);
        lemma_no_dup_parts(b + seq![n], a);
        lemma_no_dup_parts(b, seq![n]);
        if n == c {
            // the chain would repeat `c` at once: contradiction with
            // no-duplicates
            assert(rr == c);
            assert(forest_ok(t, c, g));
            assert(g >= 1) by {
                if g == 0 {
                    assert(!forest_ok(t, c, 0));
                }
            }
            let bb = forest(t, c, (g - 1) as nat);
            assert(b == bb + seq![c] + forest(t, child_of(t, c), (g - 1) as nat));
            assert(b[bb.len() as int] == c);
            assert(s[bb.len() as int] == c);
            assert(s[b.len() as int] == c);
            assert(false);
        } else {
            lemma_self_right_not_member(t, cap, c, rr, g);
            lemma_self_right_not_member(t, cap, c, ch, g);
            assert(!seq![n].contains(c)) by {
                if seq![n].contains(c) {
                    let i = choose|i: int| 0 <= i < 1 && seq![n][i] == c;
                    assert(seq![n][0] == n);
                }
            }
        }
    }
}

/// More fuel changes nothing once `forest_ok` holds.
pub proof fn lemma_forest_mono(t: Seq<i16>, n: int, f1: nat, f2: nat)
    requires
        forest_ok(t, n, f1),
        f1 <= f2,
    ensures
        forest_ok(t, n, f2),
        forest(t, n, f2) == forest(t, n, f1),
    decreases f1,
{
    if n == -1 {
        assert(forest(t, n, f2) =~= forest(t, n, f1));
    } else {
        lemma_forest_mono(t, right_of(t, n), (f1 - 1) as nat, (f2 - 1) as nat);
        lemma_forest_mono(t, child_of(t, n), (f1 - 1) as nat, (f2 - 1) as nat);
    }
}

} // verus!
