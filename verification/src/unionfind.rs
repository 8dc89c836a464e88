use vstd::prelude::*;
use vstd::set_lib::lemma_int_range;
use vstd::set_lib::lemma_len_subset;
use vstd::set_lib::set_int_range;

verus! {

/// Disjoint-set forest over a fixed number of elements, stored as one flat
/// vector of signed links: a negative entry marks a root and holds the
/// negated size of its component, a non-negative entry is the index of the
/// element's parent.
pub struct UnionFind {
    n: usize,
    parents: Vec<i64>,
}

impl View for UnionFind {
    type V = Seq<i64>;

    closed spec fn view(&self) -> Seq<i64> {
        self.parents@
    }
}

/// Every link is either a root marker (negative) or a parent index strictly
/// below the element itself, so the forest cannot hold a cycle.
pub open spec fn links_ok(s: Seq<i64>) -> bool {
    forall|i: int| 0 <= i < s.len() ==> (s[i] < 0 || (0 <= s[i] && s[i] < i))
}

/// The root that element `i` resolves to by following parent links.
pub open spec fn root_of(s: Seq<i64>, i: int) -> int
    recommends
        0 <= i < s.len(),
        links_ok(s),
    decreases i,
{
    if 0 <= i && i < s.len() && 0 <= s[i] && s[i] < i {
        root_of(s, s[i] as int)
    } else {
        i
    }
}

/// Element `i` is a root of the forest.
pub open spec fn is_root(s: Seq<i64>, i: int) -> bool {
    0 <= i < s.len() && s[i] < 0
}

/// The component of root `r`: every element whose chain of links ends at `r`.
pub open spec fn component(s: Seq<i64>, r: int) -> Set<int> {
    Set::new(|i: int| 0 <= i < s.len() && root_of(s, i) == r)
}

/// At every root the stored link is the negated number of elements that
/// resolve to that root.
pub open spec fn sizes_ok(s: Seq<i64>) -> bool {
    forall|r: int| #[trigger] is_root(s, r) ==> s[r] == -(component(s, r).len() as int)
}

/// The largest component size recorded among the first `k` links; links of
/// non-root elements count as zero.
pub open spec fn max_link_size(s: Seq<i64>, k: int) -> int
    decreases k,
{
    if k <= 0 {
        0
    } else {
        let prev = max_link_size(s, k - 1);
        if -s[k - 1] > prev {
            -s[k - 1]
        } else {
            prev
        }
    }
}

/// The sum of the recorded component sizes over the roots among the first
/// `k` elements.
pub open spec fn root_size_sum(s: Seq<i64>, k: int) -> int
    decreases k,
{
    if k <= 0 {
        0
    } else {
        root_size_sum(s, k - 1) + if s[k - 1] < 0 {
            -s[k - 1]
        } else {
            0
        }
    }
}

/// The links `s1` describe the partition of `s0` after the components of
/// `i` and `j` have been merged: nothing changes when the two already share
/// a root, and otherwise the smaller-indexed of the two roots absorbs the
/// other one.
pub open spec fn union_result(s0: Seq<i64>, s1: Seq<i64>, i: int, j: int) -> bool {
    let ri = root_of(s0, i);
    let rj = root_of(s0, j);
    let a = if ri <= rj { ri } else { rj };
    let b = if ri <= rj { rj } else { ri };
    &&& s1.len() == s0.len()
    &&& forall|k: int| 0 <= k < s0.len() ==>
        #[trigger] root_of(s1, k) == (if root_of(s0, k) == b && ri != rj { a } else { root_of(s0, k) })
}

/// Every pair of elements connected under `s0` is still connected under
/// `s1`: merging components never separates anything.
pub open spec fn coarsens(s0: Seq<i64>, s1: Seq<i64>) -> bool {
    &&& s1.len() == s0.len()
    &&& forall|x: int, y: int|
        0 <= x < s0.len() && 0 <= y < s0.len() && #[trigger] root_of(s0, x) == #[trigger] root_of(
            s0, y) ==> root_of(s1, x) == root_of(s1, y)
}

/// A union step coarsens the partition and leaves its two arguments in one
/// component.
pub proof fn lemma_union_result_coarsens(s0: Seq<i64>, s1: Seq<i64>, i: int, j: int)
    requires
        0 <= i < s0.len(),
        0 <= j < s0.len(),
        union_result(s0, s1, i, j),
    ensures
        coarsens(s0, s1),
        root_of(s1, i) == root_of(s1, j),
{
    assert forall|x: int, y: int|
        0 <= x < s0.len() && 0 <= y < s0.len() && root_of(s0, x) == root_of(s0, y) implies root_of(
        s1, x) == root_of(s1, y) by {
        assert(root_of(s1, x) == root_of(s1, x));
    }
}

/// Coarsening is transitive.
pub proof fn lemma_coarsens_trans(s0: Seq<i64>, s1: Seq<i64>, s2: Seq<i64>)
    requires
        coarsens(s0, s1),
        coarsens(s1, s2),
    ensures
        coarsens(s0, s2),
{
    assert forall|x: int, y: int|
        0 <= x < s0.len() && 0 <= y < s0.len() && root_of(s0, x) == root_of(s0, y) implies root_of(
        s2, x) == root_of(s2, y) by {
        assert(root_of(s1, x) == root_of(s1, y));
    }
}

/// A resolved root is in bounds, at most its element, marked negative, and
/// resolves to itself.
pub proof fn lemma_root_of_props(s: Seq<i64>, i: int)
    requires
        links_ok(s),
        0 <= i < s.len(),
    ensures
        0 <= root_of(s, i) <= i,
        is_root(s, root_of(s, i)),
        root_of(s, root_of(s, i)) == root_of(s, i),
    decreases i,
{
    if 0 <= s[i] && s[i] < i {
        lemma_root_of_props(s, s[i] as int);
    }
}

/// A component is a finite subset of the element range.
pub proof fn lemma_component_finite(s: Seq<i64>, r: int)
    ensures
        component(s, r).finite(),
        component(s, r).len() <= s.len(),
        component(s, r).subset_of(set_int_range(0, s.len() as int)),
{
    lemma_int_range(0, s.len() as int);
    assert(component(s, r).subset_of(set_int_range(0, s.len() as int)));
    lemma_len_subset(component(s, r), set_int_range(0, s.len() as int));
}

/// Two seqs of links with pointwise equal roots have equal components.
pub proof fn lemma_equal_roots_equal_components(s1: Seq<i64>, s2: Seq<i64>)
    requires
        s1.len() == s2.len(),
        forall|k: int| 0 <= k < s1.len() ==> root_of(s1, k) == root_of(s2, k),
    ensures
        forall|r: int| component(s1, r) == component(s2, r),
{
    assert forall|r: int| component(s1, r) == component(s2, r) by {
        assert(component(s1, r) =~= component(s2, r));
    }
}

proof fn lemma_compress_link_root(s: Seq<i64>, i: int, k: int)
    requires
        links_ok(s),
        0 <= i < s.len(),
        0 <= s[i],
        0 <= k < s.len(),
    ensures
        root_of(s.update(i, root_of(s, i) as i64), k) == root_of(s, k),
    decreases k,
{
    let r = root_of(s, i);
    let s2 = s.update(i, r as i64);
    assert(s[i] < i);
    assert(root_of(s, i) == root_of(s, s[i] as int));
    lemma_root_of_props(s, s[i] as int);
    if k == i {
        assert(s2[i] == r as i64);
        assert(root_of(s2, i) == root_of(s2, r));
        lemma_compress_link_root(s, i, r);
        lemma_root_of_props(s, i);
    } else {
        if 0 <= s[k] && s[k] < k {
            assert(s2[k] == s[k]);
            lemma_compress_link_root(s, i, s[k] as int);
        } else {
            assert(s2[k] == s[k]);
        }
    }
}

/// Rewriting the link of a non-root element directly to its root keeps the
/// links acyclic and leaves the root of every element unchanged.
pub proof fn lemma_compress_link(s: Seq<i64>, i: int)
    requires
        links_ok(s),
        0 <= i < s.len(),
        0 <= s[i],
    ensures
        ({
            let s2 = s.update(i, root_of(s, i) as i64);
            &&& links_ok(s2)
            &&& forall|k: int| 0 <= k < s.len() ==> root_of(s2, k) == root_of(s, k)
        }),
{
    let r = root_of(s, i);
    let s2 = s.update(i, r as i64);
    assert(s[i] < i);
    assert(root_of(s, i) == root_of(s, s[i] as int));
    lemma_root_of_props(s, s[i] as int);
    assert forall|q: int| 0 <= q < s2.len() implies (s2[q] < 0 || (0 <= s2[q] && s2[q] < q)) by {
        if q == i {
            assert(s2[q] == r as i64);
        } else {
            assert(s2[q] == s[q]);
        }
    }
    assert(links_ok(s2));
    assert forall|k: int| 0 <= k < s.len() implies root_of(s2, k) == root_of(s, k) by {
        lemma_compress_link_root(s, i, k);
    }
}

/// Links with the same roots, the same root positions and the same root
/// entries record the component sizes correctly together.
pub proof fn lemma_sizes_ok_transfer(s1: Seq<i64>, s2: Seq<i64>)
    requires
        sizes_ok(s1),
        s1.len() == s2.len(),
        forall|k: int| 0 <= k < s1.len() ==> root_of(s1, k) == root_of(s2, k),
        forall|q: int| #[trigger] is_root(s2, q) ==> is_root(s1, q) && s2[q] == s1[q],
    ensures
        sizes_ok(s2),
{
    lemma_equal_roots_equal_components(s1, s2);
    assert forall|r: int| #[trigger] is_root(s2, r) implies s2[r] == -(component(s2, r).len() as int) by {
        assert(is_root(s1, r));
        assert(component(s2, r) == component(s1, r));
    }
}

proof fn lemma_update_root_value_root(s: Seq<i64>, r: int, v: i64, k: int)
    requires
        links_ok(s),
        is_root(s, r),
        v < 0,
        0 <= k < s.len(),
    ensures
        root_of(s.update(r, v), k) == root_of(s, k),
    decreases k,
{
    let s2 = s.update(r, v);
    if k != r {
        if 0 <= s[k] && s[k] < k {
            assert(s2[k] == s[k]);
            lemma_update_root_value_root(s, r, v, s[k] as int);
        } else {
            assert(s2[k] == s[k]);
        }
    }
}

/// Changing the stored value at a root to another negative value moves no
/// element to a different root and keeps the same set of roots.
pub proof fn lemma_update_root_value(s: Seq<i64>, r: int, v: i64)
    requires
        links_ok(s),
        is_root(s, r),
        v < 0,
    ensures
        ({
            let s2 = s.update(r, v);
            &&& links_ok(s2)
            &&& forall|k: int| 0 <= k < s.len() ==> root_of(s2, k) == root_of(s, k)
            &&& forall|q: int| #[trigger] is_root(s2, q) <==> is_root(s, q)
        }),
{
    let s2 = s.update(r, v);
    assert forall|q: int| 0 <= q < s2.len() implies (s2[q] < 0 || (0 <= s2[q] && s2[q] < q)) by {
        if q == r {
            assert(s2[q] == v);
        } else {
            assert(s2[q] == s[q]);
        }
    }
    assert(links_ok(s2));
    assert forall|k: int| 0 <= k < s.len() implies root_of(s2, k) == root_of(s, k) by {
        lemma_update_root_value_root(s, r, v, k);
    }
    assert forall|q: int| #[trigger] is_root(s2, q) <==> is_root(s, q) by {
        if q == r {
            assert(s2[q] == v);
        } else if 0 <= q < s.len() {
            assert(s2[q] == s[q]);
        }
    }
}

proof fn lemma_link_roots_root(s: Seq<i64>, a: int, b: int, k: int)
    requires
        links_ok(s),
        is_root(s, a),
        is_root(s, b),
        0 <= a < b,
        b <= i64::MAX,
        0 <= k < s.len(),
    ensures
        root_of(s.update(b, a as i64), k) == (if root_of(s, k) == b {
            a
        } else {
            root_of(s, k)
        }),
    decreases k,
{
    let s2 = s.update(b, a as i64);
    if k == b {
        assert(s2[b] == a as i64);
        assert(root_of(s2, b) == root_of(s2, a));
        lemma_link_roots_root(s, a, b, a);
    } else {
        if 0 <= s[k] && s[k] < k {
            assert(s2[k] == s[k]);
            lemma_link_roots_root(s, a, b, s[k] as int);
        } else {
            assert(s2[k] == s[k]);
        }
    }
}

/// Linking root `b` under a smaller root `a` keeps the links acyclic,
/// redirects exactly the elements rooted at `b` to `a`, and removes `b`
/// from the set of roots.
pub proof fn lemma_link_roots(s: Seq<i64>, a: int, b: int)
    requires
        links_ok(s),
        is_root(s, a),
        is_root(s, b),
        0 <= a < b,
        b <= i64::MAX,
    ensures
        ({
            let s2 = s.update(b, a as i64);
            &&& links_ok(s2)
            &&& forall|k: int| 0 <= k < s.len() ==>
                root_of(s2, k) == (if root_of(s, k) == b { a } else { root_of(s, k) })
            &&& forall|q: int| 0 <= q < s.len() ==>
                (#[trigger] is_root(s2, q) <==> (is_root(s, q) && q != b))
        }),
{
    let s2 = s.update(b, a as i64);
    assert forall|q: int| 0 <= q < s2.len() implies (s2[q] < 0 || (0 <= s2[q] && s2[q] < q)) by {
        if q == b {
            assert(s2[q] == a as i64);
        } else {
            assert(s2[q] == s[q]);
        }
    }
    assert(links_ok(s2));
    assert forall|k: int| 0 <= k < s.len() implies root_of(s2, k) == (if root_of(s, k) == b {
        a
    } else {
        root_of(s, k)
    }) by {
        lemma_link_roots_root(s, a, b, k);
    }
    assert forall|q: int| 0 <= q < s.len() implies (#[trigger] is_root(s2, q) <==> (is_root(s, q)
        && q != b)) by {
        if q == b {
            assert(s2[q] == a as i64);
        } else {
            assert(s2[q] == s[q]);
        }
    }
}

/// When every element rooted at `b` is redirected to `a` and nothing else
/// moves, `a`'s component becomes the disjoint union of the two old
/// components, whose sizes add, and every other component is unchanged.
pub proof fn lemma_merge_components(s0: Seq<i64>, s1: Seq<i64>, a: int, b: int)
    requires
        s1.len() == s0.len(),
        a != b,
        forall|k: int| 0 <= k < s0.len() ==>
            root_of(s1, k) == (if root_of(s0, k) == b { a } else { root_of(s0, k) }),
    ensures
        component(s1, a) == component(s0, a) + component(s0, b),
        component(s1, a).len() == component(s0, a).len() + component(s0, b).len(),
        forall|r: int| r != a && r != b ==> component(s1, r) == component(s0, r),
{
    lemma_component_finite(s0, a);
    lemma_component_finite(s0, b);
    assert(component(s1, a) =~= component(s0, a) + component(s0, b));
    assert forall|x: int| component(s0, a).contains(x) implies !component(s0, b).contains(x) by {}
    assert(component(s0, a).disjoint(component(s0, b)));
    vstd::set_lib::lemma_set_disjoint_lens(component(s0, a), component(s0, b));
    assert forall|r: int| r != a && r != b implies component(s1, r) == component(s0, r) by {
        assert(component(s1, r) =~= component(s0, r));
    }
}

proof fn lemma_max_link_size_props(s: Seq<i64>, k: int)
    requires
        0 <= k <= s.len(),
    ensures
        max_link_size(s, k) >= 0,
        forall|q: int| 0 <= q < k ==> -s[q] <= max_link_size(s, k),
        max_link_size(s, k) > 0 ==> exists|q: int| 0 <= q < k && -s[q] == max_link_size(s, k),
    decreases k,
{
    if k > 0 {
        lemma_max_link_size_props(s, k - 1);
        let m = max_link_size(s, k);
        if -s[k - 1] > max_link_size(s, k - 1) {
            assert(0 <= k - 1 < k && -s[k - 1] == m);
        } else if m > 0 {
            let q = choose|q: int| 0 <= q < k - 1 && -s[q] == max_link_size(s, k - 1);
            assert(0 <= q < k && -s[q] == m);
        }
    }
}

/// In a non-empty well-formed store the largest recorded size lies between
/// 1 and the number of elements.
pub proof fn lemma_max_size_bounds(s: Seq<i64>)
    requires
        links_ok(s),
        sizes_ok(s),
        s.len() > 0,
    ensures
        1 <= max_link_size(s, s.len() as int) <= s.len(),
        forall|q: int| #[trigger] is_root(s, q) ==>
            component(s, q).len() <= max_link_size(s, s.len() as int),
{
    lemma_max_link_size_props(s, s.len() as int);
    let m = max_link_size(s, s.len() as int);
    assert(is_root(s, 0));
    lemma_component_finite(s, 0);
    assert(root_of(s, 0) == 0);
    assert(component(s, 0).contains(0));
    assert(component(s, 0).len() >= 1);
    assert(-s[0] >= 1);
    assert(-s[0] <= m);
    let q = choose|q: int| 0 <= q < s.len() && -s[q] == m;
    assert(s[q] < 0);
    assert(is_root(s, q));
    lemma_component_finite(s, q);
    assert(m <= s.len());
    assert forall|p: int| #[trigger] is_root(s, p) implies component(s, p).len() <= m by {
        assert(-s[p] <= m);
    }
}

/// When every element resolves to the root of element 0 the store is a
/// single component and the largest recorded size is the element count.
pub proof fn lemma_single_component_max(s: Seq<i64>)
    requires
        links_ok(s),
        sizes_ok(s),
        s.len() > 0,
        forall|k: int| 0 <= k < s.len() ==> #[trigger] root_of(s, k) == root_of(s, 0),
    ensures
        max_link_size(s, s.len() as int) == s.len(),
{
    let r = root_of(s, 0);
    lemma_root_of_props(s, 0);
    assert(is_root(s, r));
    lemma_int_range(0, s.len() as int);
    assert(component(s, r) =~= set_int_range(0, s.len() as int));
    assert(component(s, r).len() == s.len());
    assert(-s[r] == s.len());
    lemma_max_link_size_props(s, s.len() as int);
    assert(-s[r] <= max_link_size(s, s.len() as int));
    lemma_max_size_bounds(s);
}

proof fn lemma_size_sum_partial(s: Seq<i64>, k: int)
    requires
        links_ok(s),
        sizes_ok(s),
        0 <= k <= s.len(),
    ensures
        Set::new(|x: int| 0 <= x < s.len() && root_of(s, x) < k).finite(),
        root_size_sum(s, k) == Set::new(|x: int| 0 <= x < s.len() && root_of(s, x) < k).len(),
    decreases k,
{
    let u_k = Set::new(|x: int| 0 <= x < s.len() && root_of(s, x) < k);
    lemma_int_range(0, s.len() as int);
    assert(u_k.subset_of(set_int_range(0, s.len() as int)));
    lemma_len_subset(u_k, set_int_range(0, s.len() as int));
    if k > 0 {
        lemma_size_sum_partial(s, k - 1);
        let u_prev = Set::new(|x: int| 0 <= x < s.len() && root_of(s, x) < k - 1);
        if s[k - 1] < 0 {
            assert(is_root(s, k - 1));
            assert forall|x: int| u_prev.contains(x) implies !component(s, k - 1).contains(x) by {}
            assert(u_k =~= u_prev + component(s, k - 1));
            lemma_component_finite(s, k - 1);
            assert(u_prev.disjoint(component(s, k - 1)));
            vstd::set_lib::lemma_set_disjoint_lens(u_prev, component(s, k - 1));
        } else {
            assert forall|x: int| u_k.contains(x) implies u_prev.contains(x) by {
                lemma_root_of_props(s, x);
            }
            assert(u_k =~= u_prev);
        }
    } else {
        assert forall|x: int| !u_k.contains(x) by {
            if 0 <= x < s.len() {
                lemma_root_of_props(s, x);
            }
        }
        assert(u_k =~= Set::<int>::empty());
    }
}

/// Size conservation: over the roots, the recorded component sizes sum to
/// the number of elements — the components partition the store.
pub proof fn lemma_size_conservation(s: Seq<i64>)
    requires
        links_ok(s),
        sizes_ok(s),
    ensures
        root_size_sum(s, s.len() as int) == s.len(),
{
    lemma_size_sum_partial(s, s.len() as int);
    let u = Set::new(|x: int| 0 <= x < s.len() && root_of(s, x) < s.len());
    assert forall|x: int| 0 <= x < s.len() implies u.contains(x) by {
        lemma_root_of_props(s, x);
    }
    lemma_int_range(0, s.len() as int);
    assert(u =~= set_int_range(0, s.len() as int));
}

/// After a union the two elements share a root; when their components were
/// distinct the merged component's size is the sum of the two original
/// sizes, and when they already shared a root every component is unchanged.
pub proof fn lemma_union_merges(s0: Seq<i64>, s1: Seq<i64>, i: int, j: int)
    requires
        0 <= i < s0.len(),
        0 <= j < s0.len(),
        union_result(s0, s1, i, j),
    ensures
        root_of(s1, i) == root_of(s1, j),
        root_of(s0, i) != root_of(s0, j) ==> component(s1, root_of(s1, i)).len()
            == component(s0, root_of(s0, i)).len() + component(s0, root_of(s0, j)).len(),
        root_of(s0, i) == root_of(s0, j) ==> forall|r: int| component(s1, r) == component(s0, r),
{
    let ri = root_of(s0, i);
    let rj = root_of(s0, j);
    let a = if ri <= rj { ri } else { rj };
    let b = if ri <= rj { rj } else { ri };
    if ri == rj {
        lemma_equal_roots_equal_components(s0, s1);
    } else {
        lemma_merge_components(s0, s1, a, b);
    }
}

/// A store in which every link is -1 is a forest of singletons: every
/// element is its own root, every component has exactly one element, and
/// the largest recorded size is 1 as soon as there is any element.
pub proof fn lemma_singleton_store(s: Seq<i64>)
    requires
        forall|i: int| 0 <= i < s.len() ==> s[i] == -1i64,
    ensures
        links_ok(s),
        sizes_ok(s),
        forall|i: int| 0 <= i < s.len() ==> root_of(s, i) == i,
        forall|i: int| 0 <= i < s.len() ==> #[trigger] component(s, i).len() == 1,
        s.len() > 0 ==> max_link_size(s, s.len() as int) == 1,
{
    assert forall|i: int| 0 <= i < s.len() implies root_of(s, i) == i by {
        assert(s[i] == -1i64);
    }
    assert forall|i: int| 0 <= i < s.len() implies #[trigger] component(s, i).len() == 1 by {
        assert(component(s, i) =~= Set::empty().insert(i));
    }
    assert forall|r: int| #[trigger] is_root(s, r) implies s[r] == -(component(s, r).len() as int) by {
        assert(component(s, r).len() == 1);
    }
    if s.len() > 0 {
        lemma_max_link_size_fresh(s, s.len() as int);
    }
}

proof fn lemma_max_link_size_fresh(s: Seq<i64>, k: int)
    requires
        forall|i: int| 0 <= i < s.len() ==> s[i] == -1i64,
        0 <= k <= s.len(),
    ensures
        max_link_size(s, k) == if k == 0 { 0int } else { 1int },
    decreases k,
{
    if k > 0 {
        lemma_max_link_size_fresh(s, k - 1);
    }
}

impl UnionFind {
    /// The number of elements the store was built for.
    pub closed spec fn count(&self) -> int {
        self.n as int
    }

    /// The store is a well-formed weighted forest: the element count
    /// matches the links, sizes fit an `i64`, the links are acyclic, and
    /// every root records its component's size.
    pub open spec fn inv(&self) -> bool {
        &&& self@.len() == self.count()
        &&& self@.len() <= i64::MAX
        &&& links_ok(self@)
        &&& sizes_ok(self@)
    }

    /// Build a store of `n` elements, each its own singleton root.
    pub fn new(n: usize) -> (uf: UnionFind)
        requires
            n <= i64::MAX,
        ensures
            uf.inv(),
            uf.count() == n,
            uf@ == Seq::new(n as nat, |i: int| -1i64),
    {
        let mut parents: Vec<i64> = Vec::new();
        let mut k: usize = 0;
        while k < n
            invariant
                k <= n,
                parents@.len() == k,
                forall|i: int| 0 <= i < k ==> parents@[i] == -1i64,
            decreases n - k,
        {
            parents.push(-1);
            k = k + 1;
        }
        proof {
            lemma_singleton_store(parents@);
            assert(parents@ =~= Seq::new(n as nat, |i: int| -1i64));
        }
        UnionFind { n, parents }
    }

    /// Resolve `i` to the root of its component, compressing the links
    /// along the way: the partition of the elements is unchanged, only the
    /// chains shorten.
    pub fn find(&mut self, i: usize) -> (r: usize)
        requires
            old(self).inv(),
            i < old(self)@.len(),
        ensures
            final(self).inv(),
            final(self).count() == old(self).count(),
            final(self)@.len() == old(self)@.len(),
            r as int == root_of(old(self)@, i as int),
            r < old(self)@.len(),
            is_root(final(self)@, r as int),
            forall|k: int| 0 <= k < old(self)@.len() ==>
                root_of(final(self)@, k) == root_of(old(self)@, k),
            forall|q: int| #[trigger] is_root(final(self)@, q) <==> is_root(old(self)@, q),
            forall|q: int| #[trigger] is_root(old(self)@, q) ==> final(self)@[q] == old(self)@[q],
        decreases i,
    {
        proof {
            lemma_root_of_props(old(self)@, i as int);
        }
        let pi = self.parents[i];
        if pi < 0 {
            i
        } else {
            assert(0 <= pi < i);
            let r = self.find(pi as usize);
            let ghost s_mid = self@;
            proof {
                assert(root_of(old(self)@, i as int) == root_of(old(self)@, pi as int));
                assert(!is_root(old(self)@, i as int));
                assert(!is_root(s_mid, i as int));
                assert(0 <= s_mid[i as int]);
                assert(root_of(s_mid, i as int) == r as int);
                lemma_compress_link(s_mid, i as int);
            }
            self.parents[i] = r as i64;
            proof {
                assert(self@ == s_mid.update(i as int, r as i64));
                assert(root_of(s_mid, i as int) as i64 == r as i64);
                assert forall|q: int| #[trigger] is_root(self@, q) implies is_root(s_mid, q)
                    && self@[q] == s_mid[q] by {
                    assert(self@[i as int] == r as i64);
                    assert(q != i as int);
                }
                lemma_sizes_ok_transfer(s_mid, self@);
                assert forall|q: int| #[trigger] is_root(self@, q) <==> is_root(old(self)@, q) by {
                    if is_root(s_mid, q) {
                        assert(q != i as int);
                        assert(self@[q] == s_mid[q]);
                    }
                }
                assert forall|q: int| #[trigger] is_root(old(self)@, q) implies self@[q]
                    == old(self)@[q] by {
                    assert(q != i as int);
                    assert(s_mid[q] == old(self)@[q]);
                }
            }
            r
        }
    }

    /// Whether `i` and `j` belong to the same component.
    pub fn same(&mut self, i: usize, j: usize) -> (eq: bool)
        requires
            old(self).inv(),
            i < old(self)@.len(),
            j < old(self)@.len(),
        ensures
            final(self).inv(),
            final(self).count() == old(self).count(),
            final(self)@.len() == old(self)@.len(),
            eq == (root_of(old(self)@, i as int) == root_of(old(self)@, j as int)),
            forall|k: int| 0 <= k < old(self)@.len() ==>
                root_of(final(self)@, k) == root_of(old(self)@, k),
            forall|q: int| #[trigger] is_root(final(self)@, q) <==> is_root(old(self)@, q),
            forall|q: int| #[trigger] is_root(old(self)@, q) ==> final(self)@[q] == old(self)@[q],
    {
        let ri = self.find(i);
        let ghost s_a = self@;
        let rj = self.find(j);
        proof {
            assert forall|q: int| #[trigger] is_root(old(self)@, q) implies self@[q]
                == old(self)@[q] by {
                assert(is_root(s_a, q));
                assert(s_a[q] == old(self)@[q]);
            }
        }
        ri == rj
    }

    /// The size of the component that `i` belongs to.
    pub fn size(&mut self, i: usize) -> (sz: i64)
        requires
            old(self).inv(),
            i < old(self)@.len(),
        ensures
            final(self).inv(),
            final(self).count() == old(self).count(),
            final(self)@.len() == old(self)@.len(),
            sz == component(old(self)@, root_of(old(self)@, i as int)).len(),
            1 <= sz <= old(self)@.len(),
            forall|k: int| 0 <= k < old(self)@.len() ==>
                root_of(final(self)@, k) == root_of(old(self)@, k),
            forall|q: int| #[trigger] is_root(final(self)@, q) <==> is_root(old(self)@, q),
            forall|q: int| #[trigger] is_root(old(self)@, q) ==> final(self)@[q] == old(self)@[q],
    {
        let root_i = self.find(i);
        proof {
            lemma_root_of_props(old(self)@, i as int);
            assert(is_root(old(self)@, root_i as int));
            assert(self@[root_i as int] == old(self)@[root_i as int]);
            lemma_component_finite(old(self)@, root_i as int);
            assert(component(old(self)@, root_i as int).contains(i as int));
        }
        -self.parents[root_i]
    }

    /// Merge the components of `i` and `j`: when their roots differ, the
    /// smaller-indexed root absorbs the larger one and records the summed
    /// size; when the roots agree nothing moves.
    pub fn union(&mut self, i: usize, j: usize)
        requires
            old(self).inv(),
            i < old(self)@.len(),
            j < old(self)@.len(),
        ensures
            final(self).inv(),
            final(self).count() == old(self).count(),
            final(self)@.len() == old(self)@.len(),
            union_result(old(self)@, final(self)@, i as int, j as int),
            ({
                let s0 = old(self)@;
                let s1 = final(self)@;
                let ri = root_of(s0, i as int);
                let rj = root_of(s0, j as int);
                let a = if ri <= rj { ri } else { rj };
                let b = if ri <= rj { rj } else { ri };
                if ri == rj {
                    (forall|q: int| #[trigger] is_root(s1, q) <==> is_root(s0, q))
                    && (forall|q: int| #[trigger] is_root(s0, q) ==> s1[q] == s0[q])
                } else {
                    (forall|q: int| 0 <= q < s0.len() ==>
                        (#[trigger] is_root(s1, q) <==> (is_root(s0, q) && q != b)))
                    && s1[a] == s0[a] + s0[b]
                    && (forall|q: int| #[trigger] is_root(s1, q) && q != a ==> s1[q] == s0[q])
                }
            }),
    {
        let ghost s0 = self@;
        let mut root_i = self.find(i);
        let ghost s_a = self@;
        let mut root_j = self.find(j);
        let ghost s_b = self@;
        proof {
            assert forall|q: int| #[trigger] is_root(s0, q) implies s_b[q] == s0[q] by {
                assert(is_root(s_a, q));
                assert(s_a[q] == s0[q]);
            }
            assert(root_j as int == root_of(s0, j as int));
            assert(is_root(s_b, root_i as int));
        }
        if root_i == root_j {
            return;
        }
        if root_i > root_j {
            let t = root_i;
            root_i = root_j;
            root_j = t;
        }
        let ghost aa = root_i as int;
        let ghost bb = root_j as int;
        let si = self.parents[root_i];
        let sj = self.parents[root_j];
        proof {
            assert(is_root(s_b, aa) && is_root(s_b, bb));
            lemma_component_finite(s_b, aa);
            lemma_component_finite(s_b, bb);
            assert forall|x: int| component(s_b, aa).contains(x) implies !component(s_b,
                bb).contains(x) by {}
            assert(component(s_b, aa).disjoint(component(s_b, bb)));
            vstd::set_lib::lemma_set_disjoint_lens(component(s_b, aa), component(s_b, bb));
            lemma_int_range(0, s_b.len() as int);
            assert((component(s_b, aa) + component(s_b, bb)).subset_of(
                set_int_range(0, s_b.len() as int)));
            lemma_len_subset(component(s_b, aa) + component(s_b, bb),
                set_int_range(0, s_b.len() as int));
            assert(-si + -sj <= s_b.len());
        }
        let merged: i64 = si + sj;
        self.parents[root_i] = merged;
        let ghost s_c = self@;
        proof {
            lemma_update_root_value(s_b, aa, merged);
        }
        self.parents[root_j] = root_i as i64;
        proof {
            let s1 = self@;
            assert(is_root(s_c, aa));
            assert(s_c[bb] == s_b[bb]);
            assert(is_root(s_c, bb));
            lemma_link_roots(s_c, aa, bb);
            lemma_equal_roots_equal_components(s_b, s_c);
            lemma_merge_components(s_c, s1, aa, bb);
            // the combined root mapping from s_b to s1
            assert forall|k: int| 0 <= k < s_b.len() implies
                root_of(s1, k) == (if root_of(s_b, k) == bb { aa } else { root_of(s_b, k) }) by {
                assert(root_of(s_c, k) == root_of(s_b, k));
            }
            // sizes are recorded correctly again
            assert forall|r: int| #[trigger] is_root(s1, r) implies
                s1[r] == -(component(s1, r).len() as int) by {
                assert(is_root(s_c, r) && r != bb);
                assert(is_root(s_b, r));
                if r == aa {
                    assert(component(s1, aa).len() == component(s_c, aa).len()
                        + component(s_c, bb).len());
                    assert(component(s_c, aa) == component(s_b, aa));
                    assert(component(s_c, bb) == component(s_b, bb));
                    assert(s1[aa] == s_c[aa]);
                    assert(s_c[aa] == merged);
                } else {
                    assert(component(s1, r) == component(s_c, r));
                    assert(component(s_c, r) == component(s_b, r));
                    assert(s1[r] == s_c[r]);
                    assert(s_c[r] == s_b[r]);
                }
            }
            assert(sizes_ok(s1));
            // the advertised relation to the state at entry
            assert forall|k: int| 0 <= k < s0.len() implies
                root_of(s1, k) == (if root_of(s0, k) == bb { aa } else { root_of(s0, k) }) by {
                assert(root_of(s_b, k) == root_of(s0, k));
            }
            assert(union_result(s0, s1, i as int, j as int));
            assert forall|q: int| 0 <= q < s0.len() implies
                (#[trigger] is_root(s1, q) <==> (is_root(s0, q) && q != bb)) by {
                assert(is_root(s_b, q) <==> is_root(s0, q));
                assert(is_root(s_c, q) <==> is_root(s_b, q));
            }
            assert forall|q: int| #[trigger] is_root(s1, q) && q != aa implies s1[q] == s0[q] by {
                assert(is_root(s_c, q) && q != bb);
                assert(is_root(s_b, q));
                assert(s1[q] == s_c[q]);
                assert(s_c[q] == s_b[q]);
                assert(is_root(s0, q));
            }
            assert(s1[aa] == s0[aa] + s0[bb]);
        }
    }

    /// The size of the largest component, or 0 for an empty store. The
    /// store is left exactly as it was.
    pub fn max_size(&mut self) -> (m: i64)
        requires
            old(self).inv(),
        ensures
            *final(self) == *old(self),
            m == max_link_size(old(self)@, old(self)@.len() as int),
            m >= 0,
            old(self)@.len() == 0 ==> m == 0,
            old(self)@.len() > 0 ==> 1 <= m <= old(self)@.len(),
            forall|q: int| #[trigger] is_root(old(self)@, q) ==>
                component(old(self)@, q).len() <= m,
            (old(self)@.len() > 0 && (forall|k: int| 0 <= k < old(self)@.len() ==>
                #[trigger] root_of(old(self)@, k) == root_of(old(self)@, 0))) ==> m
                == old(self)@.len(),
    {
        let mut max_val: i64 = 0;
        let mut idx: usize = 0;
        let n = self.n;
        while idx < n
            invariant
                *self == *old(self),
                self.inv(),
                n == self@.len(),
                idx <= n,
                max_val == max_link_size(self@, idx as int),
                max_val >= 0,
            decreases n - idx,
        {
            let v = self.parents[idx];
            proof {
                if v < 0 {
                    assert(is_root(self@, idx as int));
                    lemma_component_finite(self@, idx as int);
                    assert(v == -(component(self@, idx as int).len() as int));
                }
            }
            let neg = -v;
            if max_val < neg {
                max_val = neg;
            }
            idx = idx + 1;
        }
        proof {
            if self.parents.len() > 0 {
                lemma_max_size_bounds(self@);
                if forall|k: int| 0 <= k < self@.len() ==> #[trigger] root_of(self@, k)
                    == root_of(self@, 0) {
                    lemma_single_component_max(self@);
                }
            }
        }
        max_val
    }
}

} // verus!
