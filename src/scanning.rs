//! The weighted file tree that a directory walk produces.
use vstd::prelude::*;

verus! {

/// A file (no children) or a directory (children, possibly none).
pub struct Node {
    pub size: u64,
    pub path: String,
    pub children: Option<Vec<Node>>,
}

/// Sum of the sizes of a sequence of nodes.
pub open spec fn sum_sizes(s: Seq<Node>) -> int
    decreases s.len(),
{
    if s.len() == 0 {
        0
    } else {
        sum_sizes(s.drop_last()) + s.last().size
    }
}

/// Sizes never increase along the sequence.
pub open spec fn sorted_desc(s: Seq<Node>) -> bool {
    forall|i: int, j: int| 0 <= i < j < s.len() ==> s[i].size >= s[j].size
}

/// Inserts `x` into a sequence sorted by decreasing size, in front of the
/// first element whose size is not larger than that of `x`.
pub open spec fn insert_desc(s: Seq<Node>, x: Node) -> Seq<Node>
    decreases s.len(),
{
    if s.len() == 0 || s[0].size <= x.size {
        seq![x] + s
    } else {
        seq![s[0]] + insert_desc(s.drop_first(), x)
    }
}

/// Stable sort by decreasing size: equal sizes keep their relative order.
pub open spec fn sort_desc(s: Seq<Node>) -> Seq<Node>
    decreases s.len(),
{
    if s.len() == 0 {
        s
    } else {
        insert_desc(sort_desc(s.drop_first()), s[0])
    }
}


/// Inserting into a sorted sequence keeps it sorted and adds the size of the
/// new element to the total.
pub proof fn lemma_insert_desc(s: Seq<Node>, x: Node)
    ensures
        insert_desc(s, x).len() == s.len() + 1,
        sum_sizes(insert_desc(s, x)) == sum_sizes(s) + x.size,
        insert_desc(s, x).to_multiset() == s.to_multiset().insert(x),
        sorted_desc(s) ==> sorted_desc(insert_desc(s, x)),
        forall|k: int| 0 <= k < insert_desc(s, x).len() ==> {
            let e = #[trigger] insert_desc(s, x)[k];
            e == x || s.contains(e)
        },
    decreases s.len(),
{
    lemma_sum_prepend(s, x);
    if s.len() == 0 || s[0].size <= x.size {
        assert(insert_desc(s, x) == seq![x] + s);
        lemma_multiset_prepend(s, x);
        assert forall|k: int| 0 <= k < insert_desc(s, x).len() implies {
            let e = #[trigger] insert_desc(s, x)[k];
            e == x || s.contains(e)
        } by {
            if k > 0 {
                assert(insert_desc(s, x)[k] == s[k - 1]);
            }
        }
    } else {
        let t = s.drop_first();
        lemma_insert_desc(t, x);
        let it = insert_desc(t, x);
        assert(insert_desc(s, x) == seq![s[0]] + it);
        lemma_sum_prepend(it, s[0]);
        lemma_sum_prepend(t, s[0]);
        assert(seq![s[0]] + t == s);
        lemma_multiset_prepend(it, s[0]);
        lemma_multiset_prepend(t, s[0]);
        assert forall|k: int| 0 <= k < insert_desc(s, x).len() implies {
            let e = #[trigger] insert_desc(s, x)[k];
            e == x || s.contains(e)
        } by {
            if k == 0 {
                assert(s[0] == s[0]);
                assert(s.contains(s[0]));
            } else {
                let e = it[k - 1];
                assert(insert_desc(s, x)[k] == e);
                if e != x {
                    let j = choose|j: int| 0 <= j < t.len() && t[j] == e;
                    assert(s[j + 1] == e);
                }
            }
        }
        if sorted_desc(s) {
            assert(sorted_desc(t));
            assert forall|i: int, j: int|
                0 <= i < j < insert_desc(s, x).len() implies insert_desc(s, x)[i].size
                >= insert_desc(s, x)[j].size by {
                if i == 0 {
                    let e = it[j - 1];
                    if e != x {
                        let m = choose|m: int| 0 <= m < t.len() && t[m] == e;
                        assert(s[m + 1] == e);
                    }
                } else {
                    assert(insert_desc(s, x)[i] == it[i - 1]);
                    assert(insert_desc(s, x)[j] == it[j - 1]);
                }
            }
        }
    }
}

proof fn lemma_sum_prepend(s: Seq<Node>, x: Node)
    ensures
        sum_sizes(seq![x] + s) == sum_sizes(s) + x.size,
    decreases s.len(),
{
    if s.len() > 0 {
        lemma_sum_prepend(s.drop_last(), x);
        assert((seq![x] + s).drop_last() == seq![x] + s.drop_last());
    } else {
        assert((seq![x] + s).drop_last() == s);
    }
}

proof fn lemma_multiset_prepend(s: Seq<Node>, x: Node)
    ensures
        (seq![x] + s).to_multiset() == s.to_multiset().insert(x),
{
    broadcast use vstd::multiset::group_multiset_axioms;

    let e = Seq::<Node>::empty();
    e.to_multiset_ensures();
    assert(e.push(x) == seq![x]);
    vstd::seq_lib::lemma_multiset_commutative(seq![x], s);
    assert((seq![x] + s).to_multiset() =~= s.to_multiset().insert(x));
}

/// The stable sort is ordered, keeps the total, and is a permutation.
pub proof fn lemma_sort_desc(s: Seq<Node>)
    ensures
        sort_desc(s).len() == s.len(),
        sorted_desc(sort_desc(s)),
        sum_sizes(sort_desc(s)) == sum_sizes(s),
        sort_desc(s).to_multiset() == s.to_multiset(),
        forall|k: int| 0 <= k < s.len() ==> s.contains(#[trigger] sort_desc(s)[k]),
    decreases s.len(),
{
    if s.len() > 0 {
        let t = s.drop_first();
        lemma_sort_desc(t);
        lemma_insert_desc(sort_desc(t), s[0]);
        assert(seq![s[0]] + t == s);
        lemma_sum_prepend(t, s[0]);
        lemma_multiset_prepend(t, s[0]);
        assert forall|k: int| 0 <= k < s.len() implies s.contains(#[trigger] sort_desc(s)[k]) by {
            let e = sort_desc(s)[k];
            if e != s[0] {
                assert(sort_desc(t).contains(e));
                let m = choose|m: int| 0 <= m < sort_desc(t).len() && sort_desc(t)[m] == e;
                assert(t.contains(e));
                let j = choose|j: int| 0 <= j < t.len() && t[j] == e;
                assert(s[j + 1] == e);
            } else {
                assert(s[0] == e);
            }
        }
    } else {
        assert(s.to_multiset() == sort_desc(s).to_multiset());
    }
}

/// The position at which `insert_desc` places an element of size `size`.
proof fn lemma_insert_desc_at(s: Seq<Node>, x: Node, k: int)
    requires
        0 <= k <= s.len(),
        forall|i: int| 0 <= i < k ==> s[i].size > x.size,
        k == s.len() || s[k].size <= x.size,
    ensures
        insert_desc(s, x) == s.insert(k, x),
    decreases s.len(),
{
    if s.len() == 0 || s[0].size <= x.size {
        assert(k == 0);
        assert(insert_desc(s, x) =~= s.insert(k, x));
    } else {
        let t = s.drop_first();
        lemma_insert_desc_at(t, x, k - 1);
        assert(insert_desc(s, x) =~= s.insert(k, x));
    }
}

impl Node {
    /// A well-formed tree: a file weighs at least one byte, a directory
    /// weighs exactly the sum of its children, which are ordered by
    /// decreasing size and well-formed themselves.
    pub open spec fn wf(self) -> bool
        decreases self,
    {
        match self.children {
            None => self.size >= 1,
            Some(cs) => {
                &&& self.size == sum_sizes(cs@)
                &&& sorted_desc(cs@)
                &&& forall|i: int| 0 <= i < cs@.len() ==> (#[trigger] cs@[i]).wf()
            },
        }
    }

    /// The node for a regular file of `len` bytes; an empty file counts as
    /// one byte so that it keeps a place in the map.
    pub fn file(path: String, len: u64) -> (r: Node)
        ensures
            r.path == path,
            r.size == if len == 0 { 1 } else { len },
            r.children is None,
            r.wf(),
    {
        let size: u64 = if len == 0 { 1 } else { len };
        Node { size, path, children: None }
    }

    /// The node for a directory whose visited entries are `children`, in the
    /// order in which they were enumerated. The children are sorted by
    /// decreasing size, equal sizes keeping their enumeration order, and the
    /// directory weighs their total. `None` when that total does not fit in
    /// a `u64`.
    pub fn directory(path: String, children: Vec<Node>) -> (r: Option<Node>)
        ensures
            r is None <==> sum_sizes(children@) > u64::MAX,
            r matches Some(n) ==> {
                &&& n.path == path
                &&& n.size == sum_sizes(children@)
                &&& n.children matches Some(cs) && cs@ == sort_desc(children@)
                &&& (forall|i: int| 0 <= i < children@.len() ==> (#[trigger] children@[i]).wf())
                    ==> n.wf()
            },
    {
        let ghost input = children@;
        let sorted = sort_by_size_desc(children);
        proof {
            lemma_sort_desc(input);
        }
        let mut total: u64 = 0;
        let mut i: usize = 0;
        while i < sorted.len()
            invariant
                sorted@ == sort_desc(input),
                sum_sizes(sorted@) == sum_sizes(input),
                input == children@,
                i <= sorted@.len(),
                total == sum_sizes(sorted@.take(i as int)),
            decreases sorted@.len() - i,
        {
            assert(sorted@.take(i as int + 1).drop_last() == sorted@.take(i as int));
            proof {
                lemma_sum_take_bound(sorted@, i as int + 1);
            }
            assert(sum_sizes(sorted@.take(i as int + 1)) == total + sorted@[i as int].size);
            if total > u64::MAX - sorted[i].size {
                return None;
            }
            total = total + sorted[i].size;
            i = i + 1;
        }
        assert(sorted@.take(i as int) == sorted@);
        proof {
            lemma_sort_desc(input);
            if forall|i: int| 0 <= i < input.len() ==> (#[trigger] input[i]).wf() {
                assert forall|k: int| 0 <= k < sorted@.len() implies (#[trigger] sorted@[k]).wf() by {
                    let e = sorted@[k];
                    assert(input.contains(e));
                }
            }
        }
        Some(Node { size: total, path, children: Some(sorted) })
    }
}

/// A prefix of a sequence of nodes never weighs more than the whole.
proof fn lemma_sum_take_bound(s: Seq<Node>, k: int)
    requires
        0 <= k <= s.len(),
    ensures
        sum_sizes(s.take(k)) <= sum_sizes(s),
        forall|j: int| 0 <= j < k ==> sum_sizes(s.take(j)) <= sum_sizes(s.take(k)),
    decreases s.len(),
{
    if k < s.len() {
        assert(s.take(s.len() as int - 1) == s.drop_last());
        assert(s.drop_last().take(k) == s.take(k));
        lemma_sum_take_bound(s.drop_last(), k);
    } else {
        assert(s.take(k) == s);
    }
    assert forall|j: int| 0 <= j < k implies sum_sizes(s.take(j)) <= sum_sizes(s.take(k)) by {
        lemma_sum_take_mono(s, j, k);
    }
}

proof fn lemma_sum_take_mono(s: Seq<Node>, j: int, k: int)
    requires
        0 <= j <= k <= s.len(),
    ensures
        sum_sizes(s.take(j)) <= sum_sizes(s.take(k)),
    decreases k - j,
{
    if j < k {
        assert(s.take(k).drop_last() == s.take(k - 1));
        lemma_sum_take_mono(s, j, k - 1);
    }
}

/// Stable sort of `v` by decreasing size.
fn sort_by_size_desc(v: Vec<Node>) -> (r: Vec<Node>)
    ensures
        r@ == sort_desc(v@),
{
    let ghost input = v@;
    let mut rest = v;
    let mut out: Vec<Node> = Vec::new();
    while rest.len() > 0
        invariant
            rest@ == input.take(rest@.len() as int),
            rest@.len() <= input.len(),
            out@ == sort_desc(input.skip(rest@.len() as int)),
        decreases rest@.len(),
    {
        let ghost n = rest@.len() as int;
        let x = rest.pop().unwrap();
        assert(input.skip(n - 1).drop_first() == input.skip(n));
        assert(input.skip(n - 1)[0] == x);
        assert(rest@ == input.take(n - 1));
        let mut k: usize = 0;
        while k < out.len() && out[k].size > x.size
            invariant
                k <= out@.len(),
                forall|i: int| 0 <= i < k ==> out@[i].size > x.size,
            decreases out@.len() - k,
        {
            k = k + 1;
        }
        proof {
            lemma_insert_desc_at(out@, x, k as int);
        }
        out.insert(k, x);
    }
    assert(input.skip(0) == input);
    out
}

} // verus!
