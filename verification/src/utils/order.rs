//! Counting and stable ordering of indices, the arithmetic under every splice.
use vstd::prelude::*;
use vstd::relations::{sorted_by, total_ordering};

verus! {

/// How many indices below `n` satisfy `p`.
pub open spec fn count(n: nat, p: spec_fn(int) -> bool) -> nat
    decreases n,
{
    if n == 0 {
        0
    } else {
        count((n - 1) as nat, p) + (if p(n - 1) {
            1nat
        } else {
            0nat
        })
    }
}

/// A count never exceeds the number of indices it ranges over.
pub proof fn lemma_count_bound(n: nat, p: spec_fn(int) -> bool)
    ensures
        count(n, p) <= n,
    decreases n,
{
    if n > 0 {
        lemma_count_bound((n - 1) as nat, p);
    }
}

/// Two predicates that agree below `n` count alike.
pub proof fn lemma_count_ext(n: nat, p: spec_fn(int) -> bool, q: spec_fn(int) -> bool)
    requires
        forall|i: int| 0 <= i < n ==> #[trigger] p(i) == q(i),
    ensures
        count(n, p) == count(n, q),
    decreases n,
{
    if n > 0 {
        lemma_count_ext((n - 1) as nat, p, q);
    }
}

/// A predicate that implies another below `n` counts no more than it.
pub proof fn lemma_count_le(n: nat, p: spec_fn(int) -> bool, q: spec_fn(int) -> bool)
    requires
        forall|i: int| 0 <= i < n && #[trigger] p(i) ==> q(i),
    ensures
        count(n, p) <= count(n, q),
    decreases n,
{
    if n > 0 {
        lemma_count_le((n - 1) as nat, p, q);
    }
}

/// A predicate that implies another, and misses an index the other holds at,
/// counts strictly less.
pub proof fn lemma_count_lt(n: nat, p: spec_fn(int) -> bool, q: spec_fn(int) -> bool, at: int)
    requires
        forall|i: int| 0 <= i < n && #[trigger] p(i) ==> q(i),
        0 <= at < n,
        !p(at),
        q(at),
    ensures
        count(n, p) < count(n, q),
    decreases n,
{
    if at == n - 1 {
        lemma_count_le((n - 1) as nat, p, q);
    } else {
        lemma_count_lt((n - 1) as nat, p, q, at);
    }
}

/// The count of a predicate split in two is the sum of its parts.
pub proof fn lemma_count_or(
    n: nat,
    p: spec_fn(int) -> bool,
    q: spec_fn(int) -> bool,
    either: spec_fn(int) -> bool,
)
    requires
        forall|i: int| 0 <= i < n ==> #[trigger] either(i) == (p(i) || q(i)) && !(p(i) && q(i)),
    ensures
        count(n, either) == count(n, p) + count(n, q),
    decreases n,
{
    if n > 0 {
        lemma_count_or((n - 1) as nat, p, q, either);
    }
}

/// A predicate that holds at no index counts nothing.
pub proof fn lemma_count_none(n: nat, p: spec_fn(int) -> bool)
    requires
        forall|i: int| 0 <= i < n ==> !#[trigger] p(i),
    ensures
        count(n, p) == 0,
    decreases n,
{
    if n > 0 {
        lemma_count_none((n - 1) as nat, p);
    }
}

/// A predicate that holds at every index counts them all.
pub proof fn lemma_count_all(n: nat, p: spec_fn(int) -> bool)
    requires
        forall|i: int| 0 <= i < n ==> #[trigger] p(i),
    ensures
        count(n, p) == n,
    decreases n,
{
    if n > 0 {
        lemma_count_all((n - 1) as nat, p);
    }
}

/// Adding one index to a predicate adds one to its count.
pub proof fn lemma_count_add(n: nat, p: spec_fn(int) -> bool, q: spec_fn(int) -> bool, at: int)
    requires
        forall|i: int| 0 <= i < n ==> #[trigger] q(i) == (p(i) || i == at),
        0 <= at < n,
        !p(at),
    ensures
        count(n, q) == count(n, p) + 1,
    decreases n,
{
    if at == n - 1 {
        lemma_count_ext((n - 1) as nat, q, p);
    } else {
        lemma_count_add((n - 1) as nat, p, q, at);
    }
}

/// The indices below `j`.
pub open spec fn below(j: int) -> spec_fn(int) -> bool {
    |i: int| i < j
}

/// There are `j` indices below `j`.
pub proof fn lemma_count_below(n: nat, j: int)
    requires
        0 <= j <= n,
    ensures
        count(n, below(j)) == j,
    decreases n,
{
    if j == n {
        lemma_count_all(n, below(j));
    } else {
        lemma_count_below((n - 1) as nat, j);
    }
}

/// A predicate closed downward holds exactly below its count.
pub proof fn lemma_count_downward(n: nat, p: spec_fn(int) -> bool)
    requires
        forall|a: int, b: int| 0 <= a < b < n && #[trigger] p(b) ==> #[trigger] p(a),
    ensures
        forall|i: int| 0 <= i < n ==> #[trigger] p(i) == (i < count(n, p)),
    decreases n,
{
    if n > 0 {
        lemma_count_downward((n - 1) as nat, p);
        lemma_count_bound((n - 1) as nat, p);
        if p(n - 1) && n > 1 {
            assert(p(n - 2));
        }
    }
}

/// The count of a predicate is the length of any duplicate-free sequence of
/// exactly the indices it holds at.
pub proof fn lemma_count_is_len(n: nat, p: spec_fn(int) -> bool, s: Seq<int>)
    requires
        s.no_duplicates(),
        forall|i: int| 0 <= i < n && p(i) ==> s.contains(i),
        forall|j: int| 0 <= j < s.len() ==> 0 <= #[trigger] s[j] < n && p(s[j]),
    ensures
        count(n, p) == s.len(),
    decreases n,
{
    if n == 0 {
        if s.len() > 0 {
            assert(0 <= s[0] < n);
        }
    } else if p(n - 1) {
        assert(s.contains(n - 1));
        let at = s.index_of(n - 1);
        let rest = s.remove(at);
        assert forall|i: int| 0 <= i < n - 1 && p(i) implies rest.contains(i) by {
            assert(s.contains(i));
            let j = s.index_of(i);
            if j < at {
                assert(rest[j] == i);
            } else {
                assert(rest[j - 1] == i);
            }
        }
        assert forall|j: int| 0 <= j < rest.len() implies 0 <= #[trigger] rest[j] < n - 1 && p(
            rest[j],
        ) by {
            if j < at {
                assert(rest[j] == s[j]);
            } else {
                assert(rest[j] == s[j + 1]);
            }
        }
        lemma_count_is_len((n - 1) as nat, p, rest);
    } else {
        assert forall|j: int| 0 <= j < s.len() implies 0 <= #[trigger] s[j] < n - 1 && p(s[j]) by {
            assert(0 <= s[j] < n && p(s[j]));
        }
        lemma_count_is_len((n - 1) as nat, p, s);
    }
}

/// The positions of `ids` at whose value `p` holds.
pub open spec fn holds_at(ids: Seq<int>, p: spec_fn(int) -> bool) -> spec_fn(int) -> bool {
    |j: int| p(ids[j])
}

/// The values of `ids` that `p` holds at.
pub open spec fn holds_in(ids: Seq<int>, p: spec_fn(int) -> bool) -> spec_fn(int) -> bool {
    |i: int| p(i) && ids.contains(i)
}

/// A predicate counts alike over a duplicate-free sequence and over its
/// values.
pub proof fn lemma_count_values(ids: Seq<int>, n: nat, p: spec_fn(int) -> bool)
    requires
        ids.no_duplicates(),
        forall|j: int| 0 <= j < ids.len() ==> 0 <= #[trigger] ids[j] < n,
    ensures
        count(ids.len(), holds_at(ids, p)) == count(n, holds_in(ids, p)),
    decreases ids.len(),
{
    if ids.len() == 0 {
        lemma_count_none(n, holds_in(ids, p));
    } else {
        let front = ids.drop_last();
        let last = ids.last();
        lemma_count_values(front, n, p);
        lemma_count_ext(front.len(), holds_at(ids, p), holds_at(front, p));
        assert forall|i: int| ids.contains(i) == (front.contains(i) || i == last) by {
            if ids.contains(i) && i != last {
                let j = ids.index_of(i);
                assert(front[j] == i);
            }
            if front.contains(i) {
                let j = front.index_of(i);
                assert(ids[j] == i);
            }
            assert(ids[ids.len() - 1] == last);
        }
        if p(last) {
            lemma_count_add(n, holds_in(front, p), holds_in(ids, p), last);
        } else {
            lemma_count_ext(n, holds_in(front, p), holds_in(ids, p));
        }
    }
}

/// A duplicate-free sequence of `n` indices below `n` holds them all.
pub proof fn lemma_all_values(ids: Seq<int>, n: nat)
    requires
        ids.len() == n,
        ids.no_duplicates(),
        forall|j: int| 0 <= j < ids.len() ==> 0 <= #[trigger] ids[j] < n,
    ensures
        forall|i: int| 0 <= i < n ==> #[trigger] ids.contains(i),
{
    let every = |i: int| true;
    lemma_count_values(ids, n, every);
    lemma_count_all(ids.len(), holds_at(ids, every));
    lemma_count_all(n, every);
    assert forall|i: int| 0 <= i < n implies #[trigger] ids.contains(i) by {
        if !ids.contains(i) {
            lemma_count_lt(n, holds_in(ids, every), every, i);
        }
    }
}

/// A key orders before another by its first part, then by its second.
pub open spec fn key_lt(a: (int, int), b: (int, int)) -> bool {
    a.0 < b.0 || (a.0 == b.0 && a.1 < b.1)
}

/// Index `a` orders before index `b`: by key, and by index where the keys tie.
pub open spec fn index_lt(keys: Seq<(int, int)>, a: int, b: int) -> bool {
    key_lt(keys[a], keys[b]) || (keys[a] == keys[b] && a < b)
}

/// The indices below `n`, in order.
pub open spec fn indices(n: nat) -> Seq<int> {
    Seq::new(n, |i: int| i)
}

/// The indices of `keys`, in the stable order of the keys.
pub open spec fn sorted_indices(keys: Seq<(int, int)>) -> Seq<int> {
    indices(keys.len()).sort_by(|a: int, b: int| a == b || index_lt(keys, a, b))
}

/// The machine-integer keys as mathematical ones.
pub open spec fn int_keys(keys: Seq<(usize, usize)>) -> Seq<(int, int)> {
    keys.map_values(|k: (usize, usize)| (k.0 as int, k.1 as int))
}

/// The machine-integer indices as mathematical ones.
pub open spec fn ints(indices: Seq<usize>) -> Seq<int> {
    indices.map_values(|i: usize| i as int)
}

proof fn lemma_index_order_is_total(keys: Seq<(int, int)>)
    ensures
        total_ordering(|a: int, b: int| a == b || index_lt(keys, a, b)),
{
}

/// `sorted_indices` lists every index once, in strictly ascending order.
pub proof fn lemma_sorted_indices(keys: Seq<(int, int)>)
    ensures
        sorted_indices(keys).len() == keys.len(),
        sorted_indices(keys).no_duplicates(),
        forall|j: int|
            0 <= j < keys.len() ==> 0 <= #[trigger] sorted_indices(keys)[j] < keys.len(),
        forall|i: int| 0 <= i < keys.len() ==> #[trigger] sorted_indices(keys).contains(i),
        forall|a: int, b: int|
            0 <= a < b < keys.len() ==> index_lt(
                keys,
                #[trigger] sorted_indices(keys)[a],
                #[trigger] sorted_indices(keys)[b],
            ),
{
    broadcast use vstd::seq_lib::group_to_multiset_ensures;

    let all = indices(keys.len());
    let le = |a: int, b: int| a == b || index_lt(keys, a, b);
    let sorted = sorted_indices(keys);
    lemma_index_order_is_total(keys);
    all.lemma_sort_by_ensures(le);
    assert(sorted.len() == all.to_multiset().len());
    all.lemma_multiset_has_no_duplicates();
    sorted.lemma_multiset_has_no_duplicates_conv();
    assert forall|j: int| 0 <= j < keys.len() implies 0 <= #[trigger] sorted[j] < keys.len() by {
        assert(sorted.contains(sorted[j]));
        assert(all.contains(sorted[j]));
    }
    assert forall|i: int| 0 <= i < keys.len() implies #[trigger] sorted.contains(i) by {
        assert(all[i] == i);
        assert(all.to_multiset().count(i) > 0);
        assert(sorted.to_multiset().count(i) > 0);
    }
    assert forall|a: int, b: int| 0 <= a < b < keys.len() implies index_lt(
        keys,
        #[trigger] sorted[a],
        #[trigger] sorted[b],
    ) by {
        assert(le(sorted[a], sorted[b]));
    }
}

/// The indices below `n`, in the stable order of their keys.
pub fn sort_indices(keys: &Vec<(usize, usize)>) -> (order: Vec<usize>)
    ensures
        ints(order@) == sorted_indices(int_keys(keys@)),
{
    broadcast use vstd::seq_lib::group_to_multiset_ensures;

    let ghost int_keys = int_keys(keys@);
    let ghost le = |a: int, b: int| a == b || index_lt(int_keys, a, b);
    let mut order: Vec<usize> = Vec::new();
    let n: usize = keys.len();
    let mut i: usize = 0;
    proof {
        lemma_index_order_is_total(int_keys);
        assert(ints(order@) =~= indices(0));
    }
    while i < n
        invariant
            n == keys.len(),
            i <= n,
            order.len() == i,
            int_keys == self::int_keys(keys@),
            le == (|a: int, b: int| a == b || index_lt(int_keys, a, b)),
            forall|j: int| 0 <= j < i ==> #[trigger] order@[j] < i,
            sorted_by(ints(order@), le),
            ints(order@).to_multiset() == indices(i as nat).to_multiset(),
        decreases n - i,
    {
        let (first, second) = keys[i];
        let mut at: usize = i;
        while at > 0 && (keys[order[at - 1]].0 > first || (keys[order[at - 1]].0 == first
            && keys[order[at - 1]].1 > second))
            invariant
                at <= i < n,
                n == keys.len(),
                order.len() == i,
                (first, second) == keys@[i as int],
                forall|j: int| 0 <= j < i ==> #[trigger] order@[j] < i,
                forall|j: int|
                    at <= j < i ==> key_lt(
                        (first as int, second as int),
                        (
                            (#[trigger] keys@[order@[j] as int]).0 as int,
                            keys@[order@[j] as int].1 as int,
                        ),
                    ),
            decreases at,
        {
            at = at - 1;
        }
        let ghost before = order@;
        order.insert(at, i);
        proof {
            assert(ints(order@) =~= ints(before).insert(at as int, i as int));
            assert(indices((i + 1) as nat) =~= indices(i as nat).push(i as int));
            vstd::seq_lib::to_multiset_insert(ints(before), at as int, i as int);
            vstd::seq_lib::to_multiset_build(indices(i as nat), i as int);
            assert forall|a: int, b: int| 0 <= a < b < order.len() implies #[trigger] le(
                ints(order@)[a],
                ints(order@)[b],
            ) by {
                let sorted = ints(before);
                if b < at {
                    assert(le(sorted[a], sorted[b]));
                } else if b == at {
                    let last = before[at - 1] as int;
                    assert(le(last, i as int));
                    assert(a == at - 1 || le(sorted[a], sorted[at - 1]));
                } else if a == at {
                    assert(int_keys[before[b - 1] as int] == (
                        keys@[before[b - 1] as int].0 as int,
                        keys@[before[b - 1] as int].1 as int,
                    ));
                } else if a < at {
                    assert(le(sorted[a], sorted[b - 1]));
                } else {
                    assert(le(sorted[a - 1], sorted[b - 1]));
                }
            }
        }
        i = i + 1;
    }
    proof {
        let all = indices(n as nat);
        all.lemma_sort_by_ensures(le);
        vstd::seq_lib::lemma_sorted_unique(ints(order@), sorted_indices(int_keys), le);
    }
    order
}

} // verus!
