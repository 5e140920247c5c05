//! A stable insertion sort over a total preorder on keys.

use vstd::prelude::*;
use vstd::set_lib::{lemma_int_range, lemma_subset_equality, set_int_range};

verus! {

/// A total preorder: `le_spec` is reflexive, transitive and total.
pub trait KeyOrder: Sized {
    spec fn le_spec(self, other: Self) -> bool;

    proof fn le_reflexive(a: Self)
        ensures
            a.le_spec(a),
    ;

    proof fn le_transitive(a: Self, b: Self, c: Self)
        requires
            a.le_spec(b),
            b.le_spec(c),
        ensures
            a.le_spec(c),
    ;

    proof fn le_total(a: Self, b: Self)
        ensures
            a.le_spec(b) || b.le_spec(a),
    ;

    fn le(&self, other: &Self) -> (r: bool)
        ensures
            r == self.le_spec(*other),
    ;
}

impl KeyOrder for i64 {
    open spec fn le_spec(self, other: Self) -> bool {
        self <= other
    }

    proof fn le_reflexive(a: Self) {
    }

    proof fn le_transitive(a: Self, b: Self, c: Self) {
    }

    proof fn le_total(a: Self, b: Self) {
    }

    fn le(&self, other: &Self) -> (r: bool) {
        *self <= *other
    }
}

/// `a` may stand before `b` in ascending order, or in descending order
/// when `descending` holds.
pub open spec fn precedes<K: KeyOrder>(descending: bool, a: K, b: K) -> bool {
    if descending {
        b.le_spec(a)
    } else {
        a.le_spec(b)
    }
}

/// In either direction, of two keys one may stand before the other.
pub proof fn lemma_precedes_total<K: KeyOrder>(descending: bool, a: K, b: K)
    ensures
        precedes(descending, a, b) || precedes(descending, b, a),
{
    K::le_total(a, b);
}

/// In either direction, standing before is transitive.
pub proof fn lemma_precedes_transitive<K: KeyOrder>(descending: bool, a: K, b: K, c: K)
    requires
        precedes(descending, a, b),
        precedes(descending, b, c),
    ensures
        precedes(descending, a, c),
{
    if descending {
        K::le_transitive(c, b, a);
    } else {
        K::le_transitive(a, b, c);
    }
}

fn precedes_exec<K: KeyOrder>(descending: bool, a: &K, b: &K) -> (r: bool)
    ensures
        r == precedes(descending, *a, *b),
{
    if descending {
        b.le(a)
    } else {
        a.le(b)
    }
}

/// Inserting the next item before the first item that must follow it keeps
/// the partial output ordered and stable.
proof fn lemma_insertion_keeps_stable_order<T, K: KeyOrder>(
    in_items: Seq<T>,
    in_keys: Seq<K>,
    old_out: Seq<T>,
    old_keys: Seq<K>,
    old_p: Seq<int>,
    out: Seq<T>,
    out_keys: Seq<K>,
    p: Seq<int>,
    x: T,
    k: K,
    m: int,
    i: int,
    descending: bool,
)
    requires
        0 <= i < in_items.len(),
        in_items.len() == in_keys.len(),
        in_items[i] == x,
        in_keys[i] == k,
        old_out.len() == i,
        old_keys.len() == i,
        old_p.len() == i,
        0 <= m <= i,
        out == old_out.insert(m, x),
        out_keys == old_keys.insert(m, k),
        p == old_p.insert(m, i),
        forall|a: int| 0 <= a < i ==> 0 <= #[trigger] old_p[a] < i,
        forall|a: int, b: int| 0 <= a < b < i ==> old_p[a] != old_p[b],
        forall|a: int|
            0 <= a < i ==> #[trigger] old_out[a] == in_items[old_p[a]] && old_keys[a]
                == in_keys[old_p[a]],
        forall|a: int, b: int|
            0 <= a < b < i ==> precedes(descending, #[trigger] old_keys[a], #[trigger] old_keys[b]),
        forall|a: int, b: int|
            #![trigger old_keys[a], old_keys[b]]
            0 <= a < b < i && precedes(descending, old_keys[b], old_keys[a]) ==> old_p[a]
                < old_p[b],
        forall|a: int| 0 <= a < m ==> precedes(descending, #[trigger] old_keys[a], k),
        m < i ==> !precedes(descending, old_keys[m], k),
    ensures
        forall|a: int| 0 <= a < i + 1 ==> 0 <= #[trigger] p[a] < i + 1,
        forall|a: int, b: int| 0 <= a < b < i + 1 ==> p[a] != p[b],
        forall|a: int|
            0 <= a < i + 1 ==> #[trigger] out[a] == in_items[p[a]] && out_keys[a] == in_keys[p[a]],
        forall|a: int, b: int|
            0 <= a < b < i + 1 ==> precedes(descending, #[trigger] out_keys[a], #[trigger] out_keys[b]),
        forall|a: int, b: int|
            #![trigger out_keys[a], out_keys[b]]
            0 <= a < b < i + 1 && precedes(descending, out_keys[b], out_keys[a]) ==> p[a] < p[b],
{
    assert forall|a: int| 0 <= a < i + 1 implies 0 <= #[trigger] p[a] < i + 1 by {
        if a < m {
            assert(p[a] == old_p[a]);
        } else if a > m {
            assert(p[a] == old_p[a - 1]);
        }
    }
    assert forall|a: int, b: int| 0 <= a < b < i + 1 implies p[a] != p[b] by {
        if a < m {
            assert(p[a] == old_p[a]);
            assert(0 <= old_p[a] < i);
        } else if a > m {
            assert(p[a] == old_p[a - 1]);
        }
        if b < m {
            assert(p[b] == old_p[b]);
        } else if b > m {
            assert(p[b] == old_p[b - 1]);
            assert(0 <= old_p[b - 1] < i);
        }
    }
    assert forall|a: int|
        0 <= a < i + 1 implies #[trigger] out[a] == in_items[p[a]] && out_keys[a]
        == in_keys[p[a]] by {
        if a < m {
            assert(out[a] == old_out[a]);
            assert(out_keys[a] == old_keys[a]);
        } else if a > m {
            assert(out[a] == old_out[a - 1]);
            assert(out_keys[a] == old_keys[a - 1]);
        }
    }
    // what stands after the insertion point comes strictly after `k`
    if m < old_keys.len() {
        lemma_precedes_total(descending, old_keys[m], k);
    }
    assert forall|c: int|
        m <= c < old_keys.len() implies precedes(descending, k, #[trigger] old_keys[c])
        && !precedes(descending, old_keys[c], k) by {
        if c > m {
            assert(precedes(descending, old_keys[m], old_keys[c]));
            lemma_precedes_transitive(descending, k, old_keys[m], old_keys[c]);
            if precedes(descending, old_keys[c], k) {
                lemma_precedes_transitive(descending, old_keys[m], old_keys[c], k);
            }
        }
    }
    assert forall|a: int, b: int|
        0 <= a < b < i + 1 implies precedes(
        descending,
        #[trigger] out_keys[a],
        #[trigger] out_keys[b],
    ) by {
        if a < m {
            assert(out_keys[a] == old_keys[a]);
            if b < m {
                assert(out_keys[b] == old_keys[b]);
            } else if b == m {
            } else {
                assert(out_keys[b] == old_keys[b - 1]);
            }
        } else if a == m {
            assert(out_keys[b] == old_keys[b - 1]);
        } else {
            assert(out_keys[a] == old_keys[a - 1]);
            assert(out_keys[b] == old_keys[b - 1]);
        }
    }
    assert forall|a: int, b: int|
        #![trigger out_keys[a], out_keys[b]]
        0 <= a < b < i + 1 && precedes(
            descending,
            out_keys[b],
            out_keys[a],
        ) implies p[a] < p[b] by {
        if a < m {
            assert(out_keys[a] == old_keys[a]);
            assert(p[a] == old_p[a]);
            if b < m {
                assert(out_keys[b] == old_keys[b]);
                assert(p[b] == old_p[b]);
            } else if b == m {
                assert(p[b] == i);
            } else {
                assert(out_keys[b] == old_keys[b - 1]);
                assert(p[b] == old_p[b - 1]);
            }
        } else if a == m {
            assert(out_keys[b] == old_keys[b - 1]);
            assert(!precedes(descending, old_keys[b - 1], k));
        } else {
            assert(out_keys[a] == old_keys[a - 1]);
            assert(out_keys[b] == old_keys[b - 1]);
            assert(p[a] == old_p[a - 1]);
            assert(p[b] == old_p[b - 1]);
        }
    }
}

/// `p` lists each index below `n` exactly once.
pub open spec fn is_index_permutation(p: Seq<int>, n: int) -> bool {
    &&& p.len() == n
    &&& forall|i: int| 0 <= i < n ==> 0 <= #[trigger] p[i] < n
    &&& forall|i: int, j: int| 0 <= i < j < n ==> p[i] != p[j]
}

/// Taking the keys in the order `p` gives them in order, and keys that are
/// equivalent keep the order they had.
pub open spec fn is_stable_order<K: KeyOrder>(keys: Seq<K>, p: Seq<int>, descending: bool) -> bool {
    &&& is_index_permutation(p, keys.len() as int)
    &&& forall|i: int, j: int|
        #![trigger p[i], p[j]]
        0 <= i < j < p.len() ==> precedes(descending, keys[p[i]], keys[p[j]])
    &&& forall|i: int, j: int|
        #![trigger p[i], p[j]]
        0 <= i < j < p.len() && precedes(descending, keys[p[j]], keys[p[i]]) ==> p[i] < p[j]
}

/// `output` is `input` sorted stably by `keys` (the key of `input[i]` is
/// `keys[i]`).
pub open spec fn is_stable_sort<T, K: KeyOrder>(
    input: Seq<T>,
    keys: Seq<K>,
    output: Seq<T>,
    descending: bool,
) -> bool {
    exists|p: Seq<int>|
        #![trigger is_stable_order(keys, p, descending)]
        is_stable_order(keys, p, descending) && keys.len() == input.len() && output.len()
            == input.len() && forall|i: int|
            0 <= i < output.len() ==> #[trigger] output[i] == input[p[i]]
}

/// Sorts `items` stably by `keys`, ascending or, when `descending` holds,
/// descending; items whose keys are equivalent keep their relative order.
#[verifier::spinoff_prover]
pub fn stable_sort<T, K: KeyOrder>(items: Vec<T>, keys: Vec<K>, descending: bool) -> (out: Vec<T>)
    requires
        items.len() == keys.len(),
    ensures
        is_stable_sort(items@, keys@, out@, descending),
{
    let ghost in_items = items@;
    let ghost in_keys = keys@;
    let n = items.len();
    let mut items = items;
    let mut keys = keys;
    let mut out: Vec<T> = Vec::new();
    let mut out_keys: Vec<K> = Vec::new();
    let ghost mut p: Seq<int> = Seq::empty();
    let mut i: usize = 0;
    while i < n
        invariant
            i <= n,
            n == in_items.len(),
            n == in_keys.len(),
            items@ == in_items.subrange(i as int, n as int),
            keys@ == in_keys.subrange(i as int, n as int),
            out@.len() == i,
            out_keys@.len() == i,
            p.len() == i,
            forall|a: int| 0 <= a < i ==> 0 <= #[trigger] p[a] < i,
            forall|a: int, b: int| 0 <= a < b < i ==> p[a] != p[b],
            forall|a: int|
                0 <= a < i ==> #[trigger] out@[a] == in_items[p[a]] && out_keys@[a] == in_keys[p[a]],
            forall|a: int, b: int|
                0 <= a < b < i ==> precedes(descending, #[trigger] out_keys@[a], #[trigger] out_keys@[b]),
            forall|a: int, b: int|
                #![trigger out_keys@[a], out_keys@[b]]
                0 <= a < b < i && precedes(descending, out_keys@[b], out_keys@[a]) ==> p[a] < p[b],
        decreases n - i,
    {
        assert(items@[0] == in_items[i as int]);
        assert(keys@[0] == in_keys[i as int]);
        let x = items.remove(0);
        let k = keys.remove(0);
        assert(items@ =~= in_items.subrange(i + 1, n as int));
        assert(keys@ =~= in_keys.subrange(i + 1, n as int));
        let mut pos: usize = 0;
        while pos < out_keys.len()
            invariant
                pos <= out_keys@.len(),
                forall|a: int| 0 <= a < pos ==> precedes(descending, #[trigger] out_keys@[a], k),
            ensures
                pos <= out_keys@.len(),
                forall|a: int| 0 <= a < pos ==> precedes(descending, #[trigger] out_keys@[a], k),
                pos < out_keys@.len() ==> !precedes(descending, out_keys@[pos as int], k),
            decreases out_keys@.len() - pos,
        {
            if !precedes_exec(descending, &out_keys[pos], &k) {
                break;
            }
            pos = pos + 1;
        }
        let ghost old_keys = out_keys@;
        let ghost old_out = out@;
        let ghost old_p = p;
        out.insert(pos, x);
        out_keys.insert(pos, k);
        proof {
            p = old_p.insert(pos as int, i as int);
            lemma_insertion_keeps_stable_order(
                in_items,
                in_keys,
                old_out,
                old_keys,
                old_p,
                out@,
                out_keys@,
                p,
                x,
                k,
                pos as int,
                i as int,
                descending,
            );
        }
        i = i + 1;
        assert(forall|a: int|
            0 <= a < i ==> #[trigger] out@[a] == in_items[p[a]] && out_keys@[a] == in_keys[p[a]]);
    }
    proof {
        assert(is_stable_order(in_keys, p, descending)) by {
            assert forall|a: int, b: int|
                #![trigger p[a], p[b]]
                0 <= a < b < p.len() implies precedes(descending, in_keys[p[a]], in_keys[p[b]]) by {
                assert(out@[a] == in_items[p[a]]);
                assert(out@[b] == in_items[p[b]]);
            }
            assert forall|a: int, b: int|
                #![trigger p[a], p[b]]
                0 <= a < b < p.len() && precedes(
                    descending,
                    in_keys[p[b]],
                    in_keys[p[a]],
                ) implies p[a] < p[b] by {
                assert(out@[a] == in_items[p[a]]);
                assert(out@[b] == in_items[p[b]]);
            }
        }
        assert(forall|a: int| 0 <= a < out@.len() ==> #[trigger] out@[a] == in_items[p[a]]);
    }
    out
}

/// An index permutation reaches every index below its length.
pub proof fn lemma_permutation_covers(p: Seq<int>, n: int, x: int)
    requires
        is_index_permutation(p, n),
        0 <= x < n,
    ensures
        exists|i: int| 0 <= i < n && p[i] == x,
{
    broadcast use vstd::seq_lib::seq_to_set_is_finite;

    assert(p.no_duplicates()) by {
        assert forall|i: int, j: int| 0 <= i < p.len() && 0 <= j < p.len() && i != j implies p[i]
            != p[j] by {
            if i < j {
            } else {
            }
        }
    }
    p.unique_seq_to_set();
    lemma_int_range(0, n);
    assert(p.to_set().subset_of(set_int_range(0, n))) by {
        assert forall|v: int| p.to_set().contains(v) implies set_int_range(0, n).contains(v) by {
            let i = choose|i: int| 0 <= i < p.len() && p[i] == v;
            assert(0 <= p[i] < n);
        }
    }
    lemma_subset_equality(p.to_set(), set_int_range(0, n));
    assert(set_int_range(0, n).contains(x));
    assert(p.to_set().contains(x));
    assert(p.contains(x));
}

proof fn lemma_stable_orders_agree_below<K: KeyOrder>(
    keys: Seq<K>,
    p1: Seq<int>,
    p2: Seq<int>,
    descending: bool,
    m: int,
)
    requires
        is_stable_order(keys, p1, descending),
        is_stable_order(keys, p2, descending),
        0 <= m <= keys.len(),
    ensures
        forall|i: int| 0 <= i < m ==> p1[i] == p2[i],
    decreases m,
{
    if m > 0 {
        lemma_stable_orders_agree_below(keys, p1, p2, descending, m - 1);
        let i = m - 1;
        let n = keys.len() as int;
        if p1[i] != p2[i] {
            let a = p1[i];
            let b = p2[i];
            lemma_permutation_covers(p2, n, a);
            lemma_permutation_covers(p1, n, b);
            let j = choose|j: int| 0 <= j < n && p2[j] == a;
            let k = choose|k: int| 0 <= k < n && p1[k] == b;
            if j < i {
                assert(p1[j] == p2[j]);
                assert(p1[j] == p1[i]);
            }
            if k < i {
                assert(p1[k] == p2[k]);
                assert(p2[k] == p2[i]);
            }
            assert(j > i && k > i);
            // b stands before a in p2, and a before b in p1: their keys are
            // equivalent, so each order puts the smaller index first
            assert(precedes(descending, keys[p2[i]], keys[p2[j]]));
            assert(precedes(descending, keys[p1[i]], keys[p1[k]]));
            assert(p2[i] < p2[j]);
            assert(p1[i] < p1[k]);
        }
    }
}

/// A stable sort has exactly one result: the output is determined by the
/// input and its keys.
pub proof fn lemma_stable_sort_unique<T, K: KeyOrder>(
    input: Seq<T>,
    keys: Seq<K>,
    first: Seq<T>,
    second: Seq<T>,
    descending: bool,
)
    requires
        is_stable_sort(input, keys, first, descending),
        is_stable_sort(input, keys, second, descending),
    ensures
        first == second,
{
    let p1 = choose|p: Seq<int>|
        #![trigger is_stable_order(keys, p, descending)]
        is_stable_order(keys, p, descending) && keys.len() == input.len() && first.len()
            == input.len() && forall|i: int|
            0 <= i < first.len() ==> #[trigger] first[i] == input[p[i]];
    let p2 = choose|p: Seq<int>|
        #![trigger is_stable_order(keys, p, descending)]
        is_stable_order(keys, p, descending) && keys.len() == input.len() && second.len()
            == input.len() && forall|i: int|
            0 <= i < second.len() ==> #[trigger] second[i] == input[p[i]];
    lemma_stable_orders_agree_below(keys, p1, p2, descending, keys.len() as int);
    assert forall|i: int| 0 <= i < first.len() implies first[i] == second[i] by {
        assert(p1[i] == p2[i]);
        assert(first[i] == input[p1[i]]);
        assert(second[i] == input[p2[i]]);
    }
    assert(first =~= second);
}

/// In a stable sort whose keys are given by `key_of`, the output is in
/// order of `key_of`, and it holds exactly the items of the input.
pub proof fn lemma_stable_sort_output<T, K: KeyOrder>(
    input: Seq<T>,
    keys: Seq<K>,
    output: Seq<T>,
    descending: bool,
    key_of: spec_fn(T) -> K,
)
    requires
        is_stable_sort(input, keys, output, descending),
        keys == input.map_values(key_of),
    ensures
        output.len() == input.len(),
        forall|i: int, j: int|
            0 <= i < j < output.len() ==> precedes(
                descending,
                key_of(#[trigger] output[i]),
                key_of(#[trigger] output[j]),
            ),
        forall|i: int| 0 <= i < output.len() ==> input.contains(#[trigger] output[i]),
        forall|i: int| 0 <= i < input.len() ==> output.contains(#[trigger] input[i]),
{
    let p = choose|p: Seq<int>|
        #![trigger is_stable_order(keys, p, descending)]
        is_stable_order(keys, p, descending) && keys.len() == input.len() && output.len()
            == input.len() && forall|i: int|
            0 <= i < output.len() ==> #[trigger] output[i] == input[p[i]];
    assert forall|i: int, j: int| 0 <= i < j < output.len() implies precedes(
        descending,
        key_of(#[trigger] output[i]),
        key_of(#[trigger] output[j]),
    ) by {
        assert(output[i] == input[p[i]]);
        assert(output[j] == input[p[j]]);
        assert(precedes(descending, keys[p[i]], keys[p[j]]));
    }
    assert forall|i: int| 0 <= i < output.len() implies input.contains(#[trigger] output[i]) by {
        assert(output[i] == input[p[i]]);
    }
    assert forall|i: int| 0 <= i < input.len() implies output.contains(#[trigger] input[i]) by {
        lemma_permutation_covers(p, input.len() as int, i);
        let j = choose|j: int| 0 <= j < input.len() && p[j] == i;
        assert(output[j] == input[i]);
    }
}

/// Keys no two of which are equivalent.
pub open spec fn keys_distinct<K: KeyOrder>(keys: Seq<K>) -> bool {
    forall|i: int, j: int|
        0 <= i < j < keys.len() ==> !(#[trigger] keys[i].le_spec(keys[j]) && #[trigger] keys[j].le_spec(
            keys[i],
        ))
}

/// When no two keys are equivalent, sorting descending gives the ascending
/// order reversed.
pub proof fn lemma_descending_reverses_ascending<T, K: KeyOrder>(
    input: Seq<T>,
    keys: Seq<K>,
    ascending: Seq<T>,
    descending: Seq<T>,
)
    requires
        is_stable_sort(input, keys, ascending, false),
        is_stable_sort(input, keys, descending, true),
        keys_distinct(keys),
    ensures
        descending == ascending.reverse(),
{
    let p = choose|p: Seq<int>|
        #![trigger is_stable_order(keys, p, false)]
        is_stable_order(keys, p, false) && keys.len() == input.len() && ascending.len()
            == input.len() && forall|i: int|
            0 <= i < ascending.len() ==> #[trigger] ascending[i] == input[p[i]];
    let n = keys.len() as int;
    let q = Seq::new(n as nat, |i: int| p[n - 1 - i]);
    assert forall|i: int| 0 <= i < n implies 0 <= #[trigger] q[i] < n by {
        assert(q[i] == p[n - 1 - i]);
    }
    assert forall|i: int, j: int| 0 <= i < j < n implies q[i] != q[j] by {
        assert(q[i] == p[n - 1 - i]);
        assert(q[j] == p[n - 1 - j]);
    }
    assert forall|i: int, j: int|
        #![trigger q[i], q[j]]
        0 <= i < j < q.len() implies precedes(true, keys[q[i]], keys[q[j]]) by {
        assert(q[i] == p[n - 1 - i]);
        assert(q[j] == p[n - 1 - j]);
        assert(precedes(false, keys[p[n - 1 - j]], keys[p[n - 1 - i]]));
    }
    assert forall|i: int, j: int|
        #![trigger q[i], q[j]]
        0 <= i < j < q.len() && precedes(true, keys[q[j]], keys[q[i]]) implies q[i] < q[j] by {
        assert(q[i] == p[n - 1 - i]);
        assert(q[j] == p[n - 1 - j]);
        assert(precedes(false, keys[p[n - 1 - j]], keys[p[n - 1 - i]]));
        let (a, b) = (p[n - 1 - j], p[n - 1 - i]);
        assert(a != b);
        if a < b {
            assert(!(keys[a].le_spec(keys[b]) && keys[b].le_spec(keys[a])));
        } else {
            assert(!(keys[b].le_spec(keys[a]) && keys[a].le_spec(keys[b])));
        }
    }
    assert(is_stable_order(keys, q, true));
    let reversed = ascending.reverse();
    assert forall|i: int| 0 <= i < reversed.len() implies #[trigger] reversed[i] == input[q[i]] by {
        assert(reversed[i] == ascending[n - 1 - i]);
        assert(ascending[n - 1 - i] == input[p[n - 1 - i]]);
    }
    assert(is_stable_sort(input, keys, reversed, true));
    lemma_stable_sort_unique(input, keys, descending, reversed, true);
}

/// The indices below `n`, in order.
pub open spec fn index_seq(n: nat) -> Seq<usize> {
    Seq::new(n, |i: int| i as usize)
}

/// Sorting the indices of `input` by the keys and taking the items at the
/// sorted indices sorts `input` itself.
pub proof fn lemma_index_order_selects<T, K: KeyOrder>(
    input: Seq<T>,
    keys: Seq<K>,
    order: Seq<usize>,
    descending: bool,
)
    requires
        input.len() <= usize::MAX,
        is_stable_sort(index_seq(input.len()), keys, order, descending),
    ensures
        is_stable_sort(input, keys, order.map_values(|i: usize| input[i as int]), descending),
{
    let indices = index_seq(input.len());
    let p = choose|p: Seq<int>|
        #![trigger is_stable_order(keys, p, descending)]
        is_stable_order(keys, p, descending) && keys.len() == indices.len() && order.len()
            == indices.len() && forall|i: int|
            0 <= i < order.len() ==> #[trigger] order[i] == indices[p[i]];
    let shown = order.map_values(|i: usize| input[i as int]);
    assert forall|i: int| 0 <= i < shown.len() implies #[trigger] shown[i] == input[p[i]] by {
        assert(order[i] == indices[p[i]]);
        assert(0 <= p[i] < input.len());
        assert(indices[p[i]] as int == p[i]);
    }
    assert(is_stable_order(keys, p, descending) && keys.len() == input.len() && shown.len()
        == input.len() && forall|i: int| 0 <= i < shown.len() ==> #[trigger] shown[i] == input[p[i]]);
}

/// The indices `0..n`, in order.
pub fn indices_up_to(n: usize) -> (r: Vec<usize>)
    ensures
        r@ == index_seq(n as nat),
{
    let mut r: Vec<usize> = Vec::new();
    let mut i: usize = 0;
    while i < n
        invariant
            i <= n,
            r@ == index_seq(i as nat),
        decreases n - i,
    {
        r.push(i);
        assert(r@ =~= index_seq((i + 1) as nat));
        i = i + 1;
    }
    r
}

} // verus!
