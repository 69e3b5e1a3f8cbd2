//! What a k-way merge yields when it is run to the end, and what that is for
//! sorted inputs.

use crate::kway::{
    drained, group, group_upto, has_live, is_least_head, key_le, key_lt, least_key,
    lemma_least_key, lemma_run_len_bounds, run_len, MergeKey,
};
use vstd::prelude::*;

verus! {

/// The first input of `s` whose head carries the key `m`, if there is one
/// among the first `n`.
pub open spec fn first_with_head<T: MergeKey>(s: Seq<Seq<T>>, m: (u64, u64), n: nat) -> Option<int>
    decreases n,
{
    if n == 0 {
        None
    } else {
        match first_with_head(s, m, (n - 1) as nat) {
            Some(i) => Some(i),
            None => if s[n - 1].len() > 0 && s[n - 1][0].spec_key() == m {
                Some(n - 1)
            } else {
                None
            },
        }
    }
}

/// What `first_with_head` finds: the first input with the key at its head,
/// whose head is the first item of the group.
pub proof fn lemma_first_with_head<T: MergeKey>(s: Seq<Seq<T>>, m: (u64, u64), n: nat)
    requires
        n <= s.len(),
    ensures
        match first_with_head(s, m, n) {
            Some(i) => {
                &&& 0 <= i < n
                &&& s[i].len() > 0
                &&& s[i][0].spec_key() == m
                &&& forall|j: int|
                    0 <= j < i ==> !((#[trigger] s[j]).len() > 0 && s[j][0].spec_key() == m)
                &&& group_upto(s, m, n).len() > 0
                &&& group_upto(s, m, n)[0] == s[i][0]
            },
            None => {
                &&& forall|j: int|
                    0 <= j < n ==> !((#[trigger] s[j]).len() > 0 && s[j][0].spec_key() == m)
                &&& group_upto(s, m, n).len() == 0
            },
        },
    decreases n,
{
    if n > 0 {
        lemma_first_with_head(s, m, (n - 1) as nat);
        lemma_run_len_bounds(s[n - 1], m);
    }
}

/// The item that a merge of `s` yields first: the head of the first input
/// whose head carries the least key.
pub open spec fn next_item<T: MergeKey>(s: Seq<Seq<T>>) -> T {
    s[first_with_head(s, least_key(s), s.len())->0][0]
}

/// The number of items in the first `n` inputs.
pub open spec fn rest_len<T>(s: Seq<Seq<T>>, n: nat) -> nat
    decreases n,
{
    if n == 0 {
        0
    } else {
        rest_len(s, (n - 1) as nat) + s[n - 1].len()
    }
}

/// The number of items in all inputs.
pub open spec fn total_len<T>(s: Seq<Seq<T>>) -> nat {
    rest_len(s, s.len())
}

/// What the merge yields in at most `fuel` steps.
pub open spec fn fuse_steps<T: MergeKey>(s: Seq<Seq<T>>, fuel: nat) -> Seq<T>
    decreases fuel,
{
    if fuel == 0 || !has_live(s) {
        Seq::empty()
    } else {
        seq![next_item(s)] + fuse_steps(drained(s, least_key(s)), (fuel - 1) as nat)
    }
}

/// What the merge yields when it is run until every input is exhausted: step
/// by step, the first head with the least key, after which every input loses
/// its leading run of items with that key.
pub open spec fn fuse<T: MergeKey>(s: Seq<Seq<T>>) -> Seq<T> {
    fuse_steps(s, total_len(s))
}

/// What a step leaves and what it takes make up what was there.
pub proof fn lemma_rest_len_drained<T: MergeKey>(s: Seq<Seq<T>>, m: (u64, u64), n: nat)
    requires
        n <= s.len(),
    ensures
        rest_len(drained(s, m), n) + group_upto(s, m, n).len() == rest_len(s, n),
    decreases n,
{
    if n > 0 {
        lemma_rest_len_drained(s, m, (n - 1) as nat);
        lemma_run_len_bounds(s[n - 1], m);
    }
}

/// Inputs of which one has an item have an item.
pub proof fn lemma_live_positive<T>(s: Seq<Seq<T>>, n: nat, i: int)
    requires
        0 <= i < n <= s.len(),
        s[i].len() > 0,
    ensures
        rest_len(s, n) > 0,
    decreases n,
{
    if i < n - 1 {
        lemma_live_positive(s, (n - 1) as nat, i);
    }
}

/// Exhausted inputs have no item.
pub proof fn lemma_dead_zero<T>(s: Seq<Seq<T>>, n: nat)
    requires
        n <= s.len(),
        !has_live(s),
    ensures
        rest_len(s, n) == 0,
    decreases n,
{
    if n > 0 {
        lemma_dead_zero(s, (n - 1) as nat);
        assert(s[n - 1].len() == 0);
    }
}

/// Among the heads of the first `n` inputs, `m` occurs and is the least.
pub open spec fn is_least_head_upto<T: MergeKey>(s: Seq<Seq<T>>, m: (u64, u64), n: nat) -> bool {
    &&& exists|i: int| 0 <= i < n && (#[trigger] s[i]).len() > 0 && s[i][0].spec_key() == m
    &&& forall|j: int| 0 <= j < n && (#[trigger] s[j]).len() > 0 ==> key_le(m, s[j][0].spec_key())
}

/// Among the heads of the first `n` inputs, of which one has an item, some key
/// is the least.
pub proof fn lemma_least_head_exists_upto<T: MergeKey>(s: Seq<Seq<T>>, n: nat, i: int) -> (m: (
    u64,
    u64,
))
    requires
        0 <= i < n <= s.len(),
        s[i].len() > 0,
    ensures
        is_least_head_upto(s, m, n),
    decreases n,
{
    let head = s[n - 1];
    if i == n - 1 {
        if exists|j: int| 0 <= j < n - 1 && (#[trigger] s[j]).len() > 0 {
            let j = choose|j: int| 0 <= j < n - 1 && (#[trigger] s[j]).len() > 0;
            let r = lemma_least_head_exists_upto(s, (n - 1) as nat, j);
            let k = head[0].spec_key();
            if key_lt(k, r) {
                assert(s[i].len() > 0 && s[i][0].spec_key() == k);
                k
            } else {
                let w = choose|w: int|
                    0 <= w < n - 1 && (#[trigger] s[w]).len() > 0 && s[w][0].spec_key() == r;
                assert(s[w].len() > 0 && s[w][0].spec_key() == r);
                r
            }
        } else {
            let k = head[0].spec_key();
            assert(s[i].len() > 0 && s[i][0].spec_key() == k);
            k
        }
    } else {
        let r = lemma_least_head_exists_upto(s, (n - 1) as nat, i);
        let w = choose|w: int|
            0 <= w < n - 1 && (#[trigger] s[w]).len() > 0 && s[w][0].spec_key() == r;
        if head.len() > 0 && key_lt(head[0].spec_key(), r) {
            let k = head[0].spec_key();
            assert(s[n - 1].len() > 0 && s[n - 1][0].spec_key() == k);
            k
        } else {
            assert(s[w].len() > 0 && s[w][0].spec_key() == r);
            r
        }
    }
}

/// Where an input is left, some head carries the least key.
pub proof fn lemma_least_head_exists<T: MergeKey>(s: Seq<Seq<T>>)
    requires
        has_live(s),
    ensures
        is_least_head(s, least_key(s)),
{
    let i = choose|i: int| 0 <= i < s.len() && (#[trigger] s[i]).len() > 0;
    let m = lemma_least_head_exists_upto(s, s.len(), i);
    let w = choose|w: int| 0 <= w < s.len() && (#[trigger] s[w]).len() > 0 && s[w][0].spec_key() == m;
    assert(s[w].len() > 0 && s[w][0].spec_key() == m);
    assert(is_least_head(s, m));
    lemma_least_key(s, m);
}

/// One step of the merge takes at least one item.
pub proof fn lemma_step_shrinks<T: MergeKey>(s: Seq<Seq<T>>)
    requires
        has_live(s),
    ensures
        total_len(drained(s, least_key(s))) < total_len(s),
        total_len(drained(s, least_key(s))) + group(s, least_key(s)).len() == total_len(s),
{
    lemma_least_head_exists(s);
    let m = least_key(s);
    lemma_rest_len_drained(s, m, s.len());
    lemma_first_with_head(s, m, s.len());
}

/// More steps than there are items yield no more.
pub proof fn lemma_fuse_fuel<T: MergeKey>(s: Seq<Seq<T>>, fuel: nat)
    requires
        fuel >= total_len(s),
    ensures
        fuse_steps(s, fuel) == fuse(s),
    decreases fuel,
{
    if !has_live(s) {
        lemma_dead_zero(s, s.len());
    } else {
        let i = choose|i: int| 0 <= i < s.len() && (#[trigger] s[i]).len() > 0;
        lemma_live_positive(s, s.len(), i);
        lemma_step_shrinks(s);
        let d = drained(s, least_key(s));
        lemma_fuse_fuel(d, (fuel - 1) as nat);
        lemma_fuse_fuel(d, (total_len(s) - 1) as nat);
    }
}

/// The merge of exhausted inputs yields nothing; any other merge yields its
/// next item and then what the merge of the drained inputs yields.
pub proof fn lemma_fuse_unfold<T: MergeKey>(s: Seq<Seq<T>>)
    ensures
        !has_live(s) ==> fuse(s) == Seq::<T>::empty(),
        has_live(s) ==> fuse(s) == seq![next_item(s)] + fuse(drained(s, least_key(s))),
{
    if has_live(s) {
        let i = choose|i: int| 0 <= i < s.len() && (#[trigger] s[i]).len() > 0;
        lemma_live_positive(s, s.len(), i);
        lemma_step_shrinks(s);
        lemma_fuse_fuel(drained(s, least_key(s)), (total_len(s) - 1) as nat);
    }
}

/// The keys of `list` never fall.
pub open spec fn sorted<T: MergeKey>(list: Seq<T>) -> bool {
    forall|a: int, b: int|
        #![trigger list[a], list[b]]
        0 <= a < b < list.len() ==> key_le(list[a].spec_key(), list[b].spec_key())
}

/// The keys of `list` rise strictly.
pub open spec fn strictly_sorted<T: MergeKey>(list: Seq<T>) -> bool {
    forall|a: int, b: int|
        #![trigger list[a], list[b]]
        0 <= a < b < list.len() ==> key_lt(list[a].spec_key(), list[b].spec_key())
}

/// Every input is sorted.
pub open spec fn all_sorted<T: MergeKey>(s: Seq<Seq<T>>) -> bool {
    forall|i: int| 0 <= i < s.len() ==> sorted(#[trigger] s[i])
}

/// The first item of `list` with the key `k`.
pub open spec fn first_in<T: MergeKey>(list: Seq<T>, k: (u64, u64)) -> Option<T>
    decreases list.len(),
{
    if list.len() == 0 {
        None
    } else if list[0].spec_key() == k {
        Some(list[0])
    } else {
        first_in(list.drop_first(), k)
    }
}

/// The first item with the key `k` in the first `n` inputs, the inputs taken
/// one after the other.
pub open spec fn first_over<T: MergeKey>(s: Seq<Seq<T>>, k: (u64, u64), n: nat) -> Option<T>
    decreases n,
{
    if n == 0 {
        None
    } else {
        match first_over(s, k, (n - 1) as nat) {
            Some(x) => Some(x),
            None => first_in(s[n - 1], k),
        }
    }
}

/// What `first_in` finds: an item with the key before which no item carries
/// it, or no item if none carries it.
pub proof fn lemma_first_in<T: MergeKey>(list: Seq<T>, k: (u64, u64))
    ensures
        match first_in(list, k) {
            Some(x) => exists|j: int|
                0 <= j < list.len() && #[trigger] list[j] == x && x.spec_key() == k && forall|
                    a: int,
                | 0 <= a < j ==> (#[trigger] list[a]).spec_key() != k,
            None => forall|j: int| 0 <= j < list.len() ==> (#[trigger] list[j]).spec_key() != k,
        },
    decreases list.len(),
{
    if list.len() > 0 {
        if list[0].spec_key() == k {
            assert(list[0] == list[0]);
        } else {
            let t = list.drop_first();
            lemma_first_in(t, k);
            match first_in(t, k) {
                Some(x) => {
                    let j = choose|j: int|
                        0 <= j < t.len() && #[trigger] t[j] == x && x.spec_key() == k && forall|
                            a: int,
                        | 0 <= a < j ==> (#[trigger] t[a]).spec_key() != k;
                    assert(list[j + 1] == x);
                    assert forall|a: int| 0 <= a < j + 1 implies (#[trigger] list[a]).spec_key()
                        != k by {
                        if a > 0 {
                            assert(t[a - 1] == list[a]);
                        }
                    }
                },
                None => {
                    assert forall|j: int| 0 <= j < list.len() implies (#[trigger] list[j]).spec_key()
                        != k by {
                        if j > 0 {
                            assert(t[j - 1] == list[j]);
                        }
                    }
                },
            }
        }
    }
}

/// Skipping items with another key does not change which item with the key
/// `k` comes first.
pub proof fn lemma_first_in_skip<T: MergeKey>(list: Seq<T>, k: (u64, u64), r: int)
    requires
        0 <= r <= list.len(),
        forall|j: int| 0 <= j < r ==> (#[trigger] list[j]).spec_key() != k,
    ensures
        first_in(list.skip(r), k) == first_in(list, k),
    decreases r,
{
    if r > 0 {
        let t = list.drop_first();
        assert forall|j: int| 0 <= j < r - 1 implies (#[trigger] t[j]).spec_key() != k by {
            assert(t[j] == list[j + 1]);
        }
        lemma_first_in_skip(t, k, r - 1);
        assert(t.skip(r - 1) =~= list.skip(r));
    } else {
        assert(list.skip(0) =~= list);
    }
}

/// What `first_over` finds: the first item with the key in the first input
/// that has one.
pub proof fn lemma_first_over<T: MergeKey>(s: Seq<Seq<T>>, k: (u64, u64), n: nat)
    requires
        n <= s.len(),
    ensures
        match first_over(s, k, n) {
            Some(x) => exists|i: int|
                0 <= i < n && first_in(#[trigger] s[i], k) == Some(x) && forall|a: int|
                    0 <= a < i ==> first_in(#[trigger] s[a], k) is None,
            None => forall|i: int| 0 <= i < n ==> first_in(#[trigger] s[i], k) is None,
        },
    decreases n,
{
    if n > 0 {
        lemma_first_over(s, k, (n - 1) as nat);
        match first_over(s, k, (n - 1) as nat) {
            Some(x) => {
                let i = choose|i: int|
                    0 <= i < n - 1 && first_in(#[trigger] s[i], k) == Some(x) && forall|a: int|
                        0 <= a < i ==> first_in(#[trigger] s[a], k) is None;
                assert(first_in(s[i], k) == Some(x));
            },
            None => {
                if first_in(s[n - 1], k) is Some {
                    assert(first_in(s[n - 1], k) == Some(first_in(s[n - 1], k)->0));
                }
            },
        }
    }
}

/// Two families of inputs that agree, input by input, on the first item with
/// the key `k` agree on the first item with that key over all inputs.
pub proof fn lemma_first_over_agree<T: MergeKey>(
    s: Seq<Seq<T>>,
    d: Seq<Seq<T>>,
    k: (u64, u64),
    n: nat,
)
    requires
        n <= s.len(),
        s.len() == d.len(),
        forall|i: int| 0 <= i < n ==> first_in(#[trigger] s[i], k) == first_in(d[i], k),
    ensures
        first_over(s, k, n) == first_over(d, k, n),
    decreases n,
{
    if n > 0 {
        lemma_first_over_agree(s, d, k, (n - 1) as nat);
        assert(first_in(s[n - 1], k) == first_in(d[n - 1], k));
    }
}

/// In sorted inputs the least head key is the least key of all, each input
/// holds the items with that key in its leading run, and what is left after a
/// step is sorted and has larger keys only.
pub proof fn lemma_step_sorted<T: MergeKey>(s: Seq<Seq<T>>, m: (u64, u64))
    requires
        all_sorted(s),
        is_least_head(s, m),
    ensures
        all_sorted(drained(s, m)),
        forall|i: int, j: int|
            #![trigger s[i][j]]
            0 <= i < s.len() && 0 <= j < s[i].len() ==> key_le(m, s[i][j].spec_key()),
        forall|i: int, j: int|
            #![trigger s[i][j]]
            0 <= i < s.len() && 0 <= j < s[i].len() && s[i][j].spec_key() == m ==> j < run_len(
                s[i],
                m,
            ),
        forall|i: int, j: int|
            #![trigger drained(s, m)[i][j]]
            0 <= i < s.len() && 0 <= j < drained(s, m)[i].len() ==> key_lt(
                m,
                drained(s, m)[i][j].spec_key(),
            ),
{
    let d = drained(s, m);
    assert forall|i: int| 0 <= i < s.len() implies sorted(#[trigger] d[i]) by {
        lemma_input_step_sorted(s[i], m);
    }
    assert forall|i: int, j: int|
        #![trigger s[i][j]]
        0 <= i < s.len() && 0 <= j < s[i].len() implies key_le(m, s[i][j].spec_key()) by {
        lemma_input_step_sorted(s[i], m);
    }
    assert forall|i: int, j: int|
        #![trigger s[i][j]]
        0 <= i < s.len() && 0 <= j < s[i].len() && s[i][j].spec_key() == m implies j < run_len(
        s[i],
        m,
    ) by {
        lemma_input_step_sorted(s[i], m);
    }
    assert forall|i: int, j: int|
        #![trigger d[i][j]]
        0 <= i < s.len() && 0 <= j < d[i].len() implies key_lt(m, d[i][j].spec_key()) by {
        lemma_input_step_sorted(s[i], m);
    }
}

/// The part of `lemma_step_sorted` that speaks of one input.
pub proof fn lemma_input_step_sorted<T: MergeKey>(list: Seq<T>, m: (u64, u64))
    requires
        sorted(list),
        list.len() > 0 ==> key_le(m, list[0].spec_key()),
    ensures
        sorted(list.skip(run_len(list, m) as int)),
        forall|j: int| 0 <= j < list.len() ==> key_le(m, (#[trigger] list[j]).spec_key()),
        forall|j: int|
            0 <= j < list.len() && (#[trigger] list[j]).spec_key() == m ==> j < run_len(list, m),
        forall|j: int|
            0 <= j < list.skip(run_len(list, m) as int).len() ==> key_lt(
                m,
                (#[trigger] list.skip(run_len(list, m) as int)[j]).spec_key(),
            ),
{
    let r = run_len(list, m) as int;
    let rest = list.skip(r);
    lemma_run_len_bounds(list, m);
    assert forall|j: int| 0 <= j < list.len() implies key_le(m, (#[trigger] list[j]).spec_key()) by {
        if j > 0 {
            assert(key_le(list[0].spec_key(), list[j].spec_key()));
        }
    }
    assert forall|j: int| 0 <= j < list.len() && (#[trigger] list[j]).spec_key() == m implies j
        < r by {
        if j > r {
            assert(key_le(list[r].spec_key(), list[j].spec_key()));
            assert(key_le(m, list[r].spec_key()));
        }
    }
    assert forall|a: int, b: int| 0 <= a < b < rest.len() implies key_le(
        (#[trigger] rest[a]).spec_key(),
        (#[trigger] rest[b]).spec_key(),
    ) by {
        assert(rest[a] == list[a + r]);
        assert(rest[b] == list[b + r]);
        assert(key_le(list[a + r].spec_key(), list[b + r].spec_key()));
    }
    assert forall|j: int| 0 <= j < rest.len() implies key_lt(m, (#[trigger] rest[j]).spec_key()) by {
        assert(rest[j] == list[j + r]);
        assert(key_le(m, list[j + r].spec_key()));
    }
}

/// What a merge of sorted inputs yields, stated without the steps: `out` is
/// strictly sorted, each of its items is the first item with its key in the
/// inputs, and no key of the inputs is missing.
pub open spec fn is_fused<T: MergeKey>(out: Seq<T>, s: Seq<Seq<T>>) -> bool {
    &&& strictly_sorted(out)
    &&& forall|t: int|
        0 <= t < out.len() ==> first_over(s, (#[trigger] out[t]).spec_key(), s.len()) == Some(
            out[t],
        )
    &&& forall|k: (u64, u64)|
        (#[trigger] first_over(s, k, s.len())) is Some ==> exists|t: int|
            0 <= t < out.len() && (#[trigger] out[t]).spec_key() == k
}

/// `lemma_fuse_sorted`, for any number of steps that suffices.
pub proof fn lemma_fuse_steps_sorted<T: MergeKey>(s: Seq<Seq<T>>, fuel: nat)
    requires
        all_sorted(s),
        fuel >= total_len(s),
    ensures
        is_fused(fuse_steps(s, fuel), s),
    decreases fuel,
{
    let n = s.len();
    let out = fuse_steps(s, fuel);
    if !has_live(s) {
        assert forall|k: (u64, u64)| (#[trigger] first_over(s, k, n)) is None by {
            lemma_first_over(s, k, n);
            if first_over(s, k, n) is Some {
                let x = first_over(s, k, n)->0;
                let i = choose|i: int| 0 <= i < n && first_in(#[trigger] s[i], k) == Some(x);
                lemma_first_in(s[i], k);
                assert(s[i].len() > 0);
            }
        }
    } else {
        let i = choose|i: int| 0 <= i < s.len() && (#[trigger] s[i]).len() > 0;
        lemma_live_positive(s, n, i);
        lemma_least_head_exists(s);
        lemma_step_shrinks(s);
        let m = least_key(s);
        let d = drained(s, m);
        let e = next_item(s);
        let rest = fuse_steps(d, (fuel - 1) as nat);
        lemma_step_sorted(s, m);
        lemma_fuse_steps_sorted(d, (fuel - 1) as nat);
        lemma_first_with_head(s, m, n);
        let i0 = first_with_head(s, m, n)->0;
        assert(out =~= seq![e] + rest);
        // the first item with the key m is the one that comes out
        assert(first_over(s, m, n) == Some(e)) by {
            lemma_first_over(s, m, n);
            assert forall|a: int| 0 <= a < i0 implies first_in(#[trigger] s[a], m) is None by {
                lemma_first_in(s[a], m);
                if first_in(s[a], m) is Some {
                    let x = first_in(s[a], m)->0;
                    let j = choose|j: int| 0 <= j < s[a].len() && #[trigger] s[a][j] == x && x.spec_key() == m;
                    assert(s[a][j].spec_key() == m);
                    lemma_run_len_bounds(s[a], m);
                    assert(j < run_len(s[a], m));
                    assert(s[a][0].spec_key() == m);
                }
            }
            assert(first_in(s[i0], m) == Some(e));
            match first_over(s, m, n) {
                Some(x) => {
                    let w = choose|w: int|
                        0 <= w < n && first_in(#[trigger] s[w], m) == Some(x) && forall|a: int|
                            0 <= a < w ==> first_in(#[trigger] s[a], m) is None;
                    if w < i0 {
                        assert(first_in(s[w], m) is None);
                    }
                    if i0 < w {
                        assert(first_in(s[i0], m) is None);
                    }
                },
                None => {
                    assert(first_in(s[i0], m) is None);
                },
            }
        }
        // for any other key, the step changes nothing
        assert forall|k: (u64, u64)| k != m implies #[trigger] first_over(d, k, n) == first_over(
            s,
            k,
            n,
        ) by {
            assert forall|a: int| 0 <= a < n implies first_in(#[trigger] d[a], k) == first_in(
                s[a],
                k,
            ) by {
                lemma_run_len_bounds(s[a], m);
                lemma_first_in_skip(s[a], k, run_len(s[a], m) as int);
            }
            lemma_first_over_agree(d, s, k, n);
        }
        // every item of the rest has a larger key
        assert forall|t: int| 0 <= t < rest.len() implies key_lt(
            m,
            (#[trigger] rest[t]).spec_key(),
        ) by {
            let k = rest[t].spec_key();
            assert(first_over(d, k, n) == Some(rest[t]));
            lemma_first_over(d, k, n);
            let a = choose|a: int| 0 <= a < n && first_in(#[trigger] d[a], k) == Some(rest[t]);
            lemma_first_in(d[a], k);
            let j = choose|j: int| 0 <= j < d[a].len() && #[trigger] d[a][j] == rest[t];
            assert(key_lt(m, d[a][j].spec_key()));
        }
        assert(strictly_sorted(out)) by {
            assert forall|a: int, b: int| 0 <= a < b < out.len() implies key_lt(
                (#[trigger] out[a]).spec_key(),
                (#[trigger] out[b]).spec_key(),
            ) by {
                assert(out[b] == rest[b - 1]);
                if a > 0 {
                    assert(out[a] == rest[a - 1]);
                }
            }
        }
        assert forall|t: int| 0 <= t < out.len() implies first_over(
            s,
            (#[trigger] out[t]).spec_key(),
            n,
        ) == Some(out[t]) by {
            if t > 0 {
                assert(out[t] == rest[t - 1]);
                assert(key_lt(m, rest[t - 1].spec_key()));
            }
        }
        assert forall|k: (u64, u64)| (#[trigger] first_over(s, k, n)) is Some implies exists|
            t: int,
        | 0 <= t < out.len() && (#[trigger] out[t]).spec_key() == k by {
            if k == m {
                assert(out[0].spec_key() == m);
            } else {
                assert(first_over(d, k, n) == first_over(s, k, n));
                let t = choose|t: int| 0 <= t < rest.len() && (#[trigger] rest[t]).spec_key() == k;
                assert(out[t + 1] == rest[t]);
            }
        }
    }
}

/// The merge of sorted inputs is strictly sorted and holds, for every key of
/// the inputs, the first item that carries it.
pub proof fn lemma_fuse_sorted<T: MergeKey>(s: Seq<Seq<T>>)
    requires
        all_sorted(s),
    ensures
        is_fused(fuse(s), s),
{
    lemma_fuse_steps_sorted(s, total_len(s));
}

} // verus!

verus! {

/// Both directions of `lemma_first_in`'s first case: the first item with the
/// key `k` is the item at `j` when no earlier item carries `k`.
pub proof fn lemma_first_in_at<T: MergeKey>(list: Seq<T>, k: (u64, u64), j: int)
    requires
        0 <= j < list.len(),
        list[j].spec_key() == k,
        forall|a: int| 0 <= a < j ==> (#[trigger] list[a]).spec_key() != k,
    ensures
        first_in(list, k) == Some(list[j]),
    decreases j,
{
    if j > 0 {
        let t = list.drop_first();
        assert forall|a: int| 0 <= a < j - 1 implies (#[trigger] t[a]).spec_key() != k by {
            assert(t[a] == list[a + 1]);
        }
        assert(t[j - 1] == list[j]);
        assert(list[0].spec_key() != k);
        lemma_first_in_at(t, k, j - 1);
    }
}

/// Every item of the group is an item of some input's leading run: the run
/// of the input `at.0` starts in the group behind the runs of the inputs
/// before it.
pub proof fn lemma_group_item<T: MergeKey>(s: Seq<Seq<T>>, m: (u64, u64), n: nat, b: int) -> (at: (
    int,
    int,
))
    requires
        n <= s.len(),
        0 <= b < group_upto(s, m, n).len(),
    ensures
        0 <= at.0 < n,
        0 <= at.1 < run_len(s[at.0], m),
        at.1 < s[at.0].len(),
        s[at.0][at.1] == group_upto(s, m, n)[b],
        b == group_upto(s, m, at.0 as nat).len() + at.1,
    decreases n,
{
    let prev = group_upto(s, m, (n - 1) as nat);
    lemma_run_len_bounds(s[n - 1], m);
    if b < prev.len() {
        lemma_group_item(s, m, (n - 1) as nat, b)
    } else {
        (n - 1, b - prev.len())
    }
}

/// Every item of an input's leading run is in the group, behind the runs of
/// the inputs before it.
pub proof fn lemma_group_has<T: MergeKey>(s: Seq<Seq<T>>, m: (u64, u64), n: nat, i: int, j: int) -> (b:
    int)
    requires
        0 <= i < n <= s.len(),
        0 <= j < run_len(s[i], m),
    ensures
        0 <= b < group_upto(s, m, n).len(),
        group_upto(s, m, n)[b] == s[i][j],
        b == group_upto(s, m, i as nat).len() + j,
    decreases n,
{
    let prev = group_upto(s, m, (n - 1) as nat);
    lemma_run_len_bounds(s[n - 1], m);
    if i < n - 1 {
        lemma_group_has(s, m, (n - 1) as nat, i, j)
    } else {
        prev.len() + j
    }
}

/// Runs the merge of `inputs` to the end.
pub fn fuse_all<T: MergeKey>(inputs: Vec<Vec<T>>) -> (out: Vec<T>)
    ensures
        out@ == fuse(crate::kway::vec_views(inputs@)),
{
    let ghost all = crate::kway::vec_views(inputs@);
    let mut merger = crate::kway::KWay::new(inputs);
    let mut out: Vec<T> = Vec::new();
    let mut scratch: Vec<T> = Vec::new();
    loop
        invariant
            merger.wf(),
            out@ + fuse(merger@) == fuse(all),
        ensures
            out@ == fuse(all),
        decreases total_len(merger@),
    {
        let ghost before = merger@;
        scratch.clear();
        proof {
            lemma_fuse_unfold(before);
        }
        if !merger.next_group(&mut scratch) {
            assert(out@ + Seq::<T>::empty() =~= out@);
            break ;
        }
        proof {
            let m = least_key(before);
            lemma_first_with_head(before, m, before.len());
            lemma_step_shrinks(before);
            assert(Seq::<T>::empty() + group(before, m) =~= group(before, m));
        }
        let ghost old_out = out@;
        let item = scratch.swap_remove(0);
        out.push(item);
        assert(out@ + fuse(merger@) =~= old_out + (seq![next_item(before)] + fuse(merger@)));
    }
    out
}

} // verus!
