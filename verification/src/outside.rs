//! The calls that leave this crate: fresh segment ids, the first occurrences
//! of a sequence, and random samples.

use itertools::Itertools;
use rand::seq::{IteratorRandom, SliceRandom};
use vstd::prelude::*;

verus! {

/// `items` without the items that occurred before, in the order of `items`.
pub open spec fn first_occurrences(items: Seq<u64>) -> Seq<u64>
    decreases items.len(),
{
    if items.len() == 0 {
        Seq::empty()
    } else if items.drop_last().contains(items.last()) {
        first_occurrences(items.drop_last())
    } else {
        first_occurrences(items.drop_last()).push(items.last())
    }
}

/// What `first_occurrences` yields holds the items of `items`, none twice.
pub proof fn lemma_first_occurrences(items: Seq<u64>)
    ensures
        first_occurrences(items).no_duplicates(),
        forall|x: u64| first_occurrences(items).contains(x) <==> items.contains(x),
    decreases items.len(),
{
    if items.len() > 0 {
        let short = items.drop_last();
        let last = items.last();
        lemma_first_occurrences(short);
        let prev = first_occurrences(short);
        let all = first_occurrences(items);
        assert forall|x: u64| all.contains(x) <==> items.contains(x) by {
            if items.contains(x) {
                let i = choose|i: int| 0 <= i < items.len() && items[i] == x;
                if i < short.len() {
                    assert(short[i] == x);
                    assert(short.contains(x));
                    assert(prev.contains(x));
                    let t = choose|t: int| 0 <= t < prev.len() && prev[t] == x;
                    assert(all[t] == x);
                } else if short.contains(last) {
                    assert(all.contains(x));
                } else {
                    assert(all[all.len() - 1] == x);
                }
            }
            if all.contains(x) {
                let t = choose|t: int| 0 <= t < all.len() && all[t] == x;
                if t < prev.len() {
                    assert(prev[t] == x);
                    assert(short.contains(x));
                    let i = choose|i: int| 0 <= i < short.len() && short[i] == x;
                    assert(items[i] == x);
                } else {
                    assert(items[items.len() - 1] == x);
                }
            }
        }
        if !short.contains(last) {
            assert forall|a: int, b: int| 0 <= a < all.len() && 0 <= b < all.len() && a
                != b implies all[a] != all[b] by {
                if a < prev.len() && b < prev.len() {
                    assert(prev[a] != prev[b]);
                } else if a < prev.len() {
                    assert(prev.contains(prev[a]));
                    assert(short.contains(prev[a]));
                } else if b < prev.len() {
                    assert(prev.contains(prev[b]));
                    assert(short.contains(prev[b]));
                }
            }
        }
    }
}

/// `Uuid::new_v4` and its `to_string`: a random version-4 UUID in the
/// hyphenated form, which has 36 characters. Nothing is said of which.
#[verifier::external_body]
pub(crate) fn fresh_segment_id() -> (id: String)
    ensures
        id@.len() == 36,
{
    uuid::Uuid::new_v4().to_string()
}

/// `Itertools::unique`: the items without those that occurred before, each
/// kept where it occurred first.
#[verifier::external_body]
pub(crate) fn unique(items: Vec<u64>) -> (res: Vec<u64>)
    ensures
        res@ == first_occurrences(items@),
{
    items.into_iter().unique().collect()
}

/// The random number generator of the thread, as `rand` hands it out.
#[verifier::external_type_specification]
#[verifier::external_body]
pub struct ExThreadRng(rand::rngs::ThreadRng);

/// `rand::thread_rng`: the random number generator of the thread. Nothing is
/// said of it.
#[verifier::external_body]
pub(crate) fn thread_rng() -> (rng: rand::rngs::ThreadRng) {
    rand::thread_rng()
}

/// `IteratorRandom::choose_multiple`: `amount` of the items, each position
/// of `items` drawn at most once. Nothing is said of which, nor of their
/// order.
#[verifier::external_body]
pub(crate) fn sample(items: Vec<u64>, amount: usize, rng: &mut rand::rngs::ThreadRng) -> (res: Vec<
    u64,
>)
    requires
        amount <= items.len(),
    ensures
        res.len() == amount,
        res@.to_multiset().subset_of(items@.to_multiset()),
{
    items.into_iter().choose_multiple(rng, amount)
}

/// `SliceRandom::shuffle`: the same items in some order.
#[verifier::external_body]
pub(crate) fn shuffle(items: &mut Vec<u64>, rng: &mut rand::rngs::ThreadRng)
    ensures
        final(items)@.to_multiset() == old(items)@.to_multiset(),
{
    items.shuffle(rng);
}

} // verus!
