//! What the ingestion of a crawl decides: how the files of the crawl are
//! batched into jobs, and which links become edges.

use crate::text::to_chars;
use vstd::prelude::*;

verus! {

/// The batch `i` of the items `items` in batches of `size`: the items from
/// `i * size` on, `size` of them or those that are left.
pub open spec fn batch_at<T>(items: Seq<T>, size: nat, i: int) -> Seq<T> {
    items.subrange(
        i * size,
        if (i + 1) * size <= items.len() {
            (i + 1) * size
        } else {
            items.len() as int
        },
    )
}

/// `parts` are the items `items` in batches of `size`: every batch but the
/// last has `size` items, the last has the rest, and none is empty.
pub open spec fn is_batched<T>(parts: Seq<Vec<T>>, items: Seq<T>, size: nat) -> bool {
    &&& parts.len() * size >= items.len()
    &&& parts.len() > 0 ==> (parts.len() - 1) * size < items.len()
    &&& forall|i: int| 0 <= i < parts.len() ==> (#[trigger] parts[i])@ == batch_at(items, size, i)
}

/// Cuts the items into batches of `size`.
pub fn batches<T>(items: Vec<T>, size: usize) -> (parts: Vec<Vec<T>>)
    requires
        size > 0,
    ensures
        is_batched(parts@, items@, size as nat),
{
    let ghost all = items@;
    let n = items.len();
    // the items are taken from the end, so the batches come out last first
    let mut items = items;
    let mut back: Vec<Vec<T>> = Vec::new();
    let full = n / size;
    let tail = n % size;
    assert(n == full * size + tail) by (nonlinear_arith)
        requires
            full == n / size,
            tail == n % size,
            size > 0,
    ;
    if tail > 0 {
        let last = items.split_off(n - tail);
        assert(last@ =~= all.subrange(full * size, n as int));
        assert((full + 1) * size > n) by (nonlinear_arith)
            requires
                n == full * size + tail,
                tail < size,
        ;
        assert(last@ == batch_at(all, size as nat, full as int));
        back.push(last);
    }
    assert(items@ =~= all.take(full * size));
    assert(tail > 0 ==> full < n) by (nonlinear_arith)
        requires
            n == full * size + tail,
            size > 0,
    ;
    let count = if tail > 0 {
        full + 1
    } else {
        full
    };
    let mut left: usize = full;
    while left > 0
        invariant
            left <= full,
            size > 0,
            n == full * size + tail,
            tail < size,
            n == all.len(),
            items@ == all.take(left * size),
            back.len() == count - left,
            count == full + if tail > 0 { 1int } else { 0int },
            forall|j: int|
                0 <= j < back.len() ==> (#[trigger] back[j])@ == batch_at(
                    all,
                    size as nat,
                    count - 1 - j,
                ),
        decreases left,
    {
        assert((left - 1) * size + size == left * size) by (nonlinear_arith);
        assert(left * size <= full * size) by (nonlinear_arith)
            requires
                left <= full,
                size > 0,
        ;
        let part = items.split_off((left - 1) * size);
        proof {
            assert(part@ =~= all.subrange((left - 1) * size, left * size));
            assert(items@ =~= all.take((left - 1) * size));
            assert(part@ == batch_at(all, size as nat, left - 1));
        }
        back.push(part);
        left -= 1;
    }
    let mut parts: Vec<Vec<T>> = Vec::new();
    while back.len() > 0
        invariant
            parts.len() + back.len() == count,
            forall|j: int|
                0 <= j < back.len() ==> (#[trigger] back[j])@ == batch_at(
                    all,
                    size as nat,
                    count - 1 - j,
                ),
            forall|i: int|
                0 <= i < parts.len() ==> (#[trigger] parts[i])@ == batch_at(all, size as nat, i),
        decreases back.len(),
    {
        let part = back.pop().unwrap();
        parts.push(part);
    }
    proof {
        assert(count * size >= n) by (nonlinear_arith)
            requires
                n == full * size + tail,
                tail < size,
                count == full + if tail > 0 { 1int } else { 0int },
        ;
        if count > 0 {
            assert((count - 1) * size < n) by (nonlinear_arith)
                requires
                    n == full * size + tail,
                    tail < size,
                    count > 0,
                    size > 0,
                    count == full + if tail > 0 { 1int } else { 0int },
            ;
        }
    }
    parts
}

/// The size of the batches: the size that was asked for, or one.
pub open spec fn size_or_one(batch_size: Option<usize>) -> nat {
    match batch_size {
        Some(size) => size as nat,
        None => 1,
    }
}

/// How many of `len` items a limit lets through: no more than the limit, or
/// all without one.
pub open spec fn within(limit: Option<usize>, len: nat) -> int {
    match limit {
        Some(n) => if n < len {
            n as int
        } else {
            len as int
        },
        None => len as int,
    }
}

/// The batches of a local run: of the paths the first `limit`, or all
/// without a limit, in batches of `batch_size`, or of one without a size.
pub fn local_batches(paths: Vec<String>, limit: Option<usize>, batch_size: Option<usize>) -> (parts:
    Vec<Vec<String>>)
    requires
        batch_size != Some(0usize),
    ensures
        is_batched(parts@, paths@.take(within(limit, paths@.len())), size_or_one(batch_size)),
{
    let mut paths = paths;
    let ghost all = paths@;
    match limit {
        Some(n) => {
            paths.truncate(n);
            assert(paths@ =~= all.take(within(limit, all.len())));
        },
        None => {
            assert(paths@ =~= all.take(all.len() as int));
        },
    }
    let size = match batch_size {
        Some(size) => size,
        None => 1,
    };
    batches(paths, size)
}

/// The batches of a distributed run: the paths in batches of `batch_size`,
/// or of one without a size, and of these the first `limit`, or all without
/// a limit.
pub fn master_batches(paths: Vec<String>, batch_size: Option<usize>, limit: Option<usize>) -> (parts:
    Vec<Vec<String>>)
    requires
        batch_size != Some(0usize),
    ensures
        exists|all: Seq<Vec<String>>|
            #![trigger is_batched(all, paths@, size_or_one(batch_size))]
            is_batched(all, paths@, size_or_one(batch_size)) && parts@ == all.take(
                within(limit, all.len()),
            ),
{
    let size = match batch_size {
        Some(size) => size,
        None => 1,
    };
    let mut parts = batches(paths, size);
    let ghost all = parts@;
    match limit {
        Some(n) => {
            parts.truncate(n);
            assert(parts@ =~= all.take(within(limit, all.len())));
        },
        None => {
            assert(parts@ =~= all.take(all.len() as int));
        },
    }
    assert(is_batched(all, paths@, size_or_one(batch_size)));
    parts
}

/// The protocol `http`.
pub open spec fn http() -> Seq<char> {
    seq!['h', 't', 't', 'p']
}

/// The protocol `https`.
pub open spec fn https() -> Seq<char> {
    seq!['h', 't', 't', 'p', 's']
}

/// Whether two strings hold the same characters.
fn same(a: &Vec<char>, b: &Vec<char>) -> (res: bool)
    ensures
        res == (a@ == b@),
{
    if a.len() != b.len() {
        return false;
    }
    let n = a.len();
    let mut i: usize = 0;
    while i < n
        invariant
            i <= n,
            n == a.len(),
            n == b.len(),
            forall|j: int| 0 <= j < i ==> a@[j] == b@[j],
        decreases n - i,
    {
        if a[i] != b[i] {
            return false;
        }
        i += 1;
    }
    assert(a@ =~= b@);
    true
}

/// Whether a link becomes an edge: it leads to an `http` or `https` address
/// in another domain.
pub fn crosses_domains(protocol: &str, source_domain: &str, destination_domain: &str) -> (res: bool)
    ensures
        res == ((protocol@ == http() || protocol@ == https()) && source_domain@
            != destination_domain@),
{
    let protocol = to_chars(protocol);
    let plain: Vec<char> = vec!['h', 't', 't', 'p'];
    let secure: Vec<char> = vec!['h', 't', 't', 'p', 's'];
    assert(plain@ =~= http());
    assert(secure@ =~= https());
    if !same(&protocol, &plain) && !same(&protocol, &secure) {
        return false;
    }
    !same(&to_chars(source_domain), &to_chars(destination_domain))
}

} // verus!
