//! Suggestions as they are shown: the part that the query did not give stands
//! in bold.

use crate::text::{to_chars, to_string};
use vstd::prelude::*;
use vstd::string::StringSliceAdditionalSpecFns;

verus! {

/// How many characters `s` and `q` have in common at their start.
pub open spec fn common_len(s: Seq<char>, q: Seq<char>) -> nat
    decreases s.len(),
{
    if s.len() > 0 && q.len() > 0 && s[0] == q[0] {
        1 + common_len(s.drop_first(), q.drop_first())
    } else {
        0
    }
}

/// Where the bold part of the suggestion `s` starts for the query `query`:
/// at the first character in which the two differ; where one is the start of
/// the other, at the length of the query in bytes, or at the end of `s` if
/// that comes first.
pub open spec fn bold_from(query: &str, s: Seq<char>) -> nat {
    let common = common_len(s, query@);
    let at = if common < s.len() && common < query@.len() {
        common
    } else {
        query.spec_bytes().len()
    };
    if at < s.len() {
        at
    } else {
        s.len()
    }
}

/// The suggestion `s` with `<b>` and `</b>` around the part from `bold_from`
/// on.
pub open spec fn spec_highlight(query: &str, s: Seq<char>) -> Seq<char> {
    let cut = bold_from(query, s) as int;
    s.take(cut) + seq!['<', 'b', '>'] + s.skip(cut) + seq!['<', '/', 'b', '>']
}

proof fn lemma_common_len(s: Seq<char>, q: Seq<char>, c: int)
    requires
        0 <= c <= s.len(),
        c <= q.len(),
        forall|j: int| 0 <= j < c ==> s[j] == q[j],
        c < s.len() && c < q.len() ==> s[c] != q[c],
    ensures
        common_len(s, q) == c,
    decreases s.len(),
{
    if c > 0 {
        let s2 = s.drop_first();
        let q2 = q.drop_first();
        assert(s[0] == q[0]);
        assert forall|j: int| 0 <= j < c - 1 implies s2[j] == q2[j] by {
            assert(s[j + 1] == q[j + 1]);
        }
        lemma_common_len(s2, q2, c - 1);
    }
}

/// Marks in the suggestion what the query did not give.
pub fn highlight(query: &str, suggestion: String) -> (res: String)
    ensures
        res@ == spec_highlight(query, suggestion@),
{
    let s = to_chars(suggestion.as_str());
    let q = to_chars(query);
    let mut common: usize = 0;
    while common < s.len() && common < q.len() && s[common] == q[common]
        invariant
            common <= s.len(),
            common <= q.len(),
            forall|j: int| 0 <= j < common ==> s@[j] == q@[j],
        decreases s.len() - common,
    {
        common += 1;
    }
    proof {
        lemma_common_len(s@, q@, common as int);
    }
    let at = if common < s.len() && common < q.len() {
        common
    } else {
        query.as_bytes().len()
    };
    let cut = if at < s.len() {
        at
    } else {
        s.len()
    };
    let mut out: Vec<char> = Vec::new();
    let mut i: usize = 0;
    while i < cut
        invariant
            i <= cut <= s.len(),
            out@ == s@.take(i as int),
        decreases cut - i,
    {
        out.push(s[i]);
        assert(s@.take(i + 1) =~= s@.take(i as int).push(s@[i as int]));
        i += 1;
    }
    out.push('<');
    out.push('b');
    out.push('>');
    let ghost head = out@;
    assert(head =~= s@.take(cut as int) + seq!['<', 'b', '>']);
    while i < s.len()
        invariant
            cut <= i <= s.len(),
            out@ == head + s@.subrange(cut as int, i as int),
        decreases s.len() - i,
    {
        out.push(s[i]);
        assert(out@ =~= head + s@.subrange(cut as int, i + 1));
        i += 1;
    }
    assert(s@.subrange(cut as int, s.len() as int) =~= s@.skip(cut as int));
    assert(cut == bold_from(query, suggestion@));
    let ghost body = out@;
    out.push('<');
    out.push('/');
    out.push('b');
    out.push('>');
    assert(out@ =~= body + seq!['<', '/', 'b', '>']);
    assert(out@ =~= spec_highlight(query, suggestion@));
    to_string(&out)
}

} // verus!
