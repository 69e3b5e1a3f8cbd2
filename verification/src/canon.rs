//! Laws of the canonical form of node names.

use crate::node::{
    canonical, host_of, lead_len, lemma_prefix_len, lemma_prefix_len_is, lower, lower_all, norm_query,
    norm_rest, prefix_len, scheme_http, scheme_https, starts_with_ci, strip_leads, www,
};
use vstd::prelude::*;

verus! {

/// Lowering twice is lowering once, and lowering makes no character one of
/// the marks of a name.
pub proof fn lemma_lower(c: char)
    ensures
        lower(lower(c)) == lower(c),
        lower(c) == '/' <==> c == '/',
        lower(c) == '?' <==> c == '?',
        lower(c) == '#' <==> c == '#',
        !('A' <= lower(c) && lower(c) <= 'Z'),
{
}

/// What is left when the schemes and the `www.` are stripped starts with
/// none of them, and is the end of what was given.
pub proof fn lemma_strip_leads(s: Seq<char>)
    ensures
        lead_len(strip_leads(s)) == 0,
        strip_leads(s).len() <= s.len(),
        strip_leads(s) == s.skip(s.len() - strip_leads(s).len()),
    decreases s.len(),
{
    if lead_len(s) == 0 {
        assert(s.skip(0) =~= s);
    } else {
        let t = s.skip(lead_len(s) as int);
        lemma_strip_leads(t);
        assert(t.skip(t.len() - strip_leads(t).len()) =~= s.skip(s.len() - strip_leads(t).len()));
    }
}

/// A name that starts with no scheme and no `www.` is left as it is.
pub proof fn lemma_strip_nothing(s: Seq<char>)
    requires
        lead_len(s) == 0,
    ensures
        strip_leads(s) == s,
{
}

/// The normal form of a query is its own normal form.
pub proof fn lemma_norm_query_again(q: Seq<char>, named: bool, valued: bool)
    ensures
        norm_query(norm_query(q, named, valued), named, valued) == norm_query(q, named, valued),
    decreases q.len(),
{
    let out = norm_query(q, named, valued);
    let open = named && !valued;
    let empty = Seq::<char>::empty();
    if q.len() == 0 {
        if open {
            assert(out =~= seq!['=']);
            assert(out.drop_first() =~= empty);
            assert(norm_query(empty, true, true) =~= empty);
            assert(norm_query(out, named, valued) =~= seq!['='] + empty);
        } else {
            assert(out =~= empty);
        }
    } else if q[0] == '&' {
        let rest = norm_query(q.drop_first(), false, false);
        lemma_norm_query_again(q.drop_first(), false, false);
        let tail = seq!['&'] + rest;
        assert(tail[0] == '&');
        assert(tail.drop_first() =~= rest);
        if open {
            assert(out =~= seq!['='] + tail);
            assert(out[0] == '=');
            assert(out.drop_first() =~= tail);
            assert(norm_query(tail, true, true) =~= empty + seq!['&'] + rest);
            assert(norm_query(out, named, valued) =~= seq!['='] + norm_query(tail, true, true));
        } else {
            assert(out =~= tail);
            assert(norm_query(out, named, valued) =~= empty + seq!['&'] + rest);
        }
    } else {
        let next = valued || q[0] == '=';
        let rest = norm_query(q.drop_first(), true, next);
        lemma_norm_query_again(q.drop_first(), true, next);
        assert(out =~= seq![q[0]] + rest);
        assert(out[0] == q[0]);
        assert(out.drop_first() =~= rest);
        assert(norm_query(out, named, valued) =~= seq![q[0]] + norm_query(rest, true, next));
    }
}

/// The normal form of a query holds no `#` where the query holds none.
pub proof fn lemma_norm_query_marks(q: Seq<char>, named: bool, valued: bool)
    requires
        forall|i: int| 0 <= i < q.len() ==> q[i] != '#',
    ensures
        forall|i: int|
            0 <= i < norm_query(q, named, valued).len() ==> norm_query(q, named, valued)[i] != '#',
    decreases q.len(),
{
    let out = norm_query(q, named, valued);
    let close: Seq<char> = if named && !valued {
        seq!['=']
    } else {
        Seq::empty()
    };
    if q.len() > 0 {
        let t = q.drop_first();
        assert forall|i: int| 0 <= i < t.len() implies t[i] != '#' by {
            assert(t[i] == q[i + 1]);
        }
        if q[0] == '&' {
            lemma_norm_query_marks(t, false, false);
            let rest = norm_query(t, false, false);
            assert(out =~= close + seq!['&'] + rest);
            assert forall|i: int| 0 <= i < out.len() implies out[i] != '#' by {
                if i > close.len() {
                    assert(out[i] == rest[i - close.len() - 1]);
                }
            }
        } else {
            lemma_norm_query_marks(t, true, valued || q[0] == '=');
            let rest = norm_query(t, true, valued || q[0] == '=');
            assert(out =~= seq![q[0]] + rest);
            assert forall|i: int| 0 <= i < out.len() implies out[i] != '#' by {
                if i > 0 {
                    assert(out[i] == rest[i - 1]);
                }
            }
        }
    } else {
        assert(out =~= close);
    }
}

/// The normal form of a path and query starts as the path and query does, up
/// to and with the `?`, and has that `?` as its first.
pub proof fn lemma_norm_rest_head(rest: Seq<char>)
    ensures
        norm_rest(rest).len() >= rest.len(),
        prefix_len(norm_rest(rest), '?', '?') == prefix_len(rest, '?', '?'),
        forall|i: int|
            0 <= i <= prefix_len(rest, '?', '?') && i < rest.len() ==> norm_rest(rest)[i]
                == rest[i],
        prefix_len(rest, '?', '?') == rest.len() ==> norm_rest(rest) == rest,
        prefix_len(rest, '?', '?') < rest.len() ==> norm_rest(rest).skip(
            prefix_len(rest, '?', '?') as int + 1,
        ) == norm_query(rest.skip(prefix_len(rest, '?', '?') as int + 1), false, false),
{
    let q = prefix_len(rest, '?', '?') as int;
    lemma_prefix_len(rest, '?', '?');
    if q < rest.len() {
        let out = norm_rest(rest);
        let tail = norm_query(rest.skip(q + 1), false, false);
        assert(out =~= rest.take(q + 1) + tail);
        lemma_norm_query_len(rest.skip(q + 1), false, false);
        assert forall|i: int| 0 <= i <= q implies out[i] == rest[i] by {
            assert(out[i] == rest.take(q + 1)[i]);
        }
        lemma_prefix_len_is(out, '?', '?', q);
        assert(out.skip(q + 1) =~= tail);
    }
}

/// The normal form of a query is no shorter than the query.
pub proof fn lemma_norm_query_len(q: Seq<char>, named: bool, valued: bool)
    ensures
        norm_query(q, named, valued).len() >= q.len(),
    decreases q.len(),
{
    if q.len() > 0 {
        if q[0] == '&' {
            lemma_norm_query_len(q.drop_first(), false, false);
        } else {
            lemma_norm_query_len(q.drop_first(), true, valued || q[0] == '=');
        }
    }
}

/// The normal form of a path and query is its own normal form.
pub proof fn lemma_norm_rest_again(rest: Seq<char>)
    ensures
        norm_rest(norm_rest(rest)) == norm_rest(rest),
{
    let q = prefix_len(rest, '?', '?') as int;
    let out = norm_rest(rest);
    lemma_norm_rest_head(rest);
    lemma_prefix_len(rest, '?', '?');
    if q < rest.len() {
        let tail = norm_query(rest.skip(q + 1), false, false);
        lemma_norm_query_again(rest.skip(q + 1), false, false);
        assert(out.take(q + 1) =~= rest.take(q + 1));
        assert(out.skip(q + 1) == tail);
        assert(norm_rest(out) =~= out.take(q + 1) + norm_query(out.skip(q + 1), false, false));
        assert(out =~= rest.take(q + 1) + tail);
    }
}

/// The parts of the canonical form of `s`: the name without fragment and
/// leads, and the length of its host.
pub open spec fn bare_of(s: Seq<char>) -> Seq<char> {
    strip_leads(s.take(prefix_len(s, '#', '#') as int))
}

/// The length of the host of the bare name of `s`.
pub open spec fn host_len(s: Seq<char>) -> int {
    prefix_len(bare_of(s), '/', '?') as int
}

/// How the canonical form lies over the bare name: the host character by
/// character in lower case, then the path and query as they are up to the
/// first `?`.
pub proof fn lemma_canonical_layout(s: Seq<char>)
    ensures
        canonical(s) == lower_all(bare_of(s).take(host_len(s))) + norm_rest(
            bare_of(s).skip(host_len(s)),
        ),
        0 <= host_len(s) <= bare_of(s).len(),
        canonical(s).len() >= bare_of(s).len(),
        forall|i: int| 0 <= i < host_len(s) ==> canonical(s)[i] == lower(bare_of(s)[i]),
        forall|i: int|
            host_len(s) <= i < bare_of(s).len() && i <= host_len(s) + prefix_len(
                bare_of(s).skip(host_len(s)),
                '?',
                '?',
            ) ==> canonical(s)[i] == bare_of(s)[i],
        forall|i: int| 0 <= i < bare_of(s).len() ==> bare_of(s)[i] != '#',
        forall|i: int| 0 <= i < host_len(s) ==> bare_of(s)[i] != '/' && bare_of(s)[i] != '?',
        host_len(s) < bare_of(s).len() ==> bare_of(s)[host_len(s)] == '/' || bare_of(s)[host_len(
            s,
        )] == '?',
        lead_len(bare_of(s)) == 0,
{
    let cut = s.take(prefix_len(s, '#', '#') as int);
    let bare = bare_of(s);
    let h = host_len(s);
    let rest = bare.skip(h);
    lemma_prefix_len(s, '#', '#');
    lemma_strip_leads(cut);
    lemma_prefix_len(bare, '/', '?');
    lemma_norm_rest_head(rest);
    assert forall|i: int| 0 <= i < bare.len() implies bare[i] != '#' by {
        assert(bare[i] == cut[i + (cut.len() - bare.len())]);
    }
    let out = canonical(s);
    assert forall|i: int|
        h <= i < bare.len() && i <= h + prefix_len(rest, '?', '?') implies out[i] == bare[i] by {
        assert(out[i] == norm_rest(rest)[i - h]);
        assert(norm_rest(rest)[i - h] == rest[i - h]);
    }
}

/// A canonical name that started with a scheme or `www.` would have had it
/// in the bare name.
proof fn lemma_lead_back(s: Seq<char>, p: Seq<char>)
    requires
        starts_with_ci(canonical(s), p),
        forall|i: int| 0 <= i < p.len() ==> p[i] != '?',
    ensures
        starts_with_ci(bare_of(s), p),
{
    let bare = bare_of(s);
    let h = host_len(s);
    let out = canonical(s);
    let rest = bare.skip(h);
    let q = prefix_len(rest, '?', '?') as int;
    lemma_canonical_layout(s);
    lemma_prefix_len(rest, '?', '?');
    lemma_norm_rest_head(rest);
    assert forall|i: int| 0 <= i < p.len() implies i < bare.len() && lower(#[trigger] bare[i])
        == p[i] by {
        assert(lower(out[i]) == p[i]);
        assert(p.len() <= out.len());
        // no `?` stands before `i` in the canonical name
        if i < h {
            assert(out[i] == lower(bare[i]));
            lemma_lower(bare[i]);
        } else if i <= h + q && i < bare.len() {
            assert(out[i] == bare[i]);
        } else {
            // the path and query had room for a `?` before `i`
            if q < rest.len() {
                assert(h + q < i);
                assert(out[h + q] == bare[h + q]);
                assert(rest[q] == '?');
                assert(bare[h + q] == rest[q]);
                assert(lower(out[h + q]) == p[h + q]);
                assert(p[h + q] != '?');
            } else {
                assert(norm_rest(rest) == rest);
                assert(out.len() == h + rest.len());
            }
        }
    }
}

/// The canonical form of a name is its own canonical form.
pub proof fn law_canonical_again(s: Seq<char>)
    ensures
        canonical(canonical(s)) == canonical(s),
{
    let bare = bare_of(s);
    let h = host_len(s);
    let rest = bare.skip(h);
    let out = canonical(s);
    let host = lower_all(bare.take(h));
    lemma_canonical_layout(s);
    law_canonical_shape(s);
    // no fragment is left to cut
    lemma_prefix_len_is(out, '#', '#', out.len() as int);
    assert(out.take(out.len() as int) =~= out);
    // no lead is left to strip
    lemma_strip_nothing(out);
    assert(bare_of(out) == out);
    // the host ends where it ended
    lemma_norm_rest_head(rest);
    lemma_prefix_len(rest, '?', '?');
    assert forall|j: int| 0 <= j < h implies #[trigger] out[j] != '/' && out[j] != '?' by {
        lemma_lower(bare[j]);
    }
    if h < out.len() {
        assert(rest.len() > 0);
        assert(out[h] == norm_rest(rest)[0]);
        assert(norm_rest(rest)[0] == rest[0]);
        assert(rest[0] == bare[h]);
    }
    lemma_prefix_len_is(out, '/', '?', h);
    // and both parts stay as they are
    assert(lower_all(out.take(h)) =~= host) by {
        assert forall|j: int| 0 <= j < h implies lower(#[trigger] out.take(h)[j]) == host[j] by {
            lemma_lower(bare[j]);
        }
    }
    assert(out.skip(h) =~= norm_rest(rest));
    lemma_norm_rest_again(rest);
}

/// The canonical form of a name holds no fragment, starts with no scheme and
/// no `www.`, and has its host, which is what stands before the first `/` or
/// `?`, in lower case.
pub proof fn law_canonical_shape(s: Seq<char>)
    ensures
        forall|i: int| 0 <= i < canonical(s).len() ==> canonical(s)[i] != '#',
        !starts_with_ci(canonical(s), scheme_http()),
        !starts_with_ci(canonical(s), scheme_https()),
        !starts_with_ci(canonical(s), www()),
        lead_len(canonical(s)) == 0,
        forall|i: int|
            0 <= i < prefix_len(canonical(s), '/', '?') ==> lower(canonical(s)[i]) == canonical(
                s,
            )[i],
{
    let bare = bare_of(s);
    let h = host_len(s);
    let rest = bare.skip(h);
    let out = canonical(s);
    lemma_canonical_layout(s);
    lemma_norm_rest_head(rest);
    lemma_prefix_len(rest, '?', '?');
    let q = prefix_len(rest, '?', '?') as int;
    // no fragment
    assert forall|i: int| 0 <= i < out.len() implies out[i] != '#' by {
        if i < h {
            lemma_lower(bare[i]);
        } else if q == rest.len() {
            assert(out[i] == rest[i - h]);
            assert(rest[i - h] == bare[i]);
        } else if i <= h + q {
            assert(out[i] == bare[i]);
        } else {
            let query = rest.skip(q + 1);
            assert forall|j: int| 0 <= j < query.len() implies query[j] != '#' by {
                assert(query[j] == bare[h + q + 1 + j]);
            }
            lemma_norm_query_marks(query, false, false);
            assert(out[i] == norm_rest(rest)[i - h]);
            assert(norm_rest(rest)[i - h] == norm_rest(rest).skip(q + 1)[i - h - q - 1]);
        }
    }
    // no lead
    if starts_with_ci(out, scheme_http()) {
        lemma_lead_back(s, scheme_http());
    }
    if starts_with_ci(out, scheme_https()) {
        lemma_lead_back(s, scheme_https());
    }
    if starts_with_ci(out, www()) {
        lemma_lead_back(s, www());
    }
    // the host is in lower case
    lemma_prefix_len(out, '/', '?');
    assert forall|j: int| 0 <= j < h implies #[trigger] out[j] != '/' && out[j] != '?' by {
        lemma_lower(bare[j]);
    }
    if h < out.len() {
        assert(rest.len() > 0);
        assert(out[h] == norm_rest(rest)[0]);
        assert(norm_rest(rest)[0] == rest[0]);
        assert(rest[0] == bare[h]);
    }
    lemma_prefix_len_is(out, '/', '?', h);
    assert forall|i: int| 0 <= i < prefix_len(out, '/', '?') implies lower(out[i]) == out[i] by {
        lemma_lower(bare[i]);
    }
}

/// The host of a canonical name is a canonical name.
pub proof fn law_host_canonical(c: Seq<char>)
    requires
        canonical(c) == c,
    ensures
        canonical(host_of(c)) == host_of(c),
{
    let h = prefix_len(c, '/', '?') as int;
    let host = host_of(c);
    law_canonical_shape(c);
    lemma_prefix_len(c, '/', '?');
    // the host has no fragment to cut
    lemma_prefix_len_is(host, '#', '#', h);
    assert(host.take(h) =~= host);
    // it starts with no lead, as the name starts with none
    assert(lead_len(host) == 0) by {
        if starts_with_ci(host, scheme_http()) {
            assert(starts_with_ci(c, scheme_http())) by {
                assert forall|i: int| 0 <= i < scheme_http().len() implies lower(#[trigger] c[i])
                    == scheme_http()[i] by {
                    assert(c[i] == host[i]);
                }
            }
        }
        if starts_with_ci(host, scheme_https()) {
            assert(starts_with_ci(c, scheme_https())) by {
                assert forall|i: int| 0 <= i < scheme_https().len() implies lower(#[trigger] c[i])
                    == scheme_https()[i] by {
                    assert(c[i] == host[i]);
                }
            }
        }
        if starts_with_ci(host, www()) {
            assert(starts_with_ci(c, www())) by {
                assert forall|i: int| 0 <= i < www().len() implies lower(#[trigger] c[i])
                    == www()[i] by {
                    assert(c[i] == host[i]);
                }
            }
        }
    }
    lemma_strip_nothing(host);
    // all of it is host, and in lower case
    lemma_prefix_len_is(host, '/', '?', h);
    assert(lower_all(host.take(h)) =~= host) by {
        assert forall|i: int| 0 <= i < h implies lower(#[trigger] host.take(h)[i]) == host[i] by {
            assert(host[i] == c[i]);
        }
    }
    let rest = host.skip(h);
    assert(rest =~= Seq::<char>::empty());
    assert(norm_rest(rest) == rest);
    assert(canonical(host) =~= host);
}

} // verus!
