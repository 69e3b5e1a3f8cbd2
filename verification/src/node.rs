//! Node identity: canonical node names and their 64-bit fingerprints.

use crate::canon::{law_canonical_again, law_host_canonical};
use crate::text::{to_chars, to_string};
use vstd::prelude::*;
use vstd::std_specs::cmp::PartialEqSpecImpl;
use vstd::std_specs::convert::FromSpecImpl;

verus! {

/// The 64-bit fingerprint of a node.
#[derive(Clone, Copy, Debug, PartialEq, Eq, Structural, PartialOrd, Ord, Hash)]
pub struct NodeID(pub u64);

impl NodeID {
    /// The fingerprint as a number.
    pub fn as_u64(&self) -> (res: u64)
        ensures
            res == self.0,
    {
        self.0
    }
}

impl From<u64> for NodeID {
    fn from(val: u64) -> (res: NodeID) {
        NodeID(val)
    }
}

impl FromSpecImpl<u64> for NodeID {
    open spec fn obeys_from_spec() -> bool {
        true
    }

    open spec fn from_spec(val: u64) -> NodeID {
        NodeID(val)
    }
}

/// The lower-case form of an ASCII letter; any other character as it is.
pub open spec fn lower(c: char) -> char {
    if 'A' <= c && c <= 'Z' {
        ((c as u8) + 32) as char
    } else {
        c
    }
}

/// `s` with every ASCII letter in lower case.
pub open spec fn lower_all(s: Seq<char>) -> Seq<char> {
    Seq::new(s.len(), |i: int| lower(s[i]))
}

/// The length of the longest prefix of `s` that holds neither `a` nor `b`.
pub open spec fn prefix_len(s: Seq<char>, a: char, b: char) -> nat
    decreases s.len(),
{
    if s.len() == 0 || s[0] == a || s[0] == b {
        0
    } else {
        1 + prefix_len(s.drop_first(), a, b)
    }
}

/// `s` starts with `p`, the case of ASCII letters aside. `p` is in lower case.
pub open spec fn starts_with_ci(s: Seq<char>, p: Seq<char>) -> bool {
    &&& p.len() <= s.len()
    &&& forall|i: int| 0 <= i < p.len() ==> lower(#[trigger] s[i]) == p[i]
}

/// The scheme `http://`.
pub open spec fn scheme_http() -> Seq<char> {
    seq!['h', 't', 't', 'p', ':', '/', '/']
}

/// The scheme `https://`.
pub open spec fn scheme_https() -> Seq<char> {
    seq!['h', 't', 't', 'p', 's', ':', '/', '/']
}

/// The lead `www.`.
pub open spec fn www() -> Seq<char> {
    seq!['w', 'w', 'w', '.']
}

/// How many characters the scheme or the `www.` at the start of `s` has;
/// zero where `s` starts with neither.
pub open spec fn lead_len(s: Seq<char>) -> nat {
    if starts_with_ci(s, scheme_http()) {
        7
    } else if starts_with_ci(s, scheme_https()) {
        8
    } else if starts_with_ci(s, www()) {
        4
    } else {
        0
    }
}

/// `s` without the schemes and the `www.` that it starts with.
pub open spec fn strip_leads(s: Seq<char>) -> Seq<char>
    decreases s.len(),
{
    if lead_len(s) == 0 {
        s
    } else {
        strip_leads(s.skip(lead_len(s) as int))
    }
}

/// The query `q` with an `=` behind every parameter that has a name and no
/// `=`. `named` and `valued` tell whether the parameter that `q` starts in
/// has a character and an `=` before `q`.
pub open spec fn norm_query(q: Seq<char>, named: bool, valued: bool) -> Seq<char>
    decreases q.len(),
{
    let close: Seq<char> = if named && !valued {
        seq!['=']
    } else {
        Seq::empty()
    };
    if q.len() == 0 {
        close
    } else if q[0] == '&' {
        close + seq!['&'] + norm_query(q.drop_first(), false, false)
    } else {
        seq![q[0]] + norm_query(q.drop_first(), true, valued || q[0] == '=')
    }
}

/// The path and query `rest` with its query normalised.
pub open spec fn norm_rest(rest: Seq<char>) -> Seq<char> {
    let q = prefix_len(rest, '?', '?') as int;
    if q == rest.len() {
        rest
    } else {
        rest.take(q + 1) + norm_query(rest.skip(q + 1), false, false)
    }
}

/// The canonical form of a node name: without the fragment, without scheme
/// and leading `www.`, with the host in lower case, and with every query
/// parameter written as `name=value`.
pub open spec fn canonical(s: Seq<char>) -> Seq<char> {
    let cut = s.take(prefix_len(s, '#', '#') as int);
    let bare = strip_leads(cut);
    let h = prefix_len(bare, '/', '?') as int;
    lower_all(bare.take(h)) + norm_rest(bare.skip(h))
}

/// The host of a canonical node name: what stands before the path and the
/// query.
pub open spec fn host_of(name: Seq<char>) -> Seq<char> {
    name.take(prefix_len(name, '/', '?') as int)
}

/// The value that the FNV-1a hash starts from.
pub open spec fn fnv_offset() -> u64 {
    0xcbf29ce484222325
}

/// The prime that the FNV-1a hash multiplies by.
pub open spec fn fnv_prime() -> u64 {
    0x100000001b3
}

/// The FNV-1a hash of `bytes`.
pub open spec fn fingerprint(bytes: Seq<u8>) -> u64
    decreases bytes.len(),
{
    if bytes.len() == 0 {
        fnv_offset()
    } else {
        (fingerprint(bytes.drop_last()) ^ (bytes.last() as u64)).wrapping_mul(fnv_prime())
    }
}

/// What `prefix_len` measures: a prefix without the two characters that ends
/// before one of them or at the end.
pub proof fn lemma_prefix_len(s: Seq<char>, a: char, b: char)
    ensures
        prefix_len(s, a, b) <= s.len(),
        forall|j: int| 0 <= j < prefix_len(s, a, b) ==> #[trigger] s[j] != a && s[j] != b,
        prefix_len(s, a, b) < s.len() ==> s[prefix_len(s, a, b) as int] == a || s[prefix_len(
            s,
            a,
            b,
        ) as int] == b,
    decreases s.len(),
{
    if !(s.len() == 0 || s[0] == a || s[0] == b) {
        let t = s.drop_first();
        lemma_prefix_len(t, a, b);
        assert forall|j: int| 0 <= j < prefix_len(s, a, b) implies #[trigger] s[j] != a && s[j]
            != b by {
            if j > 0 {
                assert(s[j] == t[j - 1]);
            }
        }
        if prefix_len(s, a, b) < s.len() {
            assert(s[prefix_len(s, a, b) as int] == t[prefix_len(t, a, b) as int]);
        }
    }
}

/// A prefix without the two characters that ends before one of them, or at the
/// end, is what `prefix_len` measures.
pub proof fn lemma_prefix_len_is(s: Seq<char>, a: char, b: char, c: int)
    requires
        0 <= c <= s.len(),
        forall|j: int| 0 <= j < c ==> #[trigger] s[j] != a && s[j] != b,
        c < s.len() ==> s[c] == a || s[c] == b,
    ensures
        prefix_len(s, a, b) == c,
    decreases s.len(),
{
    if c > 0 {
        let t = s.drop_first();
        assert(s[0] != a && s[0] != b);
        assert forall|j: int| 0 <= j < c - 1 implies #[trigger] t[j] != a && t[j] != b by {
            assert(t[j] == s[j + 1]);
        }
        if c - 1 < t.len() {
            assert(t[c - 1] == s[c]);
        }
        lemma_prefix_len_is(t, a, b, c - 1);
    }
}

/// The lower-case form of an ASCII letter; any other character as it is.
fn lower_char(c: char) -> (res: char)
    ensures
        res == lower(c),
{
    if 'A' <= c && c <= 'Z' {
        ((c as u8) + 32) as char
    } else {
        c
    }
}

/// The first position from `from` on, and before `end`, where `v` holds `a`
/// or `b`; `end` where it holds neither.
fn find_either(v: &Vec<char>, from: usize, end: usize, a: char, b: char) -> (at: usize)
    requires
        from <= end <= v.len(),
    ensures
        from <= at <= end,
        at - from == prefix_len(v@.subrange(from as int, end as int), a, b),
{
    let ghost part = v@.subrange(from as int, end as int);
    let mut at = from;
    while at < end && v[at] != a && v[at] != b
        invariant
            from <= at <= end <= v.len(),
            part == v@.subrange(from as int, end as int),
            forall|j: int| 0 <= j < at - from ==> #[trigger] part[j] != a && part[j] != b,
        decreases end - at,
    {
        at += 1;
    }
    proof {
        lemma_prefix_len_is(part, a, b, at - from);
    }
    at
}

/// Whether `v` holds the lower-case pattern `p` at `from`, before `end`, the
/// case of ASCII letters aside.
fn starts_at(v: &Vec<char>, from: usize, end: usize, p: &Vec<char>) -> (res: bool)
    requires
        from <= end <= v.len(),
    ensures
        res == starts_with_ci(v@.subrange(from as int, end as int), p@),
{
    let ghost part = v@.subrange(from as int, end as int);
    if p.len() > end - from {
        return false;
    }
    let mut i: usize = 0;
    while i < p.len()
        invariant
            i <= p.len() <= end - from,
            from <= end <= v.len(),
            part == v@.subrange(from as int, end as int),
            forall|j: int| 0 <= j < i ==> lower(#[trigger] part[j]) == p@[j],
        decreases p.len() - i,
    {
        if lower_char(v[from + i]) != p[i] {
            assert(lower(part[i as int]) != p@[i as int]);
            return false;
        }
        i += 1;
    }
    true
}

/// Where `v`, cut at `end`, starts once its schemes and `www.` are taken off.
fn lead_end(v: &Vec<char>, end: usize) -> (start: usize)
    requires
        end <= v.len(),
    ensures
        start <= end,
        strip_leads(v@.take(end as int)) == v@.subrange(start as int, end as int),
{
    let ghost cut = v@.take(end as int);
    let http: Vec<char> = vec!['h', 't', 't', 'p', ':', '/', '/'];
    let https: Vec<char> = vec!['h', 't', 't', 'p', 's', ':', '/', '/'];
    let www_dot: Vec<char> = vec!['w', 'w', 'w', '.'];
    assert(http@ =~= scheme_http());
    assert(https@ =~= scheme_https());
    assert(www_dot@ =~= www());
    let mut start: usize = 0;
    assert(cut.skip(0) =~= cut);
    loop
        invariant_except_break
            strip_leads(cut) == strip_leads(cut.skip(start as int)),
        invariant
            start <= end <= v.len(),
            cut == v@.take(end as int),
            http@ == scheme_http(),
            https@ == scheme_https(),
            www_dot@ == www(),
        ensures
            strip_leads(cut) == cut.skip(start as int),
        decreases end - start,
    {
        assert(v@.subrange(start as int, end as int) =~= cut.skip(start as int));
        let lead: usize = if starts_at(v, start, end, &http) {
            7
        } else if starts_at(v, start, end, &https) {
            8
        } else if starts_at(v, start, end, &www_dot) {
            4
        } else {
            0
        };
        assert(lead == lead_len(cut.skip(start as int)));
        if lead == 0 {
            break ;
        }
        assert(cut.skip(start as int).skip(lead as int) =~= cut.skip(start + lead));
        start += lead;
    }
    assert(v@.subrange(start as int, end as int) =~= cut.skip(start as int));
    start
}

/// Adds to `out` the characters of `v` from `from` to `end`, in lower case.
fn push_lower(v: &Vec<char>, from: usize, end: usize, out: &mut Vec<char>)
    requires
        from <= end <= v.len(),
    ensures
        final(out)@ == old(out)@ + lower_all(v@.subrange(from as int, end as int)),
{
    let ghost part = v@.subrange(from as int, end as int);
    let mut i: usize = from;
    assert(out@ =~= old(out)@ + lower_all(part.take(0)));
    while i < end
        invariant
            from <= i <= end <= v.len(),
            part == v@.subrange(from as int, end as int),
            out@ == old(out)@ + lower_all(part.take(i - from)),
        decreases end - i,
    {
        out.push(lower_char(v[i]));
        assert(out@ =~= old(out)@ + lower_all(part.take(i + 1 - from)));
        i += 1;
    }
    assert(part.take(end - from) =~= part);
}

/// Adds to `out` the characters of `v` from `from` to `end`.
fn push_plain(v: &Vec<char>, from: usize, end: usize, out: &mut Vec<char>)
    requires
        from <= end <= v.len(),
    ensures
        final(out)@ == old(out)@ + v@.subrange(from as int, end as int),
{
    let mut i: usize = from;
    assert(out@ =~= old(out)@ + v@.subrange(from as int, from as int));
    while i < end
        invariant
            from <= i <= end <= v.len(),
            out@ == old(out)@ + v@.subrange(from as int, i as int),
        decreases end - i,
    {
        out.push(v[i]);
        assert(out@ =~= old(out)@ + v@.subrange(from as int, i + 1));
        i += 1;
    }
}

/// Adds to `out` the normal form of the query that `v` holds from `from` to
/// `end`.
fn push_query(v: &Vec<char>, from: usize, end: usize, out: &mut Vec<char>)
    requires
        from <= end <= v.len(),
    ensures
        final(out)@ == old(out)@ + norm_query(v@.subrange(from as int, end as int), false, false),
{
    let ghost query = v@.subrange(from as int, end as int);
    let ghost base = out@;
    let mut named = false;
    let mut valued = false;
    let mut i: usize = from;
    assert(query.skip(0) =~= query);
    assert(base + Seq::<char>::empty() =~= base);
    let ghost mut done: Seq<char> = Seq::empty();
    while i < end
        invariant
            from <= i <= end <= v.len(),
            query == v@.subrange(from as int, end as int),
            out@ == base + done,
            norm_query(query, false, false) == done + norm_query(
                query.skip(i - from),
                named,
                valued,
            ),
        decreases end - i,
    {
        let c = v[i];
        let ghost left = query.skip(i - from);
        assert(left[0] == c);
        assert(left.drop_first() =~= query.skip(i + 1 - from));
        if c == '&' {
            if named && !valued {
                out.push('=');
                proof {
                    done = done.push('=');
                }
            }
            out.push('&');
            proof {
                done = done.push('&');
            }
            named = false;
            valued = false;
        } else {
            out.push(c);
            proof {
                done = done.push(c);
            }
            named = true;
            valued = valued || c == '=';
        }
        assert(out@ =~= base + done);
        assert(norm_query(query, false, false) =~= done + norm_query(
            query.skip(i + 1 - from),
            named,
            valued,
        ));
        i += 1;
    }
    if named && !valued {
        out.push('=');
    }
    assert(out@ =~= base + norm_query(query, false, false));
}

/// Adds to `out` the path and query that `v` holds from `from` to `end`, the
/// query in its normal form.
fn push_rest(v: &Vec<char>, from: usize, end: usize, out: &mut Vec<char>)
    requires
        from <= end <= v.len(),
    ensures
        final(out)@ == old(out)@ + norm_rest(v@.subrange(from as int, end as int)),
{
    let ghost rest = v@.subrange(from as int, end as int);
    let mark = find_either(v, from, end, '?', '?');
    if mark == end {
        push_plain(v, from, end, out);
    } else {
        push_plain(v, from, mark + 1, out);
        push_query(v, mark + 1, end, out);
        assert(v@.subrange(from as int, mark + 1) =~= rest.take(mark + 1 - from));
        assert(v@.subrange(mark + 1, end as int) =~= rest.skip(mark + 1 - from));
        assert(out@ =~= old(out)@ + norm_rest(rest));
    }
}

/// The canonical form of the node name `s`.
fn canonical_chars(s: &str) -> (out: Vec<char>)
    ensures
        out@ == canonical(s@),
{
    let v = to_chars(s);
    let end = find_either(&v, 0, v.len(), '#', '#');
    assert(v@.subrange(0, v.len() as int) =~= v@);
    let start = lead_end(&v, end);
    let ghost bare = v@.subrange(start as int, end as int);
    let host_end = find_either(&v, start, end, '/', '?');
    let mut out: Vec<char> = Vec::new();
    push_lower(&v, start, host_end, &mut out);
    push_rest(&v, host_end, end, &mut out);
    proof {
        let h = host_end - start;
        assert(v@.subrange(start as int, host_end as int) =~= bare.take(h));
        assert(v@.subrange(host_end as int, end as int) =~= bare.skip(h));
        assert(out@ =~= lower_all(bare.take(h)) + norm_rest(bare.skip(h)));
    }
    out
}

/// A node of the graph: a page or a host, by its canonical name. Two nodes
/// are equal where their names are. The name of every node is a canonical
/// name: its canonical form is the name itself.
#[derive(Debug, Hash)]
pub struct Node {
    name: String,
}

impl View for Node {
    type V = Seq<char>;

    closed spec fn view(&self) -> Seq<char> {
        self.name@
    }
}

impl Node {
    /// What holds of every node: its name is its own canonical form.
    #[verifier::type_invariant]
    pub open spec fn named_canonically(&self) -> bool {
        canonical(self@) == self@
    }

    /// The fingerprint of the node: the FNV-1a hash of its name in UTF-8.
    pub open spec fn spec_id(&self) -> NodeID {
        NodeID(fingerprint(vstd::utf8::encode_utf8(self@)))
    }

    /// The fingerprint of the host of a node with the name `name`.
    pub open spec fn spec_host_id(name: Seq<char>) -> NodeID {
        NodeID(fingerprint(vstd::utf8::encode_utf8(host_of(name))))
    }

    /// The node with the canonical form of `name`.
    pub fn new(name: &str) -> (res: Node)
        ensures
            res@ == canonical(name@),
            canonical(res@) == res@,
    {
        let chars = canonical_chars(name);
        proof {
            law_canonical_again(name@);
        }
        Node { name: to_string(&chars) }
    }

    /// The canonical name.
    pub fn as_str(&self) -> (res: &str)
        ensures
            res@ == self@,
            canonical(self@) == self@,
    {
        proof {
            use_type_invariant(self);
        }
        self.name.as_str()
    }

    /// The node of the host: the name up to its first `/` or `?`, which is
    /// the whole host with every subdomain that the name has, `www.` apart.
    /// It is not cut down to the domain that a registry hands out:
    /// `blog.example.co.uk/a` gives `blog.example.co.uk`.
    pub fn into_host(self) -> (res: Node)
        ensures
            res@ == host_of(self@),
            canonical(res@) == res@,
    {
        proof {
            use_type_invariant(&self);
            law_host_canonical(self@);
        }
        let chars = to_chars(self.name.as_str());
        let end = find_either(&chars, 0, chars.len(), '/', '?');
        assert(chars@.subrange(0, chars.len() as int) =~= chars@);
        let mut host = chars;
        host.truncate(end);
        assert(host@ =~= host_of(self@));
        Node { name: to_string(&host) }
    }

    /// The fingerprint of the node.
    pub fn id(&self) -> (res: NodeID)
        ensures
            res == self.spec_id(),
    {
        let bytes = self.name.as_str().as_bytes();
        let n = bytes.len();
        let mut hash: u64 = 0xcbf29ce484222325;
        let mut i: usize = 0;
        while i < n
            invariant
                i <= n,
                n == bytes@.len(),
                hash == fingerprint(bytes@.take(i as int)),
            decreases n - i,
        {
            assert(bytes@.take(i + 1).drop_last() =~= bytes@.take(i as int));
            hash = (hash ^ (bytes[i] as u64)).wrapping_mul(0x100000001b3);
            i += 1;
        }
        assert(bytes@.take(n as int) =~= bytes@);
        NodeID(hash)
    }
}

impl PartialEq for Node {
    fn eq(&self, other: &Node) -> (res: bool) {
        self.name == other.name
    }
}

impl PartialEqSpecImpl for Node {
    open spec fn obeys_eq_spec() -> bool {
        true
    }

    open spec fn eq_spec(&self, other: &Node) -> bool {
        self@ == other@
    }
}

impl Eq for Node {

}

impl Clone for Node {
    fn clone(&self) -> (res: Node)
        ensures
            res == *self,
    {
        proof {
            use_type_invariant(self);
        }
        Node { name: self.name.clone() }
    }
}

impl From<&str> for Node {
    fn from(name: &str) -> (res: Node)
        ensures
            res@ == canonical(name@),
            canonical(res@) == res@,
    {
        Node::new(name)
    }
}

impl From<String> for Node {
    fn from(name: String) -> (res: Node)
        ensures
            res@ == canonical(name@),
            canonical(res@) == res@,
    {
        Node::new(name.as_str())
    }
}

} // verus!

verus! {

impl FromSpecImpl<&str> for Node {
    /// Two nodes of one name need not be the same value, so `from` states its
    /// result by the name alone.
    open spec fn obeys_from_spec() -> bool {
        false
    }

    open spec fn from_spec(name: &str) -> Node {
        choose|node: Node| node@ == canonical(name@)
    }
}

impl FromSpecImpl<String> for Node {
    open spec fn obeys_from_spec() -> bool {
        false
    }

    open spec fn from_spec(name: String) -> Node {
        choose|node: Node| node@ == canonical(name@)
    }
}

} // verus!
