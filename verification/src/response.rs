use vstd::prelude::*;
use vstd::slice::slice_to_vec;
use vstd::utf8::*;

use crate::error::ClawserError;
use crate::utf8_text::string_from_utf8;

verus! {

/// The view of an optional string.
pub open spec fn opt_view(o: Option<String>) -> Option<Seq<char>> {
    match o {
        Some(s) => Some(s@),
        None => None,
    }
}

/// The views of the header entries the engine lists: a name and a value
/// each, either of which the engine may fail to give.
pub open spec fn entries_view(e: Seq<(Option<String>, Option<String>)>) -> Seq<(Option<Seq<char>>, Option<Seq<char>>)> {
    e.map_values(|p: (Option<String>, Option<String>)| (opt_view(p.0), opt_view(p.1)))
}

/// The header map that a list of entries makes: entries are taken in
/// order, one without a name or a value is skipped, and a later entry for
/// a name replaces an earlier one.
pub open spec fn header_map(entries: Seq<(Option<Seq<char>>, Option<Seq<char>>)>) -> Map<Seq<char>, Seq<char>>
    decreases entries.len(),
{
    if entries.len() == 0 {
        Map::empty()
    } else {
        let m = header_map(entries.drop_last());
        match entries.last() {
            (Some(n), Some(v)) => m.insert(n, v),
            _ => m,
        }
    }
}

/// Every entry that has a name and a value, and after which no entry with
/// both a name and a value has the same name, gives the map its value for
/// that name, however many entries there are.
pub proof fn lemma_header_map_keeps_last_complete_entry(
    e: Seq<(Option<Seq<char>>, Option<Seq<char>>)>,
    i: int,
    n: Seq<char>,
    v: Seq<char>,
)
    requires
        0 <= i < e.len(),
        e[i] == (Some(n), Some(v)),
        forall|j: int| i < j < e.len() ==> !(#[trigger] e[j] matches (Some(m), Some(_)) && m == n),
    ensures
        header_map(e).contains_key(n),
        header_map(e)[n] == v,
    decreases e.len(),
{
    if i < e.len() - 1 {
        let d = e.drop_last();
        assert forall|j: int| i < j < d.len() implies !(#[trigger] d[j] matches (Some(m), Some(_)) && m == n) by {
            assert(d[j] == e[j]);
        }
        lemma_header_map_keeps_last_complete_entry(d, i, n, v);
        let last = e[e.len() - 1];
        assert(!(last matches (Some(m), Some(_)) && m == n));
    }
}

/// Every name in the map comes from an entry that has that name and the
/// value the map gives it.
pub proof fn lemma_header_map_names_come_from_entries(
    e: Seq<(Option<Seq<char>>, Option<Seq<char>>)>,
    n: Seq<char>,
)
    requires
        header_map(e).contains_key(n),
    ensures
        exists|i: int| 0 <= i < e.len() && #[trigger] e[i] == (Some(n), Some(header_map(e)[n])),
    decreases e.len(),
{
    if e.len() > 0 {
        let d = e.drop_last();
        let last = e[e.len() - 1];
        match last {
            (Some(m), Some(w)) => {
                if m == n {
                    assert(e[e.len() - 1] == (Some(n), Some(header_map(e)[n])));
                } else {
                    lemma_header_map_names_come_from_entries(d, n);
                    let i = choose|i: int| 0 <= i < d.len() && #[trigger] d[i] == (Some(n), Some(header_map(d)[n]));
                    assert(e[i] == d[i]);
                }
            },
            _ => {
                lemma_header_map_names_come_from_entries(d, n);
                let i = choose|i: int| 0 <= i < d.len() && #[trigger] d[i] == (Some(n), Some(header_map(d)[n]));
                assert(e[i] == d[i]);
            },
        }
    }
}

/// The views of a list of (name, value) pairs.
pub open spec fn pairs_view(p: Seq<(String, String)>) -> Seq<(Seq<char>, Seq<char>)> {
    p.map_values(|x: (String, String)| (x.0@, x.1@))
}

/// The map that a list of (name, value) pairs makes, later pairs winning.
pub open spec fn pairs_map(p: Seq<(Seq<char>, Seq<char>)>) -> Map<Seq<char>, Seq<char>>
    decreases p.len(),
{
    if p.len() == 0 {
        Map::empty()
    } else {
        pairs_map(p.drop_last()).insert(p.last().0, p.last().1)
    }
}

/// No name occurs twice in the list.
pub open spec fn distinct_names(p: Seq<(Seq<char>, Seq<char>)>) -> bool {
    forall|i: int, j: int| 0 <= i < p.len() && 0 <= j < p.len() && i != j ==> #[trigger] p[i].0 != #[trigger] p[j].0
}

proof fn lemma_pairs_view_push(p: Seq<(String, String)>, x: (String, String))
    ensures
        pairs_view(p.push(x)) == pairs_view(p).push((x.0@, x.1@)),
{
    assert(pairs_view(p.push(x)) =~= pairs_view(p).push((x.0@, x.1@)));
}

proof fn lemma_pairs_view_update(p: Seq<(String, String)>, i: int, x: (String, String))
    requires
        0 <= i < p.len(),
    ensures
        pairs_view(p.update(i, x)) == pairs_view(p).update(i, (x.0@, x.1@)),
{
    assert(pairs_view(p.update(i, x)) =~= pairs_view(p).update(i, (x.0@, x.1@)));
}

proof fn lemma_pairs_map_update(p: Seq<(Seq<char>, Seq<char>)>, i: int, v: Seq<char>)
    requires
        0 <= i < p.len(),
        distinct_names(p),
    ensures
        pairs_map(p.update(i, (p[i].0, v))) == pairs_map(p).insert(p[i].0, v),
    decreases p.len(),
{
    let k = p[i].0;
    let q = p.update(i, (k, v));
    if i == p.len() - 1 {
        assert(q.drop_last() =~= p.drop_last());
        assert(pairs_map(q) =~= pairs_map(p).insert(k, v));
    } else {
        let d = p.drop_last();
        assert(distinct_names(d)) by {
            assert forall|a: int, b: int| 0 <= a < d.len() && 0 <= b < d.len() && a != b implies #[trigger] d[a].0 != #[trigger] d[b].0 by {
                assert(d[a] == p[a]);
                assert(d[b] == p[b]);
            }
        }
        lemma_pairs_map_update(d, i, v);
        assert(q.drop_last() =~= d.update(i, (k, v)));
        assert(p.last().0 != k) by {
            assert(p[p.len() - 1].0 != p[i].0);
        }
        assert(pairs_map(q) =~= pairs_map(p).insert(k, v));
    }
}

/// For a list of pairs with no repeated name, the map it makes sends a
/// name to a value exactly when the pair (name, value) is in the list.
pub proof fn lemma_pairs_map_is_the_list(p: Seq<(Seq<char>, Seq<char>)>, n: Seq<char>, v: Seq<char>)
    requires
        distinct_names(p),
    ensures
        (pairs_map(p).contains_key(n) && pairs_map(p)[n] == v) <==> exists|i: int|
            0 <= i < p.len() && #[trigger] p[i] == (n, v),
    decreases p.len(),
{
    if p.len() > 0 {
        let d = p.drop_last();
        assert(distinct_names(d)) by {
            assert forall|a: int, b: int| 0 <= a < d.len() && 0 <= b < d.len() && a != b implies #[trigger] d[a].0 != #[trigger] d[b].0 by {
                assert(d[a] == p[a]);
                assert(d[b] == p[b]);
            }
        }
        lemma_pairs_map_is_the_list(d, n, v);
        let l = p[p.len() - 1];
        if exists|i: int| 0 <= i < p.len() && #[trigger] p[i] == (n, v) {
            let i = choose|i: int| 0 <= i < p.len() && #[trigger] p[i] == (n, v);
            if i < p.len() - 1 {
                assert(d[i] == p[i]);
                assert(p[i].0 != p[p.len() - 1].0);
            }
        }
        if l.0 != n && pairs_map(d).contains_key(n) && pairs_map(d)[n] == v {
            let i = choose|i: int| 0 <= i < d.len() && #[trigger] d[i] == (n, v);
            assert(p[i] == d[i]);
        }
        if l.0 == n {
            assert forall|i: int| 0 <= i < d.len() implies #[trigger] d[i].0 != n by {
                assert(d[i] == p[i]);
                assert(p[i].0 != p[p.len() - 1].0);
            }
        }
    }
}

/// What the engine reported of a response, read once when the request was
/// sent.
pub struct Response {
    status_code: i32,
    header_entries: Vec<(Option<String>, Option<String>)>,
    body: Vec<u8>,
    url: Option<String>,
}

impl Response {
    /// The status code the engine reported.
    pub closed spec fn spec_status_code(&self) -> i32 {
        self.status_code
    }

    /// The header entries the engine listed, in its order.
    pub closed spec fn spec_entries(&self) -> Seq<(Option<Seq<char>>, Option<Seq<char>>)> {
        entries_view(self.header_entries@)
    }

    /// The body bytes.
    pub closed spec fn spec_body(&self) -> Seq<u8> {
        self.body@
    }

    /// The final URL the engine reported, if it reported one.
    pub closed spec fn spec_url(&self) -> Option<Seq<char>> {
        opt_view(self.url)
    }

    /// A response from what the engine reported: its status code, its
    /// header entries, its body (`None` when the engine gave no body) and
    /// its final URL (`None` when the engine gave none).
    pub fn from_parts(
        status_code: i32,
        header_entries: Vec<(Option<String>, Option<String>)>,
        body: Option<Vec<u8>>,
        url: Option<String>,
    ) -> (res: Self)
        ensures
            res.spec_status_code() == status_code,
            res.spec_entries() == entries_view(header_entries@),
            res.spec_body() == (match body {
                Some(b) => b@,
                None => Seq::<u8>::empty(),
            }),
            res.spec_url() == opt_view(url),
    {
        let body = match body {
            Some(b) => b,
            None => Vec::new(),
        };
        Response { status_code, header_entries, body, url }
    }

    /// The HTTP status code: the engine's code taken modulo 2^16, as a cast
    /// of the engine's `i32` to `u16` gives it.
    pub fn status(&self) -> (res: u16)
        ensures
            res as int == (self.spec_status_code() as int) % 65536,
    {
        let c: i64 = self.status_code as i64;
        let shifted: u64 = (c + 4294967296i64) as u64;
        proof {
            vstd::arithmetic::div_mod::lemma_mod_multiples_vanish(65536, c as int, 65536);
        }
        (shifted % 65536) as u16
    }

    /// The headers as (name, value) pairs: every entry that has both a name
    /// and a value, a later entry for a name replacing an earlier one. No
    /// name occurs twice, so the pairs are exactly the entries of a map.
    pub fn headers(&self) -> (res: Vec<(String, String)>)
        ensures
            distinct_names(pairs_view(res@)),
            pairs_map(pairs_view(res@)) == header_map(self.spec_entries()),
    {
        let mut out: Vec<(String, String)> = Vec::new();
        let n = self.header_entries.len();
        let ghost entries = self.spec_entries();
        for k in 0..n
            invariant
                n == self.header_entries@.len(),
                entries == self.spec_entries(),
                entries == entries_view(self.header_entries@),
                distinct_names(pairs_view(out@)),
                pairs_map(pairs_view(out@)) == header_map(entries.take(k as int)),
        {
            proof {
                assert(entries.take(k + 1).drop_last() =~= entries.take(k as int));
                assert(entries.take(k + 1).last() == entries[k as int]);
            }
            let entry = &self.header_entries[k];
            match entry {
                (Some(name), Some(value)) => {
                    let ghost pv = pairs_view(out@);
                    let mut i: usize = 0;
                    let mut found = false;
                    while i < out.len()
                        invariant_except_break
                            i <= out@.len(),
                            pv == pairs_view(out@),
                            forall|j: int| 0 <= j < i ==> #[trigger] pv[j].0 != name@,
                            !found,
                        ensures
                            i <= out@.len(),
                            found ==> i < out@.len() && pv[i as int].0 == name@,
                            !found ==> forall|j: int| 0 <= j < out@.len() ==> #[trigger] pv[j].0 != name@,
                        decreases out@.len() - i,
                    {
                        if out[i].0 == *name {
                            found = true;
                            break;
                        }
                        i = i + 1;
                    }
                    let pair = (name.clone(), value.clone());
                    if found {
                        proof {
                            lemma_pairs_view_update(out@, i as int, pair);
                            lemma_pairs_map_update(pv, i as int, value@);
                            let q = pv.update(i as int, (name@, value@));
                            assert forall|a: int, b: int| 0 <= a < q.len() && 0 <= b < q.len() && a != b implies #[trigger] q[a].0 != #[trigger] q[b].0 by {
                                if a == i {
                                    assert(pv[a].0 == q[a].0);
                                }
                                if b == i {
                                    assert(pv[b].0 == q[b].0);
                                }
                                assert(pv[a].0 != pv[b].0);
                            }
                        }
                        out.set(i, pair);
                    } else {
                        proof {
                            lemma_pairs_view_push(out@, pair);
                            let q = pv.push((name@, value@));
                            assert(q.drop_last() =~= pv);
                            assert forall|a: int, b: int| 0 <= a < q.len() && 0 <= b < q.len() && a != b implies #[trigger] q[a].0 != #[trigger] q[b].0 by {
                                if a < pv.len() && b < pv.len() {
                                    assert(pv[a].0 != pv[b].0);
                                } else if a < pv.len() {
                                    assert(pv[a].0 != name@);
                                } else {
                                    assert(pv[b].0 != name@);
                                }
                            }
                        }
                        out.push(pair);
                    }
                },
                _ => {},
            }
        }
        proof {
            assert(entries.take(n as int) =~= entries);
        }
        out
    }

    /// The body bytes.
    pub fn body(&self) -> (res: &[u8])
        ensures
            res@ == self.spec_body(),
    {
        self.body.as_slice()
    }

    /// The body as text; `InvalidUtf8` when it is not valid UTF-8.
    pub fn text(&self) -> (res: Result<String, ClawserError>)
        ensures
            res is Ok <==> valid_utf8(self.spec_body()),
            res matches Ok(s) ==> s@ == decode_utf8(self.spec_body()),
            res matches Err(e) ==> e is InvalidUtf8,
    {
        match string_from_utf8(slice_to_vec(self.body.as_slice())) {
            Some(s) => Ok(s),
            None => Err(ClawserError::InvalidUtf8),
        }
    }

    /// The final URL; empty when the engine reported none.
    pub fn url(&self) -> (res: String)
        ensures
            res@ == (match self.spec_url() {
                Some(u) => u,
                None => Seq::<char>::empty(),
            }),
    {
        match &self.url {
            Some(u) => u.clone(),
            None => String::new(),
        }
    }
}

} // verus!
