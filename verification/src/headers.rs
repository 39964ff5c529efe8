//! Header mappings for requests and responses: a list of name/value pairs
//! with insert-or-replace semantics, so that a later entry under a name
//! already present overwrites the earlier one in place.

use vstd::prelude::*;

verus! {

/// The view of a header list: each name and value as its character sequence.
pub open spec fn headers_view(h: Seq<(String, String)>) -> Seq<(Seq<char>, Seq<char>)> {
    Seq::new(h.len(), |i: int| (h[i].0@, h[i].1@))
}

/// Insert-or-replace: a new name is appended, a present name (its first
/// occurrence) has its value replaced in place.
pub open spec fn upsert(hs: Seq<(Seq<char>, Seq<char>)>, k: Seq<char>, v: Seq<char>) -> Seq<
    (Seq<char>, Seq<char>),
>
    decreases hs.len(),
{
    if hs.len() == 0 {
        seq![(k, v)]
    } else if hs[0].0 == k {
        seq![(k, v)] + hs.skip(1)
    } else {
        seq![hs[0]] + upsert(hs.skip(1), k, v)
    }
}

/// The value of the first entry named `k`, if one is present.
pub open spec fn lookup(hs: Seq<(Seq<char>, Seq<char>)>, k: Seq<char>) -> Option<Seq<char>>
    decreases hs.len(),
{
    if hs.len() == 0 {
        None
    } else if hs[0].0 == k {
        Some(hs[0].1)
    } else {
        lookup(hs.skip(1), k)
    }
}

/// After an upsert the inserted name maps to the inserted value.
pub proof fn lemma_lookup_upsert_same(hs: Seq<(Seq<char>, Seq<char>)>, k: Seq<char>, v: Seq<char>)
    ensures
        lookup(upsert(hs, k, v), k) == Some(v),
    decreases hs.len(),
{
    if hs.len() == 0 {
    } else if hs[0].0 == k {
        assert((seq![(k, v)] + hs.skip(1))[0] == (k, v));
    } else {
        lemma_lookup_upsert_same(hs.skip(1), k, v);
        assert((seq![hs[0]] + upsert(hs.skip(1), k, v))[0] == hs[0]);
        assert((seq![hs[0]] + upsert(hs.skip(1), k, v)).skip(1) =~= upsert(hs.skip(1), k, v));
    }
}

/// An upsert leaves entries under other names alone.
pub proof fn lemma_lookup_upsert_other(
    hs: Seq<(Seq<char>, Seq<char>)>,
    k: Seq<char>,
    v: Seq<char>,
    k2: Seq<char>,
)
    requires
        k2 != k,
    ensures
        lookup(upsert(hs, k, v), k2) == lookup(hs, k2),
    decreases hs.len(),
{
    if hs.len() == 0 {
        assert(upsert(hs, k, v) == seq![(k, v)]);
        assert(seq![(k, v)][0] == (k, v));
        assert(lookup(seq![(k, v)].skip(1), k2) is None);
        assert(lookup(seq![(k, v)], k2) is None);
        assert(lookup(hs, k2) is None);
    } else if hs[0].0 == k {
        assert((seq![(k, v)] + hs.skip(1))[0] == (k, v));
        assert((seq![(k, v)] + hs.skip(1)).skip(1) =~= hs.skip(1));
        assert(lookup(upsert(hs, k, v), k2) == lookup(hs.skip(1), k2));
        assert(lookup(hs, k2) == lookup(hs.skip(1), k2));
    } else {
        assert((seq![hs[0]] + upsert(hs.skip(1), k, v))[0] == hs[0]);
        assert((seq![hs[0]] + upsert(hs.skip(1), k, v)).skip(1) =~= upsert(hs.skip(1), k, v));
        if hs[0].0 == k2 {
            assert(lookup(upsert(hs, k, v), k2) == Some(hs[0].1));
            assert(lookup(hs, k2) == Some(hs[0].1));
        } else {
            lemma_lookup_upsert_other(hs.skip(1), k, v, k2);
            assert(lookup(upsert(hs, k, v), k2) == lookup(upsert(hs.skip(1), k, v), k2));
            assert(lookup(hs, k2) == lookup(hs.skip(1), k2));
        }
    }
}

/// Upserting the value a name already maps to leaves the headers unchanged.
pub proof fn lemma_upsert_noop(hs: Seq<(Seq<char>, Seq<char>)>, k: Seq<char>, v: Seq<char>)
    requires
        lookup(hs, k) == Some(v),
    ensures
        upsert(hs, k, v) == hs,
    decreases hs.len(),
{
    if hs.len() == 0 {
    } else if hs[0].0 == k {
        assert(hs[0] == (k, v));
        assert(seq![(k, v)] + hs.skip(1) =~= hs);
    } else {
        lemma_upsert_noop(hs.skip(1), k, v);
        assert(seq![hs[0]] + hs.skip(1) =~= hs);
    }
}

/// Replacing the first entry named `k` in place is what `upsert` does when
/// the name is present.
pub proof fn lemma_upsert_at(hs: Seq<(Seq<char>, Seq<char>)>, k: Seq<char>, v: Seq<char>, i: int)
    requires
        0 <= i < hs.len(),
        hs[i].0 == k,
        forall|t: int| 0 <= t < i ==> hs[t].0 != k,
    ensures
        upsert(hs, k, v) == hs.update(i, (k, v)),
    decreases i,
{
    if i == 0 {
        assert(seq![(k, v)] + hs.skip(1) =~= hs.update(0, (k, v)));
    } else {
        assert(hs[0].0 != k);
        assert forall|t: int| 0 <= t < i - 1 implies hs.skip(1)[t].0 != k by {
            assert(hs.skip(1)[t] == hs[t + 1]);
        }
        assert(hs.skip(1)[i - 1] == hs[i]);
        lemma_upsert_at(hs.skip(1), k, v, i - 1);
        assert(seq![hs[0]] + hs.skip(1).update(i - 1, (k, v)) =~= hs.update(i, (k, v)));
    }
}

/// Appending is what `upsert` does when the name is absent.
pub proof fn lemma_upsert_append(hs: Seq<(Seq<char>, Seq<char>)>, k: Seq<char>, v: Seq<char>)
    requires
        forall|t: int| 0 <= t < hs.len() ==> hs[t].0 != k,
    ensures
        upsert(hs, k, v) == hs.push((k, v)),
    decreases hs.len(),
{
    if hs.len() == 0 {
        assert(seq![(k, v)] =~= hs.push((k, v)));
    } else {
        assert forall|t: int| 0 <= t < hs.skip(1).len() implies hs.skip(1)[t].0 != k by {
            assert(hs.skip(1)[t] == hs[t + 1]);
        }
        lemma_upsert_append(hs.skip(1), k, v);
        assert(seq![hs[0]] + hs.skip(1).push((k, v)) =~= hs.push((k, v)));
    }
}

/// Inserts the header `name` with `value`, replacing the first entry of that
/// name if one is present and appending otherwise.
pub fn upsert_header(headers: &mut Vec<(String, String)>, name: String, value: String)
    ensures
        headers_view(final(headers)@) == upsert(headers_view(old(headers)@), name@, value@),
{
    let ghost hv0 = headers_view(headers@);
    let n = headers.len();
    let mut idx: usize = 0;
    while idx < n
        invariant
            idx <= n,
            n == headers@.len(),
            headers_view(headers@) == hv0,
            hv0 == headers_view(old(headers)@),
            forall|t: int| 0 <= t < idx ==> hv0[t].0 != name@,
        decreases n - idx,
    {
        if headers[idx].0 == name {
            assert(hv0[idx as int].0 == name@);
            headers.remove(idx);
            headers.insert(idx, (name, value));
            proof {
                lemma_upsert_at(hv0, name@, value@, idx as int);
                assert(headers_view(headers@) =~= hv0.update(idx as int, (name@, value@)));
                assert(headers_view(headers@) == upsert(hv0, name@, value@));
            }
            return ;
        }
        assert(hv0[idx as int].0 != name@);
        idx = idx + 1;
    }
    headers.push((name, value));
    proof {
        lemma_upsert_append(hv0, name@, value@);
        assert(headers_view(headers@) =~= hv0.push((name@, value@)));
    }
}

} // verus!
