//! The response serializer: a structured response becomes wire bytes. Three
//! mandatory headers — `Server`, `Content-Length`, `Content-Type` — are
//! injected into the response's header mapping, the status line is rendered
//! as `HTTP/1.1 <code> <reason>`, header lines are emitted sorted by their
//! full rendered text, and the body follows a blank line verbatim.

use crate::headers::headers_view;
use crate::headers::lemma_lookup_upsert_other;
use crate::headers::lemma_lookup_upsert_same;
use crate::headers::lemma_upsert_noop;
use crate::headers::lookup;
use crate::headers::upsert;
use crate::headers::upsert_header;
use crate::text::dec_str;
use crate::text::lemma_lex_le_total;
use crate::text::lemma_lex_le_trans;
use crate::text::lex_le;
use crate::text::str_lex_le;
use crate::text::strings_view;
use crate::text::usize_to_string;
use vstd::multiset::Multiset;
use vstd::prelude::*;
use vstd::string::StrSliceExecFns;
use vstd::string::StringExecFns;
use vstd::utf8::valid_utf8;

verus! {

/// A response under construction: handlers fill it, the serializer turns it
/// into bytes. The body must decode as UTF-8 text and the status code must be
/// one of the supported set before serialization.
pub struct HttpResponse {
    pub body: Vec<u8>,
    pub headers: Vec<(String, String)>,
    pub status_code: u16,
    pub content_type: String,
}

impl Default for HttpResponse {
    /// An empty response: status 0, no body, no headers, empty content type.
    /// The status code must be set before the response can be serialized.
    fn default() -> (r: HttpResponse)
        ensures
            r.status_code == 0,
            r.body@ == Seq::<u8>::empty(),
            r.headers@ == Seq::<(String, String)>::empty(),
            r.content_type@ == Seq::<char>::empty(),
    {
        HttpResponse {
            body: Vec::new(),
            headers: Vec::new(),
            status_code: 0,
            content_type: String::new(),
        }
    }
}

/// The status codes the serializer knows a reason phrase for.
pub open spec fn supported_status(code: u16) -> bool {
    code == 200 || code == 400 || code == 404 || code == 500
}

/// The reason phrase of a supported status code.
pub open spec fn reason_phrase(code: u16) -> Seq<char> {
    if code == 200 {
        "OK"@
    } else if code == 400 {
        "Bad Request"@
    } else if code == 404 {
        "Not Found"@
    } else {
        "Internal Server Error"@
    }
}

/// The reason phrase of a supported status code; any other code is a usage
/// error and is never serialized.
pub fn status_code_message(status_code: u16) -> (r: String)
    requires
        supported_status(status_code),
    ensures
        r@ == reason_phrase(status_code),
{
    if status_code == 200 {
        "OK".to_owned()
    } else if status_code == 400 {
        "Bad Request".to_owned()
    } else if status_code == 404 {
        "Not Found".to_owned()
    } else {
        "Internal Server Error".to_owned()
    }
}

/// A header as it stands on the wire, terminator included.
pub open spec fn rendered_line(k: Seq<char>, v: Seq<char>) -> Seq<char> {
    k + ": "@ + v + "\r\n"@
}

/// The rendered lines of a header list, in the list's order.
pub open spec fn rendered_lines(hs: Seq<(Seq<char>, Seq<char>)>) -> Seq<Seq<char>> {
    Seq::new(hs.len(), |i: int| rendered_line(hs[i].0, hs[i].1))
}

/// Inserts `x` into a sorted list of lines, before the first line it is not
/// greater than.
pub open spec fn insert_lex(x: Seq<char>, s: Seq<Seq<char>>) -> Seq<Seq<char>>
    decreases s.len(),
{
    if s.len() == 0 {
        seq![x]
    } else if lex_le(x, s[0]) {
        seq![x] + s
    } else {
        seq![s[0]] + insert_lex(x, s.skip(1))
    }
}

/// Sorts lines into lexicographic order by insertion.
pub open spec fn sort_lex(s: Seq<Seq<char>>) -> Seq<Seq<char>>
    decreases s.len(),
{
    if s.len() == 0 {
        s
    } else {
        insert_lex(s[0], sort_lex(s.skip(1)))
    }
}

/// Lines in non-decreasing lexicographic order.
pub open spec fn sorted_lex(s: Seq<Seq<char>>) -> bool {
    forall|a: int, b: int| 0 <= a < b < s.len() ==> lex_le(s[a], s[b])
}

/// Prepending an element to a sequence inserts it into the multiset.
proof fn lemma_prepend_multiset(x: Seq<char>, s: Seq<Seq<char>>)
    ensures
        (seq![x] + s).to_multiset() == s.to_multiset().insert(x),
{
    broadcast use vstd::multiset::group_multiset_axioms;
    broadcast use vstd::seq_lib::group_seq_lib_default;

    vstd::seq_lib::lemma_multiset_commutative(seq![x], s);
    assert(seq![x] =~= Seq::<Seq<char>>::empty().push(x));
    Seq::<Seq<char>>::empty().to_multiset_ensures();
    assert(Seq::<Seq<char>>::empty().to_multiset() =~= Multiset::<Seq<char>>::empty());
    assert(seq![x].to_multiset() =~= Multiset::<Seq<char>>::empty().insert(x));
    assert((seq![x] + s).to_multiset() =~= s.to_multiset().insert(x));
}

/// What inserting a line keeps and where it leaves it: one line longer, the
/// same lines plus the new one, and sorted if the list was.
pub proof fn lemma_insert_lex_props(x: Seq<char>, s: Seq<Seq<char>>)
    ensures
        insert_lex(x, s).len() == s.len() + 1,
        insert_lex(x, s).to_multiset() == s.to_multiset().insert(x),
        forall|t: int|
            0 <= t < insert_lex(x, s).len() ==> (#[trigger] insert_lex(x, s)[t] == x || s.contains(
                insert_lex(x, s)[t],
            )),
        sorted_lex(s) ==> sorted_lex(insert_lex(x, s)),
    decreases s.len(),
{
    broadcast use vstd::seq_lib::group_seq_lib_default;

    let r = insert_lex(x, s);
    if s.len() == 0 {
        assert(seq![x] =~= seq![x] + s);
        lemma_prepend_multiset(x, s);
    } else if lex_le(x, s[0]) {
        lemma_prepend_multiset(x, s);
        assert forall|t: int| 0 <= t < r.len() implies (#[trigger] r[t] == x || s.contains(
            r[t],
        )) by {
            if t > 0 {
                assert(r[t] == s[t - 1]);
            }
        }
        if sorted_lex(s) {
            assert forall|a: int, b: int| 0 <= a < b < r.len() implies lex_le(r[a], r[b]) by {
                if a == 0 {
                    if b == 1 {
                        assert(r[b] == s[0]);
                    } else {
                        assert(r[b] == s[b - 1]);
                        lemma_lex_le_trans(x, s[0], s[b - 1]);
                    }
                } else {
                    assert(r[a] == s[a - 1] && r[b] == s[b - 1]);
                }
            }
        }
    } else {
        broadcast use vstd::multiset::group_multiset_axioms;

        lemma_insert_lex_props(x, s.skip(1));
        let rr = insert_lex(x, s.skip(1));
        assert(r =~= seq![s[0]] + rr);
        lemma_prepend_multiset(s[0], rr);
        lemma_prepend_multiset(s[0], s.skip(1));
        assert(s =~= seq![s[0]] + s.skip(1));
        assert(r.to_multiset() =~= s.to_multiset().insert(x));
        assert forall|t: int| 0 <= t < r.len() implies (#[trigger] r[t] == x || s.contains(
            r[t],
        )) by {
            if t == 0 {
                assert(r[0] == s[0]);
            } else {
                assert(r[t] == rr[t - 1]);
                if rr[t - 1] == x {
                } else {
                    assert(s.skip(1).contains(rr[t - 1]));
                    let w = choose|w: int| 0 <= w < s.skip(1).len() && s.skip(1)[w] == rr[t - 1];
                    assert(s[w + 1] == rr[t - 1]);
                }
            }
        }
        if sorted_lex(s) {
            assert forall|a: int, b: int|
                0 <= a < b < s.skip(1).len() implies lex_le(s.skip(1)[a], s.skip(1)[b]) by {
                assert(s.skip(1)[a] == s[a + 1] && s.skip(1)[b] == s[b + 1]);
            }
            assert(sorted_lex(s.skip(1)));
            lemma_lex_le_total(x, s[0]);
            assert(lex_le(s[0], x));
            assert forall|a: int, b: int| 0 <= a < b < r.len() implies lex_le(r[a], r[b]) by {
                if a == 0 {
                    assert(r[b] == rr[b - 1]);
                    if rr[b - 1] == x {
                    } else {
                        let w = choose|w: int|
                            0 <= w < s.skip(1).len() && s.skip(1)[w] == rr[b - 1];
                        assert(s[w + 1] == rr[b - 1]);
                        assert(lex_le(s[0], s[w + 1]));
                    }
                } else {
                    assert(r[a] == rr[a - 1] && r[b] == rr[b - 1]);
                    assert(sorted_lex(rr));
                }
            }
        }
    }
}

/// Sorting keeps exactly the given lines and orders them.
pub proof fn lemma_sort_lex_sorted(ls: Seq<Seq<char>>)
    ensures
        sort_lex(ls).len() == ls.len(),
        sort_lex(ls).to_multiset() == ls.to_multiset(),
        sorted_lex(sort_lex(ls)),
    decreases ls.len(),
{
    broadcast use vstd::seq_lib::group_seq_lib_default;

    if ls.len() == 0 {
    } else {
        broadcast use vstd::multiset::group_multiset_axioms;

        lemma_sort_lex_sorted(ls.skip(1));
        lemma_insert_lex_props(ls[0], sort_lex(ls.skip(1)));
        lemma_prepend_multiset(ls[0], ls.skip(1));
        assert(ls =~= seq![ls[0]] + ls.skip(1));
        assert(sort_lex(ls).to_multiset() =~= ls.to_multiset());
    }
}

/// Places `x` at position `j` when everything before is smaller and what
/// stands at `j` is not.
proof fn lemma_insert_lex_at(s: Seq<Seq<char>>, x: Seq<char>, j: int)
    requires
        0 <= j <= s.len(),
        forall|t: int| 0 <= t < j ==> !lex_le(x, #[trigger] s[t]),
        j < s.len() ==> lex_le(x, s[j]),
    ensures
        insert_lex(x, s) == s.insert(j, x),
    decreases j,
{
    if j == 0 {
        if s.len() == 0 {
            assert(seq![x] =~= s.insert(0, x));
        } else {
            assert(seq![x] + s =~= s.insert(0, x));
        }
    } else {
        assert(!lex_le(x, s[0]));
        assert forall|t: int| 0 <= t < j - 1 implies !lex_le(x, #[trigger] s.skip(1)[t]) by {
            assert(s.skip(1)[t] == s[t + 1]);
        }
        if j - 1 < s.skip(1).len() {
            assert(s.skip(1)[j - 1] == s[j]);
        }
        lemma_insert_lex_at(s.skip(1), x, j - 1);
        assert(seq![s[0]] + s.skip(1).insert(j - 1, x) =~= s.insert(j, x));
    }
}

/// Inserts a line into an already sorted vector, keeping it sorted.
fn insert_sorted(acc: &mut Vec<String>, x: String)
    ensures
        strings_view(final(acc)@) == insert_lex(x@, strings_view(old(acc)@)),
{
    let ghost sv = strings_view(acc@);
    let n = acc.len();
    let mut j: usize = 0;
    while j < n && !str_lex_le(x.as_str(), acc[j].as_str())
        invariant
            j <= n,
            n == acc@.len(),
            strings_view(acc@) == sv,
            sv == strings_view(old(acc)@),
            forall|t: int| 0 <= t < j ==> !lex_le(x@, #[trigger] sv[t]),
        decreases n - j,
    {
        j = j + 1;
    }
    proof {
        lemma_insert_lex_at(sv, x@, j as int);
    }
    acc.insert(j, x);
    proof {
        assert(strings_view(acc@) =~= sv.insert(j as int, x@));
    }
}

/// Sorts rendered header lines into lexicographic order.
fn sort_lines(lines: &Vec<String>) -> (r: Vec<String>)
    ensures
        strings_view(r@) == sort_lex(strings_view(lines@)),
{
    let ghost lv = strings_view(lines@);
    let mut acc: Vec<String> = Vec::new();
    let mut i = lines.len();
    proof {
        assert(lv.skip(lines@.len() as int).len() == 0);
        assert(strings_view(acc@) =~= sort_lex(lv.skip(lines@.len() as int)));
    }
    while i > 0
        invariant
            i <= lines@.len(),
            lv == strings_view(lines@),
            strings_view(acc@) == sort_lex(lv.skip(i as int)),
        decreases i,
    {
        i = i - 1;
        let x = lines[i].clone();
        proof {
            assert(lv.skip(i as int)[0] == lv[i as int]);
            assert(lv.skip(i as int).skip(1) =~= lv.skip(i + 1));
            assert(sort_lex(lv.skip(i as int)) == insert_lex(lv[i as int], sort_lex(lv.skip(i + 1))));
        }
        insert_sorted(&mut acc, x);
    }
    proof {
        assert(lv.skip(0) =~= lv);
    }
    acc
}

/// The characters of the rendered header lines, one after another.
pub open spec fn concat_lines(ls: Seq<Seq<char>>) -> Seq<char>
    decreases ls.len(),
{
    if ls.len() == 0 {
        Seq::empty()
    } else {
        ls[0] + concat_lines(ls.skip(1))
    }
}

/// The header mapping after serialization: the caller's headers with the
/// three mandatory entries inserted.
pub open spec fn spec_inject_headers(r: HttpResponse) -> Seq<(Seq<char>, Seq<char>)> {
    upsert(
        upsert(
            upsert(headers_view(r.headers@), "Server"@, "rust-http/0.1"@),
            "Content-Length"@,
            dec_str(r.body@.len() as int),
        ),
        "Content-Type"@,
        r.content_type@,
    )
}

/// The head of the wire form: status line, sorted header lines, blank line.
pub open spec fn spec_head_chars(r: HttpResponse) -> Seq<char> {
    "HTTP/1.1 "@ + dec_str(r.status_code as int) + " "@ + reason_phrase(r.status_code) + "\r\n"@
        + concat_lines(sort_lex(rendered_lines(spec_inject_headers(r)))) + "\r\n"@
}

/// The full wire form: the head encoded as UTF-8, then the body verbatim.
pub open spec fn spec_serialize_bytes(r: HttpResponse) -> Seq<u8> {
    vstd::utf8::encode_utf8(spec_head_chars(r)) + r.body@
}

impl HttpResponse {
    /// A response with the given status and everything else empty.
    pub fn with_status(status_code: u16) -> (r: HttpResponse)
        ensures
            r.status_code == status_code,
            r.body@ == Seq::<u8>::empty(),
            r.headers@ == Seq::<(String, String)>::empty(),
            r.content_type@ == Seq::<char>::empty(),
    {
        HttpResponse {
            body: Vec::new(),
            headers: Vec::new(),
            status_code,
            content_type: String::new(),
        }
    }

    /// Serializes the response, first injecting the `Server`,
    /// `Content-Length` and `Content-Type` headers into its mapping. The
    /// status code must be supported and the body valid UTF-8 text.
    pub fn serialize(&mut self) -> (out: Vec<u8>)
        requires
            supported_status(old(self).status_code),
            valid_utf8(old(self).body@),
        ensures
            final(self).status_code == old(self).status_code,
            final(self).body == old(self).body,
            final(self).content_type == old(self).content_type,
            headers_view(final(self).headers@) == spec_inject_headers(*old(self)),
            out@ == spec_serialize_bytes(*old(self)),
    {
        let ghost r0 = *self;

        // Status line.
        let mut head = "HTTP/1.1 ".to_owned();
        let code_str = usize_to_string(self.status_code as usize);
        head.append(code_str.as_str());
        head.append(" ");
        let msg = status_code_message(self.status_code);
        head.append(msg.as_str());
        head.append("\r\n");

        // The three mandatory headers.
        let len_str = usize_to_string(self.body.len());
        upsert_header(&mut self.headers, "Server".to_owned(), "rust-http/0.1".to_owned());
        upsert_header(&mut self.headers, "Content-Length".to_owned(), len_str);
        upsert_header(&mut self.headers, "Content-Type".to_owned(), self.content_type.clone());
        proof {
            assert(headers_view(self.headers@) == spec_inject_headers(r0));
        }

        // Render and sort the header lines.
        let ghost hv = headers_view(self.headers@);
        let hn = self.headers.len();
        let mut lines: Vec<String> = Vec::new();
        let mut hi: usize = 0;
        proof {
            assert(strings_view(lines@) =~= rendered_lines(hv).take(0));
        }
        while hi < hn
            invariant
                hi <= hn,
                hn == self.headers@.len(),
                hv == headers_view(self.headers@),
                lines@.len() == hi,
                strings_view(lines@) == rendered_lines(hv).take(hi as int),
            decreases hn - hi,
        {
            let mut line = self.headers[hi].0.clone();
            line.append(": ");
            line.append(self.headers[hi].1.as_str());
            line.append("\r\n");
            proof {
                assert(line@ == rendered_line(hv[hi as int].0, hv[hi as int].1));
                assert forall|t: int|
                    0 <= t < hi + 1 implies strings_view(lines@.push(line))[t] == rendered_lines(
                    hv,
                ).take(hi + 1)[t] by {
                    assert(rendered_lines(hv).take(hi + 1)[t] == rendered_lines(hv)[t]);
                    if t < hi {
                        assert(lines@.push(line)[t] == lines@[t]);
                        assert(strings_view(lines@)[t] == rendered_lines(hv).take(hi as int)[t]);
                        assert(rendered_lines(hv).take(hi as int)[t] == rendered_lines(hv)[t]);
                    } else {
                        assert(lines@.push(line)[t] == line);
                    }
                }
                assert(strings_view(lines@.push(line)) =~= rendered_lines(hv).take(hi + 1));
            }
            lines.push(line);
            hi = hi + 1;
        }
        proof {
            assert(rendered_lines(hv).take(hn as int) =~= rendered_lines(hv));
        }
        let sorted = sort_lines(&lines);

        // The sorted lines, then the blank line, then the body.
        let ghost sv = strings_view(sorted@);
        let sn = sorted.len();
        let mut si: usize = 0;
        let ghost base = head@;
        proof {
            assert(sv.skip(0) =~= sv);
        }
        while si < sn
            invariant
                si <= sn,
                sn == sorted@.len(),
                sv == strings_view(sorted@),
                head@ + concat_lines(sv.skip(si as int)) == base + concat_lines(sv),
            decreases sn - si,
        {
            proof {
                assert(sv.skip(si as int)[0] == sv[si as int]);
                assert(sv.skip(si as int).skip(1) =~= sv.skip(si + 1));
            }
            head.append(sorted[si].as_str());
            si = si + 1;
        }
        proof {
            assert(sv.skip(sn as int).len() == 0);
            assert(head@ + concat_lines(sv.skip(sn as int)) =~= head@);
            assert(sv.skip(0) =~= sv);
        }
        head.append("\r\n");

        let mut out = head.as_str().as_bytes_vec();
        out.extend_from_slice(self.body.as_slice());
        proof {
            assert(head@ =~= spec_head_chars(r0));
            assert(out@ =~= spec_serialize_bytes(r0));
        }
        out
    }
}

/// The header lines of a serialized response stand in non-decreasing
/// lexicographic order of their full rendered text, and they are exactly the
/// rendered lines of the response's header mapping after injection.
pub proof fn lemma_serialized_lines_sorted(r: HttpResponse)
    ensures
        sorted_lex(sort_lex(rendered_lines(spec_inject_headers(r)))),
        sort_lex(rendered_lines(spec_inject_headers(r))).to_multiset() == rendered_lines(
            spec_inject_headers(r),
        ).to_multiset(),
{
    lemma_sort_lex_sorted(rendered_lines(spec_inject_headers(r)));
}

/// The bytes a response serializes to are the same on a second run: the
/// header mapping that the first serialization leaves behind already holds
/// the three mandatory entries with exactly the values the serializer would
/// compute again, so both the mapping and the wire bytes come out unchanged.
pub proof fn lemma_serialize_idempotent(r1: HttpResponse, r2: HttpResponse)
    requires
        r2.status_code == r1.status_code,
        r2.body@ == r1.body@,
        r2.content_type@ == r1.content_type@,
        headers_view(r2.headers@) == spec_inject_headers(r1),
    ensures
        spec_inject_headers(r2) == spec_inject_headers(r1),
        spec_serialize_bytes(r2) == spec_serialize_bytes(r1),
{
    reveal_strlit("Server");
    reveal_strlit("Content-Length");
    reveal_strlit("Content-Type");
    assert("Server"@.len() == 6);
    assert("Content-Length"@.len() == 14);
    assert("Content-Type"@.len() == 12);
    let h = headers_view(r1.headers@);
    let sk = "Server"@;
    let clk = "Content-Length"@;
    let ctk = "Content-Type"@;
    let sv = "rust-http/0.1"@;
    let clv = dec_str(r1.body@.len() as int);
    let ctv = r1.content_type@;
    let h1 = upsert(h, sk, sv);
    let h2 = upsert(h1, clk, clv);
    let h3 = upsert(h2, ctk, ctv);
    assert(headers_view(r2.headers@) == h3);

    lemma_lookup_upsert_same(h, sk, sv);
    lemma_lookup_upsert_other(h1, clk, clv, sk);
    lemma_lookup_upsert_other(h2, ctk, ctv, sk);
    assert(lookup(h3, sk) == Some(sv));
    lemma_upsert_noop(h3, sk, sv);

    lemma_lookup_upsert_same(h1, clk, clv);
    lemma_lookup_upsert_other(h2, ctk, ctv, clk);
    assert(lookup(h3, clk) == Some(clv));
    lemma_upsert_noop(h3, clk, clv);

    lemma_lookup_upsert_same(h2, ctk, ctv);
    assert(lookup(h3, ctk) == Some(ctv));
    lemma_upsert_noop(h3, ctk, ctv);

    assert(spec_inject_headers(r2) == h3);
}

} // verus!
