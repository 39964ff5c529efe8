//! The request parser: raw text read from a connection becomes a structured
//! request. The text splits at the first CRLF into a request line and a
//! header block. The request line must carry at least three
//! whitespace-separated tokens — method, URI, protocol version — with the
//! version exactly `HTTP/1.1` and the method one of `GET` and `POST`. The
//! header block splits on line feeds; each non-empty line with a colon
//! becomes a header, split at its first colon, values kept verbatim, and a
//! later line under a name already seen overwrites the earlier one.

use crate::headers::headers_view;
use crate::headers::upsert;
use crate::headers::upsert_header;
use crate::text::chars_of;
use crate::text::first_index_of;
use crate::text::lemma_first_index_of_is;
use crate::text::lemma_first_index_of_none;
use crate::text::lemma_split_lines_run;
use crate::text::split_lines;
use crate::text::split_tokens;
use crate::text::str_eq;
use crate::text::strings_view;
use crate::text::tokenize;
use vstd::prelude::*;
use vstd::string::StrSliceExecFns;

verus! {

/// A request method this server supports.
#[derive(Clone, Copy, Debug, PartialEq, Eq, Structural)]
pub enum HttpMethod {
    Get,
    Post,
}

/// Why a raw request was rejected.
#[derive(Clone, Copy, Debug, PartialEq, Eq, Structural)]
pub enum ParseError {
    /// No CRLF, or fewer than three tokens on the request line.
    MalformedRequest,
    /// The third token of the request line is not `HTTP/1.1`.
    UnsupportedVersion,
    /// The method token is neither `GET` nor `POST`.
    UnsupportedMethod,
}

/// A parsed request: the method, the URI verbatim (not URL-decoded), and the
/// headers as received.
#[derive(Debug)]
pub struct HttpRequest {
    pub headers: Vec<(String, String)>,
    pub method: HttpMethod,
    pub uri: String,
}

/// Index of the first CRLF pair in `s`, if any.
pub open spec fn first_crlf(s: Seq<char>) -> Option<int>
    decreases s.len(),
{
    if s.len() < 2 {
        None
    } else if s[0] == '\r' && s[1] == '\n' {
        Some(0)
    } else {
        match first_crlf(s.skip(1)) {
            Some(i) => Some(i + 1),
            None => None,
        }
    }
}

/// A CRLF at `i` preceded by none pins `first_crlf` down.
proof fn lemma_first_crlf_is(s: Seq<char>, i: int)
    requires
        0 <= i,
        i + 1 < s.len(),
        s[i] == '\r',
        s[i + 1] == '\n',
        forall|t: int| 0 <= t < i ==> !(#[trigger] s[t] == '\r' && s[t + 1] == '\n'),
    ensures
        first_crlf(s) == Some(i),
    decreases i,
{
    if i == 0 {
    } else {
        assert(!(s[0] == '\r' && s[1] == '\n'));
        let u = s.skip(1);
        assert(u[i - 1] == s[i] && u[i] == s[i + 1]);
        assert forall|t: int| 0 <= t < i - 1 implies !(#[trigger] u[t] == '\r' && u[t + 1] == '\n') by {
            assert(u[t] == s[t + 1] && u[t + 1] == s[t + 2]);
        }
        lemma_first_crlf_is(u, i - 1);
    }
}

/// With no CRLF anywhere, `first_crlf` is `None`.
proof fn lemma_first_crlf_none(s: Seq<char>)
    requires
        forall|t: int| 0 <= t && t + 1 < s.len() ==> !(#[trigger] s[t] == '\r' && s[t + 1] == '\n'),
    ensures
        first_crlf(s) is None,
    decreases s.len(),
{
    if s.len() < 2 {
    } else {
        let u = s.skip(1);
        assert forall|t: int| 0 <= t && t + 1 < u.len() implies !(#[trigger] u[t] == '\r' && u[t + 1]
            == '\n') by {
            assert(u[t] == s[t + 1] && u[t + 1] == s[t + 2]);
        }
        lemma_first_crlf_none(u);
    }
}

/// A header line with its trailing carriage return, if any, removed.
pub open spec fn strip_cr(line: Seq<char>) -> Seq<char> {
    if line.len() > 0 && line[line.len() - 1] == '\r' {
        line.take(line.len() - 1)
    } else {
        line
    }
}

/// The header a line contributes: `None` for an empty line or one without a
/// colon; otherwise the text before the first colon names the header and
/// everything after it, verbatim, is the value.
pub open spec fn header_of_line(line: Seq<char>) -> Option<(Seq<char>, Seq<char>)> {
    let l = strip_cr(line);
    if l.len() == 0 {
        None
    } else {
        match first_index_of(l, ':') {
            None => None,
            Some(i) => Some((l.take(i), l.skip(i + 1))),
        }
    }
}

/// Folds header lines into a header list, later lines overwriting earlier
/// entries of the same name.
pub open spec fn headers_acc(lines: Seq<Seq<char>>, acc: Seq<(Seq<char>, Seq<char>)>) -> Seq<
    (Seq<char>, Seq<char>),
>
    decreases lines.len(),
{
    if lines.len() == 0 {
        acc
    } else {
        headers_acc(
            lines.skip(1),
            match header_of_line(lines[0]) {
                Some(kv) => upsert(acc, kv.0, kv.1),
                None => acc,
            },
        )
    }
}

/// The headers parsed from the text after the request line.
pub open spec fn request_headers(rest: Seq<char>) -> Seq<(Seq<char>, Seq<char>)> {
    headers_acc(split_lines(rest), Seq::empty())
}

/// The method a request-line token names.
pub open spec fn spec_method(tok: Seq<char>) -> Result<HttpMethod, ParseError> {
    if tok == "GET"@ {
        Ok(HttpMethod::Get)
    } else if tok == "POST"@ {
        Ok(HttpMethod::Post)
    } else {
        Err(ParseError::UnsupportedMethod)
    }
}

/// What parsing raw request text yields: the method, the URI and the headers,
/// or the error, exactly as the parser decides it.
pub open spec fn spec_parse(s: Seq<char>) -> Result<
    (HttpMethod, Seq<char>, Seq<(Seq<char>, Seq<char>)>),
    ParseError,
> {
    match first_crlf(s) {
        None => Err(ParseError::MalformedRequest),
        Some(p) => {
            let toks = split_tokens(s.take(p));
            if toks.len() < 3 {
                Err(ParseError::MalformedRequest)
            } else if toks[2] != "HTTP/1.1"@ {
                Err(ParseError::UnsupportedVersion)
            } else {
                match spec_method(toks[0]) {
                    Ok(m) => Ok((m, toks[1], request_headers(s.skip(p + 2)))),
                    Err(e) => Err(e),
                }
            }
        },
    }
}

impl HttpMethod {
    /// Parses a method token: `GET` and `POST` are supported, anything else
    /// is rejected.
    pub fn from_str(s: &str) -> (r: Result<HttpMethod, ParseError>)
        ensures
            r == spec_method(s@),
    {
        if str_eq(s, "GET") {
            Ok(HttpMethod::Get)
        } else if str_eq(s, "POST") {
            Ok(HttpMethod::Post)
        } else {
            Err(ParseError::UnsupportedMethod)
        }
    }
}

/// Finds the first CRLF pair among the characters, if any.
fn find_crlf(cv: &Vec<char>) -> (r: Option<usize>)
    ensures
        match r {
            Some(i) => first_crlf(cv@) == Some(i as int) && i + 1 < cv@.len(),
            None => first_crlf(cv@) is None,
        },
{
    let n = cv.len();
    if n < 2 {
        proof {
            lemma_first_crlf_none(cv@);
        }
        return None;
    }
    let mut idx: usize = 0;
    while idx < n - 1
        invariant
            2 <= n == cv@.len(),
            idx <= n - 1,
            forall|t: int| 0 <= t < idx ==> !(#[trigger] cv@[t] == '\r' && cv@[t + 1] == '\n'),
        decreases n - idx,
    {
        if cv[idx] == '\r' && cv[idx + 1] == '\n' {
            proof {
                lemma_first_crlf_is(cv@, idx as int);
            }
            return Some(idx);
        }
        idx = idx + 1;
    }
    proof {
        lemma_first_crlf_none(cv@);
    }
    None
}

/// Parses the header block that starts at character `start` of `s`.
fn parse_headers(s: &str, cv: &Vec<char>, start: usize) -> (hdrs: Vec<(String, String)>)
    requires
        cv@ == s@,
        start <= s@.len(),
    ensures
        headers_view(hdrs@) == request_headers(s@.skip(start as int)),
{
    let n = cv.len();
    let mut hdrs: Vec<(String, String)> = Vec::new();
    let mut li = start;
    proof {
        assert(headers_view(hdrs@) =~= Seq::<(Seq<char>, Seq<char>)>::empty());
    }
    loop
        invariant_except_break
            start <= li <= n,
            n == cv@.len(),
            cv@ == s@,
            request_headers(s@.skip(start as int)) == headers_acc(
                split_lines(s@.skip(li as int)),
                headers_view(hdrs@),
            ),
        ensures
            headers_view(hdrs@) == request_headers(s@.skip(start as int)),
        decreases n - li,
    {
        let ghost u = s@.skip(li as int);
        let ghost acc0 = headers_view(hdrs@);

        // Find the end of the current line.
        let mut nl = li;
        while nl < n && cv[nl] != '\n'
            invariant
                li <= nl <= n,
                n == cv@.len(),
                cv@ == s@,
                forall|t: int| li <= t < nl ==> s@[t] != '\n',
            decreases n - nl,
        {
            nl = nl + 1;
        }

        proof {
            let k = nl - li;
            assert forall|t: int| 0 <= t < k implies u[t] != '\n' by {
                assert(u[t] == s@[li + t]);
            }
            if k < u.len() {
                assert(u[k] == s@[nl as int]);
            }
            lemma_split_lines_run(u, k);
            if k == u.len() {
                assert(u.take(k) =~= u);
            }
            assert(split_lines(u)[0] == u.take(k));
            assert(u.take(k) =~= s@.subrange(li as int, nl as int));
        }
        let ghost line = u.take(nl - li);

        // Drop one trailing carriage return, as the line ends with CRLF.
        let mut line_end = nl;
        if nl > li && cv[nl - 1] == '\r' {
            line_end = nl - 1;
        }
        proof {
            assert(strip_cr(line) =~= s@.subrange(li as int, line_end as int));
        }

        if line_end > li {
            // Find the first colon of the line.
            let mut ci = li;
            while ci < line_end && cv[ci] != ':'
                invariant
                    li <= ci <= line_end,
                    line_end <= n == cv@.len(),
                    cv@ == s@,
                    forall|t: int| li <= t < ci ==> s@[t] != ':',
                decreases line_end - ci,
            {
                ci = ci + 1;
            }
            proof {
                let l = strip_cr(line);
                assert forall|t: int| 0 <= t < ci - li implies l[t] != ':' by {
                    assert(l[t] == s@[li + t]);
                }
                if ci < line_end {
                    assert(l[ci - li] == s@[ci as int]);
                    lemma_first_index_of_is(l, ':', ci - li);
                } else {
                    lemma_first_index_of_none(l, ':');
                }
            }
            if ci < line_end {
                let key = s.substring_char(li, ci).to_owned();
                let value = s.substring_char(ci + 1, line_end).to_owned();
                proof {
                    let l = strip_cr(line);
                    assert(l.take(ci - li) =~= s@.subrange(li as int, ci as int));
                    assert(l.skip(ci - li + 1) =~= s@.subrange(ci + 1, line_end as int));
                    assert(header_of_line(line) == Some((key@, value@)));
                }
                upsert_header(&mut hdrs, key, value);
                proof {
                    let kv = header_of_line(line)->0;
                    assert(headers_view(hdrs@) == upsert(acc0, kv.0, kv.1));
                }
            } else {
                proof {
                    assert(header_of_line(line) is None);
                }
            }
        } else {
            proof {
                assert(strip_cr(line).len() == 0);
                assert(header_of_line(line) is None);
            }
        }

        proof {
            // One step of the fold over the lines of the remaining text.
            let k = nl - li;
            let lines = split_lines(u);
            assert(headers_acc(lines, acc0) == headers_acc(
                lines.skip(1),
                match header_of_line(line) {
                    Some(kv) => upsert(acc0, kv.0, kv.1),
                    None => acc0,
                },
            ));
            if k == u.len() {
                assert(lines == seq![u]);
                assert(lines.skip(1).len() == 0);
                assert(headers_acc(lines.skip(1), headers_view(hdrs@)) == headers_view(hdrs@));
            } else {
                assert(lines == seq![u.take(k)] + split_lines(u.skip(k + 1)));
                assert(lines.skip(1) =~= split_lines(u.skip(k + 1)));
                assert(u.skip(k + 1) =~= s@.skip(nl + 1));
            }
        }

        if nl == n {
            break ;
        }
        li = nl + 1;
    }
    hdrs
}

impl HttpRequest {
    /// Parses raw request text: the request line before the first CRLF must
    /// carry method, URI and version; everything after the first CRLF is read
    /// as header lines.
    pub fn from_str(s: &str) -> (r: Result<HttpRequest, ParseError>)
        ensures
            match spec_parse(s@) {
                Ok(parts) => r is Ok && r->Ok_0.method == parts.0 && r->Ok_0.uri@ == parts.1
                    && headers_view(r->Ok_0.headers@) == parts.2,
                Err(e) => r == Err::<HttpRequest, ParseError>(e),
            },
    {
        let cv = chars_of(s);
        let total = cv.len();
        match find_crlf(&cv) {
            None => Err(ParseError::MalformedRequest),
            Some(p) => {
                let line = s.substring_char(0, p);
                proof {
                    assert(line@ =~= s@.take(p as int));
                }
                let toks = tokenize(line);
                if toks.len() < 3 {
                    return Err(ParseError::MalformedRequest);
                }
                proof {
                    assert(strings_view(toks@)[2] == toks@[2]@);
                    assert(strings_view(toks@)[0] == toks@[0]@);
                    assert(strings_view(toks@)[1] == toks@[1]@);
                }
                if !str_eq(toks[2].as_str(), "HTTP/1.1") {
                    return Err(ParseError::UnsupportedVersion);
                }
                let method = match HttpMethod::from_str(toks[0].as_str()) {
                    Ok(m) => m,
                    Err(e) => {
                        return Err(e);
                    },
                };
                assert(p + 2 <= total);
                let headers = parse_headers(s, &cv, p + 2);
                let uri = toks[1].clone();
                Ok(HttpRequest { headers, method, uri })
            },
        }
    }
}

} // verus!
