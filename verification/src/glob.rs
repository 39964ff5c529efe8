//! The glob matcher used by the route table. A pattern matches a text where
//! `?` stands for exactly one character, `*` for any run of characters
//! (including none, and across path-segment boundaries), and every other
//! character for itself. The executable matcher is the classic backtracking
//! two-pointer scan, proved equal to the declarative [`glob_match`] predicate.

use crate::text::chars_of;
use vstd::prelude::*;

verus! {

/// What it means for `pattern` to match `text`.
pub open spec fn glob_match(pattern: Seq<char>, text: Seq<char>) -> bool
    decreases pattern.len() + text.len(),
{
    if pattern.len() == 0 {
        text.len() == 0
    } else if pattern[0] == '*' {
        glob_match(pattern.skip(1), text) || (text.len() > 0 && glob_match(
            pattern,
            text.skip(1),
        ))
    } else if text.len() == 0 {
        false
    } else {
        (pattern[0] == '?' || pattern[0] == text[0]) && glob_match(pattern.skip(1), text.skip(1))
    }
}

/// A leading `*` matches any split of the text: the rest of the pattern must
/// match some suffix.
pub proof fn lemma_star_expand(p: Seq<char>, s: Seq<char>)
    requires
        p.len() > 0,
        p[0] == '*',
    ensures
        glob_match(p, s) <==> exists|k: int|
            0 <= k <= s.len() && glob_match(p.skip(1), s.skip(k)),
    decreases s.len(),
{
    if s.len() == 0 {
        assert(s.skip(0) =~= s);
        if glob_match(p, s) {
            assert(glob_match(p.skip(1), s.skip(0)));
        }
        if exists|k: int| 0 <= k <= s.len() && glob_match(p.skip(1), s.skip(k)) {
            let k = choose|k: int| 0 <= k <= s.len() && glob_match(p.skip(1), s.skip(k));
            assert(k == 0);
        }
    } else {
        lemma_star_expand(p, s.skip(1));
        if glob_match(p, s) {
            if glob_match(p.skip(1), s) {
                assert(s.skip(0) =~= s);
                assert(glob_match(p.skip(1), s.skip(0)));
            } else {
                assert(glob_match(p, s.skip(1)));
                let k2 = choose|k2: int|
                    0 <= k2 <= s.skip(1).len() && glob_match(p.skip(1), s.skip(1).skip(k2));
                assert(s.skip(1).skip(k2) =~= s.skip(k2 + 1));
                assert(glob_match(p.skip(1), s.skip(k2 + 1)));
            }
        }
        if exists|k: int| 0 <= k <= s.len() && glob_match(p.skip(1), s.skip(k)) {
            let k = choose|k: int| 0 <= k <= s.len() && glob_match(p.skip(1), s.skip(k));
            if k == 0 {
                assert(s.skip(0) =~= s);
                assert(glob_match(p.skip(1), s));
            } else {
                assert(s.skip(1).skip(k - 1) =~= s.skip(k));
                assert(glob_match(p.skip(1), s.skip(1).skip(k - 1)));
                assert(glob_match(p, s.skip(1)));
            }
        }
    }
}

/// A star-free stretch of the pattern matches the text only literally: it is
/// consumed character by character, and the rest must match the rest.
pub proof fn lemma_literal_prefix(p: Seq<char>, s: Seq<char>, l: int)
    requires
        0 <= l <= p.len(),
        forall|t: int| 0 <= t < l ==> p[t] != '*',
    ensures
        glob_match(p, s) <==> (l <= s.len() && (forall|t: int|
            0 <= t < l ==> (p[t] == '?' || p[t] == s[t])) && glob_match(p.skip(l), s.skip(l))),
    decreases l,
{
    if l == 0 {
        assert(p.skip(0) =~= p);
        assert(s.skip(0) =~= s);
    } else {
        assert(p[0] != '*');
        if s.len() == 0 {
            assert(!glob_match(p, s));
        } else {
            lemma_literal_prefix(p.skip(1), s.skip(1), l - 1);
            assert(p.skip(1).skip(l - 1) =~= p.skip(l));
            assert forall|t: int| 0 <= t < l - 1 implies p.skip(1)[t] != '*' by {
                assert(p.skip(1)[t] == p[t + 1]);
            }
            if glob_match(p, s) {
                assert(glob_match(p.skip(1), s.skip(1)));
                assert(l <= s.len());
                assert(s.skip(1).skip(l - 1) =~= s.skip(l));
                assert forall|t: int| 0 <= t < l implies (p[t] == '?' || p[t] == s[t]) by {
                    if t > 0 {
                        assert(p.skip(1)[t - 1] == '?' || p.skip(1)[t - 1] == s.skip(1)[t - 1]);
                        assert(p.skip(1)[t - 1] == p[t]);
                        assert(s.skip(1)[t - 1] == s[t]);
                    }
                }
            }
            if l <= s.len() && (forall|t: int| 0 <= t < l ==> (p[t] == '?' || p[t] == s[t]))
                && glob_match(p.skip(l), s.skip(l)) {
                assert(s.skip(1).skip(l - 1) =~= s.skip(l));
                assert(p[0] == '?' || p[0] == s[0]);
                assert forall|t: int|
                    0 <= t < l - 1 implies (p.skip(1)[t] == '?' || p.skip(1)[t] == s.skip(1)[t]) by {
                    assert(p[t + 1] == '?' || p[t + 1] == s[t + 1]);
                    assert(p.skip(1)[t] == p[t + 1]);
                    assert(s.skip(1)[t] == s[t + 1]);
                }
                assert(glob_match(p.skip(1), s.skip(1)));
                assert(glob_match(p, s));
            }
        }
    }
}

/// The star-free stretch of the pattern between positions `sj + 1` and `j`,
/// matched against the text from position `k` on.
proof fn lemma_segment(p: Seq<char>, s: Seq<char>, sj: int, j: int, k: int)
    requires
        0 <= sj < j <= p.len(),
        0 <= k <= s.len(),
        forall|t: int| sj + 1 <= t < j ==> p[t] != '*',
    ensures
        glob_match(p.skip(sj + 1), s.skip(k)) <==> (j - sj - 1 <= s.len() - k && (forall|u: int|
            sj + 1 <= u < j ==> (#[trigger] p[u] == '?' || p[u] == s[k + u - (sj + 1)]))
            && glob_match(p.skip(j), s.skip(k + j - sj - 1))),
{
    let l = j - sj - 1;
    let pp = p.skip(sj + 1);
    let ss = s.skip(k);
    assert forall|t: int| 0 <= t < l implies pp[t] != '*' by {
        assert(pp[t] == p[sj + 1 + t]);
    }
    lemma_literal_prefix(pp, ss, l);
    assert(pp.skip(l) =~= p.skip(j));
    if glob_match(pp, ss) {
        assert(l <= ss.len());
        assert(ss.skip(l) =~= s.skip(k + l));
        assert forall|u: int| sj + 1 <= u < j implies (#[trigger] p[u] == '?' || p[u] == s[k + u
            - (sj + 1)]) by {
            let t = u - (sj + 1);
            assert(pp[t] == p[u]);
            assert(ss[t] == s[k + t]);
            assert(pp[t] == '?' || pp[t] == ss[t]);
        }
    }
    if l <= s.len() - k && (forall|u: int|
        sj + 1 <= u < j ==> (#[trigger] p[u] == '?' || p[u] == s[k + u - (sj + 1)]))
        && glob_match(p.skip(j), s.skip(k + l)) {
        assert(ss.skip(l) =~= s.skip(k + l));
        assert forall|t: int| 0 <= t < l implies (pp[t] == '?' || pp[t] == ss[t]) by {
            let u = sj + 1 + t;
            assert(p[u] == '?' || p[u] == s[k + u - (sj + 1)]);
            assert(pp[t] == p[u]);
            assert(ss[t] == s[k + t]);
        }
        assert(glob_match(pp, ss));
    }
}

/// At a mismatch with no `*` to resume from, the suffixes do not match.
proof fn lemma_head_mismatch(p: Seq<char>, s: Seq<char>, j: int, i: int)
    requires
        0 <= j <= p.len(),
        0 <= i < s.len(),
        j == p.len() || (p[j] != '*' && p[j] != '?' && p[j] != s[i]),
    ensures
        !glob_match(p.skip(j), s.skip(i)),
{
    assert(s.skip(i).len() > 0);
    if j == p.len() {
        assert(p.skip(j).len() == 0);
    } else {
        assert(p.skip(j)[0] == p[j]);
        assert(s.skip(i)[0] == s[i]);
    }
}

/// Restating [`lemma_star_expand`] at pattern position `j` and text position
/// `i`, over suffix positions of the full sequences.
proof fn lemma_star_at(p: Seq<char>, s: Seq<char>, j: int, i: int)
    requires
        0 <= j < p.len(),
        0 <= i <= s.len(),
        p[j] == '*',
    ensures
        glob_match(p.skip(j), s.skip(i)) <==> exists|k: int|
            i <= k <= s.len() && glob_match(p.skip(j + 1), s.skip(k)),
{
    assert(p.skip(j)[0] == p[j]);
    lemma_star_expand(p.skip(j), s.skip(i));
    assert(p.skip(j).skip(1) =~= p.skip(j + 1));
    if glob_match(p.skip(j), s.skip(i)) {
        let k2 = choose|k2: int|
            0 <= k2 <= s.skip(i).len() && glob_match(p.skip(j).skip(1), s.skip(i).skip(k2));
        assert(s.skip(i).skip(k2) =~= s.skip(i + k2));
        assert(glob_match(p.skip(j + 1), s.skip(i + k2)) && i <= i + k2 <= s.len());
    }
    if exists|k: int| i <= k <= s.len() && glob_match(p.skip(j + 1), s.skip(k)) {
        let k = choose|k: int| i <= k <= s.len() && glob_match(p.skip(j + 1), s.skip(k));
        assert(s.skip(i).skip(k - i) =~= s.skip(k));
        assert(glob_match(p.skip(j).skip(1), s.skip(i).skip(k - i)));
    }
}

/// Whether `pattern` glob-matches `text`: `?` matches any one character, `*`
/// any run of characters, anything else itself.
pub fn glob(pattern: &str, text: &str) -> (r: bool)
    ensures
        r == glob_match(pattern@, text@),
{
    let pc = chars_of(pattern);
    let sc = chars_of(text);
    glob_chars(&pc, &sc)
}

/// The backtracking scan over the characters of pattern and text.
fn glob_chars(pc: &Vec<char>, sc: &Vec<char>) -> (r: bool)
    ensures
        r == glob_match(pc@, sc@),
{
    let ghost p = pc@;
    let ghost s = sc@;
    let m = pc.len();
    let n = sc.len();
    let mut i: usize = 0;
    let mut j: usize = 0;
    // Pattern index of the `*` to resume from on a mismatch, if one was seen.
    let mut star: Option<usize> = None;
    // Text position where that `*` currently resumes.
    let mut ma: usize = 0;

    proof {
        assert(p.skip(0) =~= p);
        assert(s.skip(0) =~= s);
    }

    while i < n
        invariant
            m == p.len(),
            n == s.len(),
            pc@ == p,
            sc@ == s,
            i <= n,
            j <= m,
            ma <= i,
            match star {
                None => glob_match(p, s) == glob_match(p.skip(j as int), s.skip(i as int)),
                Some(sj) => {
                    &&& sj < m
                    &&& sj < j
                    &&& p[sj as int] == '*'
                    &&& i - ma == j - sj - 1
                    &&& (forall|t: int| sj + 1 <= t < j ==> p[t] != '*')
                    &&& (forall|u: int|
                        sj + 1 <= u < j ==> (#[trigger] p[u] == '?' || p[u] == s[ma + u - (sj
                            + 1)]))
                    &&& (glob_match(p, s) <==> exists|k: int|
                        ma <= k <= n && glob_match(p.skip(sj + 1), s.skip(k)))
                },
            },
        decreases n - ma, m - j,
    {
        if j < m && pc[j] == '*' {
            proof {
                match star {
                    None => {
                        lemma_star_at(p, s, j as int, i as int);
                    },
                    Some(sj) => {
                        let l = j - sj - 1;
                        if glob_match(p, s) {
                            let k = choose|k: int|
                                ma <= k <= n && glob_match(p.skip(sj + 1), s.skip(k));
                            lemma_segment(p, s, sj as int, j as int, k);
                            assert(glob_match(p.skip(j as int), s.skip(k + l)));
                            lemma_star_at(p, s, j as int, k + l);
                            let k2 = choose|k2: int|
                                k + l <= k2 <= n && glob_match(p.skip(j + 1), s.skip(k2));
                            assert(i <= k2 <= n && glob_match(p.skip(j + 1), s.skip(k2)));
                        }
                        if exists|k: int| i <= k <= n && glob_match(p.skip(j + 1), s.skip(k)) {
                            lemma_star_at(p, s, j as int, i as int);
                            assert(glob_match(p.skip(j as int), s.skip(i as int)));
                            lemma_segment(p, s, sj as int, j as int, ma as int);
                            assert(glob_match(p.skip(sj + 1), s.skip(ma as int)));
                        }
                    },
                }
            }
            star = Some(j);
            ma = i;
            j = j + 1;
        } else if j < m && (pc[j] == '?' || pc[j] == sc[i]) {
            proof {
                assert(p.skip(j as int)[0] == p[j as int]);
                assert(s.skip(i as int)[0] == s[i as int]);
                assert(p.skip(j as int).skip(1) =~= p.skip(j + 1));
                assert(s.skip(i as int).skip(1) =~= s.skip(i + 1));
                match star {
                    None => {
                        assert(glob_match(p.skip(j as int), s.skip(i as int)) == glob_match(
                            p.skip(j + 1),
                            s.skip(i + 1),
                        ));
                    },
                    Some(sj) => {
                        assert(ma + j - (sj + 1) == i as int);
                    },
                }
            }
            i = i + 1;
            j = j + 1;
        } else {
            match star {
                Some(sj_exec) => {
                    proof {
                        let sj = sj_exec as int;
                        let l = j - sj - 1;
                        lemma_segment(p, s, sj, j as int, ma as int);
                        lemma_head_mismatch(p, s, j as int, i as int);
                        assert(!glob_match(p.skip(sj + 1), s.skip(ma as int)));
                        if glob_match(p, s) {
                            let k = choose|k: int|
                                ma <= k <= n && glob_match(p.skip(sj + 1), s.skip(k));
                            assert(k != ma);
                            assert(ma + 1 <= k <= n && glob_match(p.skip(sj + 1), s.skip(k)));
                        }
                    }
                    j = sj_exec + 1;
                    ma = ma + 1;
                    i = ma;
                },
                None => {
                    proof {
                        lemma_head_mismatch(p, s, j as int, i as int);
                    }
                    return false;
                },
            }
        }
    }

    proof {
        match star {
            None => {},
            Some(sj) => {
                let l = j - sj - 1;
                if glob_match(p, s) {
                    let k = choose|k: int| ma <= k <= n && glob_match(p.skip(sj + 1), s.skip(k));
                    lemma_segment(p, s, sj as int, j as int, k);
                    assert(k == ma);
                    assert(glob_match(p.skip(j as int), s.skip(n as int)));
                }
                if glob_match(p.skip(j as int), s.skip(n as int)) {
                    lemma_segment(p, s, sj as int, j as int, ma as int);
                    assert(glob_match(p.skip(sj + 1), s.skip(ma as int)));
                }
            },
        }
        assert(glob_match(p, s) == glob_match(p.skip(j as int), s.skip(n as int)));
    }

    while j < m && pc[j] == '*'
        invariant
            m == p.len(),
            n == s.len(),
            pc@ == p,
            sc@ == s,
            j <= m,
            glob_match(p, s) == glob_match(p.skip(j as int), s.skip(n as int)),
        decreases m - j,
    {
        proof {
            assert(p.skip(j as int)[0] == p[j as int]);
            assert(s.skip(n as int).len() == 0);
            assert(p.skip(j as int).skip(1) =~= p.skip(j + 1));
        }
        j = j + 1;
    }

    proof {
        if j == m {
            assert(p.skip(j as int).len() == 0);
            assert(s.skip(n as int).len() == 0);
        } else {
            assert(p.skip(j as int)[0] == p[j as int]);
            assert(s.skip(n as int).len() == 0);
            assert(!glob_match(p.skip(j as int), s.skip(n as int)));
        }
    }
    j == m
}

/// A single `*` matches every text.
pub proof fn lemma_star_matches_all(text: Seq<char>)
    ensures
        glob_match("*"@, text),
    decreases text.len(),
{
    reveal_strlit("*");
    assert("*"@.len() == 1 && "*"@[0] == '*');
    if text.len() == 0 {
        assert("*"@.skip(1).len() == 0);
        assert(glob_match("*"@.skip(1), text));
    } else {
        lemma_star_matches_all(text.skip(1));
    }
}

} // verus!
