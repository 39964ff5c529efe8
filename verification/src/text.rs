//! Character and string utilities shared by the parser, the route table and
//! the serializer: the whitespace class, lexicographic order on character
//! sequences, first-occurrence search, and decimal rendering of integers.

use vstd::prelude::*;
use vstd::string::StrSliceExecFns;
use vstd::string::StringExecFns;

verus! {

/// The whitespace characters recognised by the request-line tokenizer and the
/// route validator (the ASCII whitespace class).
pub open spec fn is_space_char(c: char) -> bool {
    c == ' ' || c == '\t' || c == '\n' || c == '\r' || c == '\u{b}' || c == '\u{c}'
}

/// Executable test for [`is_space_char`].
pub fn is_space(c: char) -> (r: bool)
    ensures
        r == is_space_char(c),
{
    c == ' ' || c == '\t' || c == '\n' || c == '\r' || c == '\u{b}' || c == '\u{c}'
}

/// The characters of `s` as a vector, for random access.
pub fn chars_of(s: &str) -> (v: Vec<char>)
    ensures
        v@ == s@,
{
    let n = s.unicode_len();
    let mut v: Vec<char> = Vec::new();
    let mut i: usize = 0;
    while i < n
        invariant
            i <= n,
            n == s@.len(),
            v@ =~= s@.subrange(0, i as int),
        decreases n - i,
    {
        v.push(s.get_char(i));
        i = i + 1;
    }
    assert(v@ =~= s@);
    v
}

/// Whether two string slices hold the same characters.
pub fn str_eq(a: &str, b: &str) -> (r: bool)
    ensures
        r == (a@ == b@),
{
    let sa = a.to_owned();
    let sb = b.to_owned();
    sa == sb
}

/// Lexicographic "less than or equal" on character sequences, comparing
/// scalar values position by position; a proper prefix sorts first.
pub open spec fn lex_le(a: Seq<char>, b: Seq<char>) -> bool
    decreases a.len(),
{
    if a.len() == 0 {
        true
    } else if b.len() == 0 {
        false
    } else if (a[0] as u32) < (b[0] as u32) {
        true
    } else if (a[0] as u32) > (b[0] as u32) {
        false
    } else {
        lex_le(a.skip(1), b.skip(1))
    }
}

/// `lex_le` is total: any two sequences compare one way or the other.
pub proof fn lemma_lex_le_total(a: Seq<char>, b: Seq<char>)
    ensures
        lex_le(a, b) || lex_le(b, a),
    decreases a.len(),
{
    if a.len() == 0 || b.len() == 0 {
    } else if (a[0] as u32) == (b[0] as u32) {
        lemma_lex_le_total(a.skip(1), b.skip(1));
    }
}

/// `lex_le` is transitive.
pub proof fn lemma_lex_le_trans(a: Seq<char>, b: Seq<char>, c: Seq<char>)
    requires
        lex_le(a, b),
        lex_le(b, c),
    ensures
        lex_le(a, c),
    decreases a.len(),
{
    if a.len() == 0 || b.len() == 0 || c.len() == 0 {
    } else if (a[0] as u32) == (b[0] as u32) && (b[0] as u32) == (c[0] as u32) {
        lemma_lex_le_trans(a.skip(1), b.skip(1), c.skip(1));
    }
}

/// Executable lexicographic comparison of two strings, agreeing with
/// [`lex_le`] on their character sequences.
pub fn str_lex_le(a: &str, b: &str) -> (r: bool)
    ensures
        r == lex_le(a@, b@),
{
    let an = a.unicode_len();
    let bn = b.unicode_len();
    let mut i: usize = 0;
    proof {
        assert(a@.skip(0) =~= a@);
        assert(b@.skip(0) =~= b@);
    }
    loop
        invariant
            i <= an,
            i <= bn,
            an == a@.len(),
            bn == b@.len(),
            lex_le(a@, b@) == lex_le(a@.skip(i as int), b@.skip(i as int)),
        decreases an - i,
    {
        if i == an {
            return true;
        }
        if i == bn {
            assert(a@.skip(i as int).len() > 0);
            return false;
        }
        let ca = a.get_char(i);
        let cb = b.get_char(i);
        if (ca as u32) < (cb as u32) {
            return true;
        }
        if (ca as u32) > (cb as u32) {
            return false;
        }
        proof {
            assert(a@.skip(i as int).skip(1) =~= a@.skip(i + 1));
            assert(b@.skip(i as int).skip(1) =~= b@.skip(i + 1));
        }
        i = i + 1;
    }
}

/// The view of a list of strings: each as its character sequence.
pub open spec fn strings_view(v: Seq<String>) -> Seq<Seq<char>> {
    Seq::new(v.len(), |i: int| v[i]@)
}

/// Length of the leading run of non-whitespace characters.
pub open spec fn non_space_run(s: Seq<char>) -> int
    decreases s.len(),
{
    if s.len() == 0 || is_space_char(s[0]) {
        0
    } else {
        1 + non_space_run(s.skip(1))
    }
}

/// The leading non-space run is within bounds, whitespace-free, and maximal.
pub proof fn lemma_non_space_run(s: Seq<char>)
    ensures
        0 <= non_space_run(s) <= s.len(),
        forall|t: int| 0 <= t < non_space_run(s) ==> !is_space_char(s[t]),
        non_space_run(s) < s.len() ==> is_space_char(s[non_space_run(s)]),
    decreases s.len(),
{
    if s.len() == 0 || is_space_char(s[0]) {
    } else {
        lemma_non_space_run(s.skip(1));
        let r = non_space_run(s);
        assert forall|t: int| 0 <= t < r implies !is_space_char(s[t]) by {
            if t > 0 {
                assert(!is_space_char(s.skip(1)[t - 1]));
            }
        }
        if r < s.len() {
            assert(is_space_char(s.skip(1)[r - 1]));
        }
    }
}

/// A whitespace-free stretch closed by whitespace or the end is the leading
/// non-space run.
pub proof fn lemma_non_space_run_is(s: Seq<char>, r: int)
    requires
        0 <= r <= s.len(),
        forall|t: int| 0 <= t < r ==> !is_space_char(s[t]),
        r < s.len() ==> is_space_char(s[r]),
    ensures
        non_space_run(s) == r,
    decreases r,
{
    if r == 0 {
    } else {
        assert forall|t: int| 0 <= t < r - 1 implies !is_space_char(s.skip(1)[t]) by {
            assert(s.skip(1)[t] == s[t + 1]);
        }
        if r - 1 < s.skip(1).len() {
            assert(s.skip(1)[r - 1] == s[r]);
        }
        lemma_non_space_run_is(s.skip(1), r - 1);
    }
}

#[via_fn]
proof fn split_tokens_decreases(s: Seq<char>) {
    lemma_non_space_run(s);
}

/// The whitespace-separated tokens of `s`, in order, empty tokens dropped.
pub open spec fn split_tokens(s: Seq<char>) -> Seq<Seq<char>>
    decreases s.len(),
        via split_tokens_decreases
{
    if s.len() == 0 {
        Seq::empty()
    } else if is_space_char(s[0]) {
        split_tokens(s.skip(1))
    } else {
        seq![s.take(non_space_run(s))] + split_tokens(s.skip(non_space_run(s)))
    }
}

/// Splits `s` into its whitespace-separated tokens.
pub fn tokenize(s: &str) -> (toks: Vec<String>)
    ensures
        strings_view(toks@) == split_tokens(s@),
{
    let n = s.unicode_len();
    let mut toks: Vec<String> = Vec::new();
    let mut i: usize = 0;
    proof {
        assert(s@.skip(0) =~= s@);
        assert(strings_view(toks@) + split_tokens(s@) =~= split_tokens(s@));
    }
    while i < n
        invariant
            i <= n,
            n == s@.len(),
            split_tokens(s@) == strings_view(toks@) + split_tokens(s@.skip(i as int)),
        decreases n - i,
    {
        let c = s.get_char(i);
        if is_space(c) {
            proof {
                assert(s@.skip(i as int)[0] == s@[i as int]);
                assert(s@.skip(i as int).skip(1) =~= s@.skip(i + 1));
            }
            i = i + 1;
        } else {
            let start = i;
            let mut j = i + 1;
            while j < n && !is_space(s.get_char(j))
                invariant
                    start < j <= n,
                    n == s@.len(),
                    forall|t: int| start <= t < j ==> !is_space_char(s@[t]),
                decreases n - j,
            {
                j = j + 1;
            }
            let token = s.substring_char(start, j).to_owned();
            proof {
                let u = s@.skip(start as int);
                let r = j - start;
                assert forall|t: int| 0 <= t < r implies !is_space_char(u[t]) by {
                    assert(u[t] == s@[start + t]);
                }
                if r < u.len() {
                    assert(u[r] == s@[j as int]);
                }
                lemma_non_space_run_is(u, r);
                assert(u[0] == s@[start as int]);
                assert(u.take(r) =~= s@.subrange(start as int, j as int));
                assert(u.skip(r) =~= s@.skip(j as int));
                assert(split_tokens(u) == seq![token@] + split_tokens(s@.skip(j as int)));
                assert(strings_view(toks@.push(token)) =~= strings_view(toks@).push(token@));
                assert(strings_view(toks@).push(token@) + split_tokens(s@.skip(j as int))
                    =~= strings_view(toks@) + (seq![token@] + split_tokens(s@.skip(j as int))));
            }
            toks.push(token);
            i = j;
        }
    }
    proof {
        assert(s@.skip(n as int).len() == 0);
        assert(strings_view(toks@) + split_tokens(s@.skip(n as int)) =~= strings_view(toks@));
    }
    toks
}

/// The lines of `s`, split on line feeds; the final line has no terminator.
pub open spec fn split_lines(s: Seq<char>) -> Seq<Seq<char>>
    decreases s.len(),
{
    if s.len() == 0 {
        seq![s]
    } else if s[0] == '\n' {
        seq![Seq::<char>::empty()] + split_lines(s.skip(1))
    } else {
        let rest = split_lines(s.skip(1));
        seq![seq![s[0]] + rest[0]] + rest.skip(1)
    }
}

/// A line-feed-free stretch closed by a line feed or the end of the text is
/// the first line.
pub proof fn lemma_split_lines_run(s: Seq<char>, k: int)
    requires
        0 <= k <= s.len(),
        forall|t: int| 0 <= t < k ==> s[t] != '\n',
        k < s.len() ==> s[k] == '\n',
    ensures
        split_lines(s) == if k == s.len() {
            seq![s]
        } else {
            seq![s.take(k)] + split_lines(s.skip(k + 1))
        },
    decreases k,
{
    if k == 0 {
        if s.len() > 0 {
            assert(s.take(0) =~= Seq::<char>::empty());
            assert(seq![s.take(0)] + split_lines(s.skip(1)) =~= seq![Seq::<char>::empty()]
                + split_lines(s.skip(1)));
        }
    } else {
        assert(s[0] != '\n');
        assert(s.len() > 0);
        let u = s.skip(1);
        assert forall|t: int| 0 <= t < k - 1 implies u[t] != '\n' by {
            assert(u[t] == s[t + 1]);
        }
        if k - 1 < u.len() {
            assert(u[k - 1] == s[k]);
        }
        lemma_split_lines_run(u, k - 1);
        let rest = split_lines(u);
        if k == s.len() {
            assert(rest == seq![u]);
            assert(rest[0] == u);
            assert(seq![s[0]] + u =~= s);
            assert(rest.skip(1) =~= Seq::<Seq<char>>::empty());
            assert(seq![seq![s[0]] + rest[0]] + rest.skip(1) =~= seq![s]);
        } else {
            assert(rest == seq![u.take(k - 1)] + split_lines(u.skip(k - 1 + 1)));
            assert(rest[0] == u.take(k - 1));
            assert(seq![s[0]] + u.take(k - 1) =~= s.take(k));
            assert(rest.skip(1) =~= split_lines(u.skip(k)));
            assert(u.skip(k) =~= s.skip(k + 1));
            assert(seq![seq![s[0]] + rest[0]] + rest.skip(1) =~= seq![s.take(k)] + split_lines(
                s.skip(k + 1),
            ));
        }
    }
}

/// Index of the first occurrence of `c` in `s`, if any.
pub open spec fn first_index_of(s: Seq<char>, c: char) -> Option<int>
    decreases s.len(),
{
    if s.len() == 0 {
        None
    } else if s[0] == c {
        Some(0)
    } else {
        match first_index_of(s.skip(1), c) {
            Some(i) => Some(i + 1),
            None => None,
        }
    }
}

/// A first occurrence at `i` pins the value of `first_index_of` down.
pub proof fn lemma_first_index_of_is(s: Seq<char>, c: char, i: int)
    requires
        0 <= i < s.len(),
        s[i] == c,
        forall|t: int| 0 <= t < i ==> s[t] != c,
    ensures
        first_index_of(s, c) == Some(i),
    decreases i,
{
    if i == 0 {
    } else {
        assert(s[0] != c);
        lemma_first_index_of_is(s.skip(1), c, i - 1);
    }
}

/// Absence of `c` pins `first_index_of` to `None`.
pub proof fn lemma_first_index_of_none(s: Seq<char>, c: char)
    requires
        forall|t: int| 0 <= t < s.len() ==> s[t] != c,
    ensures
        first_index_of(s, c) is None,
    decreases s.len(),
{
    if s.len() > 0 {
        lemma_first_index_of_none(s.skip(1), c);
    }
}

/// The digit character for a value below ten.
pub open spec fn digit_char(d: int) -> char {
    if d == 0 {
        '0'
    } else if d == 1 {
        '1'
    } else if d == 2 {
        '2'
    } else if d == 3 {
        '3'
    } else if d == 4 {
        '4'
    } else if d == 5 {
        '5'
    } else if d == 6 {
        '6'
    } else if d == 7 {
        '7'
    } else if d == 8 {
        '8'
    } else {
        '9'
    }
}

/// The decimal rendering of a nonnegative integer, most significant digit
/// first, with no leading zeros (zero itself renders as one digit).
pub open spec fn dec_str(n: int) -> Seq<char>
    decreases n,
{
    if n < 10 {
        seq![digit_char(n)]
    } else {
        dec_str(n / 10) + seq![digit_char(n % 10)]
    }
}

fn digit_str(d: usize) -> (r: &'static str)
    requires
        d < 10,
    ensures
        r@ == seq![digit_char(d as int)],
{
    let r: &'static str = if d == 0 {
        "0"
    } else if d == 1 {
        "1"
    } else if d == 2 {
        "2"
    } else if d == 3 {
        "3"
    } else if d == 4 {
        "4"
    } else if d == 5 {
        "5"
    } else if d == 6 {
        "6"
    } else if d == 7 {
        "7"
    } else if d == 8 {
        "8"
    } else {
        "9"
    };
    proof {
        reveal_strlit("0");
        reveal_strlit("1");
        reveal_strlit("2");
        reveal_strlit("3");
        reveal_strlit("4");
        reveal_strlit("5");
        reveal_strlit("6");
        reveal_strlit("7");
        reveal_strlit("8");
        reveal_strlit("9");
        assert(r@ =~= seq![digit_char(d as int)]);
    }
    r
}

/// Renders `n` in decimal.
pub fn usize_to_string(n: usize) -> (s: String)
    ensures
        s@ == dec_str(n as int),
    decreases n,
{
    let d = n % 10;
    let ds = digit_str(d);
    if n < 10 {
        let s = ds.to_owned();
        assert(s@ =~= dec_str(n as int));
        s
    } else {
        let mut s = usize_to_string(n / 10);
        s.append(ds);
        assert(s@ =~= dec_str(n as int));
        s
    }
}

} // verus!
