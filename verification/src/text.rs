//! Character-sequence utilities: substring search, pattern removal,
//! insertion after a marker, whitespace tokenization, and the
//! length-then-lexicographic ordering used by the canonical formatter.
use vstd::prelude::*;

verus! {

/// The whitespace characters recognized when a message is split into tokens.
pub open spec fn is_ws(c: char) -> bool {
    c == ' ' || c == '\t' || c == '\n' || c == '\r'
}

/// The pattern `pat` occurs in `s` starting at index `i`.
pub open spec fn occurs_at(s: Seq<char>, pat: Seq<char>, i: int) -> bool {
    0 <= i && i + pat.len() <= s.len() && s.subrange(i, i + pat.len() as int) == pat
}

/// `s` contains `pat` as a contiguous subsequence.
pub open spec fn contains_seq(s: Seq<char>, pat: Seq<char>) -> bool {
    exists|i: int| occurs_at(s, pat, i)
}

/// Index of the first occurrence of the character `c` in `s`, if any.
pub open spec fn find_char(s: Seq<char>, c: char) -> Option<int>
    decreases s.len(),
{
    if s.len() == 0 {
        None
    } else if s[0] == c {
        Some(0int)
    } else {
        match find_char(s.drop_first(), c) {
            Some(i) => Some(i + 1),
            None => None,
        }
    }
}

pub proof fn lemma_find_char_props(s: Seq<char>, c: char)
    ensures
        match find_char(s, c) {
            Some(i) => 0 <= i < s.len() && s[i] == c && (forall|j: int| 0 <= j < i ==> s[j] != c),
            None => forall|j: int| 0 <= j < s.len() ==> s[j] != c,
        },
    decreases s.len(),
{
    if s.len() > 0 && s[0] != c {
        lemma_find_char_props(s.drop_first(), c);
        let t = s.drop_first();
        match find_char(t, c) {
            Some(i) => {
                assert(find_char(s, c) == Some(i + 1));
                assert forall|j: int| 0 <= j < i + 1 implies s[j] != c by {
                    if j > 0 {
                        assert(t[j - 1] != c);
                    }
                }
            },
            None => {
                assert forall|j: int| 0 <= j < s.len() implies s[j] != c by {
                    if j > 0 {
                        assert(t[j - 1] != c);
                    }
                }
            },
        }
    }
}

/// Remove every (non-overlapping, leftmost-first) occurrence of `pat` from `s`.
pub open spec fn remove_all(s: Seq<char>, pat: Seq<char>) -> Seq<char>
    decreases s.len(),
{
    if pat.len() == 0 || s.len() < pat.len() {
        s
    } else if s.subrange(0, pat.len() as int) == pat {
        remove_all(s.subrange(pat.len() as int, s.len() as int), pat)
    } else {
        seq![s[0]] + remove_all(s.drop_first(), pat)
    }
}

/// Insert `ins` immediately after the first occurrence of `c` in `s`;
/// `s` unchanged when `c` does not occur.
pub open spec fn insert_after_first(s: Seq<char>, c: char, ins: Seq<char>) -> Seq<char> {
    match find_char(s, c) {
        Some(i) => s.subrange(0, i + 1) + ins + s.subrange(i + 1, s.len() as int),
        None => s,
    }
}

/// `s` with every trailing whitespace character removed.
pub open spec fn strip_trailing_ws(s: Seq<char>) -> Seq<char>
    decreases s.len(),
{
    if s.len() > 0 && is_ws(s.last()) {
        strip_trailing_ws(s.drop_last())
    } else {
        s
    }
}

/// The maximal run of non-whitespace characters at the end of `s`.
pub open spec fn trailing_run(s: Seq<char>) -> Seq<char>
    decreases s.len(),
{
    if s.len() > 0 && !is_ws(s.last()) {
        trailing_run(s.drop_last()).push(s.last())
    } else {
        Seq::empty()
    }
}

/// The last whitespace-delimited token of `s` (empty when `s` is all whitespace).
pub open spec fn last_token(s: Seq<char>) -> Seq<char> {
    trailing_run(strip_trailing_ws(s))
}

/// Lexicographic order on character sequences, by code point, with a
/// proper prefix ordered before its extensions.
pub open spec fn lex_le(a: Seq<char>, b: Seq<char>) -> bool
    decreases a.len(),
{
    if a.len() == 0 {
        true
    } else if b.len() == 0 {
        false
    } else if a[0] == b[0] {
        lex_le(a.drop_first(), b.drop_first())
    } else {
        (a[0] as u32) < (b[0] as u32)
    }
}

pub proof fn lemma_lex_le_total(a: Seq<char>, b: Seq<char>)
    ensures
        lex_le(a, b) || lex_le(b, a),
        lex_le(a, b) && lex_le(b, a) ==> a == b,
        lex_le(a, a),
    decreases a.len(),
{
    if a.len() > 0 && b.len() > 0 && a[0] == b[0] {
        lemma_lex_le_total(a.drop_first(), b.drop_first());
        if lex_le(a, b) && lex_le(b, a) {
            assert(a =~= seq![a[0]] + a.drop_first());
            assert(b =~= seq![b[0]] + b.drop_first());
        }
    }
    if a.len() > 0 && b.len() > 0 && a[0] != b[0] {
        vstd::utf8::char_u32_cast(a[0], a[0] as u32);
        vstd::utf8::char_u32_cast(b[0], b[0] as u32);
    }
    if a.len() > 0 {
        lemma_lex_le_total(a.drop_first(), a.drop_first());
    }
}

pub proof fn lemma_lex_le_trans(a: Seq<char>, b: Seq<char>, c: Seq<char>)
    requires
        lex_le(a, b),
        lex_le(b, c),
    ensures
        lex_le(a, c),
    decreases a.len(),
{
    if a.len() > 0 && b.len() > 0 && c.len() > 0 {
        if a[0] == b[0] && b[0] == c[0] {
            lemma_lex_le_trans(a.drop_first(), b.drop_first(), c.drop_first());
        }
    }
}

/// Characterizes `trailing_run` by the start index of the final
/// run of non-whitespace characters.
pub proof fn lemma_trailing_run(s: Seq<char>, b: int)
    requires
        0 <= b <= s.len(),
        forall|j: int| b <= j < s.len() ==> !is_ws(#[trigger] s[j]),
        b > 0 ==> is_ws(s[b - 1]),
    ensures
        trailing_run(s) == s.subrange(b, s.len() as int),
    decreases s.len(),
{
    if b == s.len() {
        assert(s.subrange(b, s.len() as int) =~= Seq::empty());
    } else {
        lemma_trailing_run(s.drop_last(), b);
        assert(trailing_run(s) == trailing_run(s.drop_last()).push(s.last()));
        assert(s.drop_last().subrange(b, s.len() - 1).push(s.last()) =~= s.subrange(
            b,
            s.len() as int,
        ));
    }
}

/// Collects the characters of `s` into a vector, in order.
pub fn str_to_chars(s: &str) -> (r: Vec<char>)
    ensures
        r@ == s@,
{
    let n = s.unicode_len();
    let mut r: Vec<char> = Vec::new();
    let mut i: usize = 0;
    while i < n
        invariant
            i <= n,
            n == s@.len(),
            r@ == s@.subrange(0, i as int),
        decreases n - i,
    {
        r.push(s.get_char(i));
        assert(r@ =~= s@.subrange(0, i + 1));
        i = i + 1;
    }
    assert(s@.subrange(0, n as int) =~= s@);
    r
}

/// Decides equality of two character vectors.
pub fn chars_eq(a: &Vec<char>, b: &Vec<char>) -> (r: bool)
    ensures
        r == (a@ == b@),
{
    if a.len() != b.len() {
        return false;
    }
    let mut i: usize = 0;
    while i < a.len()
        invariant
            i <= a.len(),
            a.len() == b.len(),
            forall|j: int| 0 <= j < i ==> a@[j] == b@[j],
        decreases a.len() - i,
    {
        if a[i] != b[i] {
            return false;
        }
        i = i + 1;
    }
    assert(a@ =~= b@);
    true
}

/// Decides whether `pat` occurs in `s` at index `i`.
pub fn match_at(s: &Vec<char>, pat: &Vec<char>, i: usize) -> (r: bool)
    ensures
        r == occurs_at(s@, pat@, i as int),
{
    if i > s.len() || s.len() - i < pat.len() {
        return false;
    }
    let mut j: usize = 0;
    while j < pat.len()
        invariant
            i + pat.len() <= s.len(),
            j <= pat.len(),
            forall|k: int| 0 <= k < j ==> s@[i + k] == pat@[k],
        decreases pat.len() - j,
    {
        if s[i + j] != pat[j] {
            proof {
                if occurs_at(s@, pat@, i as int) {
                    assert(s@.subrange(i as int, i + pat@.len() as int)[j as int] == s@[i + j]);
                }
            }
            return false;
        }
        j = j + 1;
    }
    assert(s@.subrange(i as int, i + pat@.len() as int) =~= pat@);
    true
}

/// Decides whether `s` contains `pat` as a contiguous subsequence.
pub fn contains_pat(s: &Vec<char>, pat: &Vec<char>) -> (r: bool)
    requires
        pat@.len() > 0,
    ensures
        r == contains_seq(s@, pat@),
{
    if pat.len() > s.len() {
        assert(!contains_seq(s@, pat@));
        return false;
    }
    let end = s.len() - pat.len();
    let mut i: usize = 0;
    while i <= end
        invariant
            i <= end + 1,
            end == s@.len() - pat@.len(),
            0 < pat@.len() <= s@.len(),
            s@.len() <= usize::MAX,
            forall|j: int| 0 <= j < i ==> !occurs_at(s@, pat@, j),
        decreases end + 1 - i,
    {
        if match_at(s, pat, i) {
            return true;
        }
        i = i + 1;
    }
    assert(forall|j: int| j > end ==> !occurs_at(s@, pat@, j));
    false
}

/// First index of the character `c` in `s`, if any; agrees with [`find_char`].
pub fn find_char_in(s: &Vec<char>, c: char) -> (r: Option<usize>)
    ensures
        match r {
            Some(i) => find_char(s@, c) == Some(i as int),
            None => find_char(s@, c) is None,
        },
{
    let mut i: usize = 0;
    while i < s.len()
        invariant
            i <= s.len(),
            forall|j: int| 0 <= j < i ==> s@[j] != c,
        decreases s.len() - i,
    {
        if s[i] == c {
            proof {
                lemma_find_char_props(s@, c);
            }
            return Some(i);
        }
        i = i + 1;
    }
    proof {
        lemma_find_char_props(s@, c);
    }
    None
}

/// Appends `s[from..to]` to `out`.
pub fn push_range(out: &mut Vec<char>, s: &Vec<char>, from: usize, to: usize)
    requires
        from <= to <= s@.len(),
    ensures
        final(out)@ == old(out)@ + s@.subrange(from as int, to as int),
{
    let ghost base = out@;
    let mut i: usize = from;
    while i < to
        invariant
            from <= i <= to <= s@.len(),
            out@ == base + s@.subrange(from as int, i as int),
        decreases to - i,
    {
        out.push(s[i]);
        assert(out@ =~= base + s@.subrange(from as int, i + 1));
        i = i + 1;
    }
}

/// Removes every occurrence of `pat` from `s`; agrees with [`remove_all`].
pub fn remove_all_exec(s: &Vec<char>, pat: &Vec<char>) -> (r: Vec<char>)
    requires
        pat@.len() > 0,
    ensures
        r@ == remove_all(s@, pat@),
{
    let mut out: Vec<char> = Vec::new();
    let mut i: usize = 0;
    assert(s@.subrange(0, s@.len() as int) =~= s@);
    assert(Seq::<char>::empty() + remove_all(s@, pat@) =~= remove_all(s@, pat@));
    while i < s.len()
        invariant
            i <= s.len(),
            pat@.len() > 0,
            remove_all(s@, pat@) == out@ + remove_all(
                s@.subrange(i as int, s@.len() as int),
                pat@,
            ),
        decreases s.len() - i,
    {
        let ghost rest = s@.subrange(i as int, s@.len() as int);
        if match_at(s, pat, i) {
            proof {
                assert(rest.subrange(0, pat@.len() as int) =~= s@.subrange(
                    i as int,
                    i + pat@.len() as int,
                ));
                assert(rest.subrange(pat@.len() as int, rest.len() as int) =~= s@.subrange(
                    i + pat@.len(),
                    s@.len() as int,
                ));
            }
            i = i + pat.len();
        } else {
            let ghost prev = out@;
            out.push(s[i]);
            proof {
                if rest.len() >= pat@.len() {
                    assert(rest.subrange(0, pat@.len() as int) =~= s@.subrange(
                        i as int,
                        i + pat@.len() as int,
                    ));
                }
                assert(rest.drop_first() =~= s@.subrange(i + 1, s@.len() as int));
                assert(remove_all(rest, pat@) == seq![rest[0]] + remove_all(
                    rest.drop_first(),
                    pat@,
                ));
                assert(prev + (seq![rest[0]] + remove_all(rest.drop_first(), pat@)) =~= out@
                    + remove_all(rest.drop_first(), pat@));
            }
            i = i + 1;
        }
    }
    assert(s@.subrange(i as int, s@.len() as int) =~= Seq::empty());
    assert(out@ + Seq::<char>::empty() =~= out@);
    out
}

/// Inserts `ins` after the first occurrence of `c`; agrees with [`insert_after_first`].
pub fn insert_after_first_exec(s: &Vec<char>, c: char, ins: &Vec<char>) -> (r: Vec<char>)
    ensures
        r@ == insert_after_first(s@, c, ins@),
{
    let mut out: Vec<char> = Vec::new();
    match find_char_in(s, c) {
        None => {
            push_range(&mut out, s, 0, s.len());
            assert(s@.subrange(0, s@.len() as int) =~= s@);
            assert(out@ =~= s@);
        },
        Some(i) => {
            let slen = s.len();
            proof {
                lemma_find_char_props(s@, c);
            }
            push_range(&mut out, s, 0, i + 1);
            push_range(&mut out, ins, 0, ins.len());
            push_range(&mut out, s, i + 1, slen);
            proof {
                assert(ins@.subrange(0, ins@.len() as int) =~= ins@);
                assert(out@ =~= s@.subrange(0, i + 1) + ins@ + s@.subrange(
                    i + 1,
                    s@.len() as int,
                ));
            }
        },
    }
    out
}

/// Extracts the last whitespace-delimited token; agrees with [`last_token`].
pub fn last_token_exec(s: &Vec<char>) -> (r: Vec<char>)
    ensures
        r@ == last_token(s@),
{
    let mut e: usize = s.len();
    let mut stop: bool = false;
    assert(s@.subrange(0, s@.len() as int) =~= s@);
    while e > 0 && !stop
        invariant
            e <= s@.len(),
            strip_trailing_ws(s@) == strip_trailing_ws(s@.subrange(0, e as int)),
            stop ==> e > 0 && !is_ws(s@[e - 1]),
        decreases 2 * e + (if stop { 0int } else { 1int }),
    {
        let ch = s[e - 1];
        if ch == ' ' || ch == '\t' || ch == '\n' || ch == '\r' {
            proof {
                assert(s@.subrange(0, e as int).drop_last() =~= s@.subrange(0, e - 1));
            }
            e = e - 1;
        } else {
            stop = true;
        }
    }
    let ghost s0 = s@.subrange(0, e as int);
    proof {
        assert(strip_trailing_ws(s0) == s0);
    }
    let mut b: usize = e;
    let mut stop2: bool = false;
    while b > 0 && !stop2
        invariant
            b <= e <= s@.len(),
            forall|j: int| b <= j < e ==> !is_ws(#[trigger] s@[j]),
            stop2 ==> b > 0 && is_ws(s@[b - 1]),
        decreases 2 * b + (if stop2 { 0int } else { 1int }),
    {
        let ch = s[b - 1];
        if ch == ' ' || ch == '\t' || ch == '\n' || ch == '\r' {
            stop2 = true;
        } else {
            b = b - 1;
        }
    }
    proof {
        lemma_trailing_run(s0, b as int);
        assert(s0.subrange(b as int, s0.len() as int) =~= s@.subrange(b as int, e as int));
    }
    let mut out: Vec<char> = Vec::new();
    push_range(&mut out, s, b, e);
    out
}

/// Decides [`lex_le`] on two character vectors.
pub fn lex_le_exec(a: &Vec<char>, b: &Vec<char>) -> (r: bool)
    ensures
        r == lex_le(a@, b@),
{
    let mut i: usize = 0;
    assert(a@.subrange(0, a@.len() as int) =~= a@);
    assert(b@.subrange(0, b@.len() as int) =~= b@);
    while i < a.len() && i < b.len()
        invariant
            i <= a.len(),
            i <= b.len(),
            lex_le(a@, b@) == lex_le(
                a@.subrange(i as int, a@.len() as int),
                b@.subrange(i as int, b@.len() as int),
            ),
        decreases a.len() - i,
    {
        let ghost sa = a@.subrange(i as int, a@.len() as int);
        let ghost sb = b@.subrange(i as int, b@.len() as int);
        if a[i] == b[i] {
            proof {
                assert(sa.drop_first() =~= a@.subrange(i + 1, a@.len() as int));
                assert(sb.drop_first() =~= b@.subrange(i + 1, b@.len() as int));
            }
            i = i + 1;
        } else {
            return (a[i] as u32) < (b[i] as u32);
        }
    }
    proof {
        let sa = a@.subrange(i as int, a@.len() as int);
        let sb = b@.subrange(i as int, b@.len() as int);
        if i >= a.len() {
            assert(sa.len() == 0);
        } else {
            assert(sb.len() == 0 && sa.len() > 0);
        }
    }
    a.len() <= i
}

} // verus!
