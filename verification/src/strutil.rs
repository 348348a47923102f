//! Character-level string utilities shared by the parsers and formatters:
//! conversions between `String` and `Vec<char>`, lexicographic comparison,
//! and decimal integer reading and writing.

use vstd::prelude::*;

verus! {

/// Relies on `String::push`: appends one character at the end.
#[verifier::external_body]
pub fn push_char(s: &mut String, c: char)
    ensures
        final(s)@ == old(s)@.push(c),
{
    s.push(c)
}

/// The characters of `s`, as a vector.
pub fn chars_of(s: &str) -> (r: Vec<char>)
    ensures
        r@ == s@,
{
    let n = s.unicode_len();
    let mut r: Vec<char> = Vec::new();
    let mut i: usize = 0;
    while i < n
        invariant
            n == s@.len(),
            i <= n,
            r@ == s@.subrange(0, i as int),
        decreases n - i,
    {
        r.push(s.get_char(i));
        proof {
            assert(r@ =~= s@.subrange(0, i + 1));
        }
        i += 1;
    }
    proof {
        assert(r@ =~= s@);
    }
    r
}

/// The string holding exactly the characters of `cs`.
pub fn string_of(cs: &[char]) -> (r: String)
    ensures
        r@ == cs@,
{
    let mut r = String::new();
    let mut i: usize = 0;
    while i < cs.len()
        invariant
            i <= cs@.len(),
            r@ == cs@.subrange(0, i as int),
        decreases cs@.len() - i,
    {
        push_char(&mut r, cs[i]);
        proof {
            assert(r@ =~= cs@.subrange(0, i + 1));
        }
        i += 1;
    }
    proof {
        assert(r@ =~= cs@);
    }
    r
}

/// Outcome of a three-way comparison.
#[derive(Debug, Clone, Copy, PartialEq, Eq, Structural)]
pub enum CmpResult {
    Lt,
    Eq,
    Gt,
}

/// ASCII whitespace, the characters stripped from condition keys and values.
pub open spec fn is_space(c: char) -> bool {
    c == ' ' || c == '\t' || c == '\n' || c == '\r'
}

/// `s` without its leading whitespace.
pub open spec fn trim_start_spec(s: Seq<char>) -> Seq<char>
    decreases s.len(),
{
    if s.len() > 0 && is_space(s[0]) {
        trim_start_spec(s.drop_first())
    } else {
        s
    }
}

/// `s` without its trailing whitespace.
pub open spec fn trim_end_spec(s: Seq<char>) -> Seq<char>
    decreases s.len(),
{
    if s.len() > 0 && is_space(s.last()) {
        trim_end_spec(s.drop_last())
    } else {
        s
    }
}

/// `s` without leading or trailing whitespace.
pub open spec fn trim_spec(s: Seq<char>) -> Seq<char> {
    trim_end_spec(trim_start_spec(s))
}

/// `s` begins with `p`.
pub open spec fn starts_with_spec(s: Seq<char>, p: Seq<char>) -> bool {
    s.len() >= p.len() && s.subrange(0, p.len() as int) == p
}

/// The position of the first occurrence of `p` inside `s`.
pub open spec fn find_sub_spec(s: Seq<char>, p: Seq<char>) -> Option<int>
    decreases s.len(),
{
    if starts_with_spec(s, p) {
        Some(0)
    } else if s.len() == 0 || p.len() > s.len() {
        None
    } else {
        match find_sub_spec(s.drop_first(), p) {
            Some(i) => Some(i + 1),
            None => None,
        }
    }
}

/// Three-way lexicographic order by character, the order `str` comparison
/// uses (byte order on UTF-8 text coincides with code-point order).
pub open spec fn lex_cmp_spec(a: Seq<char>, b: Seq<char>) -> CmpResult
    decreases a.len(),
{
    if a.len() == 0 && b.len() == 0 {
        CmpResult::Eq
    } else if a.len() == 0 {
        CmpResult::Lt
    } else if b.len() == 0 {
        CmpResult::Gt
    } else if a[0] < b[0] {
        CmpResult::Lt
    } else if a[0] > b[0] {
        CmpResult::Gt
    } else {
        lex_cmp_spec(a.drop_first(), b.drop_first())
    }
}

/// What a find result means: a found position carries the first match, and
/// `None` means no position matches.
pub proof fn lemma_find_sub_props(s: Seq<char>, p: Seq<char>)
    ensures
        match find_sub_spec(s, p) {
            Some(i) => 0 <= i && i + p.len() <= s.len() && s.subrange(i, i + p.len() as int) == p
                && forall|j: int|
                0 <= j < i ==> #[trigger] s.subrange(j, j + p.len() as int) != p,
            None => forall|j: int|
                0 <= j && j + p.len() <= s.len() ==> #[trigger] s.subrange(j, j + p.len() as int)
                    != p,
        },
    decreases s.len(),
{
    if starts_with_spec(s, p) {
    } else if s.len() == 0 || p.len() > s.len() {
        assert forall|j: int| 0 <= j && j + p.len() <= s.len() implies #[trigger] s.subrange(
            j,
            j + p.len() as int,
        ) != p by {
            assert(j == 0);
            assert(s.subrange(0, p.len() as int) != p);
        }
    } else {
        lemma_find_sub_props(s.drop_first(), p);
        let d = s.drop_first();
        assert forall|j: int| 1 <= j && j + p.len() <= s.len() implies #[trigger] s.subrange(
            j,
            j + p.len() as int,
        ) == d.subrange(j - 1, j - 1 + p.len() as int) by {
            assert(s.subrange(j, j + p.len() as int) =~= d.subrange(
                j - 1,
                j - 1 + p.len() as int,
            ));
        }
        match find_sub_spec(d, p) {
            Some(i) => {
                assert(find_sub_spec(s, p) == Some(i + 1));
                assert(s.subrange(i + 1, i + 1 + p.len() as int) == p);
                assert forall|j: int| 0 <= j < i + 1 implies #[trigger] s.subrange(
                    j,
                    j + p.len() as int,
                ) != p by {
                    if j == 0 {
                        assert(s.subrange(0, p.len() as int) != p);
                    } else {
                        assert(d.subrange(j - 1, j - 1 + p.len() as int) != p);
                    }
                }
            },
            None => {
                assert forall|j: int| 0 <= j && j + p.len() <= s.len() implies #[trigger] s.subrange(
                    j,
                    j + p.len() as int,
                ) != p by {
                    if j == 0 {
                        assert(s.subrange(0, p.len() as int) != p);
                    } else {
                        assert(d.subrange(j - 1, j - 1 + p.len() as int) != p);
                    }
                }
            },
        }
    }
}

/// Compare two character vectors lexicographically.
pub fn lex_cmp(a: &[char], b: &[char]) -> (r: CmpResult)
    ensures
        r == lex_cmp_spec(a@, b@),
{
    let mut i: usize = 0;
    proof {
        assert(a@.skip(0) =~= a@);
        assert(b@.skip(0) =~= b@);
    }
    loop
        invariant
            i <= a@.len(),
            i <= b@.len(),
            lex_cmp_spec(a@, b@) == lex_cmp_spec(a@.skip(i as int), b@.skip(i as int)),
        decreases a@.len() - i,
    {
        proof {
            let ra = a@.skip(i as int);
            let rb = b@.skip(i as int);
            if i < a@.len() && i < b@.len() {
                assert(ra[0] == a@[i as int] && rb[0] == b@[i as int]);
                assert(ra.drop_first() =~= a@.skip(i + 1));
                assert(rb.drop_first() =~= b@.skip(i + 1));
            }
        }
        if i >= a.len() && i >= b.len() {
            return CmpResult::Eq;
        }
        if i >= a.len() {
            return CmpResult::Lt;
        }
        if i >= b.len() {
            return CmpResult::Gt;
        }
        if a[i] < b[i] {
            return CmpResult::Lt;
        }
        if a[i] > b[i] {
            return CmpResult::Gt;
        }
        i += 1;
    }
}

/// The two vectors hold the same characters.
pub fn chars_eq(a: &[char], b: &[char]) -> (r: bool)
    ensures
        r == (a@ == b@),
{
    match lex_cmp(a, b) {
        CmpResult::Eq => {
            proof {
                lemma_lex_cmp_eq(a@, b@);
            }
            true
        },
        _ => {
            proof {
                lemma_lex_cmp_eq(a@, b@);
            }
            false
        },
    }
}

/// Lexicographic comparison returns `Eq` exactly on equal sequences.
pub proof fn lemma_lex_cmp_eq(a: Seq<char>, b: Seq<char>)
    ensures
        (lex_cmp_spec(a, b) == CmpResult::Eq) <==> (a == b),
    decreases a.len(),
{
    if a.len() > 0 && b.len() > 0 && a[0] == b[0] {
        lemma_lex_cmp_eq(a.drop_first(), b.drop_first());
        if a.drop_first() == b.drop_first() && a[0] == b[0] {
            assert forall|k: int| 0 <= k < a.len() implies a[k] == b[k] by {
                if k > 0 {
                    assert(a[k] == a.drop_first()[k - 1]);
                    assert(b[k] == b.drop_first()[k - 1]);
                }
            }
            assert(a =~= b);
        }
        if a == b {
            assert(a.drop_first() =~= b.drop_first());
        }
    } else if a.len() == 0 && b.len() == 0 {
        assert(a =~= b);
    }
}

/// `s` begins with `p`.
pub fn starts_with(s: &[char], p: &[char]) -> (r: bool)
    ensures
        r == starts_with_spec(s@, p@),
{
    if s.len() < p.len() {
        return false;
    }
    let head = vstd::slice::slice_subrange(s, 0, p.len());
    chars_eq(head, p)
}

/// `s` stripped of leading and trailing ASCII whitespace.
pub fn trim(s: &[char]) -> (r: Vec<char>)
    ensures
        r@ == trim_spec(s@),
{
    let mut i: usize = 0;
    proof {
        assert(s@.skip(0) =~= s@);
    }
    while i < s.len() && is_space_char(s[i])
        invariant
            i <= s@.len(),
            trim_start_spec(s@) == trim_start_spec(s@.skip(i as int)),
        decreases s@.len() - i,
    {
        proof {
            assert(s@.skip(i as int).drop_first() =~= s@.skip(i + 1));
        }
        i += 1;
    }
    proof {
        if i < s@.len() {
            assert(trim_start_spec(s@.skip(i as int)) == s@.skip(i as int));
        } else {
            assert(s@.skip(i as int) =~= Seq::<char>::empty());
        }
    }
    let mut j: usize = s.len();
    proof {
        assert(s@.subrange(i as int, s@.len() as int) =~= s@.skip(i as int));
    }
    while j > i && is_space_char(s[j - 1])
        invariant
            i <= j <= s@.len(),
            trim_end_spec(s@.skip(i as int)) == trim_end_spec(s@.subrange(i as int, j as int)),
        decreases j,
    {
        proof {
            assert(s@.subrange(i as int, j as int).drop_last() =~= s@.subrange(i as int, j - 1));
        }
        j -= 1;
    }
    proof {
        let t = s@.subrange(i as int, j as int);
        if j > i {
            assert(!is_space(t.last()));
            assert(trim_end_spec(t) == t);
        } else {
            assert(t =~= Seq::<char>::empty());
        }
    }
    let out = vstd::slice::slice_subrange(s, i, j);
    let mut r: Vec<char> = Vec::new();
    let mut k: usize = 0;
    while k < out.len()
        invariant
            k <= out@.len(),
            r@ == out@.subrange(0, k as int),
        decreases out@.len() - k,
    {
        r.push(out[k]);
        proof {
            assert(r@ =~= out@.subrange(0, k + 1));
        }
        k += 1;
    }
    proof {
        assert(r@ =~= out@);
    }
    r
}

/// The character is ASCII whitespace.
pub fn is_space_char(c: char) -> (r: bool)
    ensures
        r == is_space(c),
{
    c == ' ' || c == '\t' || c == '\n' || c == '\r'
}

/// The position of the first occurrence of `p` inside `s`.
pub fn find_sub(s: &[char], p: &[char]) -> (r: Option<usize>)
    ensures
        match r {
            Some(i) => find_sub_spec(s@, p@) == Some(i as int),
            None => find_sub_spec(s@, p@) is None,
        },
{
    let mut i: usize = 0;
    proof {
        assert(s@.skip(0) =~= s@);
    }
    loop
        invariant
            i <= s@.len(),
            find_sub_spec(s@, p@) == match find_sub_spec(s@.skip(i as int), p@) {
                Some(k) => Some(k + i),
                None => None::<int>,
            },
        decreases s@.len() - i,
    {
        let rest = vstd::slice::slice_subrange(s, i, s.len());
        proof {
            assert(rest@ =~= s@.skip(i as int));
        }
        if starts_with(rest, p) {
            return Some(i);
        }
        if i >= s.len() {
            return None;
        }
        proof {
            assert(s@.skip(i as int).drop_first() =~= s@.skip(i + 1));
        }
        i += 1;
    }
}

} // verus!
