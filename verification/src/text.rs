use vstd::prelude::*;

verus! {

/// The whitespace characters that separate rule tokens and are trimmed
/// around clause names and patterns: the Unicode white-space set.
pub open spec fn is_space(c: char) -> bool {
    let u = c as u32;
    ||| u == 0x09
    ||| u == 0x0A
    ||| u == 0x0B
    ||| u == 0x0C
    ||| u == 0x0D
    ||| u == 0x20
    ||| u == 0x85
    ||| u == 0xA0
    ||| u == 0x1680
    ||| (0x2000 <= u && u <= 0x200A)
    ||| u == 0x2028
    ||| u == 0x2029
    ||| u == 0x202F
    ||| u == 0x205F
    ||| u == 0x3000
}

fn space_char(c: char) -> (r: bool)
    ensures
        r == is_space(c),
{
    let u = c as u32;
    u == 0x09 || u == 0x0A || u == 0x0B || u == 0x0C || u == 0x0D || u == 0x20 || u == 0x85 || u
        == 0xA0 || u == 0x1680 || (0x2000 <= u && u <= 0x200A) || u == 0x2028 || u == 0x2029 || u
        == 0x202F || u == 0x205F || u == 0x3000
}

/// The position of the first space at or after `i`, or the length of `s`
/// if there is none: one past the end of the token starting at `i`.
pub open spec fn token_end(s: Seq<char>, i: int) -> int
    decreases s.len() - i,
{
    if i < 0 || i >= s.len() || is_space(s[i]) {
        i
    } else {
        token_end(s, i + 1)
    }
}

pub proof fn lemma_token_end_bounds(s: Seq<char>, i: int)
    requires
        0 <= i <= s.len(),
    ensures
        i <= token_end(s, i) <= s.len(),
    decreases s.len() - i,
{
    if i < s.len() && !is_space(s[i]) {
        lemma_token_end_bounds(s, i + 1);
    }
}

/// The whitespace-separated tokens of `s` from position `i` on, in order.
pub open spec fn tokens_from(s: Seq<char>, i: int) -> Seq<Seq<char>>
    decreases s.len() - i,
    via tokens_from_decreases
{
    if i < 0 || i >= s.len() {
        Seq::empty()
    } else if is_space(s[i]) {
        tokens_from(s, i + 1)
    } else {
        seq![s.subrange(i, token_end(s, i))] + tokens_from(s, token_end(s, i))
    }
}

#[via_fn]
proof fn tokens_from_decreases(s: Seq<char>, i: int) {
    if 0 <= i < s.len() && !is_space(s[i]) {
        lemma_token_end_bounds(s, i + 1);
    }
}

/// The whitespace-separated tokens of `s`, in order.
pub open spec fn tokens_of(s: Seq<char>) -> Seq<Seq<char>> {
    tokens_from(s, 0)
}

pub open spec fn views_of_strs(ss: Seq<String>) -> Seq<Seq<char>> {
    ss.map_values(|t: String| t@)
}

proof fn lemma_token_end_at(s: Seq<char>, i: int, j: int)
    requires
        0 <= i <= j <= s.len(),
        forall|m: int| i <= m < j ==> !is_space(s[m]),
        j == s.len() || is_space(s[j]),
    ensures
        token_end(s, i) == j,
    decreases j - i,
{
    if i < j {
        lemma_token_end_at(s, i + 1, j);
    }
}

/// Split `s` into its whitespace-separated tokens.
pub fn split_tokens(s: &str) -> (r: Vec<String>)
    ensures
        views_of_strs(r@) == tokens_of(s@),
{
    let n = s.unicode_len();
    let mut toks: Vec<String> = Vec::new();
    let mut i: usize = 0;
    while i < n
        invariant
            0 <= i <= n,
            n == s@.len(),
            views_of_strs(toks@) + tokens_from(s@, i as int) == tokens_of(s@),
        decreases n - i,
    {
        if space_char(s.get_char(i)) {
            proof {
                assert(tokens_from(s@, i as int) == tokens_from(s@, i + 1));
            }
            i += 1;
        } else {
            let start = i;
            let mut j = i + 1;
            while j < n && !space_char(s.get_char(j))
                invariant
                    start < j <= n,
                    n == s@.len(),
                    forall|m: int| start <= m < j ==> !is_space(s@[m]),
                decreases n - j,
            {
                j += 1;
            }
            let tok = s.substring_char(start, j).to_owned();
            proof {
                lemma_token_end_at(s@, start as int, j as int);
                assert(tokens_from(s@, start as int) == seq![s@.subrange(start as int, j as int)]
                    + tokens_from(s@, j as int));
                assert(views_of_strs(toks@.push(tok)) =~= views_of_strs(toks@) + seq![tok@]);
                assert(views_of_strs(toks@.push(tok)) + tokens_from(s@, j as int) =~= views_of_strs(
                    toks@,
                ) + tokens_from(s@, start as int));
            }
            toks.push(tok);
            i = j;
        }
    }
    proof {
        assert(views_of_strs(toks@) + tokens_from(s@, i as int) =~= views_of_strs(toks@));
    }
    toks
}

/// The position of the first non-space character at or after `i`, or the
/// length of `s` if there is none.
pub open spec fn first_nonspace(s: Seq<char>, i: int) -> int
    decreases s.len() - i,
{
    if i < 0 || i >= s.len() {
        s.len() as int
    } else if !is_space(s[i]) {
        i
    } else {
        first_nonspace(s, i + 1)
    }
}

/// The position one past the last non-space character strictly before
/// `j`, or zero if there is none.
pub open spec fn last_nonspace_end(s: Seq<char>, j: int) -> int
    decreases j,
{
    if j <= 0 {
        0
    } else if !is_space(s[j - 1]) {
        j
    } else {
        last_nonspace_end(s, j - 1)
    }
}

/// `s` with leading and trailing whitespace removed.
pub open spec fn trim_view(s: Seq<char>) -> Seq<char> {
    let a = first_nonspace(s, 0);
    let b = last_nonspace_end(s, s.len() as int);
    if a < b {
        s.subrange(a, b)
    } else {
        Seq::empty()
    }
}

/// Remove leading and trailing whitespace.
pub fn trim(s: &str) -> (r: &str)
    ensures
        r@ == trim_view(s@),
{
    let n = s.unicode_len();
    let mut a: usize = 0;
    while a < n && space_char(s.get_char(a))
        invariant
            0 <= a <= n,
            n == s@.len(),
            first_nonspace(s@, 0) == first_nonspace(s@, a as int),
        decreases n - a,
    {
        a += 1;
    }
    let mut b: usize = n;
    while b > 0 && space_char(s.get_char(b - 1))
        invariant
            0 <= b <= n,
            n == s@.len(),
            last_nonspace_end(s@, n as int) == last_nonspace_end(s@, b as int),
        decreases b,
    {
        b -= 1;
    }
    if a < b {
        s.substring_char(a, b)
    } else {
        let r = s.substring_char(0, 0);
        proof {
            assert(r@ =~= Seq::<char>::empty());
        }
        r
    }
}

/// Character-for-character string equality.
pub fn str_eq(a: &str, b: &str) -> (r: bool)
    ensures
        r == (a@ == b@),
{
    let n = a.unicode_len();
    let m = b.unicode_len();
    if n != m {
        return false;
    }
    let mut i: usize = 0;
    while i < n
        invariant
            0 <= i <= n,
            n == a@.len() == b@.len(),
            forall|k: int| 0 <= k < i ==> a@[k] == b@[k],
        decreases n - i,
    {
        if a.get_char(i) != b.get_char(i) {
            return false;
        }
        i += 1;
    }
    proof {
        assert(a@ =~= b@);
    }
    true
}

/// Whether `p` is a prefix of `s`.
pub fn str_starts_with(s: &str, p: &str) -> (r: bool)
    ensures
        r == p@.is_prefix_of(s@),
{
    let n = s.unicode_len();
    let m = p.unicode_len();
    if m > n {
        return false;
    }
    let mut i: usize = 0;
    while i < m
        invariant
            0 <= i <= m <= n,
            n == s@.len(),
            m == p@.len(),
            forall|k: int| 0 <= k < i ==> s@[k] == p@[k],
        decreases m - i,
    {
        if s.get_char(i) != p.get_char(i) {
            proof {
                assert(s@.subrange(0, m as int)[i as int] != p@[i as int]);
            }
            return false;
        }
        i += 1;
    }
    proof {
        assert(p@ =~= s@.subrange(0, m as int));
    }
    true
}

/// The position of the first occurrence of `c` at or after `i`, if any.
pub open spec fn find_from(s: Seq<char>, c: char, i: int) -> Option<int>
    decreases s.len() - i,
{
    if i < 0 || i >= s.len() {
        None
    } else if s[i] == c {
        Some(i)
    } else {
        find_from(s, c, i + 1)
    }
}

/// The position of the first occurrence of `c` in `s`, if any.
pub fn find_char(s: &str, c: char) -> (r: Option<usize>)
    ensures
        match r {
            Some(i) => find_from(s@, c, 0) == Some(i as int) && i < s@.len() && s@[i as int] == c,
            None => find_from(s@, c, 0) is None,
        },
{
    let n = s.unicode_len();
    let mut i: usize = 0;
    while i < n
        invariant
            0 <= i <= n,
            n == s@.len(),
            find_from(s@, c, 0) == find_from(s@, c, i as int),
        decreases n - i,
    {
        if s.get_char(i) == c {
            return Some(i);
        }
        i += 1;
    }
    None
}

} // verus!
