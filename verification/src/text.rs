//! Character classes, whitespace runs, tokenization, trimming, and substring
//! search over sequences of characters, with executable counterparts.

use vstd::prelude::*;

verus! {

/// A whitespace character: ASCII space, tab, carriage return, or newline.
pub open spec fn is_space(c: char) -> bool {
    c == ' ' || c == '\t' || c == '\r' || c == '\n'
}

/// A word character: an ASCII letter, an ASCII digit, or an underscore.
pub open spec fn is_word_char(c: char) -> bool {
    ||| c == '_'
    ||| 'a' as u32 <= c as u32 && c as u32 <= 'z' as u32
    ||| 'A' as u32 <= c as u32 && c as u32 <= 'Z' as u32
    ||| '0' as u32 <= c as u32 && c as u32 <= '9' as u32
}

/// A sequence of `n` spaces (empty when `n <= 0`).
pub open spec fn spaces(n: int) -> Seq<char> {
    Seq::new(if n <= 0 { 0nat } else { n as nat }, |i: int| ' ')
}

/// Length of the longest whitespace prefix of `s`.
pub open spec fn space_run(s: Seq<char>) -> int
    decreases s.len(),
{
    if s.len() == 0 || !is_space(s[0]) {
        0
    } else {
        1 + space_run(s.subrange(1, s.len() as int))
    }
}

/// Length of the longest non-whitespace prefix of `s`.
pub open spec fn token_run(s: Seq<char>) -> int
    decreases s.len(),
{
    if s.len() == 0 || is_space(s[0]) {
        0
    } else {
        1 + token_run(s.subrange(1, s.len() as int))
    }
}

/// Length of the longest word-character prefix of `s`.
pub open spec fn word_run(s: Seq<char>) -> int
    decreases s.len(),
{
    if s.len() == 0 || !is_word_char(s[0]) {
        0
    } else {
        1 + word_run(s.subrange(1, s.len() as int))
    }
}

/// Index of the first occurrence of `c` in `s` at or after position `i`.
pub open spec fn find_from(s: Seq<char>, c: char, i: int) -> Option<int>
    decreases s.len() - i,
{
    if i < 0 || i >= s.len() {
        None
    } else if s[i] == c {
        Some(i)
    } else {
        find_from(s, c, i + 1)
    }
}

/// Index of the first occurrence of `c` in `s`, if any.
pub open spec fn find_char(s: Seq<char>, c: char) -> Option<int> {
    find_from(s, c, 0)
}

/// `s` with leading and trailing whitespace removed.
pub open spec fn trimmed(s: Seq<char>) -> Seq<char>
    decreases s.len(),
{
    if s.len() == 0 {
        s
    } else if is_space(s[0]) {
        trimmed(s.subrange(1, s.len() as int))
    } else if is_space(s[s.len() - 1]) {
        trimmed(s.subrange(0, s.len() - 1))
    } else {
        s
    }
}

/// Bounds of the three run measures.
pub proof fn lemma_run_bounds(s: Seq<char>)
    ensures
        0 <= space_run(s) <= s.len(),
        0 <= token_run(s) <= s.len(),
        0 <= word_run(s) <= s.len(),
        s.len() > 0 && !is_space(s[0]) ==> token_run(s) >= 1,
        s.len() > 0 && is_space(s[0]) ==> space_run(s) >= 1,
        s.len() > 0 && is_word_char(s[0]) ==> word_run(s) >= 1,
    decreases s.len(),
{
    if s.len() > 0 {
        lemma_run_bounds(s.subrange(1, s.len() as int));
    }
}

/// The maximal non-whitespace runs of `s`, in order.
pub open spec fn tokens_of(s: Seq<char>) -> Seq<Seq<char>>
    decreases s.len(),
    via tokens_of_decreases
{
    if s.len() == 0 {
        Seq::empty()
    } else if is_space(s[0]) {
        tokens_of(s.subrange(1, s.len() as int))
    } else {
        let k = token_run(s);
        seq![s.subrange(0, k)] + tokens_of(s.subrange(k, s.len() as int))
    }
}

#[via_fn]
proof fn tokens_of_decreases(s: Seq<char>) {
    lemma_run_bounds(s);
}

/// The pattern `p` occurs in `s` starting at position `i`.
pub open spec fn occurs_at(s: Seq<char>, p: Seq<char>, i: int) -> bool {
    0 <= i && i + p.len() <= s.len() && s.subrange(i, i + p.len()) == p
}

/// The pattern `p` occurs somewhere in `s`.
pub open spec fn contains_seq(s: Seq<char>, p: Seq<char>) -> bool {
    exists|i: int| occurs_at(s, p, i)
}

/// A token is non-empty and free of whitespace characters.
pub open spec fn is_solid(t: Seq<char>) -> bool {
    t.len() > 0 && forall|i: int| 0 <= i < t.len() ==> !is_space(#[trigger] t[i])
}

/// `space_run` equals the first position holding a non-space character.
pub proof fn lemma_space_run_is(s: Seq<char>, k: int)
    requires
        0 <= k <= s.len(),
        forall|j: int| 0 <= j < k ==> is_space(#[trigger] s[j]),
        k == s.len() || !is_space(s[k]),
    ensures
        space_run(s) == k,
    decreases s.len(),
{
    if s.len() > 0 && is_space(s[0]) {
        let t = s.subrange(1, s.len() as int);
        lemma_space_run_is(t, k - 1);
    }
}

/// `token_run` equals the first position holding a space character.
pub proof fn lemma_token_run_is(s: Seq<char>, k: int)
    requires
        0 <= k <= s.len(),
        forall|j: int| 0 <= j < k ==> !is_space(#[trigger] s[j]),
        k == s.len() || is_space(s[k]),
    ensures
        token_run(s) == k,
    decreases s.len(),
{
    if s.len() > 0 && !is_space(s[0]) {
        let t = s.subrange(1, s.len() as int);
        lemma_token_run_is(t, k - 1);
    }
}

/// `word_run` equals the first position holding a non-word character.
pub proof fn lemma_word_run_is(s: Seq<char>, k: int)
    requires
        0 <= k <= s.len(),
        forall|j: int| 0 <= j < k ==> is_word_char(#[trigger] s[j]),
        k == s.len() || !is_word_char(s[k]),
    ensures
        word_run(s) == k,
    decreases s.len(),
{
    if s.len() > 0 && is_word_char(s[0]) {
        let t = s.subrange(1, s.len() as int);
        lemma_word_run_is(t, k - 1);
    }
}

/// The characters inside each run have the run's class; the character after
/// a run, if any, does not.
pub proof fn lemma_run_chars(s: Seq<char>)
    ensures
        forall|j: int| 0 <= j < space_run(s) ==> is_space(#[trigger] s[j]),
        space_run(s) < s.len() ==> !is_space(s[space_run(s)]),
        forall|j: int| 0 <= j < token_run(s) ==> !is_space(#[trigger] s[j]),
        token_run(s) < s.len() ==> is_space(s[token_run(s)]),
        forall|j: int| 0 <= j < word_run(s) ==> is_word_char(#[trigger] s[j]),
        word_run(s) < s.len() ==> !is_word_char(s[word_run(s)]),
    decreases s.len(),
{
    lemma_run_bounds(s);
    if s.len() > 0 {
        let t = s.subrange(1, s.len() as int);
        lemma_run_chars(t);
        assert forall|j: int| 0 <= j < space_run(s) implies is_space(#[trigger] s[j]) by {
            if j > 0 {
                assert(is_space(t[j - 1]));
            }
        }
        assert forall|j: int| 0 <= j < token_run(s) implies !is_space(#[trigger] s[j]) by {
            if j > 0 {
                assert(!is_space(t[j - 1]));
            }
        }
        assert forall|j: int| 0 <= j < word_run(s) implies is_word_char(#[trigger] s[j]) by {
            if j > 0 {
                assert(is_word_char(t[j - 1]));
            }
        }
    }
}

/// `find_from` returns `k` when `c` first occurs at `k` past `i`.
pub proof fn lemma_found(s: Seq<char>, c: char, i: int, k: int)
    requires
        0 <= i <= k < s.len(),
        s[k] == c,
        forall|j: int| i <= j < k ==> s[j] != c,
    ensures
        find_from(s, c, i) == Some(k),
    decreases k - i,
{
    if i < k {
        lemma_found(s, c, i + 1, k);
    }
}

/// `find_from` returns `None` when `c` does not occur at or past `i`.
pub proof fn lemma_not_found(s: Seq<char>, c: char, i: int)
    requires
        0 <= i,
        forall|j: int| i <= j < s.len() ==> s[j] != c,
    ensures
        find_from(s, c, i) == None::<int>,
    decreases s.len() - i,
{
    if i < s.len() {
        lemma_not_found(s, c, i + 1);
    }
}

/// `trimmed` returns exactly the window between the outer whitespace.
pub proof fn lemma_trimmed_is(s: Seq<char>, a: int, b: int)
    requires
        0 <= a <= b <= s.len(),
        forall|i: int| 0 <= i < a ==> is_space(#[trigger] s[i]),
        forall|i: int| b <= i < s.len() ==> is_space(#[trigger] s[i]),
        a < b ==> !is_space(s[a]) && !is_space(s[b - 1]),
    ensures
        trimmed(s) == s.subrange(a, b),
    decreases s.len(),
{
    if s.len() == 0 {
        assert(trimmed(s) =~= s.subrange(a, b));
    } else if is_space(s[0]) {
        let t = s.subrange(1, s.len() as int);
        if a > 0 {
            lemma_trimmed_is(t, a - 1, b - 1);
            assert(t.subrange(a - 1, b - 1) =~= s.subrange(a, b));
        } else {
            // a == 0 and s[0] is a space, so a == b and s is all spaces.
            lemma_trimmed_is(t, 0, 0);
            assert(t.subrange(0, 0) =~= s.subrange(a, b));
        }
    } else if is_space(s[s.len() - 1]) {
        let t = s.subrange(0, s.len() - 1);
        if b == s.len() {
            // then a < b would force s[b-1] to be non-space; so a == b == len
            lemma_trimmed_is(t, s.len() - 1, s.len() - 1);
            assert(t.subrange(s.len() - 1, s.len() - 1) =~= s.subrange(a, b));
        } else {
            lemma_trimmed_is(t, a, b);
            assert(t.subrange(a, b) =~= s.subrange(a, b));
        }
    } else {
        assert(a == 0 && b == s.len());
        assert(trimmed(s) =~= s.subrange(a, b));
    }
}

/// A solid token followed by nothing or by a space-led remainder is read back
/// as that token ahead of the remainder's tokens.
pub proof fn lemma_tokens_concat(t: Seq<char>, rest: Seq<char>)
    requires
        is_solid(t),
        rest.len() == 0 || is_space(rest[0]),
    ensures
        tokens_of(t + rest) == seq![t] + tokens_of(rest),
{
    let u = t + rest;
    assert(forall|j: int| 0 <= j < t.len() ==> u[j] == t[j]);
    lemma_token_run_is(u, t.len() as int);
    assert(u.subrange(0, t.len() as int) =~= t);
    assert(u.subrange(t.len() as int, u.len() as int) =~= rest);
    assert(tokens_of(u) =~= seq![t] + tokens_of(rest));
}

/// Leading spaces contribute no tokens.
pub proof fn lemma_tokens_space_prefix(n: int, s: Seq<char>)
    ensures
        tokens_of(spaces(n) + s) == tokens_of(s),
    decreases n,
{
    if n <= 0 {
        assert(spaces(n) + s =~= s);
    } else {
        let u = spaces(n) + s;
        assert(is_space(u[0]));
        assert(u.subrange(1, u.len() as int) =~= spaces(n - 1) + s);
        lemma_tokens_space_prefix(n - 1, s);
    }
}

/// A trailing space contributes no token.
pub proof fn lemma_tokens_snoc_space(s: Seq<char>, c: char)
    requires
        is_space(c),
    ensures
        tokens_of(s.push(c)) == tokens_of(s),
    decreases s.len(),
{
    let u = s.push(c);
    assert(u[s.len() as int] == c);
    if s.len() == 0 {
        assert(is_space(u[0]));
        assert(tokens_of(u) == tokens_of(u.subrange(1, u.len() as int)));
        assert(u.subrange(1, u.len() as int) =~= Seq::<char>::empty());
        assert(tokens_of(Seq::<char>::empty()) == Seq::<Seq<char>>::empty());
        assert(tokens_of(s) == Seq::<Seq<char>>::empty());
        assert(tokens_of(u) == tokens_of(s));
    } else if is_space(s[0]) {
        let t = s.subrange(1, s.len() as int);
        assert(u[0] == s[0]);
        assert(u.subrange(1, u.len() as int) =~= t.push(c));
        lemma_tokens_snoc_space(t, c);
        assert(tokens_of(u) == tokens_of(u.subrange(1, u.len() as int)));
        assert(tokens_of(u) == tokens_of(s));
    } else {
        let k = token_run(s);
        lemma_run_chars(s);
        lemma_run_bounds(s);
        assert(forall|j: int| 0 <= j < s.len() ==> u[j] == s[j]);
        lemma_token_run_is(u, k);
        assert(u.subrange(0, k) =~= s.subrange(0, k));
        let t = s.subrange(k, s.len() as int);
        assert(u.subrange(k, u.len() as int) =~= t.push(c));
        lemma_tokens_snoc_space(t, c);
        assert(tokens_of(u) == seq![s.subrange(0, k)] + tokens_of(t.push(c)));
        assert(tokens_of(s) == seq![s.subrange(0, k)] + tokens_of(t));
    }
}

/// Trimming does not change the tokens.
pub proof fn lemma_tokens_trim(s: Seq<char>)
    ensures
        tokens_of(trimmed(s)) == tokens_of(s),
    decreases s.len(),
{
    if s.len() == 0 {
    } else if is_space(s[0]) {
        lemma_tokens_trim(s.subrange(1, s.len() as int));
    } else if is_space(s[s.len() - 1]) {
        let t = s.subrange(0, s.len() - 1);
        assert(s =~= t.push(s[s.len() - 1]));
        lemma_tokens_snoc_space(t, s[s.len() - 1]);
        lemma_tokens_trim(t);
    }
}

/// Every token produced by `tokens_of` is non-empty and whitespace-free.
pub proof fn lemma_tokens_solid(s: Seq<char>)
    ensures
        forall|i: int|
            0 <= i < tokens_of(s).len() ==> is_solid(#[trigger] tokens_of(s)[i]),
    decreases s.len(),
{
    lemma_run_bounds(s);
    if s.len() == 0 {
    } else if is_space(s[0]) {
        let t = s.subrange(1, s.len() as int);
        lemma_tokens_solid(t);
        assert forall|i: int|
            0 <= i < tokens_of(s).len() implies is_solid(#[trigger] tokens_of(s)[i]) by {
            assert(tokens_of(s)[i] == tokens_of(t)[i]);
        }
    } else {
        let k = token_run(s);
        lemma_run_chars(s);
        assert(is_solid(s.subrange(0, k)));
        let rest = tokens_of(s.subrange(k, s.len() as int));
        lemma_tokens_solid(s.subrange(k, s.len() as int));
        assert forall|i: int|
            0 <= i < tokens_of(s).len() implies is_solid(#[trigger] tokens_of(s)[i]) by {
            if i > 0 {
                assert(tokens_of(s)[i] == rest[i - 1]);
            } else {
                assert(tokens_of(s)[0] == s.subrange(0, k));
            }
        }
    }
}

/// Appending a space does not change the trimmed text.
pub proof fn lemma_trimmed_snoc_space(s: Seq<char>, c: char)
    requires
        is_space(c),
    ensures
        trimmed(s.push(c)) == trimmed(s),
    decreases s.len(),
{
    let u = s.push(c);
    assert(u.len() == s.len() + 1);
    assert(u[s.len() as int] == c);
    if s.len() == 0 {
        assert(u[0] == c);
        assert(u.subrange(1, u.len() as int) =~= Seq::<char>::empty());
        assert(trimmed(u) == trimmed(u.subrange(1, u.len() as int)));
        assert(trimmed(u) =~= trimmed(s));
    } else if is_space(s[0]) {
        let t = s.subrange(1, s.len() as int);
        assert(u.subrange(1, u.len() as int) =~= t.push(c));
        lemma_trimmed_snoc_space(t, c);
    } else {
        assert(is_space(u[u.len() - 1]));
        assert(u.subrange(0, u.len() - 1) =~= s);
    }
}

/// Start of the trailing whitespace run of `s`: one past the last non-space.
pub open spec fn trail_start(s: Seq<char>) -> int
    decreases s.len(),
{
    if s.len() == 0 {
        0
    } else if is_space(s[s.len() - 1]) {
        trail_start(s.subrange(0, s.len() - 1))
    } else {
        s.len() as int
    }
}

/// Position and coverage of the trailing whitespace run.
pub proof fn lemma_trail_chars(s: Seq<char>)
    ensures
        0 <= trail_start(s) <= s.len(),
        forall|j: int| trail_start(s) <= j < s.len() ==> is_space(#[trigger] s[j]),
        trail_start(s) > 0 ==> !is_space(s[trail_start(s) - 1]),
    decreases s.len(),
{
    if s.len() > 0 && is_space(s[s.len() - 1]) {
        let t = s.subrange(0, s.len() - 1);
        lemma_trail_chars(t);
        assert(forall|j: int| 0 <= j < t.len() ==> t[j] == s[j]);
    }
}

/// What `find_from` returns: the first occurrence at or past `i`, if any.
pub proof fn lemma_find_from_props(s: Seq<char>, c: char, i: int)
    requires
        0 <= i,
    ensures
        match find_from(s, c, i) {
            Some(p) => i <= p < s.len() && s[p] == c && forall|j: int| i <= j < p ==> s[j] != c,
            None => forall|j: int| i <= j < s.len() ==> s[j] != c,
        },
    decreases s.len() - i,
{
    if i < s.len() && s[i] != c {
        lemma_find_from_props(s, c, i + 1);
    }
}

/// A sequence with a non-space character yields at least one token.
pub proof fn lemma_tokens_nonempty(s: Seq<char>, w: int)
    requires
        0 <= w < s.len(),
        !is_space(s[w]),
    ensures
        tokens_of(s).len() >= 1,
    decreases s.len(),
{
    lemma_run_bounds(s);
    if is_space(s[0]) {
        let t = s.subrange(1, s.len() as int);
        lemma_tokens_nonempty(t, w - 1);
    }
}

/// Each token of `s` is no longer than `s` itself.
pub proof fn lemma_tokens_len_bound(s: Seq<char>)
    ensures
        forall|i: int|
            0 <= i < tokens_of(s).len() ==> (#[trigger] tokens_of(s)[i]).len() <= s.len(),
    decreases s.len(),
{
    lemma_run_bounds(s);
    if s.len() == 0 {
    } else if is_space(s[0]) {
        let t = s.subrange(1, s.len() as int);
        lemma_tokens_len_bound(t);
        assert forall|i: int|
            0 <= i < tokens_of(s).len() implies (#[trigger] tokens_of(s)[i]).len() <= s.len() by {
            assert(tokens_of(s)[i] == tokens_of(t)[i]);
        }
    } else {
        let k = token_run(s);
        let rest = tokens_of(s.subrange(k, s.len() as int));
        lemma_tokens_len_bound(s.subrange(k, s.len() as int));
        assert forall|i: int|
            0 <= i < tokens_of(s).len() implies (#[trigger] tokens_of(s)[i]).len() <= s.len() by {
            if i > 0 {
                assert(tokens_of(s)[i] == rest[i - 1]);
            } else {
                assert(tokens_of(s)[0] == s.subrange(0, k));
            }
        }
    }
}

/// Trimming never lengthens a sequence.
pub proof fn lemma_trimmed_len(s: Seq<char>)
    ensures
        trimmed(s).len() <= s.len(),
    decreases s.len(),
{
    if s.len() > 0 {
        if is_space(s[0]) {
            lemma_trimmed_len(s.subrange(1, s.len() as int));
        } else if is_space(s[s.len() - 1]) {
            lemma_trimmed_len(s.subrange(0, s.len() - 1));
        }
    }
}

/// Executable test matching `is_space`.
pub fn is_space_char(c: char) -> (r: bool)
    ensures
        r == is_space(c),
{
    c == ' ' || c == '\t' || c == '\r' || c == '\n'
}

/// Executable test matching `is_word_char`.
pub fn is_word_char_exec(c: char) -> (r: bool)
    ensures
        r == is_word_char(c),
{
    let n = c as u32;
    c == '_' || (97 <= n && n <= 122) || (65 <= n && n <= 90) || (48 <= n && n <= 57)
}

/// Length of the leading whitespace run of `s`.
pub fn space_prefix_end(s: &str) -> (r: usize)
    ensures
        r == space_run(s@),
{
    let n = s.unicode_len();
    let mut i: usize = 0;
    while i < n
        invariant
            0 <= i <= n,
            n == s@.len(),
            forall|j: int| 0 <= j < i ==> is_space(#[trigger] s@[j]),
        decreases n - i,
    {
        let c = s.get_char(i);
        if !is_space_char(c) {
            proof {
                lemma_space_run_is(s@, i as int);
            }
            return i;
        }
        i = i + 1;
    }
    proof {
        lemma_space_run_is(s@, n as int);
    }
    i
}

/// Position of the first occurrence of `c` in `s`, if any.
pub fn find_char_in(s: &str, c: char) -> (r: Option<usize>)
    ensures
        match r {
            Some(k) => find_char(s@, c) == Some(k as int),
            None => find_char(s@, c) == None::<int>,
        },
{
    let n = s.unicode_len();
    let mut i: usize = 0;
    while i < n
        invariant
            0 <= i <= n,
            n == s@.len(),
            forall|j: int| 0 <= j < i ==> s@[j] != c,
        decreases n - i,
    {
        if s.get_char(i) == c {
            proof {
                lemma_found(s@, c, 0, i as int);
            }
            return Some(i);
        }
        i = i + 1;
    }
    proof {
        lemma_not_found(s@, c, 0);
    }
    None
}

/// `s` with leading and trailing whitespace removed.
pub fn trim_str<'a>(s: &'a str) -> (r: &'a str)
    ensures
        r@ == trimmed(s@),
{
    let n = s.unicode_len();
    let a = space_prefix_end(s);
    proof {
        lemma_run_bounds(s@);
        lemma_run_chars(s@);
    }
    if a == n {
        proof {
            lemma_trimmed_is(s@, 0, 0);
        }
        return s.substring_char(0, 0);
    }
    let mut b: usize = n;
    while b > a + 1 && is_space_char(s.get_char(b - 1))
        invariant
            a < b <= n,
            n == s@.len(),
            a == space_run(s@),
            a < n,
            !is_space(s@[a as int]),
            forall|j: int| b <= j < n ==> is_space(#[trigger] s@[j]),
        decreases b,
    {
        b = b - 1;
    }
    if is_space_char(s.get_char(b - 1)) {
        // only possible when b == a + 1, contradicting that s[a] is non-space
        proof {
            assert(b == a + 1);
        }
        return s.substring_char(0, 0);
    }
    proof {
        lemma_trimmed_is(s@, a as int, b as int);
    }
    s.substring_char(a, b)
}

/// The maximal non-whitespace runs of `s`, in order, as owned strings.
pub fn tokenize(s: &str) -> (r: Vec<String>)
    ensures
        r.deep_view() == tokens_of(s@),
{
    let n = s.unicode_len();
    let mut r: Vec<String> = Vec::new();
    let mut i: usize = 0;
    proof {
        assert(s@.subrange(0, n as int) =~= s@);
        assert(r.deep_view() =~= Seq::<Seq<char>>::empty());
    }
    while i < n
        invariant
            0 <= i <= n,
            n == s@.len(),
            tokens_of(s@) == r.deep_view() + tokens_of(s@.subrange(i as int, n as int)),
        decreases n - i,
    {
        let ghost pre = r.deep_view();
        let ghost tail = s@.subrange(i as int, n as int);
        let c = s.get_char(i);
        if is_space_char(c) {
            proof {
                assert(tail.subrange(1, tail.len() as int) =~= s@.subrange(
                    i + 1,
                    n as int,
                ));
            }
            i = i + 1;
        } else {
            let mut j: usize = i + 1;
            while j < n && !is_space_char(s.get_char(j))
                invariant
                    i < j <= n,
                    n == s@.len(),
                    forall|k: int| i <= k < j ==> !is_space(#[trigger] s@[k]),
                decreases n - j,
            {
                j = j + 1;
            }
            let t = s.substring_char(i, j).to_owned();
            proof {
                lemma_token_run_is(tail, j - i);
                assert(tail.subrange(0, j - i) =~= s@.subrange(i as int, j as int));
                assert(tail.subrange(j - i, tail.len() as int) =~= s@.subrange(
                    j as int,
                    n as int,
                ));
                assert(tokens_of(tail) == seq![s@.subrange(i as int, j as int)]
                    + tokens_of(s@.subrange(j as int, n as int)));
            }
            r.push(t);
            proof {
                assert(r.deep_view() =~= pre.push(s@.subrange(i as int, j as int)));
                assert(pre + tokens_of(tail) =~= r.deep_view() + tokens_of(
                    s@.subrange(j as int, n as int),
                ));
            }
            i = j;
        }
    }
    proof {
        assert(s@.subrange(n as int, n as int) =~= Seq::<char>::empty());
        assert(tokens_of(s@) =~= r.deep_view());
    }
    r
}

/// Whether the pattern `p` occurs anywhere in `s`.
pub fn contains_str(s: &str, p: &str) -> (r: bool)
    ensures
        r == contains_seq(s@, p@),
{
    let n = s.unicode_len();
    let m = p.unicode_len();
    if m == 0 {
        proof {
            assert(s@.subrange(0, 0) =~= p@);
            assert(occurs_at(s@, p@, 0));
        }
        return true;
    }
    if m > n {
        proof {
            assert(forall|i: int| !occurs_at(s@, p@, i));
        }
        return false;
    }
    let mut i: usize = 0;
    while i <= n - m
        invariant
            0 <= i <= n - m + 1,
            0 < m <= n,
            n == s@.len(),
            m == p@.len(),
            forall|x: int| 0 <= x < i ==> !occurs_at(s@, p@, x),
        decreases n - i,
    {
        let mut j: usize = 0;
        let mut hit = true;
        while j < m && hit
            invariant
                0 <= j <= m,
                0 < m <= n,
                i <= n - m,
                n == s@.len(),
                m == p@.len(),
                hit ==> forall|y: int| 0 <= y < j ==> s@[i + y] == p@[y],
                !hit ==> !occurs_at(s@, p@, i as int),
            decreases m - j,
        {
            if s.get_char(i + j) != p.get_char(j) {
                hit = false;
                proof {
                    assert(s@.subrange(i as int, i + m)[j as int] != p@[j as int]);
                    assert(!occurs_at(s@, p@, i as int));
                }
            }
            j = j + 1;
        }
        if hit {
            proof {
                assert(s@.subrange(i as int, i + m) =~= p@);
                assert(occurs_at(s@, p@, i as int));
            }
            return true;
        }
        i = i + 1;
    }
    proof {
        assert forall|x: int| !occurs_at(s@, p@, x) by {
            if 0 <= x < i {
            } else {
                assert(x < 0 || x + p@.len() > s@.len());
            }
        }
    }
    false
}

/// A string of `n` spaces.
pub fn make_spaces(n: usize) -> (r: String)
    ensures
        r@ == spaces(n as int),
{
    let mut r = String::new();
    let mut i: usize = 0;
    proof {
        reveal_strlit(" ");
        assert(r@ =~= spaces(0));
    }
    while i < n
        invariant
            0 <= i <= n,
            r@ == spaces(i as int),
            " "@.len() == 1 && " "@[0] == ' ',
        decreases n - i,
    {
        r.append(" ");
        i = i + 1;
        proof {
            assert(r@ =~= spaces(i as int));
        }
    }
    r
}

} // verus!
