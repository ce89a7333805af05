//! Character-level helpers shared by the scanner and the parser: the
//! whitespace class, trimming, keyword tests, and the lookahead for an
//! opening parenthesis.

use vstd::prelude::*;

verus! {

/// The whitespace characters that delimit tokens: space, tab, newline.
pub open spec fn is_ws_char(c: char) -> bool {
    c == ' ' || c == '\t' || c == '\n'
}

pub fn is_ws(c: char) -> (r: bool)
    ensures
        r == is_ws_char(c),
{
    c == ' ' || c == '\t' || c == '\n'
}

/// Relies on String::push: appends the given character to the end of the string.
#[verifier::external_body]
pub(crate) fn push_char(s: &mut String, c: char)
    ensures
        final(s)@ == old(s)@.push(c),
{
    s.push(c);
}

pub open spec fn trim_start_spec(s: Seq<char>) -> Seq<char>
    decreases s.len(),
{
    if s.len() > 0 && is_ws_char(s[0]) {
        trim_start_spec(s.drop_first())
    } else {
        s
    }
}

pub open spec fn trim_end_spec(s: Seq<char>) -> Seq<char>
    decreases s.len(),
{
    if s.len() > 0 && is_ws_char(s.last()) {
        trim_end_spec(s.drop_last())
    } else {
        s
    }
}

/// The text with leading and trailing whitespace removed.
pub open spec fn trim_spec(s: Seq<char>) -> Seq<char> {
    trim_end_spec(trim_start_spec(s))
}

/// A fresh string holding `s` with leading and trailing whitespace removed.
pub fn trim_str(s: &str) -> (r: String)
    ensures
        r@ == trim_spec(s@),
{
    let n = s.unicode_len();
    let mut i: usize = 0;
    proof {
        assert(s@.skip(0) =~= s@);
    }
    while i < n && is_ws(s.get_char(i))
        invariant
            n == s@.len(),
            0 <= i <= n,
            trim_start_spec(s@) == trim_start_spec(s@.skip(i as int)),
        decreases n - i,
    {
        proof {
            assert(s@.skip(i as int)[0] == s@[i as int]);
            assert(s@.skip(i as int).drop_first() =~= s@.skip(i as int + 1));
        }
        i += 1;
    }
    proof {
        if i < n {
            assert(s@.skip(i as int)[0] == s@[i as int]);
        }
        assert(trim_start_spec(s@) == s@.skip(i as int));
    }
    let mut j: usize = n;
    proof {
        assert(s@.skip(i as int) =~= s@.subrange(i as int, n as int));
    }
    while j > i && is_ws(s.get_char(j - 1))
        invariant
            n == s@.len(),
            0 <= i <= j <= n,
            trim_start_spec(s@) == s@.skip(i as int),
            trim_spec(s@) == trim_end_spec(s@.subrange(i as int, j as int)),
        decreases j,
    {
        proof {
            assert(s@.subrange(i as int, j as int).last() == s@[j - 1]);
            assert(s@.subrange(i as int, j as int).drop_last() =~= s@.subrange(
                i as int,
                j as int - 1,
            ));
        }
        j -= 1;
    }
    proof {
        if j > i {
            assert(s@.subrange(i as int, j as int).last() == s@[j - 1]);
        }
        assert(trim_spec(s@) == s@.subrange(i as int, j as int));
    }
    let mut r = String::new();
    let mut k: usize = i;
    while k < j
        invariant
            n == s@.len(),
            0 <= i <= k <= j <= n,
            r@ == s@.subrange(i as int, k as int),
        decreases j - k,
    {
        push_char(&mut r, s.get_char(k));
        proof {
            assert(r@ =~= s@.subrange(i as int, k as int + 1));
        }
        k += 1;
    }
    r
}

/// Trimming never lengthens a text.
pub proof fn lemma_trim_len(s: Seq<char>)
    ensures
        trim_spec(s).len() <= s.len(),
{
    lemma_trim_start_len(s);
    lemma_trim_end_len(trim_start_spec(s));
}

proof fn lemma_trim_start_len(s: Seq<char>)
    ensures
        trim_start_spec(s).len() <= s.len(),
    decreases s.len(),
{
    if s.len() > 0 && is_ws_char(s[0]) {
        lemma_trim_start_len(s.drop_first());
    }
}

proof fn lemma_trim_end_len(s: Seq<char>)
    ensures
        trim_end_spec(s).len() <= s.len(),
    decreases s.len(),
{
    if s.len() > 0 && is_ws_char(s.last()) {
        lemma_trim_end_len(s.drop_last());
    }
}

/// Whether `s` begins with the pattern `p`.
pub open spec fn seq_starts_with(s: Seq<char>, p: Seq<char>) -> bool {
    p.len() <= s.len() && s.subrange(0, p.len() as int) == p
}

/// The textual marker of an inlined function call at the head of a prefix entry.
pub open spec fn func_marker() -> Seq<char> {
    seq!['(', 'f', 'u', 'n', 'c', ' ']
}

/// The scope-opening keyword `block`.
pub open spec fn block_kw() -> Seq<char> {
    seq!['b', 'l', 'o', 'c', 'k']
}

/// The scope-opening keyword `loop`.
pub open spec fn loop_kw() -> Seq<char> {
    seq!['l', 'o', 'o', 'p']
}

/// The scope-closing keyword `end`.
pub open spec fn end_kw() -> Seq<char> {
    seq!['e', 'n', 'd']
}

pub fn starts_with_func_marker(s: &str) -> (r: bool)
    ensures
        r == seq_starts_with(s@, func_marker()),
{
    let n = s.unicode_len();
    if n < 6 {
        return false;
    }
    if s.get_char(0) != '(' || s.get_char(1) != 'f' || s.get_char(2) != 'u' || s.get_char(3) != 'n'
        || s.get_char(4) != 'c' || s.get_char(5) != ' ' {
        proof {
            assert(forall|m: int| 0 <= m < 6 ==> s@.subrange(0, 6)[m] == s@[m]);
        }
        return false;
    }
    proof {
        assert(s@.subrange(0, 6) =~= func_marker());
    }
    true
}

pub fn starts_with_block(s: &str) -> (r: bool)
    ensures
        r == seq_starts_with(s@, block_kw()),
{
    let n = s.unicode_len();
    if n < 5 {
        return false;
    }
    if s.get_char(0) != 'b' || s.get_char(1) != 'l' || s.get_char(2) != 'o' || s.get_char(3) != 'c'
        || s.get_char(4) != 'k' {
        proof {
            assert(forall|m: int| 0 <= m < 5 ==> s@.subrange(0, 5)[m] == s@[m]);
        }
        return false;
    }
    proof {
        assert(s@.subrange(0, 5) =~= block_kw());
    }
    true
}

pub fn starts_with_loop(s: &str) -> (r: bool)
    ensures
        r == seq_starts_with(s@, loop_kw()),
{
    let n = s.unicode_len();
    if n < 4 {
        return false;
    }
    if s.get_char(0) != 'l' || s.get_char(1) != 'o' || s.get_char(2) != 'o' || s.get_char(3)
        != 'p' {
        proof {
            assert(forall|m: int| 0 <= m < 4 ==> s@.subrange(0, 4)[m] == s@[m]);
        }
        return false;
    }
    proof {
        assert(s@.subrange(0, 4) =~= loop_kw());
    }
    true
}

pub fn is_end_kw(s: &str) -> (r: bool)
    ensures
        r == (s@ == end_kw()),
{
    let n = s.unicode_len();
    if n != 3 {
        return false;
    }
    if s.get_char(0) != 'e' || s.get_char(1) != 'n' || s.get_char(2) != 'd' {
        return false;
    }
    proof {
        assert(s@ =~= end_kw());
    }
    true
}

/// Whether an opening parenthesis occurs anywhere in `s` at or after `from`.
pub open spec fn open_ahead(s: Seq<char>, from: int) -> bool {
    exists|k: int| from <= k < s.len() && s[k] == '('
}

pub fn contains_open(s: &str, from: usize) -> (r: bool)
    requires
        from <= s@.len(),
    ensures
        r == open_ahead(s@, from as int),
{
    let n = s.unicode_len();
    let mut k = from;
    while k < n
        invariant
            from <= k <= n,
            n == s@.len(),
            forall|j: int| from <= j < k ==> s@[j] != '(',
        decreases n - k,
    {
        if s.get_char(k) == '(' {
            return true;
        }
        k += 1;
    }
    false
}

} // verus!
