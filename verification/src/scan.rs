//! The balanced-parenthesis scanner: starting at an opening parenthesis, it
//! captures one balanced parenthesized expression verbatim and reports the
//! position just past it.  Unbalanced input is an explicit failure.

use vstd::prelude::*;

use crate::ast::ParseError;
use crate::text::push_char;

verus! {

/// Scanning from position `i` with `depth` parentheses currently open: the
/// position just past the closing parenthesis that returns the depth to zero,
/// or `None` when the input ends first.
pub open spec fn scan_end(s: Seq<char>, i: int, depth: int) -> Option<int>
    decreases s.len() - i,
{
    if i < 0 || i >= s.len() {
        None
    } else if s[i] == '(' {
        scan_end(s, i + 1, depth + 1)
    } else if s[i] == ')' {
        if depth == 1 {
            Some(i + 1)
        } else {
            scan_end(s, i + 1, depth - 1)
        }
    } else {
        scan_end(s, i + 1, depth)
    }
}

/// The running parenthesis balance of `s`: opening parentheses count +1,
/// closing ones -1.
pub open spec fn paren_balance(s: Seq<char>) -> int
    decreases s.len(),
{
    if s.len() == 0 {
        0
    } else {
        (if s[0] == '(' {
            1int
        } else if s[0] == ')' {
            -1int
        } else {
            0int
        }) + paren_balance(s.drop_first())
    }
}

/// A successful scan ends strictly past its start and within the input.
pub proof fn lemma_scan_end_bounds(s: Seq<char>, i: int, depth: int, e: int)
    requires
        scan_end(s, i, depth) == Some(e),
    ensures
        i < e <= s.len(),
    decreases s.len() - i,
{
    if 0 <= i < s.len() {
        if s[i] == '(' {
            lemma_scan_end_bounds(s, i + 1, depth + 1, e);
        } else if s[i] == ')' {
            if depth != 1 {
                lemma_scan_end_bounds(s, i + 1, depth - 1, e);
            }
        } else {
            lemma_scan_end_bounds(s, i + 1, depth, e);
        }
    }
}

/// Over the region a successful scan consumes, closing parentheses outnumber
/// opening ones by exactly the depth the scan started at.
pub proof fn lemma_scan_end_balance(s: Seq<char>, i: int, depth: int, e: int)
    requires
        scan_end(s, i, depth) == Some(e),
        depth >= 1,
    ensures
        paren_balance(s.subrange(i, e)) == -depth,
    decreases s.len() - i,
{
    lemma_scan_end_bounds(s, i, depth, e);
    assert(s.subrange(i, e)[0] == s[i]);
    assert(s.subrange(i, e).drop_first() =~= s.subrange(i + 1, e));
    if s[i] == '(' {
        lemma_scan_end_balance(s, i + 1, depth + 1, e);
    } else if s[i] == ')' {
        if depth == 1 {
            assert(s.subrange(i, e).len() == 1);
            assert(s.subrange(i + 1, e).len() == 0);
            assert(paren_balance(s.subrange(i + 1, e)) == 0);
        } else {
            lemma_scan_end_balance(s, i + 1, depth - 1, e);
        }
    } else {
        lemma_scan_end_balance(s, i + 1, depth, e);
    }
}

/// The text a successful scan captures, parentheses included, is balanced.
pub proof fn lemma_capture_balanced(s: Seq<char>, start: int, e: int)
    requires
        0 <= start < s.len(),
        s[start] == '(',
        scan_end(s, start + 1, 1) == Some(e),
    ensures
        paren_balance(s.subrange(start, e)) == 0,
{
    lemma_scan_end_bounds(s, start + 1, 1, e);
    lemma_scan_end_balance(s, start + 1, 1, e);
    assert(s.subrange(start, e)[0] == s[start]);
    assert(s.subrange(start, e).drop_first() =~= s.subrange(start + 1, e));
}

/// Captures one balanced parenthesized expression beginning at `start`.
///
/// On success the captured text is exactly the characters from `start` up to
/// the returned next index, so its length accounts for every consumed
/// character, and its parenthesis counts are balanced.  When the input ends
/// before the expression closes, the scan fails with `UnbalancedInput`.
pub fn parse_sexp(input: &str, start: usize) -> (r: Result<(String, usize), ParseError>)
    requires
        start < input@.len(),
        input@[start as int] == '(',
    ensures
        match r {
            Ok(p) => {
                &&& scan_end(input@, start as int + 1, 1) == Some(p.1 as int)
                &&& p.0@ == input@.subrange(start as int, p.1 as int)
                &&& p.0@.len() == p.1 - start
                &&& start < p.1 <= input@.len()
                &&& paren_balance(p.0@) == 0
            },
            Err(e) => {
                &&& e == ParseError::UnbalancedInput
                &&& scan_end(input@, start as int + 1, 1) is None
            },
        },
{
    let n = input.unicode_len();
    let mut buf = String::new();
    let mut level: usize = 0;
    let mut index = start;

    while index < n
        invariant
            n == input@.len(),
            start <= index <= n,
            start < n,
            input@[start as int] == '(',
            buf@ == input@.subrange(start as int, index as int),
            level <= index - start,
            index == start ==> level == 0,
            index > start ==> level >= 1,
            index > start ==> scan_end(input@, start as int + 1, 1) == scan_end(
                input@,
                index as int,
                level as int,
            ),
        decreases n - index,
    {
        let c = input.get_char(index);
        proof {
            assert(input@.subrange(start as int, index as int).push(c) =~= input@.subrange(
                start as int,
                index as int + 1,
            ));
        }
        index = index + 1;

        if c == '(' {
            level = level + 1;
            push_char(&mut buf, c);
        } else if c == ')' {
            level = level - 1;
            push_char(&mut buf, c);
            if level == 0 {
                proof {
                    lemma_capture_balanced(input@, start as int, index as int);
                }
                return Ok((buf, index));
            }
        } else {
            push_char(&mut buf, c);
        }
    }

    Err(ParseError::UnbalancedInput)
}

} // verus!
