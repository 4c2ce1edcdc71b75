//! Text helpers for the callers around the engine: tag-name normalization
//! (PascalCase to snake_case and dotted form) and end-of-stream detection on
//! error messages.

use vstd::prelude::*;
use vstd::string::{StrSliceExecFns, StringExecFns};

verus! {

pub open spec fn is_upper(c: char) -> bool {
    65 <= (c as u32) <= 90
}

/// The lower-case letter of an upper-case ASCII letter.
pub open spec fn to_lower(c: char) -> char {
    (((c as u32) + 32) as u8) as char
}

/// Snake form of the first `i` characters: an upper-case letter becomes an
/// underscore (except at the start) and its lower-case letter; everything
/// else passes through.
pub open spec fn snake_upto(s: Seq<char>, i: int) -> Seq<char>
    decreases i,
{
    if i <= 0 {
        Seq::empty()
    } else {
        let prev = snake_upto(s, i - 1);
        let c = s[i - 1];
        if is_upper(c) {
            (if i - 1 > 0 {
                prev.push('_')
            } else {
                prev
            }).push(to_lower(c))
        } else {
            prev.push(c)
        }
    }
}

pub open spec fn snake_of(s: Seq<char>) -> Seq<char> {
    snake_upto(s, s.len() as int)
}

/// A run of characters that are not upper-case passes through verbatim.
pub proof fn lemma_snake_clean_run(s: Seq<char>, r: int, i: int)
    requires
        0 <= r <= i <= s.len(),
        forall|j: int| r <= j < i ==> !is_upper(#[trigger] s[j]),
    ensures
        snake_upto(s, i) == snake_upto(s, r) + s.subrange(r, i),
    decreases i - r,
{
    if i == r {
        assert(snake_upto(s, i) =~= snake_upto(s, r) + s.subrange(r, i));
    } else {
        lemma_snake_clean_run(s, r, i - 1);
        assert(snake_upto(s, i) =~= snake_upto(s, r) + s.subrange(r, i));
    }
}

fn lower_str(c: char) -> (r: &'static str)
    requires
        is_upper(c),
    ensures
        r@ == seq![to_lower(c)],
{
    proof {
        reveal_strlit("a");
        reveal_strlit("b");
        reveal_strlit("c");
        reveal_strlit("d");
        reveal_strlit("e");
        reveal_strlit("f");
        reveal_strlit("g");
        reveal_strlit("h");
        reveal_strlit("i");
        reveal_strlit("j");
        reveal_strlit("k");
        reveal_strlit("l");
        reveal_strlit("m");
        reveal_strlit("n");
        reveal_strlit("o");
        reveal_strlit("p");
        reveal_strlit("q");
        reveal_strlit("r");
        reveal_strlit("s");
        reveal_strlit("t");
        reveal_strlit("u");
        reveal_strlit("v");
        reveal_strlit("w");
        reveal_strlit("x");
        reveal_strlit("y");
        reveal_strlit("z");
    }
    match c {
        'A' => "a",
        'B' => "b",
        'C' => "c",
        'D' => "d",
        'E' => "e",
        'F' => "f",
        'G' => "g",
        'H' => "h",
        'I' => "i",
        'J' => "j",
        'K' => "k",
        'L' => "l",
        'M' => "m",
        'N' => "n",
        'O' => "o",
        'P' => "p",
        'Q' => "q",
        'R' => "r",
        'S' => "s",
        'T' => "t",
        'U' => "u",
        'V' => "v",
        'W' => "w",
        'X' => "x",
        'Y' => "y",
        _ => "z",
    }
}

/// PascalCase (or camelCase) to snake_case, exactly as `snake_of` states.
pub fn pascal_to_snake(s: &str) -> (r: String)
    ensures
        r@ == snake_of(s@),
{
    proof {
        reveal_strlit("_");
    }
    let n = s.unicode_len();
    let mut out = String::new();
    let mut run: usize = 0;
    let mut i: usize = 0;
    while i < n
        invariant
            run <= i <= n,
            n == s@.len(),
            out@ == snake_upto(s@, run as int),
            forall|j: int| run <= j < i ==> !is_upper(#[trigger] s@[j]),
        decreases n - i,
    {
        let c = s.get_char(i);
        let upper = ('A' as u32) <= (c as u32) && (c as u32) <= ('Z' as u32);
        if upper {
            out.append(s.substring_char(run, i));
            proof {
                lemma_snake_clean_run(s@, run as int, i as int);
            }
            if i > 0 {
                out.append("_");
            }
            out.append(lower_str(c));
            proof {
                assert(out@ =~= snake_upto(s@, i + 1));
            }
            run = i + 1;
        }
        i = i + 1;
    }
    out.append(s.substring_char(run, n));
    proof {
        lemma_snake_clean_run(s@, run as int, n as int);
        assert(out@ =~= snake_of(s@));
    }
    out
}

/// Underscores replaced by dots, character for character.
pub open spec fn dotted_upto(s: Seq<char>, i: int) -> Seq<char>
    decreases i,
{
    if i <= 0 {
        Seq::empty()
    } else {
        dotted_upto(s, i - 1).push(
            if s[i - 1] == '_' {
                '.'
            } else {
                s[i - 1]
            },
        )
    }
}

pub open spec fn dotted_of(s: Seq<char>) -> Seq<char> {
    dotted_upto(s, s.len() as int)
}

pub proof fn lemma_dotted_clean_run(s: Seq<char>, r: int, i: int)
    requires
        0 <= r <= i <= s.len(),
        forall|j: int| r <= j < i ==> #[trigger] s[j] != '_',
    ensures
        dotted_upto(s, i) == dotted_upto(s, r) + s.subrange(r, i),
    decreases i - r,
{
    if i == r {
        assert(dotted_upto(s, i) =~= dotted_upto(s, r) + s.subrange(r, i));
    } else {
        lemma_dotted_clean_run(s, r, i - 1);
        assert(dotted_upto(s, i) =~= dotted_upto(s, r) + s.subrange(r, i));
    }
}

fn replace_underscores(s: &str) -> (r: String)
    ensures
        r@ == dotted_of(s@),
{
    proof {
        reveal_strlit(".");
    }
    let n = s.unicode_len();
    let mut out = String::new();
    let mut run: usize = 0;
    let mut i: usize = 0;
    while i < n
        invariant
            run <= i <= n,
            n == s@.len(),
            out@ == dotted_upto(s@, run as int),
            forall|j: int| run <= j < i ==> #[trigger] s@[j] != '_',
        decreases n - i,
    {
        let c = s.get_char(i);
        if c == '_' {
            out.append(s.substring_char(run, i));
            proof {
                lemma_dotted_clean_run(s@, run as int, i as int);
            }
            out.append(".");
            proof {
                assert(out@ =~= dotted_upto(s@, i + 1));
            }
            run = i + 1;
        }
        i = i + 1;
    }
    out.append(s.substring_char(run, n));
    proof {
        lemma_dotted_clean_run(s@, run as int, n as int);
        assert(out@ =~= dotted_of(s@));
    }
    out
}

/// PascalCase to a dotted tag: the snake form with dots for underscores.
pub fn pascal_to_dot(s: &str) -> (r: String)
    ensures
        r@ == dotted_of(snake_of(s@)),
{
    let snake = pascal_to_snake(s);
    replace_underscores(snake.as_str())
}

/// Whether the needle occurs in the haystack at position `i`.
pub open spec fn match_at(h: Seq<char>, n: Seq<char>, i: int) -> bool {
    0 <= i && i + n.len() <= h.len() && h.subrange(i, i + n.len()) == n
}

/// Whether the needle occurs anywhere in the haystack.
pub open spec fn has_sub(h: Seq<char>, n: Seq<char>) -> bool {
    exists|i: int| match_at(h, n, i)
}

/// Substring search, exact to `has_sub`.
pub fn contains_sub(h: &str, n: &str) -> (r: bool)
    ensures
        r == has_sub(h@, n@),
{
    let hn = h.unicode_len();
    let nn = n.unicode_len();
    if nn > hn {
        proof {
            assert forall|i: int| !match_at(h@, n@, i) by {}
        }
        return false;
    }
    if nn == 0 {
        proof {
            assert(h@.subrange(0, 0) =~= n@);
            assert(match_at(h@, n@, 0));
        }
        return true;
    }
    let mut i: usize = 0;
    while i <= hn - nn
        invariant
            1 <= nn <= hn,
            hn == h@.len(),
            nn == n@.len(),
            i <= hn - nn + 1,
            forall|m: int| 0 <= m < i ==> !match_at(h@, n@, m),
        decreases hn - nn - i + 1,
    {
        let mut j: usize = 0;
        let mut matched = true;
        while j < nn && matched
            invariant
                j <= nn,
                i + nn <= hn,
                matched ==> forall|m: int| 0 <= m < j ==> h@[i + m] == n@[m],
                !matched ==> !match_at(h@, n@, i as int),
            decreases nn - j,
        {
            if h.get_char(i + j) != n.get_char(j) {
                proof {
                    if match_at(h@, n@, i as int) {
                        assert(h@.subrange(i as int, i + n@.len())[j as int] == n@[j as int]);
                    }
                }
                matched = false;
            }
            j = j + 1;
        }
        if matched {
            proof {
                assert(h@.subrange(i as int, i + n@.len()) =~= n@);
                assert(match_at(h@, n@, i as int));
            }
            return true;
        }
        i = i + 1;
    }
    proof {
        assert forall|m: int| !match_at(h@, n@, m) implies true by {}
        assert forall|m: int| 0 <= m <= hn - nn implies !match_at(h@, n@, m) by {}
        assert(!has_sub(h@, n@)) by {
            if has_sub(h@, n@) {
                let w = choose|w: int| match_at(h@, n@, w);
                assert(0 <= w <= hn - nn);
            }
        }
    }
    false
}

/// Whether an error message reports an end of stream: it mentions a closed
/// or reset connection rather than a malformed request.
pub fn is_eof(msg: &str) -> (r: bool)
    ensures
        r == (has_sub(msg@, "rpc eof"@) || has_sub(msg@, "early eof"@) || has_sub(
            msg@,
            "connection reset"@,
        )),
{
    contains_sub(msg, "rpc eof") || contains_sub(msg, "early eof") || contains_sub(
        msg,
        "connection reset",
    )
}

} // verus!
