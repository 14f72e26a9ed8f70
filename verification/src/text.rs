//! A plain-text decoder for simple scalar documents: empty text is null,
//! `ERR` is rejected, a 32-bit integer literal is an integer, `true` and
//! `false` are booleans, anything else is the text itself.

use crate::document::{DocView, Document};
use crate::fragment::{all_digits, digits_val, lemma_digits_val_nonneg, lemma_digits_val_prefix};
use crate::loader::error::LoaderError;
use vstd::prelude::*;

verus! {

/// The whitespace the decoder strips at either end.
pub open spec fn is_space(c: char) -> bool {
    c == ' ' || c == '\t' || c == '\n' || c == '\r'
}

/// The text with leading whitespace removed.
pub open spec fn trim_front(s: Seq<char>) -> Seq<char>
    decreases s.len(),
{
    if s.len() > 0 && is_space(s[0]) {
        trim_front(s.skip(1))
    } else {
        s
    }
}

/// The text with trailing whitespace removed.
pub open spec fn trim_back(s: Seq<char>) -> Seq<char>
    decreases s.len(),
{
    if s.len() > 0 && is_space(s.last()) {
        trim_back(s.drop_last())
    } else {
        s
    }
}

/// The text with whitespace removed at both ends.
pub open spec fn trimmed(s: Seq<char>) -> Seq<char> {
    trim_back(trim_front(s))
}

/// A signed decimal literal's value: an optional `+` or `-` sign followed
/// by at least one digit.
pub open spec fn int_token_val(t: Seq<char>) -> Option<int> {
    let negative = t.len() > 0 && t[0] == '-';
    let digits = if t.len() > 0 && (t[0] == '-' || t[0] == '+') {
        t.skip(1)
    } else {
        t
    };
    if digits.len() > 0 && all_digits(digits) {
        if negative {
            Some(-digits_val(digits))
        } else {
            Some(digits_val(digits))
        }
    } else {
        None
    }
}

/// A 32-bit integer literal's value, if the text is one.
pub open spec fn parse_i32_spec(t: Seq<char>) -> Option<int> {
    match int_token_val(t) {
        Some(v) => if i32::MIN <= v <= i32::MAX {
            Some(v)
        } else {
            None
        },
        None => None,
    }
}

/// What decoding a text yields: a document view, or rejection carrying the
/// trimmed text.
pub open spec fn decode_text_spec(s: Seq<char>) -> Result<DocView, Seq<char>> {
    let t = trimmed(s);
    if t.len() == 0 {
        Ok(DocView::Null)
    } else if t == seq!['E', 'R', 'R'] {
        Err(t)
    } else {
        match parse_i32_spec(t) {
            Some(v) => Ok(DocView::Int(v)),
            None => if t == seq!['t', 'r', 'u', 'e'] {
                Ok(DocView::Bool(true))
            } else if t == seq!['f', 'a', 'l', 's', 'e'] {
                Ok(DocView::Bool(false))
            } else {
                Ok(DocView::Str(t))
            },
        }
    }
}

proof fn lemma_trim_front_is_skip(s: Seq<char>, lo: int)
    requires
        0 <= lo <= s.len(),
        forall|j: int| 0 <= j < lo ==> is_space(s[j]),
        lo == s.len() || !is_space(s[lo]),
    ensures
        trim_front(s) == s.skip(lo),
    decreases lo,
{
    if lo == 0 {
        assert(s.skip(0) =~= s);
    } else {
        lemma_trim_front_is_skip(s.skip(1), lo - 1);
        assert(s.skip(1).skip(lo - 1) =~= s.skip(lo));
    }
}

proof fn lemma_trim_back_is_take(s: Seq<char>, hi: int)
    requires
        0 <= hi <= s.len(),
        forall|j: int| hi <= j < s.len() ==> is_space(s[j]),
        hi == 0 || !is_space(s[hi - 1]),
    ensures
        trim_back(s) == s.subrange(0, hi),
    decreases s.len(),
{
    if s.len() == 0 {
        assert(s =~= s.subrange(0, 0));
    } else if is_space(s.last()) {
        assert(hi < s.len());
        lemma_trim_back_is_take(s.drop_last(), hi);
        assert(s.drop_last().subrange(0, hi) =~= s.subrange(0, hi));
    } else {
        assert(hi == s.len());
        assert(s =~= s.subrange(0, hi));
    }
}

fn is_space_exec(c: char) -> (r: bool)
    ensures
        r == is_space(c),
{
    c == ' ' || c == '\t' || c == '\n' || c == '\r'
}

fn trim_exec(s: &str) -> (r: &str)
    ensures
        r@ == trimmed(s@),
{
    let n = s.unicode_len();
    let mut lo: usize = 0;
    while lo < n && is_space_exec(s.get_char(lo))
        invariant
            lo <= n,
            n == s@.len(),
            forall|j: int| 0 <= j < lo ==> is_space(s@[j]),
        decreases n - lo,
    {
        lo = lo + 1;
    }
    let mut hi: usize = n;
    while hi > lo && is_space_exec(s.get_char(hi - 1))
        invariant
            lo <= hi <= n,
            n == s@.len(),
            forall|j: int| hi <= j < n ==> is_space(s@[j]),
        decreases hi,
    {
        hi = hi - 1;
    }
    proof {
        lemma_trim_front_is_skip(s@, lo as int);
        if hi == lo {
            lemma_trim_back_is_take(s@.skip(lo as int), 0);
        } else {
            lemma_trim_back_is_take(s@.skip(lo as int), hi - lo);
        }
        assert(s@.skip(lo as int).subrange(0, hi - lo) =~= s@.subrange(lo as int, hi as int));
    }
    s.substring_char(lo, hi)
}

fn str_equals(a: &str, b: &str) -> (r: bool)
    ensures
        r == (a@ == b@),
{
    let na = a.unicode_len();
    let nb = b.unicode_len();
    if na != nb {
        return false;
    }
    let mut i: usize = 0;
    while i < na
        invariant
            i <= na,
            na == a@.len(),
            na == b@.len(),
            forall|j: int| 0 <= j < i ==> a@[j] == b@[j],
        decreases na - i,
    {
        if a.get_char(i) != b.get_char(i) {
            return false;
        }
        i = i + 1;
    }
    proof {
        assert(a@ =~= b@);
    }
    true
}

fn parse_i32_exec(t: &str) -> (r: Option<i32>)
    ensures
        match r {
            Some(v) => parse_i32_spec(t@) == Some(v as int),
            None => parse_i32_spec(t@) is None,
        },
{
    let n = t.unicode_len();
    if n == 0 {
        return None;
    }
    let first = t.get_char(0);
    let negative = first == '-';
    let start: usize = if first == '-' || first == '+' {
        1
    } else {
        0
    };
    let ghost digits = if start == 1 {
        t@.skip(1)
    } else {
        t@
    };
    if start >= n {
        return None;
    }
    let mut acc: u64 = 0;
    let mut i: usize = start;
    proof {
        assert(digits.take(0) =~= Seq::<char>::empty());
    }
    while i < n
        invariant
            start <= i <= n,
            n == t@.len(),
            n > start,
            digits == (if start == 1 {
                t@.skip(1)
            } else {
                t@
            }),
            digits.len() == n - start,
            start <= 1,
            (start == 1) == (t@[0] == '-' || t@[0] == '+'),
            forall|j: int| 0 <= j < digits.len() ==> digits[j] == t@[j + start],
            all_digits(digits.take(i - start)),
            acc as int == digits_val(digits.take(i - start)),
            acc <= 0x8000_0000u64,
        decreases n - i,
    {
        let c = t.get_char(i);
        if c < '0' || c > '9' {
            proof {
                assert(digits[i - start] == t@[i as int]);
                assert(!('0' <= digits[i - start] && digits[i - start] <= '9'));
                assert(!all_digits(digits));
                assert(int_token_val(t@) is None);
                assert(parse_i32_spec(t@) is None);
            }
            return None;
        }
        let d = (c as u32 - 48) as u64;
        let next = acc * 10 + d;
        proof {
            assert(digits.take(i - start + 1).drop_last() =~= digits.take(i - start));
            assert(digits.take(i - start + 1).last() == digits[i - start]);
            assert(digits[i - start] == t@[i as int]);
        }
        if next > 0x8000_0000u64 {
            proof {
                assert(digits_val(digits.take(i - start + 1)) == acc * 10 + d);
                lemma_digits_val_prefix(digits, i - start + 1);
                assert(digits_val(digits) > 0x8000_0000);
                assert(parse_i32_spec(t@) is None);
            }
            return None;
        }
        acc = next;
        i = i + 1;
    }
    proof {
        assert(digits.take(n - start) =~= digits);
    }
    if negative {
        if acc == 0x8000_0000u64 {
            Some(i32::MIN)
        } else {
            Some(-((acc as i64) as i32))
        }
    } else {
        if acc == 0x8000_0000u64 {
            proof {
                lemma_digits_val_nonneg(digits);
            }
            None
        } else {
            Some(acc as i32)
        }
    }
}

/// Decode a plain text into a document: empty (after trimming) is null,
/// `ERR` is rejected with the trimmed text as the decoder's message, a
/// 32-bit integer literal is an integer, `true`/`false` are booleans, and
/// any other text is a string document.
pub fn load_from_string(content: &str) -> (r: Result<Document, LoaderError>)
    ensures
        match r {
            Ok(d) => decode_text_spec(content@) == Ok::<DocView, Seq<char>>(d@),
            Err(e) => {
                &&& decode_text_spec(content@) is Err
                &&& e matches LoaderError::FormatError(m) && m@ == trimmed(content@)
            },
        },
{
    let t = trim_exec(content);
    let n = t.unicode_len();
    proof {
        reveal_strlit("ERR");
        reveal_strlit("true");
        reveal_strlit("false");
        assert("ERR"@ =~= seq!['E', 'R', 'R']);
        assert("true"@ =~= seq!['t', 'r', 'u', 'e']);
        assert("false"@ =~= seq!['f', 'a', 'l', 's', 'e']);
    }
    if n == 0 {
        proof {
            assert(t@ =~= Seq::<char>::empty());
        }
        Ok(Document::Null)
    } else if str_equals(t, "ERR") {
        Err(LoaderError::FormatError(String::from_str(t)))
    } else {
        match parse_i32_exec(t) {
            Some(v) => Ok(Document::Int(v as i64)),
            None => {
                if str_equals(t, "true") {
                    Ok(Document::Bool(true))
                } else if str_equals(t, "false") {
                    Ok(Document::Bool(false))
                } else {
                    Ok(Document::Str(String::from_str(t)))
                }
            },
        }
    }
}

} // verus!
