//! Fragment-based sub-document extraction: a canonical fragment is split
//! into reference tokens (`~0` decodes to `~`, `~1` to `/`), and the tokens
//! descend into objects by key and into arrays by decimal index.

use crate::document::{
    Document,
    DocView,
    SharedDocument,
    ToOwnedJsonType,
    json_text,
    share_document,
};
use crate::loader::error::LoaderError;
use crate::url_helpers::UrlError;
use vstd::prelude::*;

verus! {

/// One reference token, decoded left to right: `~0` becomes `~`, `~1`
/// becomes `/`, anything else is kept.
pub open spec fn decode_token(t: Seq<char>) -> Seq<char>
    decreases t.len(),
{
    if t.len() == 0 {
        Seq::<char>::empty()
    } else if t[0] == '~' && t.len() >= 2 && (t[1] == '0' || t[1] == '1') {
        (if t[1] == '0' {
            seq!['~']
        } else {
            seq!['/']
        }) + decode_token(t.skip(2))
    } else {
        seq![t[0]] + decode_token(t.skip(1))
    }
}

/// A sequence split at every `/`; splitting the empty sequence yields one
/// empty segment.
pub open spec fn split_slash(s: Seq<char>) -> Seq<Seq<char>>
    decreases s.len(),
{
    if s.len() == 0 {
        seq![Seq::<char>::empty()]
    } else if s[0] == '/' {
        seq![Seq::<char>::empty()] + split_slash(s.skip(1))
    } else {
        let rest = split_slash(s.skip(1));
        seq![seq![s[0]] + rest[0]] + rest.skip(1)
    }
}

/// The segments of a sequence, each decoded.
pub open spec fn decoded_tokens(s: Seq<char>) -> Seq<Seq<char>> {
    split_slash(s).map_values(|t: Seq<char>| decode_token(t))
}

/// The reference tokens of a fragment: the root fragment `/` (and the empty
/// fragment) yields none; otherwise the body after the leading `/` is split
/// at `/` and each token is decoded.
pub open spec fn fragment_tokens(frag: Seq<char>) -> Seq<Seq<char>> {
    if frag.len() == 0 {
        Seq::<Seq<char>>::empty()
    } else {
        let body = if frag[0] == '/' {
            frag.skip(1)
        } else {
            frag
        };
        if body.len() == 0 {
            Seq::<Seq<char>>::empty()
        } else {
            decoded_tokens(body)
        }
    }
}

/// Whether every character is an ASCII decimal digit.
pub open spec fn all_digits(t: Seq<char>) -> bool {
    forall|i: int| 0 <= i < t.len() ==> '0' <= #[trigger] t[i] && t[i] <= '9'
}

/// The value of a digit sequence read in decimal (non-digits count as 0).
pub open spec fn digits_val(t: Seq<char>) -> int
    decreases t.len(),
{
    if t.len() == 0 {
        0
    } else {
        let d = if '0' <= t.last() && t.last() <= '9' {
            t.last() as int - '0' as int
        } else {
            0
        };
        digits_val(t.drop_last()) * 10 + d
    }
}

/// A token read as an array index: at least one character, all digits.
pub open spec fn token_index(t: Seq<char>) -> Option<int> {
    if t.len() > 0 && all_digits(t) {
        Some(digits_val(t))
    } else {
        None
    }
}

/// The value of the first entry whose key equals `key`, if any.
pub open spec fn first_key_match(entries: Seq<(Seq<char>, DocView)>, key: Seq<char>) -> Option<
    DocView,
>
    decreases entries.len(),
{
    if entries.len() == 0 {
        None
    } else if entries[0].0 == key {
        Some(entries[0].1)
    } else {
        first_key_match(entries.skip(1), key)
    }
}

/// Descending into a document along reference tokens: into an object by
/// token-as-key, into an array by token-as-index; anything else fails.
pub open spec fn doc_lookup(d: DocView, tokens: Seq<Seq<char>>) -> Option<DocView>
    decreases tokens.len(),
{
    if tokens.len() == 0 {
        Some(d)
    } else {
        match d {
            DocView::Object(entries) => match first_key_match(entries, tokens[0]) {
                Some(v) => doc_lookup(v, tokens.skip(1)),
                None => None,
            },
            DocView::Array(items) => match token_index(tokens[0]) {
                Some(i) => if 0 <= i < items.len() {
                    doc_lookup(items[i], tokens.skip(1))
                } else {
                    None
                },
                None => None,
            },
            _ => None,
        }
    }
}

fn decode_token_exec(t: &str) -> (r: String)
    ensures
        r@ == decode_token(t@),
{
    let n = t.unicode_len();
    let mut out = String::new();
    let mut i: usize = 0;
    proof {
        assert(t@.skip(0) =~= t@);
    }
    while i < n
        invariant
            i <= n,
            n == t@.len(),
            decode_token(t@) == out@ + decode_token(t@.skip(i as int)),
        decreases n - i,
    {
        let c = t.get_char(i);
        if c == '~' && i + 1 < n && (t.get_char(i + 1) == '0' || t.get_char(i + 1) == '1') {
            let d = t.get_char(i + 1);
            proof {
                reveal_strlit("~");
                reveal_strlit("/");
                assert(t@.skip(i as int).skip(2) =~= t@.skip(i as int + 2));
            }
            if d == '0' {
                out.append("~");
                proof {
                    assert(decode_token(t@.skip(i as int)) =~= seq!['~'] + decode_token(
                        t@.skip(i as int + 2),
                    ));
                    assert(out@ + decode_token(t@.skip(i as int + 2)) =~= decode_token(t@));
                }
            } else {
                out.append("/");
                proof {
                    assert(decode_token(t@.skip(i as int)) =~= seq!['/'] + decode_token(
                        t@.skip(i as int + 2),
                    ));
                    assert(out@ + decode_token(t@.skip(i as int + 2)) =~= decode_token(t@));
                }
            }
            i = i + 2;
        } else {
            out.append(t.substring_char(i, i + 1));
            proof {
                assert(t@.subrange(i as int, i as int + 1) =~= seq![t@[i as int]]);
                assert(t@.skip(i as int).skip(1) =~= t@.skip(i as int + 1));
                assert(decode_token(t@.skip(i as int)) =~= seq![t@[i as int]] + decode_token(
                    t@.skip(i as int + 1),
                ));
                assert(out@ + decode_token(t@.skip(i as int + 1)) =~= decode_token(t@));
            }
            i = i + 1;
        }
    }
    proof {
        assert(t@.skip(n as int) =~= Seq::<char>::empty());
        assert(out@ =~= decode_token(t@));
    }
    out
}

fn next_slash(f: &str, from: usize) -> (r: usize)
    requires
        from <= f@.len(),
    ensures
        from <= r <= f@.len(),
        forall|j: int| from <= j < r ==> f@[j] != '/',
        r < f@.len() ==> f@[r as int] == '/',
{
    let n = f.unicode_len();
    let mut i = from;
    while i < n
        invariant
            from <= i <= n,
            n == f@.len(),
            forall|j: int| from <= j < i ==> f@[j] != '/',
        decreases n - i,
    {
        if f.get_char(i) == '/' {
            return i;
        }
        i = i + 1;
    }
    i
}

proof fn lemma_split_first(s: Seq<char>, k: int)
    requires
        0 <= k <= s.len(),
        forall|j: int| 0 <= j < k ==> s[j] != '/',
        k < s.len() ==> s[k] == '/',
    ensures
        k == s.len() ==> split_slash(s) == seq![s],
        k < s.len() ==> split_slash(s) == seq![s.take(k)] + split_slash(s.skip(k + 1)),
    decreases k,
{
    if k == 0 {
        if s.len() == 0 {
            assert(s =~= Seq::<char>::empty());
            assert(split_slash(s) =~= seq![s]);
        } else {
            assert(s.take(0) =~= Seq::<char>::empty());
            assert(split_slash(s) =~= seq![s.take(0)] + split_slash(s.skip(1)));
        }
    } else {
        let s1 = s.skip(1);
        assert(forall|j: int| 0 <= j < k - 1 ==> s1[j] != '/');
        lemma_split_first(s1, k - 1);
        if k == s.len() {
            assert(split_slash(s1) == seq![s1]);
            assert(seq![s1].skip(1) =~= Seq::<Seq<char>>::empty());
            assert(seq![s[0]] + s1 =~= s);
            assert(split_slash(s) =~= seq![s]);
        } else {
            assert(split_slash(s1) == seq![s1.take(k - 1)] + split_slash(s1.skip(k)));
            assert((seq![s1.take(k - 1)] + split_slash(s1.skip(k)))[0] == s1.take(k - 1));
            assert(seq![s[0]] + s1.take(k - 1) =~= s.take(k));
            assert(s1.skip(k) =~= s.skip(k + 1));
            assert((seq![s1.take(k - 1)] + split_slash(s.skip(k + 1))).skip(1) =~= split_slash(
                s.skip(k + 1),
            ));
            assert(split_slash(s) =~= seq![s.take(k)] + split_slash(s.skip(k + 1)));
        }
    }
}

fn split_decode_from(f: &str, i: usize) -> (r: Vec<String>)
    requires
        i <= f@.len(),
    ensures
        r.deep_view() == decoded_tokens(f@.skip(i as int)),
    decreases f@.len() - i,
{
    let n = f.unicode_len();
    let k = next_slash(f, i);
    let tok = decode_token_exec(f.substring_char(i, k));
    let ghost s = f@.skip(i as int);
    proof {
        assert(forall|j: int| 0 <= j < k - i ==> s[j] != '/');
        lemma_split_first(s, k - i);
    }
    if k < n {
        let mut out: Vec<String> = Vec::new();
        out.push(tok);
        let mut rest = split_decode_from(f, k + 1);
        let ghost restv = rest.deep_view();
        out.append(&mut rest);
        proof {
            assert(f@.subrange(i as int, k as int) =~= s.take(k - i));
            assert(s.skip(k - i + 1) =~= f@.skip(k as int + 1));
            assert(split_slash(s) == seq![s.take(k - i)] + split_slash(s.skip(k - i + 1)));
            assert(out@.len() == 1 + restv.len());
            assert(restv.len() == decoded_tokens(f@.skip(k as int + 1)).len());
            assert(decoded_tokens(f@.skip(k as int + 1)).len() == split_slash(
                f@.skip(k as int + 1),
            ).len());
            assert(split_slash(s.skip(k - i + 1)) == split_slash(f@.skip(k as int + 1)));
            assert(decoded_tokens(s).len() == split_slash(s).len());
            assert(split_slash(s).len() == 1 + split_slash(s.skip(k - i + 1)).len());
            assert(out.deep_view().len() == decoded_tokens(s).len());
            assert forall|j: int| 0 <= j < out.deep_view().len() implies out.deep_view()[j]
                == decoded_tokens(s)[j] by {
                if j == 0 {
                    assert(out@[0].deep_view() == decode_token(s.take(k - i)));
                } else {
                    assert(out@[j].deep_view() == restv[j - 1]);
                    assert(restv[j - 1] == decode_token(split_slash(f@.skip(k as int + 1))[j - 1]));
                    assert(split_slash(s)[j] == split_slash(s.skip(k - i + 1))[j - 1]);
                }
            }
            assert(out.deep_view() =~= decoded_tokens(s));
        }
        out
    } else {
        let mut one: Vec<String> = Vec::new();
        one.push(tok);
        proof {
            assert(f@.subrange(i as int, k as int) =~= s);
            assert(one.deep_view() =~= decoded_tokens(s));
        }
        one
    }
}

/// A fragment's reference tokens, decoded, in order of descent.
pub type FragmentPath = Vec<String>;

/// The reference tokens of a fragment, decoded: the root fragment `/` (and
/// the empty fragment) yields none.
pub fn fragment_to_tokens(frag: &str) -> (r: FragmentPath)
    ensures
        r.deep_view() == fragment_tokens(frag@),
{
    let n = frag.unicode_len();
    let start: usize = if n > 0 && frag.get_char(0) == '/' {
        1
    } else {
        0
    };
    if start >= n {
        let empty: Vec<String> = Vec::new();
        proof {
            assert(empty.deep_view() =~= fragment_tokens(frag@));
        }
        empty
    } else {
        let r = split_decode_from(frag, start);
        proof {
            assert(frag@.skip(0) =~= frag@);
            assert(r.deep_view() == fragment_tokens(frag@));
        }
        r
    }
}

pub(crate) proof fn lemma_digits_val_nonneg(t: Seq<char>)
    ensures
        digits_val(t) >= 0,
    decreases t.len(),
{
    if t.len() > 0 {
        lemma_digits_val_nonneg(t.drop_last());
    }
}

pub(crate) proof fn lemma_digits_val_prefix(t: Seq<char>, k: int)
    requires
        0 <= k <= t.len(),
    ensures
        digits_val(t.take(k)) <= digits_val(t),
    decreases t.len(),
{
    if k == t.len() {
        assert(t.take(k) =~= t);
    } else {
        lemma_digits_val_nonneg(t.drop_last());
        lemma_digits_val_prefix(t.drop_last(), k);
        assert(t.drop_last().take(k) =~= t.take(k));
    }
}

fn parse_index(t: &str) -> (r: Option<usize>)
    ensures
        match r {
            Some(i) => token_index(t@) == Some(i as int),
            None => match token_index(t@) {
                Some(v) => v > usize::MAX,
                None => true,
            },
        },
{
    let n = t.unicode_len();
    if n == 0 {
        return None;
    }
    let mut acc: usize = 0;
    let mut i: usize = 0;
    proof {
        assert(t@.take(0) =~= Seq::<char>::empty());
    }
    while i < n
        invariant
            i <= n,
            n == t@.len(),
            all_digits(t@.take(i as int)),
            acc as int == digits_val(t@.take(i as int)),
        decreases n - i,
    {
        let c = t.get_char(i);
        if c < '0' || c > '9' {
            return None;
        }
        let d = (c as u32 - 48) as usize;
        let overflowed: bool = match acc.checked_mul(10) {
            Some(m) => match m.checked_add(d) {
                Some(nv) => {
                    acc = nv;
                    false
                },
                None => true,
            },
            None => true,
        };
        proof {
            assert(t@.take(i as int + 1).drop_last() =~= t@.take(i as int));
            assert(t@.take(i as int + 1).last() == t@[i as int]);
        }
        if overflowed {
            proof {
                if token_index(t@) matches Some(v) {
                    lemma_digits_val_prefix(t@, i as int + 1);
                }
            }
            return None;
        }
        i = i + 1;
    }
    proof {
        assert(t@.take(n as int) =~= t@);
    }
    Some(acc)
}

proof fn lemma_first_key_match_skip(entries: Seq<(Seq<char>, DocView)>, key: Seq<char>, i: int)
    requires
        0 <= i <= entries.len(),
        forall|j: int| 0 <= j < i ==> entries[j].0 != key,
    ensures
        first_key_match(entries, key) == first_key_match(entries.skip(i), key),
    decreases i,
{
    if i > 0 {
        lemma_first_key_match_skip(entries.skip(1), key, i - 1);
        assert(entries.skip(1).skip(i - 1) =~= entries.skip(i));
    } else {
        assert(entries.skip(0) =~= entries);
    }
}

#[verifier::loop_isolation(false)]
fn lookup_tokens<'a>(doc: &'a Document, tokens: &Vec<String>, idx: usize) -> (r: Option<
    &'a Document,
>)
    requires
        idx <= tokens@.len(),
    ensures
        match r {
            Some(d) => doc_lookup(doc@, tokens.deep_view().skip(idx as int)) == Some(d@),
            None => doc_lookup(doc@, tokens.deep_view().skip(idx as int)) is None,
        },
    decreases tokens@.len() - idx,
{
    let ghost toks = tokens.deep_view().skip(idx as int);
    if idx == tokens.len() {
        proof {
            assert(toks =~= Seq::<Seq<char>>::empty());
        }
        return Some(doc);
    }
    let tok: &String = &tokens[idx];
    proof {
        assert(toks[0] == tok@);
        assert(toks.skip(1) =~= tokens.deep_view().skip(idx as int + 1));
    }
    match doc {
        Document::Object(entries) => {
            let ghost ev = doc@->Object_0;
            proof {
                assert(*doc == Document::Object(*entries));
                assert(ev == crate::document::entry_seq_view(entries@));
                assert(ev.len() == entries@.len());
            }
            let mut i: usize = 0;
            while i < entries.len()
                invariant
                    i <= entries@.len(),
                    forall|j: int| 0 <= j < i ==> ev[j].0 != tok@,
                decreases entries@.len() - i,
            {
                proof {
                    assert(ev[i as int] == (entries@[i as int].0@, entries@[i as int].1@));
                }
                if entries[i].0 == *tok {
                    proof {
                        lemma_first_key_match_skip(ev, tok@, i as int);
                        assert(first_key_match(ev.skip(i as int), tok@) == Some(ev[i as int].1));
                        assert(first_key_match(ev, toks[0]) == Some(entries@[i as int].1@));
                        assert(doc_lookup(doc@, toks) == doc_lookup(
                            entries@[i as int].1@,
                            toks.skip(1),
                        ));
                    }
                    return lookup_tokens(&entries[i].1, tokens, idx + 1);
                }
                i = i + 1;
            }
            proof {
                lemma_first_key_match_skip(ev, tok@, ev.len() as int);
                assert(ev.skip(ev.len() as int) =~= Seq::<(Seq<char>, DocView)>::empty());
                assert(first_key_match(ev, toks[0]) is None);
                assert(doc_lookup(doc@, toks) is None);
            }
            None
        },
        Document::Array(items) => {
            let ghost iv = doc@->Array_0;
            proof {
                assert(*doc == Document::Array(*items));
                assert(iv == crate::document::doc_seq_view(items@));
                assert(iv.len() == items@.len());
            }
            match parse_index(tok.as_str()) {
                Some(i) => {
                    if i < items.len() {
                        proof {
                            assert(iv[i as int] == items@[i as int]@);
                            assert(doc_lookup(doc@, toks) == doc_lookup(
                                items@[i as int]@,
                                toks.skip(1),
                            ));
                        }
                        lookup_tokens(&items[i], tokens, idx + 1)
                    } else {
                        proof {
                            assert(token_index(toks[0]) == Some(i as int));
                            assert(iv.len() == items@.len());
                            assert(!((i as int) < iv.len()));
                            assert(toks.len() > 0);
                            assert(doc@ == DocView::Array(iv));
                            assert(doc_lookup(doc@, toks) is None);
                        }
                        None
                    }
                },
                None => {
                    proof {
                        assert(items.len() == items@.len());
                        assert(iv.len() <= usize::MAX);
                        assert(doc_lookup(doc@, toks) is None);
                    }
                    None
                },
            }
        },
        _ => None,
    }
}

/// The message of a failed extraction: it names the fragment and the
/// document's textual representation, to aid debugging.
pub open spec fn not_found_message(frag: Seq<char>, dv: DocView) -> Seq<char> {
    "Fragment '"@ + frag + "' not found in "@ + json_text(dv)
}

/// Extract the sub-value a canonical fragment addresses. The root fragment
/// `/` is the identity extraction and returns the input handle unchanged;
/// any other fragment yields a newly owned copy of the addressed sub-value
/// in a fresh shared handle. A fragment that addresses nothing fails with a
/// `JsonFragmentError` naming the fragment and the document's JSON text.
pub fn extract_fragment(doc: &SharedDocument, fragment: &str) -> (r: Result<
    SharedDocument,
    LoaderError,
>)
    ensures
        match r {
            Ok(d) => doc_lookup(doc@, fragment_tokens(fragment@)) == Some(d@),
            Err(e) => doc_lookup(doc@, fragment_tokens(fragment@)) is None && (
            e matches LoaderError::InvalidURL(UrlError::JsonFragmentError(m)) && m@
                == not_found_message(fragment@, doc@)),
        },
        fragment_tokens(fragment@).len() == 0 ==> (r matches Ok(d) && d == *doc),
{
    let tokens = fragment_to_tokens(fragment);
    if tokens.len() == 0 {
        return Ok(share_document(doc));
    }
    proof {
        assert(tokens.deep_view().skip(0) =~= fragment_tokens(fragment@));
    }
    match lookup_tokens(&**doc, &tokens, 0) {
        Some(sub) => Ok(std::sync::Arc::new(sub.to_owned_json_type())),
        None => {
            let mut message = String::from_str("Fragment '");
            message.append(fragment);
            message.append("' not found in ");
            message.append((&**doc).to_json_string().as_str());
            proof {
                assert(message@ =~= not_found_message(fragment@, doc@));
            }
            Err(LoaderError::InvalidURL(UrlError::JsonFragmentError(message)))
        },
    }
}

} // verus!
