//! The decoded document: an owned, immutable tree value (null, boolean,
//! integer, string, array, object) produced by a format decoder.

use vstd::prelude::*;

verus! {

/// A decoded document. Values are never mutated after creation; the loader
/// shares them behind reference-counted handles.
#[derive(Debug, PartialEq)]
pub enum Document {
    Null,
    Bool(bool),
    Int(i64),
    Str(String),
    Array(Vec<Document>),
    Object(Vec<(String, Document)>),
}

/// Mathematical image of a [`Document`].
pub enum DocView {
    Null,
    Bool(bool),
    Int(int),
    Str(Seq<char>),
    Array(Seq<DocView>),
    Object(Seq<(Seq<char>, DocView)>),
}

/// The views of a sequence of documents, element by element.
pub open spec fn doc_seq_view(items: Seq<Document>) -> Seq<DocView>
    decreases items,
{
    Seq::new(
        items.len(),
        |i: int|
            if 0 <= i < items.len() {
                items[i]@
            } else {
                DocView::Null
            },
    )
}

/// The views of a sequence of keyed entries, element by element.
pub open spec fn entry_seq_view(entries: Seq<(String, Document)>) -> Seq<(Seq<char>, DocView)>
    decreases entries,
{
    Seq::new(
        entries.len(),
        |i: int|
            if 0 <= i < entries.len() {
                (entries[i].0@, entries[i].1@)
            } else {
                (Seq::<char>::empty(), DocView::Null)
            },
    )
}

impl View for Document {
    type V = DocView;

    open spec fn view(&self) -> DocView
        decreases self,
    {
        match self {
            Document::Null => DocView::Null,
            Document::Bool(b) => DocView::Bool(*b),
            Document::Int(i) => DocView::Int(*i as int),
            Document::Str(s) => DocView::Str(s@),
            Document::Array(items) => DocView::Array(doc_seq_view(items@)),
            Document::Object(entries) => DocView::Object(entry_seq_view(entries@)),
        }
    }
}

/// A tree value that can produce a separately owned, structurally equal copy
/// of itself.
pub trait ToOwnedJsonType: View + Sized {
    fn to_owned_json_type(&self) -> (r: Self)
        ensures
            r@ == self@,
    ;
}

impl ToOwnedJsonType for Document {
    #[verifier::loop_isolation(false)]
    fn to_owned_json_type(&self) -> (r: Self)
        decreases *self,
    {
        match self {
            Document::Null => Document::Null,
            Document::Bool(b) => Document::Bool(*b),
            Document::Int(i) => Document::Int(*i),
            Document::Str(s) => Document::Str(s.clone()),
            Document::Array(items) => {
                let mut out: Vec<Document> = Vec::new();
                let mut i: usize = 0;
                while i < items.len()
                    invariant
                        i <= items@.len(),
                        out@.len() == i,
                        forall|j: int| 0 <= j < i ==> out@[j]@ == items@[j]@,
                    decreases items@.len() - i,
                {
                    proof {
                        assert(decreases_to!(*self => *items));
                        assert(decreases_to!(*items => items@[i as int]));
                        assert(decreases_to!(*self => items@[i as int]));
                    }
                    out.push(items[i].to_owned_json_type());
                    i = i + 1;
                }
                proof {
                    let r = Document::Array(out);
                    assert(r@->Array_0 =~= self@->Array_0);
                }
                Document::Array(out)
            },
            Document::Object(entries) => {
                let mut out: Vec<(String, Document)> = Vec::new();
                let mut i: usize = 0;
                while i < entries.len()
                    invariant
                        i <= entries@.len(),
                        out@.len() == i,
                        forall|j: int| 0 <= j < i ==> out@[j].0@ == entries@[j].0@ && out@[j].1@
                            == entries@[j].1@,
                    decreases entries@.len() - i,
                {
                    proof {
                        assert(decreases_to!(*self => *entries));
                        assert(decreases_to!(*entries => entries@[i as int]));
                        assert(decreases_to!(entries@[i as int] => entries@[i as int].1));
                        assert(decreases_to!(*self => entries@[i as int].1));
                    }
                    let entry = &entries[i];
                    out.push((entry.0.clone(), entry.1.to_owned_json_type()));
                    i = i + 1;
                }
                proof {
                    let r = Document::Object(out);
                    assert(r@->Object_0 =~= self@->Object_0);
                }
                Document::Object(out)
            },
        }
    }
}

/// A shared, immutable, reference-counted handle to a decoded document: the
/// cache hands the same decoded value to many concurrent readers.
pub type SharedDocument = std::sync::Arc<Document>;

/// Relies on `alloc::sync::Arc::clone`: the clone is a new handle to the
/// same allocation, hence to the same value.
#[verifier::external_body]
pub(crate) fn share_document(v: &SharedDocument) -> (r: SharedDocument)
    ensures
        r == *v,
{
    v.clone()
}

/// The decimal digit character for a value below ten.
pub open spec fn digit_char(d: int) -> char {
    if d == 0 {
        '0'
    } else if d == 1 {
        '1'
    } else if d == 2 {
        '2'
    } else if d == 3 {
        '3'
    } else if d == 4 {
        '4'
    } else if d == 5 {
        '5'
    } else if d == 6 {
        '6'
    } else if d == 7 {
        '7'
    } else if d == 8 {
        '8'
    } else {
        '9'
    }
}

/// The decimal numeral of a number, most significant digit first.
pub open spec fn decimal_of(n: int) -> Seq<char>
    decreases n,
{
    if n < 10 {
        seq![digit_char(n)]
    } else {
        decimal_of(n / 10) + seq![digit_char(n % 10)]
    }
}

pub(crate) fn digit_str(d: u64) -> (r: &'static str)
    requires
        d < 10,
    ensures
        r@ == seq![digit_char(d as int)],
{
    let s: &'static str = match d {
        0 => "0",
        1 => "1",
        2 => "2",
        3 => "3",
        4 => "4",
        5 => "5",
        6 => "6",
        7 => "7",
        8 => "8",
        _ => "9",
    };
    proof {
        reveal_strlit("0");
        reveal_strlit("1");
        reveal_strlit("2");
        reveal_strlit("3");
        reveal_strlit("4");
        reveal_strlit("5");
        reveal_strlit("6");
        reveal_strlit("7");
        reveal_strlit("8");
        reveal_strlit("9");
        assert(s@ =~= seq![digit_char(d as int)]);
    }
    s
}

pub(crate) fn u64_to_decimal(n: u64) -> (r: String)
    ensures
        r@ == decimal_of(n as int),
    decreases n,
{
    if n < 10 {
        String::from_str(digit_str(n))
    } else {
        let mut s = u64_to_decimal(n / 10);
        s.append(digit_str(n % 10));
        s
    }
}

/// One character of a string rendered inside JSON quotes: quote, backslash,
/// newline, carriage return and tab are escaped; any other character stands
/// as itself.
pub open spec fn escape_char(c: char) -> Seq<char> {
    if c == '"' {
        seq!['\\', '"']
    } else if c == '\\' {
        seq!['\\', '\\']
    } else if c == '\n' {
        seq!['\\', 'n']
    } else if c == '\r' {
        seq!['\\', 'r']
    } else if c == '\t' {
        seq!['\\', 't']
    } else {
        seq![c]
    }
}

/// A string's characters rendered inside JSON quotes, in order.
pub open spec fn json_escaped(s: Seq<char>) -> Seq<char>
    decreases s.len(),
{
    if s.len() == 0 {
        Seq::<char>::empty()
    } else {
        escape_char(s[0]) + json_escaped(s.skip(1))
    }
}

/// The decimal numeral of an integer, with a leading `-` when negative.
pub open spec fn int_decimal(n: int) -> Seq<char> {
    if n < 0 {
        seq!['-'] + decimal_of(-n)
    } else {
        decimal_of(n)
    }
}

/// A document rendered as compact JSON text.
pub open spec fn json_text(d: DocView) -> Seq<char>
    decreases d,
{
    match d {
        DocView::Null => seq!['n', 'u', 'l', 'l'],
        DocView::Bool(b) => if b {
            seq!['t', 'r', 'u', 'e']
        } else {
            seq!['f', 'a', 'l', 's', 'e']
        },
        DocView::Int(i) => int_decimal(i),
        DocView::Str(s) => seq!['"'] + json_escaped(s) + seq!['"'],
        DocView::Array(items) => seq!['['] + json_items_text(items) + seq![']'],
        DocView::Object(entries) => seq!['{'] + json_entries_text(entries) + seq!['}'],
    }
}

/// Array elements rendered as JSON text, separated by commas.
pub open spec fn json_items_text(items: Seq<DocView>) -> Seq<char>
    decreases items,
{
    if items.len() == 0 {
        Seq::<char>::empty()
    } else if items.len() == 1 {
        json_text(items[0])
    } else {
        json_text(items[0]) + seq![','] + json_items_text(items.skip(1))
    }
}

/// Object entries rendered as `"key":value` JSON text, separated by commas.
pub open spec fn json_entries_text(entries: Seq<(Seq<char>, DocView)>) -> Seq<char>
    decreases entries,
{
    if entries.len() == 0 {
        Seq::<char>::empty()
    } else {
        let head = seq!['"'] + json_escaped(entries[0].0) + seq!['"', ':'] + json_text(
            entries[0].1,
        );
        if entries.len() == 1 {
            head
        } else {
            head + seq![','] + json_entries_text(entries.skip(1))
        }
    }
}

proof fn lemma_json_items_split(items: Seq<DocView>, i: int)
    requires
        0 < i < items.len(),
    ensures
        json_items_text(items) == json_items_text(items.take(i)) + seq![','] + json_items_text(
            items.skip(i),
        ),
    decreases i,
{
    if i == 1 {
        assert(items.take(1) =~= seq![items[0]]);
        assert(json_items_text(seq![items[0]]) == json_text(items[0]));
    } else {
        lemma_json_items_split(items.skip(1), i - 1);
        assert(items.skip(1).take(i - 1) =~= items.take(i).skip(1));
        assert(items.skip(1).skip(i - 1) =~= items.skip(i));
        assert(items.take(i)[0] == items[0]);
        assert(items.take(i).len() == i);
        assert(json_items_text(items.take(i)) == json_text(items[0]) + seq![',']
            + json_items_text(items.take(i).skip(1)));
        assert(json_items_text(items) =~= json_items_text(items.take(i)) + seq![',']
            + json_items_text(items.skip(i)));
    }
}

proof fn lemma_json_entries_split(entries: Seq<(Seq<char>, DocView)>, i: int)
    requires
        0 < i < entries.len(),
    ensures
        json_entries_text(entries) == json_entries_text(entries.take(i)) + seq![',']
            + json_entries_text(entries.skip(i)),
    decreases i,
{
    if i == 1 {
        assert(entries.take(1) =~= seq![entries[0]]);
        assert(seq![entries[0]][0] == entries[0]);
    } else {
        lemma_json_entries_split(entries.skip(1), i - 1);
        assert(entries.skip(1).take(i - 1) =~= entries.take(i).skip(1));
        assert(entries.skip(1).skip(i - 1) =~= entries.skip(i));
        assert(entries.take(i)[0] == entries[0]);
        assert(entries.take(i).len() == i);
        assert(json_entries_text(entries) =~= json_entries_text(entries.take(i)) + seq![',']
            + json_entries_text(entries.skip(i)));
    }
}

fn json_escape_exec(s: &str) -> (r: String)
    ensures
        r@ == json_escaped(s@),
{
    let n = s.unicode_len();
    let mut out = String::new();
    let mut i: usize = 0;
    proof {
        assert(s@.skip(0) =~= s@);
        reveal_strlit("\\\"");
        reveal_strlit("\\\\");
        reveal_strlit("\\n");
        reveal_strlit("\\r");
        reveal_strlit("\\t");
    }
    while i < n
        invariant
            i <= n,
            n == s@.len(),
            json_escaped(s@) == out@ + json_escaped(s@.skip(i as int)),
        decreases n - i,
    {
        let c = s.get_char(i);
        proof {
            reveal_strlit("\\\"");
            reveal_strlit("\\\\");
            reveal_strlit("\\n");
            reveal_strlit("\\r");
            reveal_strlit("\\t");
            assert(s@.skip(i as int).skip(1) =~= s@.skip(i as int + 1));
            assert(json_escaped(s@.skip(i as int)) =~= escape_char(s@[i as int]) + json_escaped(
                s@.skip(i as int + 1),
            ));
        }
        if c == '"' {
            out.append("\\\"");
            proof {
                assert("\\\""@ =~= escape_char(c));
            }
        } else if c == '\\' {
            out.append("\\\\");
            proof {
                assert("\\\\"@ =~= escape_char(c));
            }
        } else if c == '\n' {
            out.append("\\n");
            proof {
                assert("\\n"@ =~= escape_char(c));
            }
        } else if c == '\r' {
            out.append("\\r");
            proof {
                assert("\\r"@ =~= escape_char(c));
            }
        } else if c == '\t' {
            out.append("\\t");
            proof {
                assert("\\t"@ =~= escape_char(c));
            }
        } else {
            out.append(s.substring_char(i, i + 1));
            proof {
                assert(s@.subrange(i as int, i as int + 1) =~= escape_char(c));
            }
        }
        proof {
            assert(out@ + json_escaped(s@.skip(i as int + 1)) =~= json_escaped(s@));
        }
        i = i + 1;
    }
    proof {
        assert(s@.skip(n as int) =~= Seq::<char>::empty());
        assert(out@ =~= json_escaped(s@));
    }
    out
}

fn i64_to_decimal(n: i64) -> (r: String)
    ensures
        r@ == int_decimal(n as int),
{
    if n < 0 {
        let m: u64 = ((-(n + 1)) as u64) + 1;
        proof {
            assert(m as int == -(n as int));
        }
        let mut out = String::from_str("-");
        out.append(u64_to_decimal(m).as_str());
        proof {
            reveal_strlit("-");
            assert(out@ =~= int_decimal(n as int));
        }
        out
    } else {
        u64_to_decimal(n as u64)
    }
}

impl Document {
    /// The document rendered as compact JSON text: `null`, `true`/`false`,
    /// decimal integers, quoted strings (with `"`, `\`, newline, carriage
    /// return and tab escaped), `[v,v]` arrays and `{"key":v}` objects.
    #[verifier::loop_isolation(false)]
    pub fn to_json_string(&self) -> (r: String)
        ensures
            r@ == json_text(self@),
        decreases *self,
    {
        match self {
            Document::Null => {
                let r = String::from_str("null");
                proof {
                    reveal_strlit("null");
                    assert(r@ =~= json_text(self@));
                }
                r
            },
            Document::Bool(b) => {
                let r = if *b {
                    String::from_str("true")
                } else {
                    String::from_str("false")
                };
                proof {
                    reveal_strlit("true");
                    reveal_strlit("false");
                    assert(r@ =~= json_text(self@));
                }
                r
            },
            Document::Int(i) => i64_to_decimal(*i),
            Document::Str(s) => {
                let mut out = String::from_str("\"");
                out.append(json_escape_exec(s.as_str()).as_str());
                out.append("\"");
                proof {
                    reveal_strlit("\"");
                    assert(out@ =~= json_text(self@));
                }
                out
            },
            Document::Array(items) => {
                let ghost iv = doc_seq_view(items@);
                let mut out = String::from_str("[");
                let mut i: usize = 0;
                proof {
                    reveal_strlit("[");
                    reveal_strlit(",");
                    reveal_strlit("]");
                    assert(out@ =~= seq!['['] + json_items_text(iv.take(0)));
                }
                while i < items.len()
                    invariant
                        i <= items@.len(),
                        out@ == seq!['['] + json_items_text(iv.take(i as int)),
                    decreases items@.len() - i,
                {
                    if i > 0 {
                        out.append(",");
                    }
                    proof {
                        assert(decreases_to!(*self => *items));
                        assert(decreases_to!(*items => items@[i as int]));
                        assert(decreases_to!(*self => items@[i as int]));
                    }
                    let rendered = items[i].to_json_string();
                    out.append(rendered.as_str());
                    proof {
                        assert(iv[i as int] == items@[i as int]@);
                        assert(iv.take(i as int + 1).take(i as int) =~= iv.take(i as int));
                        assert(iv.take(i as int + 1).skip(i as int) =~= seq![iv[i as int]]);
                        assert(json_items_text(seq![iv[i as int]]) == json_text(iv[i as int]));
                        if i > 0 {
                            lemma_json_items_split(iv.take(i as int + 1), i as int);
                        } else {
                            assert(iv.take(1) =~= seq![iv[0]]);
                        }
                        assert(out@ =~= seq!['['] + json_items_text(iv.take(i as int + 1)));
                    }
                    i = i + 1;
                }
                out.append("]");
                proof {
                    assert(iv.take(items@.len() as int) =~= iv);
                    assert(out@ =~= json_text(self@));
                }
                out
            },
            Document::Object(entries) => {
                let ghost ev = entry_seq_view(entries@);
                let mut out = String::from_str("{");
                let mut i: usize = 0;
                proof {
                    reveal_strlit("{");
                    reveal_strlit(",");
                    reveal_strlit("\"");
                    reveal_strlit("\":");
                    reveal_strlit("}");
                    assert(out@ =~= seq!['{'] + json_entries_text(ev.take(0)));
                }
                while i < entries.len()
                    invariant
                        i <= entries@.len(),
                        out@ == seq!['{'] + json_entries_text(ev.take(i as int)),
                    decreases entries@.len() - i,
                {
                    if i > 0 {
                        out.append(",");
                    }
                    proof {
                        assert(decreases_to!(*self => *entries));
                        assert(decreases_to!(*entries => entries@[i as int]));
                        assert(decreases_to!(entries@[i as int] => entries@[i as int].1));
                        assert(decreases_to!(*self => entries@[i as int].1));
                    }
                    let entry = &entries[i];
                    out.append("\"");
                    out.append(json_escape_exec(entry.0.as_str()).as_str());
                    out.append("\":");
                    let rendered = entry.1.to_json_string();
                    out.append(rendered.as_str());
                    proof {
                        assert(ev[i as int] == (entries@[i as int].0@, entries@[i as int].1@));
                        assert(ev.take(i as int + 1).take(i as int) =~= ev.take(i as int));
                        assert(ev.take(i as int + 1).skip(i as int) =~= seq![ev[i as int]]);
                        assert(json_entries_text(seq![ev[i as int]]) =~= seq!['"'] + json_escaped(
                            ev[i as int].0,
                        ) + seq!['"', ':'] + json_text(ev[i as int].1));
                        if i > 0 {
                            lemma_json_entries_split(ev.take(i as int + 1), i as int);
                        } else {
                            assert(ev.take(1) =~= seq![ev[0]]);
                        }
                        assert(out@ =~= seq!['{'] + json_entries_text(ev.take(i as int + 1)));
                    }
                    i = i + 1;
                }
                out.append("}");
                proof {
                    assert(ev.take(entries@.len() as int) =~= ev);
                    assert(out@ =~= json_text(self@));
                }
                out
            },
        }
    }
}

} // verus!
