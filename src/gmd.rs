use vstd::prelude::*;
use vstd::utf8::*;
use quick_xml::Error as XmlError;
use quick_xml::events::Event;
use quick_xml::reader::Reader;
use std::str::from_utf8;
use vstd::slice::slice_subrange;
use vstd::string::*;
use crate::escape::{escape_bytes, escaped_string, escaped_string_quotes};
use crate::number::{
    all_digits, first_dot, first_exp, frac_part, int_text, int_to_string, integer_in, is_real_text,
    lemma_int_text_value, lemma_nat_text, parse_i32, real_text_ok, unsigned_part, whole_part,
};
use crate::text::{push_text, same_text};

verus! {

/// A value of a GMD document.
#[derive(Debug)]
pub enum GmdValue {
    Bool(bool),
    Str(String),
    Int(i32),
    /// A real number, kept as the decimal text it is written as.
    Real(String),
    /// Keys with their values, in document order, each key once.
    Dict(Vec<(String, GmdValue)>),
}

/// The mathematical form of a GMD value.
pub enum GValue {
    Bool(bool),
    Str(Seq<char>),
    Int(i32),
    Real(Seq<char>),
    Dict(Seq<(Seq<char>, GValue)>),
}

pub open spec fn gmd_view(v: GmdValue) -> GValue
    decreases v,
{
    match v {
        GmdValue::Bool(b) => GValue::Bool(b),
        GmdValue::Str(s) => GValue::Str(s@),
        GmdValue::Int(n) => GValue::Int(n),
        GmdValue::Real(s) => GValue::Real(s@),
        GmdValue::Dict(d) => GValue::Dict(
            Seq::new(
                d@.len(),
                |i: int|
                    if 0 <= i < d@.len() {
                        (d@[i].0@, gmd_view(d@[i].1))
                    } else {
                        (Seq::empty(), GValue::Bool(false))
                    },
            ),
        ),
    }
}

impl View for GmdValue {
    type V = GValue;

    open spec fn view(&self) -> GValue {
        gmd_view(*self)
    }
}


/// One event of an XML reader, as the GMD parser sees it. Names and text
/// are decoded, and text is unescaped.
#[derive(Debug)]
pub enum XmlToken {
    Start(String),
    End(String),
    Empty(String),
    Text(String),
    CData,
    Comment,
    Decl,
    PI,
    DocType,
    Eof,
}

/// The mathematical form of a reader event.
pub enum Tok {
    Start(Seq<char>),
    End(Seq<char>),
    Empty(Seq<char>),
    Text(Seq<char>),
    CData,
    Comment,
    Decl,
    PI,
    DocType,
    Eof,
}

impl View for XmlToken {
    type V = Tok;

    open spec fn view(&self) -> Tok {
        match self {
            XmlToken::Start(n) => Tok::Start(n@),
            XmlToken::End(n) => Tok::End(n@),
            XmlToken::Empty(n) => Tok::Empty(n@),
            XmlToken::Text(t) => Tok::Text(t@),
            XmlToken::CData => Tok::CData,
            XmlToken::Comment => Tok::Comment,
            XmlToken::Decl => Tok::Decl,
            XmlToken::PI => Tok::PI,
            XmlToken::DocType => Tok::DocType,
            XmlToken::Eof => Tok::Eof,
        }
    }
}

pub open spec fn toks_view(t: Seq<XmlToken>) -> Seq<Tok> {
    t.map_values(|x: XmlToken| x@)
}

/// A well-formed XML event that does not belong where it stands.
#[derive(Debug)]
pub enum FormatError {
    Start(String),
    End(String),
    Empty(String),
    Text(String),
    CData,
    PI,
    Eof,
}

pub enum FormatFault {
    Start(Seq<char>),
    End(Seq<char>),
    Empty(Seq<char>),
    Text(Seq<char>),
    CData,
    PI,
    Eof,
}

impl View for FormatError {
    type V = FormatFault;

    open spec fn view(&self) -> FormatFault {
        match self {
            FormatError::Start(s) => FormatFault::Start(s@),
            FormatError::End(s) => FormatFault::End(s@),
            FormatError::Empty(s) => FormatFault::Empty(s@),
            FormatError::Text(s) => FormatFault::Text(s@),
            FormatError::CData => FormatFault::CData,
            FormatError::PI => FormatFault::PI,
            FormatError::Eof => FormatFault::Eof,
        }
    }
}

#[verifier::external_type_specification]
#[verifier::external_body]
pub struct ExXmlError(XmlError);

#[verifier::external_type_specification]
#[verifier::external_body]
#[verifier::reject_recursive_types(R)]
pub struct ExXmlReader<R>(Reader<R>);

/// Any error of reading or writing a GMD document.
#[derive(Debug)]
pub enum GmdError {
    Xml(XmlError),
    Io(std::io::Error),
    Format(FormatError),
    InvalidInt(String),
    InvalidReal(String),
}

/// What the parser finds wrong with a sequence of events.
pub enum GmdFault {
    Format(FormatFault),
    InvalidInt(Seq<char>),
    InvalidReal(Seq<char>),
}

/// The fault that a parser error stands for; none for reader and I/O errors.
pub open spec fn error_fault(e: GmdError) -> Option<GmdFault> {
    match e {
        GmdError::Format(f) => Some(GmdFault::Format(f@)),
        GmdError::InvalidInt(t) => Some(GmdFault::InvalidInt(t@)),
        GmdError::InvalidReal(t) => Some(GmdFault::InvalidReal(t@)),
        _ => None,
    }
}

/// A text shown in a diagnostic: escaped, and cut to seventeen bytes and an
/// ellipsis from twenty bytes on.
pub open spec fn text_excerpt(t: Seq<char>) -> Seq<char> {
    let b = encode_utf8(t);
    if b.len() < 20 {
        escape_bytes(b, true)
    } else {
        escape_bytes(b.take(17), true) + seq!['.', '.', '.']
    }
}

/// The fault of an event that stands where it should not.
pub open spec fn token_fault(t: Tok) -> FormatFault {
    match t {
        Tok::Start(n) => FormatFault::Start(escape_bytes(encode_utf8(n), false)),
        Tok::End(n) => FormatFault::End(escape_bytes(encode_utf8(n), false)),
        Tok::Empty(n) => FormatFault::Empty(escape_bytes(encode_utf8(n), false)),
        Tok::Text(t) => FormatFault::Text(text_excerpt(t)),
        Tok::CData => FormatFault::CData,
        Tok::PI => FormatFault::PI,
        _ => FormatFault::Eof,
    }
}

pub open spec fn is_dict_tag(n: Seq<char>) -> bool {
    n == "dictionary"@ || n == "dict"@ || n == "d"@
}

pub open spec fn is_string_tag(n: Seq<char>) -> bool {
    n == "string"@ || n == "s"@
}

pub open spec fn is_int_tag(n: Seq<char>) -> bool {
    n == "integer"@ || n == "i"@
}

pub open spec fn is_real_tag(n: Seq<char>) -> bool {
    n == "real"@ || n == "r"@
}

pub open spec fn is_true_tag(n: Seq<char>) -> bool {
    n == "true"@ || n == "t"@
}

pub open spec fn is_false_tag(n: Seq<char>) -> bool {
    n == "false"@ || n == "f"@
}

pub open spec fn is_key_tag(n: Seq<char>) -> bool {
    n == "k"@ || n == "key"@
}

/// Comments, declarations and doctypes carry nothing for the parser.
pub open spec fn skippable(t: Tok) -> bool {
    t is Comment || t is Decl || t is DocType
}

/// The index of the first event from `i` on that is not skipped.
pub open spec fn next_sig(toks: Seq<Tok>, i: int) -> int
    decreases toks.len() - i,
{
    if i < 0 || i >= toks.len() {
        toks.len() as int
    } else if skippable(toks[i]) {
        next_sig(toks, i + 1)
    } else {
        i
    }
}

/// The index of the next significant event from `i` on; running off the
/// end is an early end, and CDATA and processing instructions are refused.
pub open spec fn fetch(toks: Seq<Tok>, i: int) -> Result<int, GmdFault> {
    let j = next_sig(toks, i);
    if j >= toks.len() {
        Err(GmdFault::Format(FormatFault::Eof))
    } else if toks[j] is CData || toks[j] is PI {
        Err(GmdFault::Format(token_fault(toks[j])))
    } else {
        Ok(j)
    }
}

/// The text content of an element whose start tag ends before `i`, and the
/// index after its end tag.
pub open spec fn text_content(toks: Seq<Tok>, i: int) -> Result<(Seq<char>, int), GmdFault> {
    match fetch(toks, i) {
        Err(f) => Err(f),
        Ok(j) => match toks[j] {
            Tok::Text(t) => match fetch(toks, j + 1) {
                Err(f) => Err(f),
                Ok(k) => match toks[k] {
                    Tok::End(_) => Ok((t, k + 1)),
                    other => Err(GmdFault::Format(token_fault(other))),
                },
            },
            Tok::End(_) => Ok((Seq::empty(), j + 1)),
            other => Err(GmdFault::Format(token_fault(other))),
        },
    }
}

/// The text content of a value element, empty for an empty-element tag.
pub open spec fn content_of(toks: Seq<Tok>, i: int, empty: bool) -> Result<
    (Seq<char>, int),
    GmdFault,
> {
    if empty {
        Ok((Seq::empty(), i))
    } else {
        text_content(toks, i)
    }
}

/// A dictionary with `k` set to `v`: in place where `k` is a key already,
/// else at the end.
pub open spec fn dict_put(acc: Seq<(Seq<char>, GValue)>, k: Seq<char>, v: GValue) -> Seq<
    (Seq<char>, GValue),
> {
    if exists|j: int| 0 <= j < acc.len() && acc[j].0 == k {
        let j = choose|j: int| 0 <= j < acc.len() && acc[j].0 == k;
        acc.update(j, (k, v))
    } else {
        acc.push((k, v))
    }
}

/// The value of an element named `name` whose tag ends before `i`, and the
/// index after it.
pub open spec fn value_at(toks: Seq<Tok>, i: int, name: Seq<char>, empty: bool) -> Result<
    (GValue, int),
    GmdFault,
>
    decreases toks.len() - i, 1int,
{
    if is_dict_tag(name) {
        if empty {
            Ok((GValue::Dict(Seq::empty()), i))
        } else {
            dict_at(toks, i, Seq::empty())
        }
    } else if is_string_tag(name) {
        match content_of(toks, i, empty) {
            Err(f) => Err(f),
            Ok((t, p)) => Ok((GValue::Str(t), p)),
        }
    } else if is_int_tag(name) {
        match content_of(toks, i, empty) {
            Err(f) => Err(f),
            Ok((t, p)) => match integer_in(t, true, i32::MIN as int, i32::MAX as int) {
                Some(n) => Ok((GValue::Int(n as i32), p)),
                None => Err(GmdFault::InvalidInt(t)),
            },
        }
    } else if is_real_tag(name) {
        match content_of(toks, i, empty) {
            Err(f) => Err(f),
            Ok((t, p)) => if is_real_text(t) {
                Ok((GValue::Real(t), p))
            } else {
                Err(GmdFault::InvalidReal(t))
            },
        }
    } else if is_true_tag(name) || is_false_tag(name) {
        let b = is_true_tag(name);
        if empty {
            Ok((GValue::Bool(b), i))
        } else {
            match fetch(toks, i) {
                Err(f) => Err(f),
                Ok(k) => match toks[k] {
                    Tok::End(_) => Ok((GValue::Bool(b), k + 1)),
                    other => Err(GmdFault::Format(token_fault(other))),
                },
            }
        }
    } else {
        Err(GmdFault::Format(FormatFault::Start(escape_bytes(encode_utf8(name), false))))
    }
}

/// The rest of a dictionary whose entries so far are `acc`, read from `i`.
pub open spec fn dict_at(toks: Seq<Tok>, i: int, acc: Seq<(Seq<char>, GValue)>) -> Result<
    (GValue, int),
    GmdFault,
>
    decreases toks.len() - i, 0int,
{
    match fetch(toks, i) {
        Err(f) => Err(f),
        Ok(j) => match toks[j] {
            Tok::End(_) => Ok((GValue::Dict(acc), j + 1)),
            Tok::Start(n) => if !is_key_tag(n) {
                Err(GmdFault::Format(token_fault(toks[j])))
            } else {
                match text_content(toks, j + 1) {
                    Err(f) => Err(f),
                    Ok((k, p)) => match fetch(toks, p) {
                        Err(f) => Err(f),
                        Ok(q) => if q < i {
                            Err(GmdFault::Format(FormatFault::Eof))
                        } else {
                            let vr = match toks[q] {
                                Tok::Start(n2) => value_at(toks, q + 1, n2, false),
                                Tok::Empty(n2) => value_at(toks, q + 1, n2, true),
                                other => Err(GmdFault::Format(token_fault(other))),
                            };
                            match vr {
                                Err(f) => Err(f),
                                Ok((v, r)) => if i < r <= toks.len() {
                                    dict_at(toks, r, dict_put(acc, k, v))
                                } else {
                                    Err(GmdFault::Format(FormatFault::Eof))
                                },
                            }
                        },
                    },
                }
            },
            other => Err(GmdFault::Format(token_fault(other))),
        },
    }
}


/// The value of a document read from `i`: a `plist` start tag is entered,
/// and the first value tag is the value.
pub open spec fn doc_at(toks: Seq<Tok>, i: int) -> Result<(GValue, int), GmdFault>
    decreases toks.len() - i, 2int,
{
    match fetch(toks, i) {
        Err(f) => Err(f),
        Ok(j) => if j < i {
            Err(GmdFault::Format(FormatFault::Eof))
        } else {
            match toks[j] {
                Tok::Start(n) => if n == "plist"@ {
                    doc_at(toks, j + 1)
                } else {
                    value_at(toks, j + 1, n, false)
                },
                Tok::Empty(n) => value_at(toks, j + 1, n, true),
                other => Err(GmdFault::Format(token_fault(other))),
            }
        },
    }
}

/// The value that a sequence of reader events gives.
pub open spec fn parse_spec(toks: Seq<Tok>) -> Result<GValue, GmdFault> {
    match doc_at(toks, 0) {
        Ok((v, _)) => Ok(v),
        Err(f) => Err(f),
    }
}


/// The entries of a dictionary under construction, in mathematical form.
pub open spec fn entries_view(acc: Seq<(String, GmdValue)>) -> Seq<(Seq<char>, GValue)> {
    Seq::new(acc.len(), |k: int| (acc[k].0@, acc[k].1@))
}

proof fn lemma_dict_view(d: Vec<(String, GmdValue)>)
    ensures
        GmdValue::Dict(d)@ == GValue::Dict(entries_view(d@)),
{
    let g = gmd_view(GmdValue::Dict(d));
    assert(g->Dict_0 =~= entries_view(d@));
}

/// Whether no key occurs twice among the entries.
pub open spec fn dict_keys_unique(d: Seq<(Seq<char>, GValue)>) -> bool {
    forall|a: int, b: int| 0 <= a < b < d.len() ==> d[a].0 != d[b].0
}

/// Whether an exec outcome is the spec outcome, for a value and an index.
pub open spec fn value_outcome(
    r: Result<(GmdValue, usize), GmdError>,
    s: Result<(GValue, int), GmdFault>,
) -> bool {
    match s {
        Ok((v, p)) => r is Ok && r->Ok_0.0@ == v && r->Ok_0.1 == p,
        Err(f) => r is Err && error_fault(r->Err_0) == Some(f),
    }
}

pub open spec fn text_outcome(
    r: Result<(String, usize), GmdError>,
    s: Result<(Seq<char>, int), GmdFault>,
) -> bool {
    match s {
        Ok((t, p)) => r is Ok && r->Ok_0.0@ == t && r->Ok_0.1 == p,
        Err(f) => r is Err && error_fault(r->Err_0) == Some(f),
    }
}

pub open spec fn index_outcome(r: Result<usize, GmdError>, s: Result<int, GmdFault>) -> bool {
    match s {
        Ok(j) => r is Ok && r->Ok_0 == j,
        Err(f) => r is Err && error_fault(r->Err_0) == Some(f),
    }
}

/// The diagnostic of an event that stands where it should not.
fn fault_error(t: &XmlToken) -> (e: FormatError)
    ensures
        e@ == token_fault(t@),
{
    match t {
        XmlToken::Start(n) => FormatError::Start(escaped_string(n.as_str().as_bytes())),
        XmlToken::End(n) => FormatError::End(escaped_string(n.as_str().as_bytes())),
        XmlToken::Empty(n) => FormatError::Empty(escaped_string(n.as_str().as_bytes())),
        XmlToken::Text(t) => {
            let b = t.as_str().as_bytes();
            if b.len() < 20 {
                FormatError::Text(escaped_string_quotes(b))
            } else {
                let mut x = escaped_string_quotes(slice_subrange(b, 0, 17));
                push_text(&mut x, "...");
                proof {
                    reveal_strlit("...");
                    assert(b@.subrange(0, 17) =~= b@.take(17));
                    assert("..."@ =~= seq!['.', '.', '.']);
                }
                FormatError::Text(x)
            }
        },
        XmlToken::CData => FormatError::CData,
        XmlToken::PI => FormatError::PI,
        _ => FormatError::Eof,
    }
}

fn is_skippable(t: &XmlToken) -> (r: bool)
    ensures
        r == skippable(t@),
{
    match t {
        XmlToken::Comment | XmlToken::Decl | XmlToken::DocType => true,
        _ => false,
    }
}

/// The index of the next significant event from `i` on.
fn fetch_exec(toks: &Vec<XmlToken>, i: usize) -> (r: Result<usize, GmdError>)
    requires
        i <= toks@.len(),
    ensures
        index_outcome(r, fetch(toks_view(toks@), i as int)),
        r matches Ok(j) ==> i <= j < toks@.len(),
        toks@.len() <= usize::MAX,
{
    let ghost t = toks_view(toks@);
    let n = toks.len();
    let mut j = i;
    while j < n && is_skippable(&toks[j])
        invariant
            i <= j <= n == toks@.len(),
            t == toks_view(toks@),
            next_sig(t, i as int) == next_sig(t, j as int),
        decreases n - j,
    {
        assert(t[j as int] == toks@[j as int]@);
        j = j + 1;
    }
    if j >= n {
        return Err(GmdError::Format(FormatError::Eof));
    }
    assert(t[j as int] == toks@[j as int]@);
    match &toks[j] {
        XmlToken::CData | XmlToken::PI => Err(GmdError::Format(fault_error(&toks[j]))),
        _ => Ok(j),
    }
}

/// The text content of an element whose start tag ends before `i`.
fn text_content_exec(toks: &Vec<XmlToken>, i: usize) -> (r: Result<(String, usize), GmdError>)
    requires
        i <= toks@.len(),
    ensures
        text_outcome(r, text_content(toks_view(toks@), i as int)),
        r matches Ok((_, p)) ==> i < p <= toks@.len(),
{
    let ghost t = toks_view(toks@);
    let j = match fetch_exec(toks, i) {
        Ok(j) => j,
        Err(e) => {
            return Err(e);
        },
    };
    assert(t[j as int] == toks@[j as int]@);
    match &toks[j] {
        XmlToken::Text(s) => {
            let k = match fetch_exec(toks, j + 1) {
                Ok(k) => k,
                Err(e) => {
                    return Err(e);
                },
            };
            assert(t[k as int] == toks@[k as int]@);
            match &toks[k] {
                XmlToken::End(_) => Ok((s.clone(), k + 1)),
                other => Err(GmdError::Format(fault_error(other))),
            }
        },
        XmlToken::End(_) => Ok((String::new(), j + 1)),
        other => Err(GmdError::Format(fault_error(other))),
    }
}

fn content_exec(toks: &Vec<XmlToken>, i: usize, empty: bool) -> (r: Result<(String, usize), GmdError>)
    requires
        i <= toks@.len(),
    ensures
        text_outcome(r, content_of(toks_view(toks@), i as int, empty)),
        r matches Ok((_, p)) ==> i <= p <= toks@.len(),
{
    if empty {
        Ok((String::new(), i))
    } else {
        text_content_exec(toks, i)
    }
}

/// Sets `k` to `v` among the entries: in place where `k` is a key already,
/// else at the end.
fn dict_put_exec(acc: &mut Vec<(String, GmdValue)>, k: String, v: GmdValue)
    requires
        dict_keys_unique(entries_view(old(acc)@)),
    ensures
        entries_view(final(acc)@) == dict_put(entries_view(old(acc)@), k@, v@),
        dict_keys_unique(entries_view(final(acc)@)),
{
    let ghost e = entries_view(acc@);
    let mut i: usize = 0;
    while i < acc.len()
        invariant
            e == entries_view(acc@),
            dict_keys_unique(e),
            acc@ == old(acc)@,
            i <= acc@.len(),
            forall|j: int| 0 <= j < i ==> e[j].0 != k@,
        decreases acc@.len() - i,
    {
        if same_text(acc[i].0.as_str(), k.as_str()) {
            proof {
                assert(e[i as int].0 == k@);
                assert(exists|j: int| 0 <= j < e.len() && e[j].0 == k@);
                let c = choose|j: int| 0 <= j < e.len() && e[j].0 == k@;
                if c < i {
                    assert(e[c].0 != e[i as int].0);
                } else if c > i {
                    assert(e[i as int].0 != e[c].0);
                }
                assert(c == i);
            }
            let ghost kv = k@;
            let ghost vv = v@;
            acc.remove(i);
            acc.insert(i, (k, v));
            assert(entries_view(acc@) =~= e.update(i as int, (kv, vv)));
            assert(dict_keys_unique(entries_view(acc@)));
            return;
        }
        i = i + 1;
    }
    let ghost kv = k@;
    let ghost vv = v@;
    acc.push((k, v));
    assert(entries_view(acc@) =~= e.push((kv, vv)));
}

/// The value of an element named `name` whose tag ends before `i`.
fn parse_value(toks: &Vec<XmlToken>, i: usize, name: &String, empty: bool) -> (r: Result<
    (GmdValue, usize),
    GmdError,
>)
    requires
        i <= toks@.len(),
    ensures
        value_outcome(r, value_at(toks_view(toks@), i as int, name@, empty)),
        r matches Ok((_, p)) ==> i <= p <= toks@.len(),
    decreases toks@.len() - i, 1int,
{
    let n = name.as_str();
    if same_text(n, "dictionary") || same_text(n, "dict") || same_text(n, "d") {
        if empty {
            let d: Vec<(String, GmdValue)> = Vec::new();
            proof {
                lemma_dict_view(d);
                assert(entries_view(d@) =~= Seq::<(Seq<char>, GValue)>::empty());
            }
            let v = GmdValue::Dict(d);
            Ok((v, i))
        } else {
            parse_dict(toks, i)
        }
    } else if same_text(n, "string") || same_text(n, "s") {
        match content_exec(toks, i, empty) {
            Ok((t, p)) => Ok((GmdValue::Str(t), p)),
            Err(e) => Err(e),
        }
    } else if same_text(n, "integer") || same_text(n, "i") {
        match content_exec(toks, i, empty) {
            Ok((t, p)) => match parse_i32(t.as_str()) {
                Some(x) => Ok((GmdValue::Int(x), p)),
                None => Err(GmdError::InvalidInt(t)),
            },
            Err(e) => Err(e),
        }
    } else if same_text(n, "real") || same_text(n, "r") {
        match content_exec(toks, i, empty) {
            Ok((t, p)) => if real_text_ok(t.as_str()) {
                Ok((GmdValue::Real(t), p))
            } else {
                Err(GmdError::InvalidReal(t))
            },
            Err(e) => Err(e),
        }
    } else if same_text(n, "true") || same_text(n, "t") || same_text(n, "false") || same_text(
        n,
        "f",
    ) {
        let b = same_text(n, "true") || same_text(n, "t");
        if empty {
            Ok((GmdValue::Bool(b), i))
        } else {
            let k = match fetch_exec(toks, i) {
                Ok(k) => k,
                Err(e) => {
                    return Err(e);
                },
            };
            assert(toks_view(toks@)[k as int] == toks@[k as int]@);
            match &toks[k] {
                XmlToken::End(_) => Ok((GmdValue::Bool(b), k + 1)),
                other => Err(GmdError::Format(fault_error(other))),
            }
        }
    } else {
        Err(GmdError::Format(FormatError::Start(escaped_string(n.as_bytes()))))
    }
}

/// A dictionary whose start tag ends before `i`, read to its end tag.
fn parse_dict(toks: &Vec<XmlToken>, i: usize) -> (r: Result<(GmdValue, usize), GmdError>)
    requires
        i <= toks@.len(),
    ensures
        value_outcome(r, dict_at(toks_view(toks@), i as int, Seq::empty())),
        r matches Ok((_, p)) ==> i <= p <= toks@.len(),
    decreases toks@.len() - i, 0int,
{
    let ghost t = toks_view(toks@);
    let mut acc: Vec<(String, GmdValue)> = Vec::new();
    let mut cur = i;
    assert(entries_view(acc@) =~= Seq::<(Seq<char>, GValue)>::empty());
    loop
        invariant
            i <= cur <= toks@.len(),
            t == toks_view(toks@),
            dict_keys_unique(entries_view(acc@)),
            dict_at(t, i as int, Seq::empty()) == dict_at(t, cur as int, entries_view(acc@)),
        decreases toks@.len() - cur,
    {
        let j = match fetch_exec(toks, cur) {
            Ok(j) => j,
            Err(e) => {
                return Err(e);
            },
        };
        assert(t[j as int] == toks@[j as int]@);
        match &toks[j] {
            XmlToken::End(_) => {
                proof {
                    lemma_dict_view(acc);
                }
                let v = GmdValue::Dict(acc);
                return Ok((v, j + 1));
            },
            XmlToken::Start(kn) => {
                if !(same_text(kn.as_str(), "k") || same_text(kn.as_str(), "key")) {
                    return Err(GmdError::Format(fault_error(&toks[j])));
                }
                let (k, p) = match text_content_exec(toks, j + 1) {
                    Ok(kp) => kp,
                    Err(e) => {
                        return Err(e);
                    },
                };
                let q = match fetch_exec(toks, p) {
                    Ok(q) => q,
                    Err(e) => {
                        return Err(e);
                    },
                };
                assert(t[q as int] == toks@[q as int]@);
                let vr = match &toks[q] {
                    XmlToken::Start(n2) => parse_value(toks, q + 1, n2, false),
                    XmlToken::Empty(n2) => parse_value(toks, q + 1, n2, true),
                    other => Err(GmdError::Format(fault_error(other))),
                };
                let (v, rpos) = match vr {
                    Ok(x) => x,
                    Err(e) => {
                        return Err(e);
                    },
                };
                if !(cur < rpos && rpos <= toks.len()) {
                    return Err(GmdError::Format(FormatError::Eof));
                }
                dict_put_exec(&mut acc, k, v);
                cur = rpos;
            },
            other => {
                return Err(GmdError::Format(fault_error(other)));
            },
        }
    }
}

/// The value of a document read from `i`.
fn parse_doc(toks: &Vec<XmlToken>, i: usize) -> (r: Result<(GmdValue, usize), GmdError>)
    requires
        i <= toks@.len(),
    ensures
        value_outcome(r, doc_at(toks_view(toks@), i as int)),
    decreases toks@.len() - i, 2int,
{
    let j = match fetch_exec(toks, i) {
        Ok(j) => j,
        Err(e) => {
            return Err(e);
        },
    };
    assert(toks_view(toks@)[j as int] == toks@[j as int]@);
    match &toks[j] {
        XmlToken::Start(n) => if same_text(n.as_str(), "plist") {
            parse_doc(toks, j + 1)
        } else {
            parse_value(toks, j + 1, n, false)
        },
        XmlToken::Empty(n) => parse_value(toks, j + 1, n, true),
        other => Err(GmdError::Format(fault_error(other))),
    }
}

/// Reads a GMD value from a document's reader events: the first value tag,
/// inside a `plist` element or standing alone, is the value.
pub fn gmd_from_tokens(toks: &Vec<XmlToken>) -> (r: Result<GmdValue, GmdError>)
    ensures
        match parse_spec(toks_view(toks@)) {
            Ok(v) => r is Ok && r->Ok_0@ == v,
            Err(f) => r is Err && error_fault(r->Err_0) == Some(f),
        },
{
    match parse_doc(toks, 0) {
        Ok((v, _)) => Ok(v),
        Err(e) => Err(e),
    }
}


/// How a char is written in XML text: the five special chars as their
/// entities, any other as itself.
pub open spec fn xml_escape_char(c: char) -> Seq<char> {
    if c == '<' {
        seq!['&', 'l', 't', ';']
    } else if c == '>' {
        seq!['&', 'g', 't', ';']
    } else if c == '&' {
        seq!['&', 'a', 'm', 'p', ';']
    } else if c == '\'' {
        seq!['&', 'a', 'p', 'o', 's', ';']
    } else if c == '"' {
        seq!['&', 'q', 'u', 'o', 't', ';']
    } else {
        seq![c]
    }
}

/// A text as written in XML.
pub open spec fn xml_escaped(s: Seq<char>) -> Seq<char>
    decreases s.len(),
{
    if s.len() == 0 {
        Seq::empty()
    } else {
        xml_escaped(s.drop_last()) + xml_escape_char(s.last())
    }
}

/// Relies on `quick_xml::escape::escape`, which replaces each of `<`, `>`,
/// `&`, `'` and `"` by its entity.
#[verifier::external_body]
fn xml_escape(s: &str) -> (r: String)
    ensures
        r@ == xml_escaped(s@),
{
    quick_xml::escape::escape(s).into_owned()
}

/// The text that an escaped XML text stands for; none where an entity is
/// malformed or unknown.
pub uninterp spec fn xml_unescaped(raw: Seq<char>) -> Option<Seq<char>>;

/// Relies on `quick_xml::escape::unescape`, which replaces entities by the
/// chars they stand for: text that `escape` wrote reads back unchanged.
#[verifier::external_body]
fn xml_unescape(raw: &str) -> (r: Result<String, XmlError>)
    ensures
        match xml_unescaped(raw@) {
            Some(t) => r is Ok && r->Ok_0@ == t,
            None => r is Err,
        },
        forall|s: Seq<char>| raw@ == #[trigger] xml_escaped(s) ==> r is Ok && r->Ok_0@ == s,
{
    match quick_xml::escape::unescape(raw) {
        Ok(t) => Ok(t.into_owned()),
        Err(e) => Err(XmlError::EscapeError(e)),
    }
}

/// The XML element of a value.
pub open spec fn value_xml(v: GValue) -> Seq<char>
    decreases v, 2int, 0int,
{
    match v {
        GValue::Bool(b) => if b {
            "<t />"@
        } else {
            "<f />"@
        },
        GValue::Str(s) => "<s>"@ + xml_escaped(s) + "</s>"@,
        GValue::Int(n) => "<i>"@ + int_text(n as int) + "</i>"@,
        GValue::Real(t) => "<r>"@ + xml_escaped(t) + "</r>"@,
        GValue::Dict(d) => "<d>"@ + entries_xml(v, d.len() as int) + "</d>"@,
    }
}

/// The first `n` entries of a dictionary value, each as its key element
/// followed by its value element.
pub open spec fn entries_xml(v: GValue, n: int) -> Seq<char>
    decreases v, 1int, n,
{
    if n <= 0 {
        Seq::empty()
    } else {
        entries_xml(v, n - 1) + entry_xml(v, n - 1)
    }
}

/// Entry `i` of a dictionary value as its key element and value element.
pub open spec fn entry_xml(v: GValue, i: int) -> Seq<char>
    decreases v, 0int, 0int,
{
    match v {
        GValue::Dict(d) => if 0 <= i < d.len() {
            "<k>"@ + xml_escaped(d[i].0) + "</k>"@ + value_xml(d[i].1)
        } else {
            Seq::empty()
        },
        _ => Seq::empty(),
    }
}

/// The text of a GMD document holding a value.
pub open spec fn document_xml(v: GValue) -> Seq<char> {
    "<?xml version=\"1.0\"?>"@ + "<plist version=\"1.0\" gjver=\"2.0\">"@ + value_xml(v)
        + "</plist>"@
}

/// Appends the XML element of a value.
fn write_value(out: &mut String, v: &GmdValue)
    ensures
        final(out)@ == old(out)@ + value_xml(v@),
    decreases v@,
{
    let ghost o = out@;
    match v {
        GmdValue::Bool(b) => {
            if *b {
                push_text(out, "<t />");
            } else {
                push_text(out, "<f />");
            }
        },
        GmdValue::Str(s) => {
            push_text(out, "<s>");
            push_text(out, xml_escape(s.as_str()).as_str());
            push_text(out, "</s>");
            assert(out@ =~= o + value_xml(v@));
        },
        GmdValue::Int(n) => {
            push_text(out, "<i>");
            push_text(out, int_to_string(*n as i64).as_str());
            push_text(out, "</i>");
            assert(out@ =~= o + value_xml(v@));
        },
        GmdValue::Real(t) => {
            push_text(out, "<r>");
            push_text(out, xml_escape(t.as_str()).as_str());
            push_text(out, "</r>");
            assert(out@ =~= o + value_xml(v@));
        },
        GmdValue::Dict(d) => {
            proof {
                lemma_dict_view(*d);
            }
            let ghost e = entries_view(d@);
            let ghost g = v@;
            push_text(out, "<d>");
            let mut i: usize = 0;
            while i < d.len()
                invariant
                    i <= d@.len(),
                    e == entries_view(d@),
                    g == GValue::Dict(e),
                    g == v@,
                    *v == GmdValue::Dict(*d),
                    out@ == o + "<d>"@ + entries_xml(g, i as int),
                decreases d@.len() - i,
            {
                let ghost before = out@;
                push_text(out, "<k>");
                push_text(out, xml_escape(d[i].0.as_str()).as_str());
                push_text(out, "</k>");
                proof {
                    assert(e[i as int].1 == d@[i as int].1@);
                    assert(g->Dict_0 == e);
                    assert(decreases_to!(g => g->Dict_0));
                    assert(decreases_to!(e => e[i as int]));
                    assert(decreases_to!(g => e[i as int].1));
                }
                write_value(out, &d[i].1);
                proof {
                    assert(e[i as int].0 == d@[i as int].0@);
                    assert(e[i as int].1 == d@[i as int].1@);
                    assert(out@ =~= before + entry_xml(g, i as int));
                }
                i = i + 1;
            }
            push_text(out, "</d>");
            assert(out@ =~= o + value_xml(v@));
        },
    }
}

/// Writes a value as a GMD document: an XML declaration, then a `plist`
/// element holding the value.
pub fn gmd_to_bytes(value: GmdValue) -> (r: Option<Vec<u8>>)
    ensures
        r is Some && r->0@ == encode_utf8(document_xml(value@)),
{
    let mut out = String::new();
    push_text(&mut out, "<?xml version=\"1.0\"?>");
    push_text(&mut out, "<plist version=\"1.0\" gjver=\"2.0\">");
    write_value(&mut out, &value);
    push_text(&mut out, "</plist>");
    assert(out@ =~= document_xml(value@));
    Some(out.as_str().as_bytes_vec())
}


/// The events that a quick-xml reader reports for a document, in order,
/// with names and text decoded as UTF-8 and text left escaped: up to and
/// including the first end-of-document event, or up to the first error,
/// which is not among them.
pub uninterp spec fn xml_events(b: Seq<u8>) -> Seq<Tok>;

/// Whether the events end with the end of the document, so that reading
/// did not fail.
pub open spec fn ends_at_eof(ev: Seq<Tok>) -> bool {
    ev.len() > 0 && ev.last() is Eof
}

/// A quick-xml reader over a document, the document, and how many events
/// have been read from it.
pub struct XmlStream<'a> {
    reader: Reader<&'a [u8]>,
    bytes: &'a [u8],
    read: usize,
}

/// Relies on quick_xml's `Reader::from_reader`: a reader at the start of
/// the bytes.
#[verifier::external_body]
fn open_stream<'a>(bytes: &'a [u8]) -> (r: XmlStream<'a>)
    ensures
        r.bytes@ == bytes@,
        r.read == 0,
{
    XmlStream { reader: Reader::from_reader(bytes), bytes, read: 0 }
}

/// Relies on quick_xml's `Reader::read_event`: the next event of the
/// document, with names and text decoded as UTF-8 (failing as quick-xml's
/// own decoder does) and text left escaped.
#[verifier::external_body]
fn next_event<'a>(s: &mut XmlStream<'a>) -> (r: Result<XmlToken, XmlError>)
    requires
        old(s).read <= xml_events(old(s).bytes@).len(),
        old(s).read == xml_events(old(s).bytes@).len() ==> !ends_at_eof(xml_events(old(s).bytes@)),
    ensures
        final(s).bytes == old(s).bytes,
        final(s).read == old(s).read + 1,
        old(s).read < xml_events(old(s).bytes@).len() ==> r is Ok && r->Ok_0@ == xml_events(
            old(s).bytes@,
        )[old(s).read as int],
        old(s).read == xml_events(old(s).bytes@).len() ==> r is Err,
        r matches Ok(XmlToken::Eof) ==> old(s).read == xml_events(old(s).bytes@).len() - 1,
{
    s.read += 1;
    let d = |b: &[u8]| from_utf8(b).map(str::to_owned);
    Ok(match s.reader.read_event()? {
        Event::Start(e) => XmlToken::Start(d(e.name().0)?),
        Event::End(e) => XmlToken::End(d(e.name().0)?),
        Event::Empty(e) => XmlToken::Empty(d(e.name().0)?),
        Event::Text(e) => XmlToken::Text(d(&e)?),
        Event::CData(_) => XmlToken::CData,
        Event::Comment(_) => XmlToken::Comment,
        Event::Decl(_) => XmlToken::Decl,
        Event::PI(_) => XmlToken::PI,
        Event::DocType(_) => XmlToken::DocType,
        Event::Eof => XmlToken::Eof,
    })
}

/// An event with its text unescaped; none where the text does not unescape.
pub open spec fn unescaped_event(t: Tok) -> Option<Tok> {
    match t {
        Tok::Text(raw) => match xml_unescaped(raw) {
            Some(u) => Some(Tok::Text(u)),
            None => None,
        },
        _ => Some(t),
    }
}

/// The index of the first event from `k` on whose text does not unescape,
/// or the number of events.
pub open spec fn first_bad_event(ev: Seq<Tok>, k: int) -> int
    decreases ev.len() - k,
{
    if k < 0 || k >= ev.len() {
        ev.len() as int
    } else if unescaped_event(ev[k]) is None {
        k
    } else {
        first_bad_event(ev, k + 1)
    }
}

/// The events of a document as the GMD parser gets them: the reader's
/// events with text unescaped, up to the first text that does not unescape.
pub open spec fn document_events(b: Seq<u8>) -> Seq<Tok> {
    let ev = xml_events(b);
    unescaped_prefix(ev, first_bad_event(ev, 0))
}

/// Whether reading a document fails: the reader fails, or a text does not
/// unescape.
pub open spec fn document_read_fails(b: Seq<u8>) -> bool {
    let ev = xml_events(b);
    first_bad_event(ev, 0) < ev.len() || !ends_at_eof(ev)
}

/// The events of a document, up to its end or to the first reader error,
/// which is returned beside them; text comes unescaped.
pub fn read_tokens(bytes: &[u8]) -> (r: (Vec<XmlToken>, Option<XmlError>))
    ensures
        toks_view(r.0@) == document_events(bytes@),
        (r.1 is Some) == document_read_fails(bytes@),
{
    let ghost ev = xml_events(bytes@);
    let mut stream = open_stream(bytes);
    let mut toks: Vec<XmlToken> = Vec::new();
    loop
        invariant
            stream.bytes@ == bytes@,
            ev == xml_events(bytes@),
            stream.read == toks@.len(),
            stream.read <= ev.len(),
            stream.read == ev.len() ==> !ends_at_eof(ev),
            first_bad_event(ev, 0) == first_bad_event(ev, stream.read as int),
            toks_view(toks@) == unescaped_prefix(ev, toks@.len() as int),
        decreases ev.len() - stream.read,
    {
        let ghost k = stream.read as int;
        let ghost before = toks@;
        match next_event(&mut stream) {
            Ok(XmlToken::Eof) => {
                toks.push(XmlToken::Eof);
                proof {
                    assert(first_bad_event(ev, k + 1) == ev.len());
                    assert(first_bad_event(ev, k) == ev.len());
                    assert(toks_view(toks@) =~= toks_view(before).push(toks@[k]@));
                    lemma_unescaped_prefix_push(ev, k);
                }
                return (toks, None);
            },
            Ok(XmlToken::Text(raw)) => match xml_unescape(raw.as_str()) {
                Ok(t) => {
                    toks.push(XmlToken::Text(t));
                    proof {
                        assert(toks_view(toks@) =~= toks_view(before).push(toks@[k]@));
                        lemma_unescaped_prefix_push(ev, k);
                    }
                },
                Err(e) => {
                    proof {
                        assert(toks_view(toks@) =~= document_events(bytes@));
                    }
                    return (toks, Some(e));
                },
            },
            Ok(t) => {
                toks.push(t);
                proof {
                    assert(toks_view(toks@) =~= toks_view(before).push(toks@[k]@));
                    lemma_unescaped_prefix_push(ev, k);
                }
            },
            Err(e) => {
                proof {
                    assert(toks_view(toks@) =~= document_events(bytes@));
                }
                return (toks, Some(e));
            },
        }

    }
}

/// The first `n` events with their text unescaped.
pub open spec fn unescaped_prefix(ev: Seq<Tok>, n: int) -> Seq<Tok> {
    Seq::new(n as nat, |k: int| unescaped_event(ev[k])->0)
}

proof fn lemma_unescaped_prefix_push(ev: Seq<Tok>, k: int)
    requires
        0 <= k,
    ensures
        unescaped_prefix(ev, k + 1) == unescaped_prefix(ev, k).push(unescaped_event(ev[k])->0),
{
    assert(unescaped_prefix(ev, k + 1) =~= unescaped_prefix(ev, k).push(unescaped_event(ev[k])->0));
}

/// Whether `r` is the outcome of reading a GMD document from `b`.
pub open spec fn bytes_give(b: Seq<u8>, r: Result<GmdValue, GmdError>) -> bool {
    match parse_spec(document_events(b)) {
        Ok(v) => r is Ok && r->Ok_0@ == v,
        Err(f) => if document_read_fails(b) && f == GmdFault::Format(FormatFault::Eof) {
            r is Err && r->Err_0 is Xml
        } else {
            r is Err && error_fault(r->Err_0) == Some(f)
        },
    }
}

/// Reads a GMD document. Where the events run out early because reading
/// failed, the reader's error is returned.
pub fn gmd_from_bytes(bytes: &[u8]) -> (r: Result<GmdValue, GmdError>)
    ensures
        bytes_give(bytes@, r),
{
    let (toks, fault) = read_tokens(bytes);
    let r = gmd_from_tokens(&toks);
    match r {
        Err(GmdError::Format(FormatError::Eof)) => match fault {
            Some(e) => Err(GmdError::Xml(e)),
            None => Err(GmdError::Format(FormatError::Eof)),
        },
        Err(e) => Err(e),
        Ok(v) => Ok(v),
    }
}

/// A value that a GMD document can hold: reals are decimal texts, and no
/// dictionary has a key twice.
pub open spec fn gvalue_wf(v: GValue) -> bool
    decreases v,
{
    match v {
        GValue::Real(t) => is_real_text(t),
        GValue::Dict(d) => dict_keys_unique(d) && forall|i: int|
            0 <= i < d.len() ==> gvalue_wf(#[trigger] d[i].1),
        _ => true,
    }
}

/// The reader events of a text: none for an empty text.
pub open spec fn text_tokens(s: Seq<char>) -> Seq<Tok> {
    if s.len() == 0 {
        Seq::empty()
    } else {
        seq![Tok::Text(s)]
    }
}

/// The reader events of the element that `value_xml` writes for a value.
pub open spec fn value_tokens(v: GValue) -> Seq<Tok>
    decreases v, 2int, 0int,
{
    match v {
        GValue::Bool(b) => seq![Tok::Empty(if b { "t"@ } else { "f"@ })],
        GValue::Str(s) => seq![Tok::Start("s"@)] + text_tokens(s) + seq![Tok::End("s"@)],
        GValue::Int(n) => seq![Tok::Start("i"@), Tok::Text(int_text(n as int)), Tok::End("i"@)],
        GValue::Real(t) => seq![Tok::Start("r"@)] + text_tokens(t) + seq![Tok::End("r"@)],
        GValue::Dict(d) => seq![Tok::Start("d"@)] + entries_tokens(v, d.len() as int) + seq![
            Tok::End("d"@),
        ],
    }
}

/// The reader events of the first `n` entries of a dictionary value.
pub open spec fn entries_tokens(v: GValue, n: int) -> Seq<Tok>
    decreases v, 1int, n,
{
    if n <= 0 {
        Seq::empty()
    } else {
        entries_tokens(v, n - 1) + entry_tokens(v, n - 1)
    }
}

/// The reader events of entry `i` of a dictionary value.
pub open spec fn entry_tokens(v: GValue, i: int) -> Seq<Tok>
    decreases v, 0int, 0int,
{
    match v {
        GValue::Dict(d) => if 0 <= i < d.len() {
            seq![Tok::Start("k"@)] + text_tokens(d[i].0) + seq![Tok::End("k"@)] + value_tokens(
                d[i].1,
            )
        } else {
            Seq::empty()
        },
        _ => Seq::empty(),
    }
}

/// The reader events of the document that `gmd_to_bytes` writes for a value.
pub open spec fn document_tokens(v: GValue) -> Seq<Tok> {
    seq![Tok::Decl, Tok::Start("plist"@)] + value_tokens(v) + seq![Tok::End("plist"@), Tok::Eof]
}

/// Whether the events `w` stand in `toks` from index `i` on.
pub open spec fn tokens_at(toks: Seq<Tok>, i: int, w: Seq<Tok>) -> bool {
    0 <= i && i + w.len() <= toks.len() && forall|j: int| 0 <= j < w.len() ==> toks[i + j] == w[j]
}

proof fn lemma_tokens_at_split(toks: Seq<Tok>, i: int, a: Seq<Tok>, b: Seq<Tok>)
    requires
        tokens_at(toks, i, a + b),
    ensures
        tokens_at(toks, i, a),
        tokens_at(toks, i + a.len(), b),
{
    assert forall|j: int| 0 <= j < a.len() implies toks[i + j] == a[j] by {
        assert((a + b)[j] == a[j]);
    }
    assert forall|j: int| 0 <= j < b.len() implies toks[i + a.len() + j] == b[j] by {
        assert((a + b)[a.len() + j] == b[j]);
    }
}

proof fn lemma_entries_prefix(toks: Seq<Tok>, i: int, v: GValue, k: int, n: int)
    requires
        0 <= k <= n,
        tokens_at(toks, i, entries_tokens(v, n)),
    ensures
        tokens_at(toks, i, entries_tokens(v, k)),
    decreases n,
{
    if k < n {
        lemma_tokens_at_split(toks, i, entries_tokens(v, n - 1), entry_tokens(v, n - 1));
        lemma_entries_prefix(toks, i, v, k, n - 1);
    }
}

/// Makes the texts of the tag names known, so that they are told apart.
proof fn reveal_tag_names()
    ensures
        "t"@ == seq!['t'],
        "f"@ == seq!['f'],
        "s"@ == seq!['s'],
        "i"@ == seq!['i'],
        "r"@ == seq!['r'],
        "d"@ == seq!['d'],
        "k"@ == seq!['k'],
        "plist"@ == seq!['p', 'l', 'i', 's', 't'],
        "dictionary"@.len() == 10,
        "dict"@.len() == 4,
        "string"@.len() == 6,
        "integer"@.len() == 7,
        "real"@.len() == 4,
        "true"@.len() == 4,
        "false"@.len() == 5,
        "key"@.len() == 3,
{
    reveal_strlit("t");
    reveal_strlit("f");
    reveal_strlit("s");
    reveal_strlit("i");
    reveal_strlit("r");
    reveal_strlit("d");
    reveal_strlit("k");
    reveal_strlit("plist");
    reveal_strlit("dictionary");
    reveal_strlit("dict");
    reveal_strlit("string");
    reveal_strlit("integer");
    reveal_strlit("real");
    reveal_strlit("true");
    reveal_strlit("false");
    reveal_strlit("key");
    assert("t"@ =~= seq!['t']);
    assert("f"@ =~= seq!['f']);
    assert("s"@ =~= seq!['s']);
    assert("i"@ =~= seq!['i']);
    assert("r"@ =~= seq!['r']);
    assert("d"@ =~= seq!['d']);
    assert("k"@ =~= seq!['k']);
    assert("plist"@ =~= seq!['p', 'l', 'i', 's', 't']);
}

/// A significant event at `j` is the one `fetch` finds from `j`.
proof fn lemma_fetch_here(toks: Seq<Tok>, j: int)
    requires
        0 <= j < toks.len(),
        !skippable(toks[j]),
        !(toks[j] is CData),
        !(toks[j] is PI),
    ensures
        fetch(toks, j) == Ok::<int, GmdFault>(j),
{
}

/// The content of an element written as `text_tokens(s)` and an end tag.
proof fn lemma_text_content(toks: Seq<Tok>, i: int, s: Seq<char>, n: Seq<char>)
    requires
        tokens_at(toks, i, text_tokens(s) + seq![Tok::End(n)]),
    ensures
        text_content(toks, i) == Ok::<(Seq<char>, int), GmdFault>(
            (s, i + text_tokens(s).len() + 1),
        ),
{
    let w = text_tokens(s) + seq![Tok::End(n)];
    assert(toks[i + 0] == w[0]);
    lemma_fetch_here(toks, i);
    if s.len() > 0 {
        assert(w[0] == Tok::Text(s));
        assert(w[1] == Tok::End(n));
        assert(toks[i + 1] == w[1]);
        lemma_fetch_here(toks, i + 1);
    } else {
        assert(w[0] == Tok::End(n));
        assert(s =~= Seq::<char>::empty());
    }
}

proof fn lemma_real_text_nonempty(t: Seq<char>)
    requires
        is_real_text(t),
    ensures
        t.len() > 0,
{
    if t.len() == 0 {
        let b = unsigned_part(t);
        assert(b.len() == 0);
        assert(first_exp(b) == 0);
        let m = b.take(0);
        assert(first_dot(m) == 0);
        assert(whole_part(m).len() == 0);
        assert(frac_part(m).len() == 0);
    }
}

/// The first event of a value's element, and whether it is an empty-element tag.
pub open spec fn head_name(v: GValue) -> Seq<char> {
    match v {
        GValue::Bool(b) => if b { "t"@ } else { "f"@ },
        GValue::Str(_) => "s"@,
        GValue::Int(_) => "i"@,
        GValue::Real(_) => "r"@,
        GValue::Dict(_) => "d"@,
    }
}

/// A value's element, standing at `i`, reads back as the value.
proof fn lemma_value_reads_back(toks: Seq<Tok>, i: int, v: GValue)
    requires
        gvalue_wf(v),
        tokens_at(toks, i, value_tokens(v)),
    ensures
        toks[i] == (if v is Bool { Tok::Empty(head_name(v)) } else { Tok::Start(head_name(v)) }),
        value_at(toks, i + 1, head_name(v), v is Bool) == Ok::<(GValue, int), GmdFault>(
            (v, i + value_tokens(v).len()),
        ),
    decreases v, 1int, 0int,
{
    reveal_tag_names();
    let w = value_tokens(v);
    assert(toks[i] == w[0]);
    match v {
        GValue::Bool(b) => {},
        GValue::Str(s) => {
            lemma_tokens_at_split(toks, i, seq![Tok::Start("s"@)] + text_tokens(s), seq![Tok::End("s"@)]);
            lemma_tokens_at_split(toks, i, seq![Tok::Start("s"@)], text_tokens(s));
            assert(text_tokens(s) + seq![Tok::End("s"@)] =~= w.subrange(1, w.len() as int));
            assert(tokens_at(toks, i + 1, text_tokens(s) + seq![Tok::End("s"@)])) by {
                assert forall|j: int| 0 <= j < w.len() - 1 implies toks[i + 1 + j] == (text_tokens(s) + seq![Tok::End("s"@)])[j] by {
                    assert(toks[i + (j + 1)] == w[j + 1]);
                }
            }
            lemma_text_content(toks, i + 1, s, "s"@);
        },
        GValue::Int(n) => {
            lemma_int_text_value(n as int);
            lemma_nat_text(if n < 0 { -(n as int) } else { n as int } as nat);
            let t = int_text(n as int);
            assert(t.len() > 0);
            assert(text_tokens(t) + seq![Tok::End("i"@)] =~= w.subrange(1, w.len() as int));
            assert(tokens_at(toks, i + 1, text_tokens(t) + seq![Tok::End("i"@)])) by {
                assert forall|j: int| 0 <= j < w.len() - 1 implies toks[i + 1 + j] == (text_tokens(t) + seq![Tok::End("i"@)])[j] by {
                    assert(toks[i + (j + 1)] == w[j + 1]);
                }
            }
            lemma_text_content(toks, i + 1, t, "i"@);
        },
        GValue::Real(t) => {
            lemma_real_text_nonempty(t);
            assert(text_tokens(t) + seq![Tok::End("r"@)] =~= w.subrange(1, w.len() as int));
            assert(tokens_at(toks, i + 1, text_tokens(t) + seq![Tok::End("r"@)])) by {
                assert forall|j: int| 0 <= j < w.len() - 1 implies toks[i + 1 + j] == (text_tokens(t) + seq![Tok::End("r"@)])[j] by {
                    assert(toks[i + (j + 1)] == w[j + 1]);
                }
            }
            lemma_text_content(toks, i + 1, t, "r"@);
        },
        GValue::Dict(d) => {
            lemma_entries_read_back(toks, i, v, 0);
            assert(d.take(0) =~= Seq::<(Seq<char>, GValue)>::empty());
        },
    }
}

#[verifier::spinoff_prover]
#[verifier::rlimit(60)]
/// The entries of a dictionary's element from entry `k` on, standing where
/// `value_tokens` puts them, read back to the whole dictionary once the
/// first `k` entries are read.
proof fn lemma_entries_read_back(toks: Seq<Tok>, i: int, v: GValue, k: int)
    requires
        gvalue_wf(v),
        v is Dict,
        0 <= k <= v->Dict_0.len(),
        tokens_at(toks, i, value_tokens(v)),
    ensures
        dict_at(toks, i + 1 + entries_tokens(v, k).len(), v->Dict_0.take(k)) == Ok::<
            (GValue, int),
            GmdFault,
        >((v, i + value_tokens(v).len())),
    decreases v, 0int, v->Dict_0.len() - k,
{
    reveal_tag_names();
    let d = v->Dict_0;
    let n = d.len() as int;
    let e = entries_tokens(v, n);
    lemma_tokens_at_split(toks, i, seq![Tok::Start("d"@)] + e, seq![Tok::End("d"@)]);
    lemma_tokens_at_split(toks, i, seq![Tok::Start("d"@)], e);
    let p = i + 1 + entries_tokens(v, k).len();
    if k == n {
        assert(toks[(i + 1 + e.len()) + 0] == seq![Tok::End("d"@)][0]);
        assert(toks[p] == Tok::End("d"@));
        lemma_fetch_here(toks, p);
        assert(d.take(k) =~= d);
    } else {
        lemma_entries_prefix(toks, i + 1, v, k + 1, n);
        lemma_tokens_at_split(toks, i + 1, entries_tokens(v, k), entry_tokens(v, k));
        let key = d[k].0;
        let child = d[k].1;
        let et = entry_tokens(v, k);
        lemma_tokens_at_split(toks, p, seq![Tok::Start("k"@)] + text_tokens(key) + seq![Tok::End("k"@)], value_tokens(child));
        lemma_tokens_at_split(toks, p, seq![Tok::Start("k"@)] + text_tokens(key), seq![Tok::End("k"@)]);
        lemma_tokens_at_split(toks, p, seq![Tok::Start("k"@)], text_tokens(key));
        assert(toks[p + 0] == seq![Tok::Start("k"@)][0]);
        assert(toks[p] == Tok::Start("k"@));
        lemma_fetch_here(toks, p);
        assert(tokens_at(toks, p + 1, text_tokens(key) + seq![Tok::End("k"@)])) by {
            assert forall|j: int| 0 <= j < text_tokens(key).len() + 1 implies toks[p + 1 + j] == (text_tokens(key) + seq![Tok::End("k"@)])[j] by {
                if j < text_tokens(key).len() {
                    assert(toks[p + 1 + j] == text_tokens(key)[j]);
                } else {
                    let a = seq![Tok::Start("k"@)] + text_tokens(key);
                    assert(toks[(p + a.len()) + 0] == seq![Tok::End("k"@)][0]);
                    assert(toks[p + 1 + text_tokens(key).len()] == Tok::End("k"@));
                }
            }
        }
        lemma_text_content(toks, p + 1, key, "k"@);
        let q = p + 2 + text_tokens(key).len();
        assert(gvalue_wf(child));
        assert(decreases_to!(v => v->Dict_0));
        assert(decreases_to!(d => d[k]));
        lemma_value_reads_back(toks, q, child);
        lemma_fetch_here(toks, q);
        assert(!(exists|j: int| 0 <= j < d.take(k).len() && d.take(k)[j].0 == key)) by {
            if exists|j: int| 0 <= j < d.take(k).len() && d.take(k)[j].0 == key {
                let j = choose|j: int| 0 <= j < d.take(k).len() && d.take(k)[j].0 == key;
                assert(d[j].0 == d[k].0);
            }
        }
        assert(dict_put(d.take(k), key, child) =~= d.take(k + 1));
        lemma_entries_read_back(toks, i, v, k + 1);
    }
}

/// Round trip of the GMD codec at the level of reader events: a document
/// written for a value, read back event by event, gives the value.
pub proof fn lemma_gmd_round_trip(v: GValue)
    requires
        gvalue_wf(v),
    ensures
        parse_spec(document_tokens(v)) == Ok::<GValue, GmdFault>(v),
{
    reveal_tag_names();
    let t = document_tokens(v);
    let vt = value_tokens(v);
    assert(tokens_at(t, 2, vt)) by {
        assert forall|j: int| 0 <= j < vt.len() implies t[2 + j] == vt[j] by {}
    }
    lemma_value_reads_back(t, 2, v);
    assert(next_sig(t, 1) == 1);
    lemma_fetch_here(t, 2);
    assert(doc_at(t, 2) == value_at(t, 3, head_name(v), v is Bool));
}

/// Round trip of the GMD codec on bytes, for a document whose reader
/// events are those that the writer lays down: reading it gives the value
/// back. The premise is about the XML reader, which is not proved here.
pub proof fn lemma_gmd_bytes_round_trip(v: GValue, b: Seq<u8>, r: Result<GmdValue, GmdError>)
    requires
        gvalue_wf(v),
        document_events(b) == document_tokens(v),
        bytes_give(b, r),
    ensures
        r is Ok && r->Ok_0@ == v,
{
    lemma_gmd_round_trip(v);
}

} // verus!
