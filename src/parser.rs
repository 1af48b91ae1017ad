//! Splitting a template into literal text and placeholders, and binding the
//! placeholders to variable names.
use vstd::prelude::*;
use vstd::slice::slice_subrange;
use vstd::string::StrSliceExecFns;

use crate::error::Error;
use crate::extractor::{
    extract_float_format, extract_number_format, float_format_of, number_format_of,
};
use crate::text::{chars_of, find_char, first_index, string_from_chars, trim, trim_chars};
use crate::types::{FloatFormat, HexFormat, NumberFormat};

verus! {

#[derive(Debug, Clone, Copy, PartialEq, Eq)]
pub enum Placeholder {
    /// `%v`: the value's natural text.
    Display,
    /// `%s`: a string value as it is.
    String,
    /// `%f`: fixed-point.
    Float(FloatFormat),
    /// `%d`: decimal integer.
    Number(NumberFormat),
    /// `%x` or `%X`: hexadecimal integer.
    Hex(HexFormat),
}

#[derive(Debug, Clone, PartialEq, Eq)]
pub enum Entry {
    Text(String),
    Placeholder(Placeholder),
}

/// What an entry stands for, with its text as characters.
pub enum EntryView {
    Text(Seq<char>),
    Placeholder(Placeholder),
}

impl View for Entry {
    type V = EntryView;

    open spec fn view(&self) -> EntryView {
        match self {
            Entry::Text(s) => EntryView::Text(s@),
            Entry::Placeholder(p) => EntryView::Placeholder(*p),
        }
    }
}

pub open spec fn entries_view(v: Seq<Entry>) -> Seq<EntryView> {
    v.map_values(|e: Entry| e@)
}

/// A template split into entries, and one variable name per placeholder.
#[derive(Debug)]
pub struct ParsedFormatString {
    pub entries: Vec<Entry>,
    pub variables: Vec<String>,
}

impl ParsedFormatString {
    pub fn new(entries: Vec<Entry>, variables: Vec<String>) -> (r: Self)
        ensures
            r.entries == entries,
            r.variables == variables,
    {
        Self { entries, variables }
    }

    /// Each placeholder has its variable name.
    pub open spec fn wf(&self) -> bool {
        self.variables@.len() == placeholder_count(entries_view(self.entries@))
    }
}

pub open spec fn is_letter(c: char) -> bool {
    ('a' <= c && c <= 'z') || ('A' <= c && c <= 'Z')
}

/// The placeholder that a specifier such as `%04d` states: its last character
/// picks the type, what stands between `%` and it the format.
pub open spec fn placeholder_of(s: Seq<char>) -> Result<Placeholder, Error> {
    if s.len() < 2 {
        Err(Error::IncompletePlaceholder)
    } else if s[0] != '%' {
        Err(Error::NotAPlaceholder)
    } else {
        let what = s.last();
        let body = s.subrange(1, s.len() - 1);
        if what == 'v' {
            Ok(Placeholder::Display)
        } else if what == 's' {
            Ok(Placeholder::String)
        } else if what == 'd' {
            Ok(Placeholder::Number(number_format_of(body)))
        } else if what == 'x' || what == 'X' {
            Ok(Placeholder::Hex(HexFormat { uppercase: what == 'X', nf: number_format_of(body) }))
        } else if what == 'f' {
            Ok(Placeholder::Float(float_format_of(body)))
        } else {
            Err(Error::UnknownPlaceholderType(what))
        }
    }
}

/// The entry that a non-empty buffer of the tokenizer stands for: `%%…` is
/// text after its first `%`, `%…` a placeholder, anything else text.
pub open spec fn entry_of(buf: Seq<char>) -> Result<EntryView, Error> {
    if buf.len() >= 2 && buf[0] == '%' && buf[1] == '%' {
        Ok(EntryView::Text(buf.drop_first()))
    } else if buf.len() > 0 && buf[0] == '%' {
        match placeholder_of(buf) {
            Ok(p) => Ok(EntryView::Placeholder(p)),
            Err(e) => Err(e),
        }
    } else {
        Ok(EntryView::Text(buf))
    }
}

/// Where the tokenizer stands after part of a template.
pub struct ScanState {
    pub entries: Seq<EntryView>,
    pub in_placeholder: bool,
    pub buffer: Seq<char>,
}

/// One character of the tokenizer.
pub open spec fn scan_step(st: ScanState, c: char) -> Result<ScanState, Error> {
    if c == '%' && st.in_placeholder {
        Ok(ScanState { in_placeholder: false, buffer: st.buffer.push(c), ..st })
    } else if c == '%' {
        if st.buffer.len() > 0 {
            match entry_of(st.buffer) {
                Ok(e) => Ok(
                    ScanState { entries: st.entries.push(e), in_placeholder: true, buffer: seq![c] },
                ),
                Err(e) => Err(e),
            }
        } else {
            Ok(ScanState { in_placeholder: true, buffer: seq![c], ..st })
        }
    } else if is_letter(c) && st.in_placeholder {
        match entry_of(st.buffer.push(c)) {
            Ok(e) => Ok(
                ScanState { entries: st.entries.push(e), in_placeholder: false, buffer: seq![] },
            ),
            Err(e) => Err(e),
        }
    } else {
        Ok(ScanState { buffer: st.buffer.push(c), ..st })
    }
}

/// The tokenizer's state after reading all of `s`, or the first failure.
pub open spec fn scan(s: Seq<char>) -> Result<ScanState, Error>
    decreases s.len(),
{
    if s.len() == 0 {
        Ok(ScanState { entries: seq![], in_placeholder: false, buffer: seq![] })
    } else {
        match scan(s.drop_last()) {
            Ok(st) => scan_step(st, s.last()),
            Err(e) => Err(e),
        }
    }
}

/// A failure at some point of the scan is the failure of the whole scan.
proof fn lemma_scan_failure_persists(s: Seq<char>, k: int)
    requires
        0 <= k <= s.len(),
        scan(s.take(k)) is Err,
    ensures
        scan(s) == scan(s.take(k)),
    decreases s.len() - k,
{
    if k < s.len() {
        assert(s.take(k + 1).drop_last() == s.take(k));
        lemma_scan_failure_persists(s, k + 1);
    } else {
        assert(s.take(k) == s);
    }
}

/// The entries of a template: the scan's entries, then what is left in its
/// buffer.
pub open spec fn exploded(s: Seq<char>) -> Result<Seq<EntryView>, Error> {
    match scan(s) {
        Ok(st) => if st.buffer.len() == 0 {
            Ok(st.entries)
        } else {
            match entry_of(st.buffer) {
                Ok(e) => Ok(st.entries.push(e)),
                Err(e) => Err(e),
            }
        },
        Err(e) => Err(e),
    }
}

pub open spec fn placeholder_count(es: Seq<EntryView>) -> nat
    decreases es.len(),
{
    if es.len() == 0 {
        0
    } else {
        placeholder_count(es.drop_last()) + if es.last() is Placeholder {
            1nat
        } else {
            0nat
        }
    }
}

impl Placeholder {
    /// Reads a specifier such as `%04d` or `%.2f`.
    pub fn parse(s: &[char]) -> (r: Result<Placeholder, Error>)
        requires
            s@.len() >= 2,
        ensures
            r == placeholder_of(s@),
    {
        if s[0] != '%' {
            return Err(Error::NotAPlaceholder);
        }
        let what = s[s.len() - 1];
        let body = slice_subrange(s, 1, s.len() - 1);
        if what == 'v' {
            Ok(Placeholder::Display)
        } else if what == 's' {
            Ok(Placeholder::String)
        } else if what == 'd' {
            Ok(Placeholder::Number(extract_number_format(body)))
        } else if what == 'x' || what == 'X' {
            Ok(Placeholder::Hex(HexFormat { uppercase: what == 'X', nf: extract_number_format(body) }))
        } else if what == 'f' {
            Ok(Placeholder::Float(extract_float_format(body)))
        } else {
            Err(Error::UnknownPlaceholderType(what))
        }
    }
}

impl Entry {
    /// The entry that a tokenizer buffer stands for.
    pub fn from_buffer(buf: &[char]) -> (r: Result<Entry, Error>)
        ensures
            match entry_of(buf@) {
                Ok(e) => r is Ok && r->Ok_0@ == e,
                Err(e) => r == Err::<Entry, Error>(e),
            },
    {
        if buf.len() >= 2 && buf[0] == '%' && buf[1] == '%' {
            let t = string_from_chars(slice_subrange(buf, 1, buf.len()));
            assert(buf@.subrange(1, buf@.len() as int) == buf@.drop_first());
            Ok(Entry::Text(t))
        } else if buf.len() > 0 && buf[0] == '%' {
            if buf.len() < 2 {
                return Err(Error::IncompletePlaceholder);
            }
            match Placeholder::parse(buf) {
                Ok(p) => Ok(Entry::Placeholder(p)),
                Err(e) => Err(e),
            }
        } else {
            Ok(Entry::Text(string_from_chars(buf)))
        }
    }
}

/// Splits a template into its text and placeholder entries, in order.
/// `%%` stands for one literal `%`; a placeholder runs from `%` to the first
/// ASCII letter after it.
pub fn explode(input: &str) -> (r: Result<Vec<Entry>, Error>)
    ensures
        match exploded(input@) {
            Ok(es) => r is Ok && entries_view(r->Ok_0@) == es,
            Err(e) => r == Err::<Vec<Entry>, Error>(e),
        },
{
    let mut result: Vec<Entry> = Vec::new();
    let mut in_placeholder = false;
    let mut buffer: Vec<char> = Vec::new();
    let n = input.unicode_len();
    let mut i: usize = 0;
    assert(input@.take(0) =~= Seq::<char>::empty());
    assert(entries_view(result@) =~= Seq::<EntryView>::empty());
    while i < n
        invariant
            n == input@.len(),
            i <= n,
            scan(input@.take(i as int)) == Ok::<ScanState, Error>(
                ScanState { entries: entries_view(result@), in_placeholder, buffer: buffer@ },
            ),
        decreases n - i,
    {
        let c = input.get_char(i);
        let ghost st = ScanState { entries: entries_view(result@), in_placeholder, buffer: buffer@ };
        assert(input@.take(i + 1).drop_last() == input@.take(i as int));
        assert(input@.take(i + 1).last() == c);
        let ghost next = scan_step(st, c);
        assert(scan(input@.take(i + 1)) == next);
        if c == '%' && in_placeholder {
            in_placeholder = false;
            buffer.push(c);
        } else if c == '%' {
            if buffer.len() > 0 {
                match Entry::from_buffer(buffer.as_slice()) {
                    Ok(e) => {
                        result.push(e);
                        assert(entries_view(result@) =~= st.entries.push(e@));
                    },
                    Err(e) => {
                        proof {
                            lemma_scan_failure_persists(input@, i + 1);
                        }
                        return Err(e);
                    },
                }
            }
            buffer = Vec::new();
            buffer.push(c);
            in_placeholder = true;
            assert(buffer@ =~= seq![c]);
        } else if (('a' <= c && c <= 'z') || ('A' <= c && c <= 'Z')) && in_placeholder {
            buffer.push(c);
            match Entry::from_buffer(buffer.as_slice()) {
                Ok(e) => {
                    result.push(e);
                    assert(entries_view(result@) =~= st.entries.push(e@));
                },
                Err(e) => {
                    proof {
                        lemma_scan_failure_persists(input@, i + 1);
                    }
                    return Err(e);
                },
            }
            in_placeholder = false;
            buffer = Vec::new();
            assert(buffer@ =~= Seq::<char>::empty());
        } else {
            buffer.push(c);
        }
        i = i + 1;
    }
    assert(input@.take(n as int) == input@);
    if buffer.len() > 0 {
        match Entry::from_buffer(buffer.as_slice()) {
            Ok(e) => {
                let ghost before = entries_view(result@);
                result.push(e);
                assert(entries_view(result@) =~= before.push(e@));
            },
            Err(e) => {
                return Err(e);
            },
        }
    }
    Ok(result)
}

/// The variable names of a list such as `, a.b, c`: it splits at every `,`;
/// the pieces that are not empty are kept, trimmed. Gives the names
/// completed so far and the piece still open.
pub open spec fn split_variables(s: Seq<char>) -> (Seq<Seq<char>>, Seq<char>)
    decreases s.len(),
{
    if s.len() == 0 {
        (seq![], seq![])
    } else {
        let (done, cur) = split_variables(s.drop_last());
        if s.last() == ',' {
            (if cur.len() > 0 {
                done.push(trim(cur))
            } else {
                done
            }, seq![])
        } else {
            (done, cur.push(s.last()))
        }
    }
}

pub open spec fn variables_of(s: Seq<char>) -> Seq<Seq<char>> {
    let (done, cur) = split_variables(s);
    if cur.len() > 0 {
        done.push(trim(cur))
    } else {
        done
    }
}

/// Where the template's two quotes stand: the first `"` of the input and
/// the next one after it.
pub open spec fn quotes_of(input: Seq<char>) -> Option<(int, int)> {
    match first_index(input, '"') {
        None => None,
        Some(q1) => match first_index(input.skip(q1 + 1), '"') {
            None => None,
            Some(k) => Some((q1, q1 + 1 + k)),
        },
    }
}

/// What parsing a line such as `"%d of %d", a, b` gives: the template's
/// entries and the variable names, or the first failure.
pub open spec fn parsed_line(input: Seq<char>) -> Result<(Seq<EntryView>, Seq<Seq<char>>), Error> {
    match quotes_of(input) {
        None => Err(Error::MalformedTemplate),
        Some((q1, q2)) => match exploded(input.subrange(q1 + 1, q2)) {
            Err(e) => Err(e),
            Ok(es) => {
                let vars = variables_of(input.skip(q2 + 1));
                if vars.len() != placeholder_count(es) {
                    Err(
                        Error::PlaceholderArityMismatch {
                            variables: vars.len() as usize,
                            placeholders: placeholder_count(es) as usize,
                        },
                    )
                } else {
                    Ok((es, vars))
                }
            },
        },
    }
}

fn count_placeholders(entries: &Vec<Entry>) -> (r: usize)
    ensures
        r == placeholder_count(entries_view(entries@)),
{
    let mut count: usize = 0;
    let mut i: usize = 0;
    while i < entries.len()
        invariant
            i <= entries.len(),
            count == placeholder_count(entries_view(entries@.take(i as int))),
            count <= i,
        decreases entries.len() - i,
    {
        assert(entries_view(entries@.take(i + 1)).drop_last() =~= entries_view(entries@.take(i as int)));
        if let Entry::Placeholder(_) = &entries[i] {
            count = count + 1;
        }
        i = i + 1;
    }
    assert(entries@.take(i as int) == entries@);
    count
}

/// Splits `s[from..]` into variable names.
fn read_variables(s: &[char], from: usize) -> (r: Vec<String>)
    requires
        from <= s@.len(),
    ensures
        r@.map_values(|v: String| v@) == variables_of(s@.skip(from as int)),
{
    let ghost t = s@.skip(from as int);
    let mut done: Vec<String> = Vec::new();
    let mut cur: Vec<char> = Vec::new();
    let mut i: usize = from;
    assert(t.take(0) =~= Seq::<char>::empty());
    while i < s.len()
        invariant
            from <= i <= s.len(),
            t == s@.skip(from as int),
            split_variables(t.take(i - from)) == (done@.map_values(|v: String| v@), cur@),
        decreases s.len() - i,
    {
        let c = s[i];
        assert(t.take(i - from + 1).drop_last() == t.take(i - from));
        assert(t.take(i - from + 1).last() == c);
        if c == ',' {
            if cur.len() > 0 {
                let name = string_from_chars(trim_chars(cur.as_slice()).as_slice());
                let ghost prev = done@.map_values(|v: String| v@);
                done.push(name);
                assert(done@.map_values(|v: String| v@) =~= prev.push(trim(cur@)));
            }
            cur = Vec::new();
            assert(cur@ =~= Seq::<char>::empty());
        } else {
            cur.push(c);
        }
        i = i + 1;
    }
    assert(t.take(i - from) == t);
    if cur.len() > 0 {
        let name = string_from_chars(trim_chars(cur.as_slice()).as_slice());
        let ghost prev = done@.map_values(|v: String| v@);
        done.push(name);
        assert(done@.map_values(|v: String| v@) =~= prev.push(trim(cur@)));
    }
    done
}

fn find_quotes(s: &[char]) -> (r: Option<(usize, usize)>)
    ensures
        quotes_of(s@) is None <==> r is None,
        r matches Some((q1, q2)) ==> q1 < q2 < s@.len() && quotes_of(s@) == Some(
            (q1 as int, q2 as int),
        ),
{
    assert(s@.skip(0) == s@);
    let found = find_char(s, 0, '"');
    let q1 = match found {
        Some(q) => q,
        None => {
            return None;
        },
    };
    assert(q1 < s.len());
    match find_char(s, q1 + 1, '"') {
        Some(q2) => Some((q1, q2)),
        None => None,
    }
}

/// Parses a line such as `"Hello %s, %04d tries", user.name, user.tries`: the
/// text between the first two quotes is the template, and what follows the
/// closing quote is the comma-separated list of variable names, one for each
/// placeholder.
pub fn parse_format_string(input: &str) -> (r: Result<ParsedFormatString, Error>)
    ensures
        match parsed_line(input@) {
            Ok((es, vars)) => r is Ok && entries_view(r->Ok_0.entries@) == es
                && r->Ok_0.variables@.map_values(|v: String| v@) == vars,
            Err(e) => r == Err::<ParsedFormatString, Error>(e),
        },
        r is Ok ==> r->Ok_0.wf(),
{
    let chars = chars_of(input);
    let (q1, q2) = match find_quotes(chars.as_slice()) {
        Some(q) => q,
        None => {
            return Err(Error::MalformedTemplate);
        },
    };
    let template = input.substring_char(q1 + 1, q2);
    assert(template@ == input@.subrange(q1 + 1, q2 as int));
    let entries = match explode(template) {
        Ok(es) => es,
        Err(e) => {
            return Err(e);
        },
    };
    let variables = read_variables(chars.as_slice(), q2 + 1);
    let placeholders = count_placeholders(&entries);
    if variables.len() != placeholders {
        return Err(
            Error::PlaceholderArityMismatch { variables: variables.len(), placeholders },
        );
    }
    Ok(ParsedFormatString::new(entries, variables))
}

} // verus!
