//! Properties that relate the parser's and the printer's functions.
use vstd::prelude::*;

use crate::error::Error;
use crate::parser::{
    entry_of, exploded, parsed_line, placeholder_count, quotes_of, scan,
    scan_step, split_variables, variables_of, EntryView, Placeholder, ScanState,
};
use crate::printer::{rendered, value_text};
use crate::text::{first_index, trim, trim_end, trim_start};
use crate::value::{Decimal, ValueView};

verus! {

proof fn lemma_first_index_skips(t: Seq<char>, rest: Seq<char>, c: char)
    requires
        forall|i: int| 0 <= i < t.len() ==> t[i] != c,
    ensures
        first_index(t + seq![c] + rest, c) == Some(t.len() as int),
    decreases t.len(),
{
    if t.len() == 0 {
        assert((t + seq![c] + rest)[0] == c);
    } else {
        assert((t + seq![c] + rest).drop_first() =~= t.drop_first() + seq![c] + rest);
        lemma_first_index_skips(t.drop_first(), rest, c);
    }
}

/// A line `"t"rest`, with no quote inside `t`, has `t` for its template and
/// `rest` for its variable list: it parses exactly when the template's
/// entries can be read and the list names as many variables as the template
/// has placeholders; with any other number of names it fails with
/// `PlaceholderArityMismatch`, carrying both counts.
pub proof fn law_arity(t: Seq<char>, rest: Seq<char>)
    requires
        forall|i: int| 0 <= i < t.len() ==> t[i] != '"',
        exploded(t) is Ok,
    ensures
        ({
            let input = seq!['"'] + t + seq!['"'] + rest;
            let es = exploded(t)->Ok_0;
            let n = variables_of(rest).len();
            &&& n == placeholder_count(es) ==> parsed_line(input) == Ok::<
                (Seq<EntryView>, Seq<Seq<char>>),
                Error,
            >((es, variables_of(rest)))
            &&& n != placeholder_count(es) ==> parsed_line(input) == Err::<
                (Seq<EntryView>, Seq<Seq<char>>),
                Error,
            >(
                Error::PlaceholderArityMismatch {
                    variables: n as usize,
                    placeholders: placeholder_count(es) as usize,
                },
            )
        }),
{
    let input = seq!['"'] + t + seq!['"'] + rest;
    assert(input[0] == '"');
    assert(first_index(input, '"') == Some(0int));
    assert(input.skip(1) =~= t + seq!['"'] + rest);
    lemma_first_index_skips(t, rest, '"');
    assert(quotes_of(input) == Some((0int, t.len() as int + 1)));
    assert(input.subrange(1, t.len() as int + 1) =~= t);
    assert(input.skip(t.len() as int + 2) =~= rest);
}

/// The entries that a prefix has fixed once its buffer is closed as text.
pub open spec fn closed_entries(st: ScanState) -> Seq<EntryView> {
    if st.buffer.len() == 0 {
        st.entries
    } else {
        st.entries.push(entry_of(st.buffer)->Ok_0)
    }
}

proof fn lemma_plain_suffix(p: Seq<char>, rest: Seq<char>, k: int)
    requires
        0 <= k <= rest.len(),
        scan(p) matches Ok(st) && !st.in_placeholder,
        forall|i: int| 0 <= i < rest.len() ==> rest[i] != '%',
    ensures
        scan(p + rest.take(k)) == Ok::<ScanState, Error>(
            ScanState { buffer: scan(p)->Ok_0.buffer + rest.take(k), ..scan(p)->Ok_0 },
        ),
    decreases k,
{
    let st = scan(p)->Ok_0;
    if k == 0 {
        assert(p + rest.take(0) =~= p);
        assert(st.buffer + rest.take(0) =~= st.buffer);
        assert(ScanState { buffer: st.buffer, ..st } == st);
    } else {
        lemma_plain_suffix(p, rest, k - 1);
        let prev = ScanState { buffer: st.buffer + rest.take(k - 1), ..st };
        let s = p + rest.take(k);
        assert(s.drop_last() =~= p + rest.take(k - 1));
        assert(s.last() == rest[k - 1]);
        assert(rest[k - 1] != '%');
        assert(scan(s) == scan_step(prev, rest[k - 1]));
        assert(prev.buffer.push(rest[k - 1]) =~= st.buffer + rest.take(k));
    }
}

/// `%%` outside a placeholder is one literal `%`: the text before it is
/// closed as it stood, and `%%` with the `%`-free text after it becomes a
/// single text entry that starts with one `%`. No placeholder is added, so
/// no variable is consumed.
pub proof fn law_escaped_percent(p: Seq<char>, rest: Seq<char>)
    requires
        scan(p) matches Ok(st) && !st.in_placeholder && (st.buffer.len() == 0 || entry_of(
            st.buffer,
        ) is Ok),
        forall|i: int| 0 <= i < rest.len() ==> rest[i] != '%',
    ensures
        exploded(p + seq!['%', '%'] + rest) == Ok::<Seq<EntryView>, Error>(
            closed_entries(scan(p)->Ok_0).push(EntryView::Text(seq!['%'] + rest)),
        ),
        placeholder_count(closed_entries(scan(p)->Ok_0).push(EntryView::Text(seq!['%'] + rest)))
            == placeholder_count(closed_entries(scan(p)->Ok_0)),
{
    let st = scan(p)->Ok_0;
    let p1 = p.push('%');
    assert(p1.drop_last() == p);
    assert(p1.last() == '%');
    let st1 = ScanState { entries: closed_entries(st), in_placeholder: true, buffer: seq!['%'] };
    assert(scan(p1) == Ok::<ScanState, Error>(st1));
    let p2 = p1.push('%');
    assert(p2.drop_last() == p1);
    assert(p2.last() == '%');
    let st2 = ScanState { entries: closed_entries(st), in_placeholder: false, buffer: seq!['%', '%'] };
    assert(seq!['%'].push('%') =~= seq!['%', '%']);
    assert(scan(p2) == Ok::<ScanState, Error>(st2));
    lemma_plain_suffix(p2, rest, rest.len() as int);
    assert(rest.take(rest.len() as int) == rest);
    assert(p2 + rest =~= p + seq!['%', '%'] + rest);
    let buf = seq!['%', '%'] + rest;
    assert(buf[0] == '%' && buf[1] == '%');
    assert(buf.drop_first() =~= seq!['%'] + rest);
    let es = closed_entries(st);
    assert(es.push(EntryView::Text(seq!['%'] + rest)).drop_last() == es);
}

/// A `String` placeholder never renders a (well formed) numeric value: it
/// fails with `TypeMismatch`.
pub proof fn law_string_placeholder_rejects_numbers(d: Decimal)
    requires
        d.wf(),
    ensures
        value_text(Placeholder::String, ValueView::Numeric(d)) == Err::<Seq<char>, Error>(
            Error::TypeMismatch,
        ),
{
}

/// A placeholder whose variable the resolver does not know stops the
/// rendering with `UnresolvedVariable` of that name, whatever its type.
pub proof fn law_unresolved_variable(
    entries: Seq<EntryView>,
    p: Placeholder,
    names: Seq<String>,
    values: Seq<Option<ValueView>>,
)
    requires
        rendered(entries, names, values) is Ok,
        placeholder_count(entries) < names.len(),
        values[placeholder_count(entries) as int] is None,
    ensures
        rendered(entries.push(EntryView::Placeholder(p)), names, values) == Err::<
            Seq<char>,
            Error,
        >(Error::UnresolvedVariable(names[placeholder_count(entries) as int])),
{
    assert(entries.push(EntryView::Placeholder(p)).drop_last() == entries);
}

/// The variable list `,w0,w1,…`: each name preceded by a comma.
pub open spec fn comma_list(ws: Seq<Seq<char>>) -> Seq<char>
    decreases ws.len(),
{
    if ws.len() == 0 {
        seq![]
    } else {
        comma_list(ws.drop_last()) + seq![','] + ws.last()
    }
}

proof fn lemma_split_without_comma(p: Seq<char>, s: Seq<char>)
    requires
        forall|i: int| 0 <= i < s.len() ==> s[i] != ',',
    ensures
        split_variables(p + s) == (split_variables(p).0, split_variables(p).1 + s),
    decreases s.len(),
{
    if s.len() == 0 {
        assert(p + s =~= p);
        assert(split_variables(p).1 + s =~= split_variables(p).1);
    } else {
        lemma_split_without_comma(p, s.drop_last());
        assert((p + s).drop_last() =~= p + s.drop_last());
        assert((p + s).last() == s.last());
        assert(split_variables(p).1 + s.drop_last() + seq![s.last()] =~= split_variables(p).1 + s);
    }
}

proof fn lemma_trim_empty()
    ensures
        trim(Seq::<char>::empty()).len() == 0,
{
    assert(trim_start(Seq::<char>::empty()) == Seq::<char>::empty());
    assert(trim_end(Seq::<char>::empty()) == Seq::<char>::empty());
}

proof fn lemma_comma_list(ws: Seq<Seq<char>>)
    requires
        forall|i: int, j: int| 0 <= i < ws.len() && 0 <= j < ws[i].len() ==> ws[i][j] != ',',
        forall|i: int| 0 <= i < ws.len() ==> trim(#[trigger] ws[i]).len() > 0,
    ensures
        ws.len() == 0 ==> split_variables(comma_list(ws)) == (
            Seq::<Seq<char>>::empty(),
            Seq::<char>::empty(),
        ),
        ws.len() > 0 ==> split_variables(comma_list(ws)) == (
            ws.drop_last().map_values(|w: Seq<char>| trim(w)),
            ws.last(),
        ),
    decreases ws.len(),
{
    if ws.len() > 0 {
        let prev = ws.drop_last();
        let w = ws.last();
        lemma_comma_list(prev);
        let x = comma_list(prev) + seq![','];
        assert(x.drop_last() =~= comma_list(prev));
        assert(x.last() == ',');
        if prev.len() > 0 {
            lemma_trim_empty();
            assert(trim(prev.last()).len() > 0);
            assert(prev.last().len() > 0);
            assert(prev.drop_last().map_values(|w: Seq<char>| trim(w)).push(trim(prev.last()))
                =~= ws.drop_last().map_values(|w: Seq<char>| trim(w)));
        } else {
            assert(ws.drop_last().map_values(|w: Seq<char>| trim(w)) =~= Seq::<Seq<char>>::empty());
        }
        assert(split_variables(x) == (
            ws.drop_last().map_values(|w: Seq<char>| trim(w)),
            Seq::<char>::empty(),
        ));
        assert forall|j: int| 0 <= j < w.len() implies w[j] != ',' by {
            assert(ws[ws.len() - 1][j] != ',');
        }
        lemma_split_without_comma(x, w);
        assert(Seq::<char>::empty() + w =~= w);
    }
}

/// A line `"t",w0,w1,…`, with no quote in `t` and no comma in any name,
/// parses exactly when the template can be read and there are as many names
/// as placeholders; its variables are then the trimmed names. With another
/// number of names it fails with `PlaceholderArityMismatch`, carrying both
/// counts.
pub proof fn law_arity_of_names(t: Seq<char>, ws: Seq<Seq<char>>)
    requires
        forall|i: int| 0 <= i < t.len() ==> t[i] != '"',
        exploded(t) is Ok,
        forall|i: int, j: int| 0 <= i < ws.len() && 0 <= j < ws[i].len() ==> ws[i][j] != ',',
        forall|i: int| 0 <= i < ws.len() ==> trim(#[trigger] ws[i]).len() > 0,
    ensures
        ({
            let input = seq!['"'] + t + seq!['"'] + comma_list(ws);
            let es = exploded(t)->Ok_0;
            &&& ws.len() == placeholder_count(es) ==> parsed_line(input) == Ok::<
                (Seq<EntryView>, Seq<Seq<char>>),
                Error,
            >((es, ws.map_values(|w: Seq<char>| trim(w))))
            &&& ws.len() != placeholder_count(es) ==> parsed_line(input) == Err::<
                (Seq<EntryView>, Seq<Seq<char>>),
                Error,
            >(
                Error::PlaceholderArityMismatch {
                    variables: ws.len() as usize,
                    placeholders: placeholder_count(es) as usize,
                },
            )
        }),
{
    lemma_comma_list(ws);
    law_arity(t, comma_list(ws));
    if ws.len() > 0 {
        assert(trim(ws[ws.len() - 1]).len() > 0);
        lemma_trim_empty();
        assert(ws.last().len() > 0);
        assert(ws.drop_last().map_values(|w: Seq<char>| trim(w)).push(trim(ws.last()))
            =~= ws.map_values(|w: Seq<char>| trim(w)));
    } else {
        assert(ws.map_values(|w: Seq<char>| trim(w)) =~= Seq::<Seq<char>>::empty());
    }
    assert(variables_of(comma_list(ws)) == ws.map_values(|w: Seq<char>| trim(w)));
}

} // verus!
