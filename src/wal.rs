use vstd::prelude::*;

use crate::path::path_view;
use crate::value::{group_value_lemmas, items_view, Json, Value};

verus! {

broadcast use vstd::std_specs::vec::group_vec_axioms, vstd::seq::group_seq_axioms, group_value_lemmas;

/// The log record of writing `v` at `path`: the two-element array
/// `[[segment, ...], v]`.
pub open spec fn record_of(path: Seq<Seq<char>>, v: Json) -> Json {
    Json::Array(seq![Json::Array(path.map_values(|s: Seq<char>| Json::Str(s))), v])
}

/// A non-empty array of strings: the only shape a recorded path may have.
pub open spec fn is_path_array(items: Seq<Json>) -> bool {
    items.len() > 0 && forall|i: int| 0 <= i < items.len() ==> (#[trigger] items[i]) is Str
}

/// The path and value that a log record holds, or `None` when it is not a
/// well-formed record.
pub open spec fn record_parts(r: Json) -> Option<(Seq<Seq<char>>, Json)> {
    match r {
        Json::Array(parts) => {
            if parts.len() == 2 && parts[0] is Array && is_path_array(parts[0]->Array_0) {
                Some((parts[0]->Array_0.map_values(|j: Json| j->Str_0), parts[1]))
            } else {
                None
            }
        },
        _ => None,
    }
}

/// The character sequences of a list of strings.
pub open spec fn strings_view(v: Seq<String>) -> Seq<Seq<char>> {
    Seq::new(v.len(), |i: int| v[i]@)
}

/// Reading a record back gives the path and value it was made from.
pub proof fn lemma_record_round_trip(path: Seq<Seq<char>>, v: Json)
    requires
        path.len() > 0,
    ensures
        record_parts(record_of(path, v)) == Some((path, v)),
{
    let segs = path.map_values(|s: Seq<char>| Json::Str(s));
    let parts = seq![Json::Array(segs), v];
    assert(record_of(path, v) == Json::Array(parts));
    assert(parts[0]->Array_0 == segs);
    assert(is_path_array(segs));
    assert(segs.map_values(|j: Json| j->Str_0) =~= path);
}

/// Builds the log record of writing `value` at `path`.
pub fn make_record(path: &[&str], value: Value) -> (r: Value)
    ensures
        r@ == record_of(path_view(path@), value@),
{
    let mut segs: Vec<Value> = Vec::new();
    let mut i: usize = 0;
    while i < path.len()
        invariant
            i <= path.len(),
            segs@.len() == i,
            forall|j: int| 0 <= j < i ==> #[trigger] segs@[j]@ == Json::Str(path@[j]@),
        decreases path.len() - i,
    {
        segs.push(Value::String(path[i].to_owned()));
        i = i + 1;
    }
    let ghost v = value@;
    let ghost sv = items_view(segs@);
    assert(sv =~= path_view(path@).map_values(|s: Seq<char>| Json::Str(s)));
    let inner = Value::Array(segs);
    assert(inner@ == Json::Array(sv));
    let mut parts: Vec<Value> = Vec::new();
    parts.push(inner);
    parts.push(value);
    assert(items_view(parts@) =~= seq![Json::Array(sv), v]);
    Value::Array(parts)
}

/// Reads the path and value out of a log record; `None` when the record is
/// not a two-element array whose first item is a non-empty array of strings.
pub fn read_record(record: &Value) -> (r: Option<(Vec<String>, Value)>)
    ensures
        match record_parts(record@) {
            Some((p, v)) => r is Some && strings_view((r->0).0@) == p && (r->0).1@ == v,
            None => r is None,
        },
{
    match record {
        Value::Array(parts) => {
            let ghost pv = items_view(parts@);
            proof {
                crate::value::lemma_items_view(parts@);
            }
            if parts.len() != 2 {
                return None;
            }
            assert(pv[0] == parts@[0]@);
            match &parts[0] {
                Value::Array(segs) => {
                    let ghost sv = items_view(segs@);
                    proof {
                        crate::value::lemma_items_view(segs@);
                    }
                    assert(pv[0] == Json::Array(sv));
                    if segs.len() == 0 {
                        return None;
                    }
                    let mut out: Vec<String> = Vec::new();
                    let mut i: usize = 0;
                    while i < segs.len()
                        invariant
                            i <= segs.len(),
                            sv == items_view(segs@),
                            record@ == Json::Array(pv),
                            pv.len() == 2,
                            pv[0] == Json::Array(sv),
                            out@.len() == i,
                            forall|j: int| 0 <= j < i ==> (#[trigger] sv[j]) is Str,
                            forall|j: int| 0 <= j < i ==> #[trigger] out@[j]@ == sv[j]->Str_0,
                        decreases segs.len() - i,
                    {
                        proof {
                            crate::value::lemma_items_view(segs@);
                        }
                        match &segs[i] {
                            Value::String(s) => {
                                out.push(s.clone());
                            },
                            _ => {
                                assert(!(sv[i as int] is Str));
                                return None;
                            },
                        }
                        i = i + 1;
                    }
                    assert(is_path_array(sv));
                    assert(strings_view(out@) =~= sv.map_values(|j: Json| j->Str_0));
                    Some((out, parts[1].deep_copy()))
                },
                _ => None,
            }
        },
        _ => None,
    }
}

/// Where the first line of `t` ends: the index of its first newline byte, or
/// the length of `t` when it holds none.
pub open spec fn line_end(t: Seq<u8>) -> int
    decreases t.len(),
{
    if t.len() == 0 {
        0
    } else if t[0] == 10 {
        0
    } else {
        1 + line_end(t.drop_first())
    }
}

/// A line without the carriage return that ends it, if one does.
pub open spec fn strip_cr(l: Seq<u8>) -> Seq<u8> {
    if l.len() > 0 && l.last() == 13 {
        l.drop_last()
    } else {
        l
    }
}

/// The lines of a log file: its bytes cut at each newline (a carriage
/// return before the newline belongs to the newline). A final newline ends
/// the last line; it does not start an empty one.
pub open spec fn log_lines(t: Seq<u8>) -> Seq<Seq<u8>>
    decreases t.len(),
{
    if t.len() == 0 {
        Seq::empty()
    } else {
        let e = line_end(t);
        proof {
            lemma_line_end_bounds(t);
        }
        if e < t.len() {
            seq![strip_cr(t.take(e))] + log_lines(t.skip(e + 1))
        } else {
            seq![strip_cr(t)]
        }
    }
}

/// `line_end` lies within the text.
pub proof fn lemma_line_end_bounds(t: Seq<u8>)
    ensures
        0 <= line_end(t) <= t.len(),
    decreases t.len(),
{
    if t.len() > 0 && t[0] != 10 {
        lemma_line_end_bounds(t.drop_first());
    }
}

/// A position before which no newline stands, and at which the text ends
/// or a newline stands, is where the first line ends.
pub proof fn lemma_line_end_is(t: Seq<u8>, m: int)
    requires
        0 <= m <= t.len(),
        forall|k: int| 0 <= k < m ==> t[k] != 10,
        m == t.len() || t[m] == 10,
    ensures
        line_end(t) == m,
    decreases m,
{
    if m > 0 {
        let rest = t.drop_first();
        assert forall|k: int| 0 <= k < m - 1 implies rest[k] != 10 by {
            assert(rest[k] == t[k + 1]);
        }
        if m < t.len() {
            assert(rest[m - 1] == t[m]);
        }
        lemma_line_end_is(rest, m - 1);
    }
}

/// The byte sequences of a list of lines.
pub open spec fn lines_view(v: Seq<Vec<u8>>) -> Seq<Seq<u8>> {
    Seq::new(v.len(), |i: int| v[i]@)
}

/// Cuts the text of a log file into its lines.
pub fn split_lines(text: &[u8]) -> (r: Vec<Vec<u8>>)
    ensures
        lines_view(r@) == log_lines(text@),
{
    let mut out: Vec<Vec<u8>> = Vec::new();
    let mut start: usize = 0;
    assert(text@.skip(0) =~= text@);
    while start < text.len()
        invariant
            start <= text.len(),
            lines_view(out@) + log_lines(text@.skip(start as int)) == log_lines(text@),
        decreases text.len() - start,
    {
        let ghost t = text@.skip(start as int);
        let mut line: Vec<u8> = Vec::new();
        let mut j: usize = start;
        while j < text.len() && text[j] != 10
            invariant
                start <= j <= text.len(),
                t == text@.skip(start as int),
                line@ == text@.subrange(start as int, j as int),
                forall|k: int| start <= k < j ==> text@[k] != 10,
            decreases text.len() - j,
        {
            line.push(text[j]);
            j = j + 1;
            assert(line@ =~= text@.subrange(start as int, j as int));
        }
        assert forall|k: int| 0 <= k < j - start implies t[k] != 10 by {
            assert(t[k] == text@[start + k]);
        }
        if j < text.len() {
            assert(t[j - start] == text@[j as int]);
        }
        proof {
            lemma_line_end_is(t, j - start);
        }
        assert(t.take(j - start) =~= line@);
        let ghost raw = line@;
        if line.len() > 0 && line[line.len() - 1] == 13 {
            line.pop();
            assert(line@ =~= raw.drop_last());
        }
        assert(line@ == strip_cr(raw));
        let ghost before = out@;
        out.push(line);
        assert(lines_view(out@) =~= lines_view(before).push(strip_cr(raw)));
        if j < text.len() {
            assert(t.skip(j - start + 1) =~= text@.skip(j + 1));
            assert(log_lines(t) == seq![strip_cr(raw)] + log_lines(text@.skip(j + 1)));
            assert(lines_view(out@) + log_lines(text@.skip(j + 1)) =~= lines_view(before) + log_lines(t));
            start = j + 1;
        } else {
            assert(t.take(j - start) =~= t);
            assert(log_lines(t) == seq![strip_cr(raw)]);
            assert(text@.skip(j as int) =~= Seq::<u8>::empty());
            assert(lines_view(out@) + log_lines(text@.skip(j as int)) =~= lines_view(before) + log_lines(t));
            start = j;
        }
    }
    assert(text@.skip(start as int) =~= Seq::<u8>::empty());
    assert(lines_view(out@) + Seq::<Seq<u8>>::empty() =~= lines_view(out@));
    out
}

} // verus!
