use vstd::prelude::*;

verus! {

broadcast use vstd::std_specs::vec::group_vec_axioms, vstd::seq::group_seq_axioms;

/// A stored datum: one of null, boolean, integer, string, array or object.
/// An object is a list of (key, value) entries; where a key occurs twice,
/// the later entry is the one that counts.
#[derive(Debug, PartialEq)]
pub enum Value {
    Null,
    Bool(bool),
    Number(i64),
    String(String),
    Array(Vec<Value>),
    Object(Vec<(String, Value)>),
}

/// The mathematical counterpart of a `Value`.
pub enum Json {
    Null,
    Bool(bool),
    Number(int),
    Str(Seq<char>),
    Array(Seq<Json>),
    Object(Seq<(Seq<char>, Json)>),
}

impl View for Value {
    type V = Json;

    open spec fn view(&self) -> Json
        decreases self,
    {
        match self {
            Value::Null => Json::Null,
            Value::Bool(b) => Json::Bool(*b),
            Value::Number(n) => Json::Number(*n as int),
            Value::String(s) => Json::Str(s@),
            Value::Array(items) => Json::Array(items_view(items@)),
            Value::Object(entries) => Json::Object(entries_view(entries@)),
        }
    }
}

/// The models of a sequence of values.
pub open spec fn items_view(items: Seq<Value>) -> Seq<Json>
    decreases items,
{
    if items.len() == 0 {
        Seq::empty()
    } else {
        items_view(items.drop_last()).push(items.last().view())
    }
}

/// The models of the entries of an object.
pub open spec fn entries_view(es: Seq<(String, Value)>) -> Seq<(Seq<char>, Json)>
    decreases es,
{
    if es.len() == 0 {
        Seq::empty()
    } else {
        entries_view(es.drop_last()).push((es.last().0@, es.last().1.view()))
    }
}

/// `items_view` is the pointwise model.
pub broadcast proof fn lemma_items_view(items: Seq<Value>)
    ensures
        #[trigger] items_view(items).len() == items.len(),
        forall|i: int| 0 <= i < items.len() ==> #[trigger] items_view(items)[i] == items[i]@,
    decreases items.len(),
{
    if items.len() > 0 {
        lemma_items_view(items.drop_last());
        assert(items_view(items) == items_view(items.drop_last()).push(items.last().view()));
    } else {
        assert(items_view(items) == Seq::<Json>::empty());
    }
}

/// `entries_view` is the pointwise model.
pub broadcast proof fn lemma_entries_view(es: Seq<(String, Value)>)
    ensures
        #[trigger] entries_view(es).len() == es.len(),
        forall|i: int|
            0 <= i < es.len() ==> #[trigger] entries_view(es)[i] == (es[i].0@, es[i].1@),
    decreases es.len(),
{
    if es.len() > 0 {
        lemma_entries_view(es.drop_last());
        assert(entries_view(es) == entries_view(es.drop_last()).push((es.last().0@, es.last().1@)));
    } else {
        assert(entries_view(es) == Seq::<(Seq<char>, Json)>::empty());
    }
}

impl Value {
    /// A copy of the whole tree.
    pub fn deep_copy(&self) -> (r: Value)
        ensures
            r@ == self@,
        decreases self,
    {
        match self {
            Value::Null => Value::Null,
            Value::Bool(b) => Value::Bool(*b),
            Value::Number(n) => Value::Number(*n),
            Value::String(s) => Value::String(s.clone()),
            Value::Array(items) => {
                let mut out: Vec<Value> = Vec::new();
                let mut i: usize = 0;
                while i < items.len()
                    invariant
                        i <= items.len(),
                        out@.len() == i,
                        *self == Value::Array(*items),
                        forall|j: int| 0 <= j < i ==> #[trigger] out@[j]@ == items@[j]@,
                    decreases items.len() - i,
                {
                    assert(decreases_to!(*self => (*self)->Array_0));
                    assert(decreases_to!(*items => items[i as int]));
                    out.push(items[i].deep_copy());
                    i = i + 1;
                }
                proof {
                    lemma_items_view(out@);
                    lemma_items_view(items@);
                }
                assert(items_view(out@) =~= items_view(items@));
                Value::Array(out)
            },
            Value::Object(entries) => {
                let mut out: Vec<(String, Value)> = Vec::new();
                let mut i: usize = 0;
                while i < entries.len()
                    invariant
                        i <= entries.len(),
                        out@.len() == i,
                        *self == Value::Object(*entries),
                        forall|j: int|
                            0 <= j < i ==> #[trigger] out@[j].0@ == entries@[j].0@ && out@[j].1@
                                == entries@[j].1@,
                    decreases entries.len() - i,
                {
                    assert(decreases_to!(*self => (*self)->Object_0));
                    assert(decreases_to!(*entries => entries[i as int]));
                    assert(decreases_to!(entries[i as int] => entries[i as int].1));
                    out.push((entries[i].0.clone(), entries[i].1.deep_copy()));
                    i = i + 1;
                }
                proof {
                    lemma_entries_view(out@);
                    lemma_entries_view(entries@);
                }
                assert(entries_view(out@) =~= entries_view(entries@));
                Value::Object(out)
            },
        }
    }
}

/// An object's model is the model of its entries.
pub proof fn lemma_object_view(entries: Vec<(String, Value)>)
    ensures
        Value::Object(entries)@ == Json::Object(entries_view(entries@)),
{
}

pub broadcast group group_value_lemmas {
    lemma_items_view,
    lemma_entries_view,
}

} // verus!
