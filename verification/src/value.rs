//! The JSON-like data values that flow through a decision-graph evaluation,
//! together with their mathematical model.

use vstd::prelude::*;

verus! {

/// A dynamic data value: the payload held by the data context during an
/// evaluation. Numbers are integers; objects are ordered lists of
/// key/value pairs where the first occurrence of a key is the binding.
#[derive(Debug)]
pub enum Value {
    Null,
    Bool(bool),
    Int(i64),
    Str(String),
    Arr(Vec<Value>),
    Obj(Vec<(String, Value)>),
}

/// The mathematical model of a [`Value`]: strings are character sequences,
/// integers unbounded, and collections sequences.
#[verifier::ext_equal]
pub enum Model {
    Null,
    Bool(bool),
    Int(int),
    Str(Seq<char>),
    Arr(Seq<Model>),
    Obj(Seq<(Seq<char>, Model)>),
}

impl View for Value {
    type V = Model;

    open spec fn view(&self) -> Model
        decreases self,
    {
        match self {
            Value::Null => Model::Null,
            Value::Bool(b) => Model::Bool(*b),
            Value::Int(i) => Model::Int(*i as int),
            Value::Str(s) => Model::Str(s@),
            Value::Arr(items) => {
                proof {
                    assert(decreases_to!(self => items));
                    assert(decreases_to!(items => items@));
                }
                Model::Arr(arr_view(items@))
            },
            Value::Obj(fields) => {
                proof {
                    assert(decreases_to!(self => fields));
                    assert(decreases_to!(fields => fields@));
                }
                Model::Obj(fields_view(fields@))
            },
        }
    }
}

/// Elementwise model of an array's items.
pub open spec fn arr_view(items: Seq<Value>) -> Seq<Model>
    decreases items,
{
    if items.len() == 0 {
        Seq::empty()
    } else {
        proof {
            assert(decreases_to!(items => items[0]));
            assert(decreases_to!(items => items.subrange(1, items.len() as int)));
        }
        seq![items[0]@] + arr_view(items.subrange(1, items.len() as int))
    }
}

/// Elementwise model of an object's key/value entries.
pub open spec fn fields_view(fields: Seq<(String, Value)>) -> Seq<(Seq<char>, Model)>
    decreases fields,
{
    if fields.len() == 0 {
        Seq::empty()
    } else {
        proof {
            assert(decreases_to!(fields => fields[0]));
            assert(decreases_to!(fields => fields.subrange(1, fields.len() as int)));
        }
        seq![(fields[0].0@, fields[0].1@)] + fields_view(
            fields.subrange(1, fields.len() as int),
        )
    }
}

/// `arr_view` maps the sequence pointwise.
pub broadcast proof fn lemma_arr_view(items: Seq<Value>)
    ensures
        (#[trigger] arr_view(items)).len() == items.len(),
        forall|i: int| 0 <= i < items.len() ==> arr_view(items)[i] == items[i]@,
    decreases items.len(),
{
    if items.len() > 0 {
        let rest = items.subrange(1, items.len() as int);
        lemma_arr_view(rest);
        assert forall|i: int| 0 <= i < items.len() implies arr_view(items)[i] == items[i]@ by {
            if i > 0 {
                assert(arr_view(items) == seq![items[0]@] + arr_view(rest));
                assert((seq![items[0]@] + arr_view(rest))[i] == arr_view(rest)[i - 1]);
                assert(rest[i - 1] == items[i]);
            }
        }
    }
}

/// `fields_view` maps the sequence pointwise.
pub broadcast proof fn lemma_fields_view(fields: Seq<(String, Value)>)
    ensures
        (#[trigger] fields_view(fields)).len() == fields.len(),
        forall|i: int|
            0 <= i < fields.len() ==> fields_view(fields)[i] == (fields[i].0@, fields[i].1@),
    decreases fields.len(),
{
    if fields.len() > 0 {
        let rest = fields.subrange(1, fields.len() as int);
        lemma_fields_view(rest);
        assert forall|i: int|
            0 <= i < fields.len() implies fields_view(fields)[i] == (
            fields[i].0@,
            fields[i].1@,
        ) by {
            if i > 0 {
                assert(fields_view(fields) == seq![(fields[0].0@, fields[0].1@)] + fields_view(
                    rest,
                ));
                assert((seq![(fields[0].0@, fields[0].1@)] + fields_view(rest))[i] == fields_view(
                    rest,
                )[i - 1]);
                assert(rest[i - 1] == fields[i]);
            }
        }
    }
}

/// First index at which `fields` binds the key `key`, if any.
pub open spec fn obj_index(fields: Seq<(Seq<char>, Model)>, key: Seq<char>) -> Option<int>
    decreases fields.len(),
{
    if fields.len() == 0 {
        None
    } else if fields[0].0 == key {
        Some(0)
    } else {
        match obj_index(fields.drop_first(), key) {
            Some(i) => Some(i + 1),
            None => None,
        }
    }
}

/// The value bound to `key` in `fields` (first occurrence wins), if any.
pub open spec fn obj_get(fields: Seq<(Seq<char>, Model)>, key: Seq<char>) -> Option<Model>
    decreases fields.len(),
{
    if fields.len() == 0 {
        None
    } else if fields[0].0 == key {
        Some(fields[0].1)
    } else {
        obj_get(fields.drop_first(), key)
    }
}

/// `obj_index` and `obj_get` agree: the index found by the one holds the
/// value returned by the other, and earlier entries never bind the key.
pub proof fn lemma_obj_index_get(fields: Seq<(Seq<char>, Model)>, key: Seq<char>)
    ensures
        match obj_index(fields, key) {
            Some(i) => {
                &&& 0 <= i < fields.len()
                &&& fields[i].0 == key
                &&& obj_get(fields, key) == Some(fields[i].1)
                &&& forall|j: int| 0 <= j < i ==> fields[j].0 != key
            },
            None => {
                &&& obj_get(fields, key) is None
                &&& forall|j: int| 0 <= j < fields.len() ==> fields[j].0 != key
            },
        },
    decreases fields.len(),
{
    if fields.len() == 0 {
    } else if fields[0].0 == key {
    } else {
        lemma_obj_index_get(fields.drop_first(), key);
        assert(forall|j: int| 1 <= j < fields.len() ==> fields[j] == fields.drop_first()[j - 1]);
    }
}

/// A first match at `i` (no earlier entry binds the key) pins `obj_index`.
pub proof fn lemma_obj_index_unique(fields: Seq<(Seq<char>, Model)>, key: Seq<char>, i: int)
    requires
        0 <= i < fields.len(),
        fields[i].0 == key,
        forall|j: int| 0 <= j < i ==> fields[j].0 != key,
    ensures
        obj_index(fields, key) == Some(i),
    decreases i,
{
    if i == 0 {
    } else {
        assert(fields[0].0 != key);
        assert(forall|j: int| 0 <= j < fields.len() - 1 ==> fields.drop_first()[j] == fields[j + 1]);
        lemma_obj_index_unique(fields.drop_first(), key, i - 1);
    }
}

/// When no entry binds the key, `obj_index` finds nothing.
pub proof fn lemma_obj_index_none(fields: Seq<(Seq<char>, Model)>, key: Seq<char>)
    requires
        forall|j: int| 0 <= j < fields.len() ==> fields[j].0 != key,
    ensures
        obj_index(fields, key) is None,
        obj_get(fields, key) is None,
    decreases fields.len(),
{
    if fields.len() > 0 {
        assert(fields[0].0 != key);
        assert(forall|j: int| 0 <= j < fields.len() - 1 ==> fields.drop_first()[j] == fields[j + 1]);
        lemma_obj_index_none(fields.drop_first(), key);
    }
}

impl Value {
    /// Deep structural equality, decided on the models.
    #[verifier::loop_isolation(false)]
    pub fn eq_value(&self, other: &Value) -> (res: bool)
        ensures
            res == (self@ == other@),
        decreases self,
    {
        match (self, other) {
            (Value::Null, Value::Null) => true,
            (Value::Bool(a), Value::Bool(b)) => *a == *b,
            (Value::Int(a), Value::Int(b)) => *a == *b,
            (Value::Str(a), Value::Str(b)) => *a == *b,
            (Value::Arr(a), Value::Arr(b)) => {
                proof {
                    lemma_arr_view(a@);
                    lemma_arr_view(b@);
                }
                if a.len() != b.len() {
                    return false;
                }
                let mut i: usize = 0;
                while i < a.len()
                    invariant
                        i <= a.len(),
                        forall|j: int| 0 <= j < i ==> a[j]@ == b[j]@,
                    decreases a.len() - i,
                {
                    proof {
                        assert(decreases_to!(*self => *a));
                        assert(decreases_to!(*a => a[i as int]));
                    }
                    if !a[i].eq_value(&b[i]) {
                        proof {
                            assert(arr_view(a@)[i as int] != arr_view(b@)[i as int]);
                        }
                        return false;
                    }
                    i += 1;
                }
                proof {
                    assert(arr_view(a@) =~= arr_view(b@));
                }
                true
            },
            (Value::Obj(a), Value::Obj(b)) => {
                proof {
                    lemma_fields_view(a@);
                    lemma_fields_view(b@);
                }
                if a.len() != b.len() {
                    return false;
                }
                let mut i: usize = 0;
                while i < a.len()
                    invariant
                        i <= a.len(),
                        forall|j: int| 0 <= j < i ==> a[j].0@ == b[j].0@ && a[j].1@ == b[j].1@,
                    decreases a.len() - i,
                {
                    proof {
                        assert(decreases_to!(*self => *a));
                        assert(decreases_to!(*a => a[i as int]));
                        assert(decreases_to!(a[i as int] => a[i as int].1));
                    }
                    if !(a[i].0 == b[i].0) {
                        proof {
                            assert(fields_view(a@)[i as int].0 != fields_view(b@)[i as int].0);
                        }
                        return false;
                    }
                    if !a[i].1.eq_value(&b[i].1) {
                        proof {
                            assert(fields_view(a@)[i as int].1 != fields_view(b@)[i as int].1);
                        }
                        return false;
                    }
                    i += 1;
                }
                proof {
                    assert(fields_view(a@) =~= fields_view(b@));
                }
                true
            },
            _ => {
                proof {
                    assert(self@ != other@);
                }
                false
            },
        }
    }

    /// Structural deep copy; the copy has the same model.
    #[verifier::loop_isolation(false)]
    pub fn duplicate(&self) -> (res: Value)
        ensures
            res@ == self@,
        decreases self,
    {
        match self {
            Value::Null => Value::Null,
            Value::Bool(b) => Value::Bool(*b),
            Value::Int(i) => Value::Int(*i),
            Value::Str(s) => Value::Str(s.clone()),
            Value::Arr(items) => {
                let mut out: Vec<Value> = Vec::new();
                let mut i: usize = 0;
                while i < items.len()
                    invariant
                        i <= items.len(),
                        out.len() == i,
                        forall|j: int| 0 <= j < i ==> out[j]@ == items[j]@,
                    decreases items.len() - i,
                {
                    proof {
                        assert(decreases_to!(*self => *items));
                        assert(decreases_to!(*items => items[i as int]));
                    }
                    out.push(items[i].duplicate());
                    i += 1;
                }
                proof {
                    lemma_arr_view(out@);
                    lemma_arr_view(items@);
                    assert(arr_view(out@) =~= arr_view(items@));
                }
                Value::Arr(out)
            },
            Value::Obj(fields) => {
                let mut out: Vec<(String, Value)> = Vec::new();
                let mut i: usize = 0;
                while i < fields.len()
                    invariant
                        i <= fields.len(),
                        out.len() == i,
                        forall|j: int|
                            0 <= j < i ==> out[j].0@ == fields[j].0@ && out[j].1@ == fields[j].1@,
                    decreases fields.len() - i,
                {
                    proof {
                        assert(decreases_to!(*self => *fields));
                        assert(decreases_to!(*fields => fields[i as int]));
                        assert(decreases_to!(fields[i as int] => fields[i as int].1));
                    }
                    let entry = (fields[i].0.clone(), fields[i].1.duplicate());
                    out.push(entry);
                    i += 1;
                }
                proof {
                    lemma_fields_view(out@);
                    lemma_fields_view(fields@);
                    assert(fields_view(out@) =~= fields_view(fields@));
                }
                Value::Obj(out)
            },
        }
    }
}

} // verus!
