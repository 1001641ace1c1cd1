//! The values records carry and filters read: the JSON data model.

use vstd::prelude::*;

verus! {

/// A JSON value. Numbers keep their text; an object's members keep their
/// order, each key once, its keys and values held side by side.
#[derive(Debug, PartialEq)]
pub enum JsonValue {
    Null,
    Bool(bool),
    /// A number, as its JSON text.
    Number(String),
    Str(String),
    Array(Vec<JsonValue>),
    Object(Vec<String>, Vec<JsonValue>),
}

/// The mathematical JSON value.
pub enum JVal {
    Null,
    Bool(bool),
    Num(Seq<char>),
    Str(Seq<char>),
    Arr(Seq<JVal>),
    /// Keys and values, side by side.
    Obj(Seq<Seq<char>>, Seq<JVal>),
}

impl View for JsonValue {
    type V = JVal;

    open spec fn view(&self) -> JVal
        decreases self,
    {
        match self {
            JsonValue::Null => JVal::Null,
            JsonValue::Bool(b) => JVal::Bool(*b),
            JsonValue::Number(n) => JVal::Num(n@),
            JsonValue::Str(s) => JVal::Str(s@),
            JsonValue::Array(items) => JVal::Arr(
                Seq::new(
                    items.len() as nat,
                    |i: int|
                        if 0 <= i < items.len() {
                            items@[i].view()
                        } else {
                            JVal::Null
                        },
                ),
            ),
            JsonValue::Object(keys, values) => JVal::Obj(
                Seq::new(keys.len() as nat, |i: int| keys@[i]@),
                Seq::new(
                    values.len() as nat,
                    |i: int|
                        if 0 <= i < values.len() {
                            values@[i].view()
                        } else {
                            JVal::Null
                        },
                ),
            ),
        }
    }
}

/// The view of an array lists its items' views.
pub proof fn lemma_view_arr(v: &JsonValue)
    requires
        v is Array,
    ensures
        v@ is Arr,
        v@->Arr_0.len() == v->Array_0.len(),
        forall|k: int| 0 <= k < v->Array_0.len() ==> #[trigger] v@->Arr_0[k] == v->Array_0@[k]@,
{
}

/// The view of an object lists its members' keys and values' views.
pub proof fn lemma_view_obj(v: &JsonValue)
    requires
        v is Object,
    ensures
        v@ is Obj,
        v@->Obj_0.len() == v->Object_0.len(),
        v@->Obj_1.len() == v->Object_1.len(),
        forall|k: int| 0 <= k < v->Object_0.len() ==> #[trigger] v@->Obj_0[k] == v->Object_0@[k]@,
        forall|k: int| 0 <= k < v->Object_1.len() ==> #[trigger] v@->Obj_1[k] == v->Object_1@[k]@,
{
}

/// Every object, at every depth, has as many keys as values.
pub open spec fn wf_json(v: JVal) -> bool
    decreases v,
{
    match v {
        JVal::Arr(items) => forall|k: int| 0 <= k < items.len() ==> wf_json(#[trigger] items[k]),
        JVal::Obj(keys, values) => keys.len() == values.len() && forall|k: int|
            0 <= k < values.len() ==> wf_json(#[trigger] values[k]),
        _ => true,
    }
}

/// Keys and values side by side.
pub open spec fn wf_object(v: JsonValue) -> bool {
    v is Object ==> v->Object_0.len() == v->Object_1.len()
}

impl JsonValue {
    /// A copy of this value.
    pub fn copy(&self) -> (r: JsonValue)
        ensures
            r@ == self@,
            wf_object(*self) ==> wf_object(r),
        decreases self,
    {
        match self {
            JsonValue::Null => JsonValue::Null,
            JsonValue::Bool(b) => JsonValue::Bool(*b),
            JsonValue::Number(n) => JsonValue::Number(n.clone()),
            JsonValue::Str(s) => JsonValue::Str(s.clone()),
            JsonValue::Array(items) => {
                let out = copy_items(items);
                let r = JsonValue::Array(out);
                proof {
                    lemma_view_arr(self);
                    lemma_view_arr(&r);
                    assert(r@->Arr_0 =~= self@->Arr_0);
                }
                r
            },
            JsonValue::Object(keys, values) => {
                let mut ks: Vec<String> = Vec::new();
                let mut i: usize = 0;
                while i < keys.len()
                    invariant
                        i <= keys.len(),
                        ks.len() == i,
                        forall|k: int| 0 <= k < i ==> (#[trigger] ks@[k])@ == keys@[k]@,
                    decreases keys.len() - i,
                {
                    ks.push(keys[i].clone());
                    i = i + 1;
                }
                let vs = copy_items(values);
                let r = JsonValue::Object(ks, vs);
                proof {
                    lemma_view_obj(self);
                    lemma_view_obj(&r);
                    assert(r@->Obj_0 =~= self@->Obj_0);
                    assert(r@->Obj_1 =~= self@->Obj_1);
                }
                r
            },
        }
    }
}

/// Copies of `items`, in order.
pub fn copy_items(items: &Vec<JsonValue>) -> (out: Vec<JsonValue>)
    ensures
        out.len() == items.len(),
        forall|k: int| 0 <= k < items.len() ==> (#[trigger] out@[k])@ == items@[k]@,
    decreases items,
{
    let mut out: Vec<JsonValue> = Vec::new();
    let mut i: usize = 0;
    while i < items.len()
        invariant
            i <= items.len(),
            out.len() == i,
            forall|k: int| 0 <= k < i ==> (#[trigger] out@[k])@ == items@[k]@,
        decreases items.len() - i,
    {
        proof {
            assert(decreases_to!(*items => items[i as int]));
        }
        let c = items[i].copy();
        out.push(c);
        i = i + 1;
    }
    out
}

/// Whether every object in `v`, at every depth, has as many keys as values.
#[verifier::loop_isolation(false)]
pub fn well_formed(v: &JsonValue) -> (r: bool)
    ensures
        r == wf_json(v@),
    decreases v,
{
    match v {
        JsonValue::Array(items) => {
            proof {
                lemma_view_arr(v);
            }
            let mut i: usize = 0;
            while i < items.len()
                invariant
                    i <= items.len(),
                    v@->Arr_0.len() == items.len(),
                    forall|k: int| 0 <= k < items.len() ==> #[trigger] v@->Arr_0[k] == items@[k]@,
                    forall|k: int| 0 <= k < i ==> wf_json(#[trigger] v@->Arr_0[k]),
                decreases items.len() - i,
            {
                proof {
                    assert(decreases_to!(*v => items[i as int]));
                }
                if !well_formed(&items[i]) {
                    assert(!wf_json(v@->Arr_0[i as int]));
                    return false;
                }
                i = i + 1;
            }
            true
        },
        JsonValue::Object(keys, values) => {
            proof {
                lemma_view_obj(v);
            }
            if keys.len() != values.len() {
                return false;
            }
            let mut i: usize = 0;
            while i < values.len()
                invariant
                    i <= values.len(),
                    v@->Obj_1.len() == values.len(),
                    forall|k: int| 0 <= k < values.len() ==> #[trigger] v@->Obj_1[k] == values@[k]@,
                    forall|k: int| 0 <= k < i ==> wf_json(#[trigger] v@->Obj_1[k]),
                decreases values.len() - i,
            {
                proof {
                    assert(decreases_to!(*v => values[i as int]));
                }
                if !well_formed(&values[i]) {
                    assert(!wf_json(v@->Obj_1[i as int]));
                    return false;
                }
                i = i + 1;
            }
            true
        },
        _ => true,
    }
}

} // verus!
