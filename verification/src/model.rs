//! The mathematical model of the data-object store: ghost mirrors of the
//! executable types, and the spec functions the public contracts speak of.

use vstd::prelude::*;
use crate::data::DataType;

verus! {

/// Model of one dynamically typed value.
pub enum SpecValue {
    /// A text value.
    Str { s: Seq<char> },
    /// A 64-bit integer value.
    Int { i: i64 },
    /// A double-precision number, kept as its decimal text.
    Dbl { text: Seq<char> },
    /// A boolean value.
    Bool { b: bool },
    /// A nested object.
    Obj { o: SpecObj },
    /// An array of objects.
    Arr { objs: Seq<SpecObj> },
}

/// Model of one named field: an optional explicit value and an optional
/// schema default.
pub struct SpecItem {
    pub name: Seq<char>,
    pub value: Option<SpecValue>,
    pub default: Option<SpecValue>,
}

/// Model of a data object: its fields, in insertion order.
pub struct SpecObj {
    pub items: Seq<SpecItem>,
}

/// The runtime type tag of a model value.
pub open spec fn tag_of(v: SpecValue) -> DataType {
    match v {
        SpecValue::Str { .. } => DataType::String,
        SpecValue::Int { .. } => DataType::Int,
        SpecValue::Dbl { .. } => DataType::Double,
        SpecValue::Bool { .. } => DataType::Boolean,
        SpecValue::Obj { .. } => DataType::Object,
        SpecValue::Arr { .. } => DataType::Array,
    }
}

/// Index of the first field named `name`, or `items.len()` if there is none.
pub open spec fn idx_of(items: Seq<SpecItem>, name: Seq<char>) -> int
    decreases items.len(),
{
    if items.len() == 0 {
        0
    } else if items[0].name == name {
        0
    } else {
        1 + idx_of(items.drop_first(), name)
    }
}

/// Whether some field is named `name`.
pub open spec fn contains_name(items: Seq<SpecItem>, name: Seq<char>) -> bool {
    idx_of(items, name) < items.len()
}

/// `idx_of` finds exactly the first field with the given name.
pub proof fn lemma_idx_of(items: Seq<SpecItem>, name: Seq<char>)
    ensures
        0 <= idx_of(items, name) <= items.len(),
        idx_of(items, name) < items.len() ==> items[idx_of(items, name)].name == name,
        forall|k: int| 0 <= k < idx_of(items, name) ==> items[k].name != name,
    decreases items.len(),
{
    if items.len() > 0 && items[0].name != name {
        lemma_idx_of(items.drop_first(), name);
        assert forall|k: int| 0 <= k < idx_of(items, name) implies items[k].name != name by {
            if k > 0 {
                assert(items[k] == items.drop_first()[k - 1]);
            }
        }
    }
}

/// A name is present exactly when some field carries it.
pub proof fn lemma_contains_name_iff(items: Seq<SpecItem>, name: Seq<char>)
    ensures
        contains_name(items, name) <==> exists|k: int|
            0 <= k < items.len() && items[k].name == name,
{
    lemma_idx_of(items, name);
    if contains_name(items, name) {
        assert(items[idx_of(items, name)].name == name);
    }
    if exists|k: int| 0 <= k < items.len() && items[k].name == name {
        let k = choose|k: int| 0 <= k < items.len() && items[k].name == name;
        assert(!(k < idx_of(items, name)));
    }
}

/// The value a lookup on a field yields: the explicit value if one is set,
/// else the schema default.
pub open spec fn effective(it: SpecItem) -> Option<SpecValue> {
    if it.value is Some {
        it.value
    } else {
        it.default
    }
}

/// The field named `name`, if any.
pub open spec fn lookup_item(o: SpecObj, name: Seq<char>) -> Option<SpecItem> {
    if contains_name(o.items, name) {
        Some(o.items[idx_of(o.items, name)])
    } else {
        None
    }
}

/// The value a lookup of `name` on `o` yields.
pub open spec fn lookup_value(o: SpecObj, name: Seq<char>) -> Option<SpecValue> {
    match lookup_item(o, name) {
        Some(it) => effective(it),
        None => None,
    }
}

/// The object after a schema default is installed: the field keeps its
/// explicit value and gets `v` as its default; a missing field is appended
/// with no explicit value.
pub open spec fn set_default_obj(o: SpecObj, name: Seq<char>, v: SpecValue) -> SpecObj {
    if contains_name(o.items, name) {
        let i = idx_of(o.items, name);
        SpecObj {
            items: o.items.update(
                i,
                SpecItem { name: o.items[i].name, value: o.items[i].value, default: Some(v) },
            ),
        }
    } else {
        SpecObj { items: o.items.push(SpecItem { name: name, value: None, default: Some(v) }) }
    }
}

/// The object after the field named `name` is removed whole; unchanged if
/// there is no such field.
pub open spec fn remove_obj(o: SpecObj, name: Seq<char>) -> SpecObj {
    if contains_name(o.items, name) {
        SpecObj { items: o.items.remove(idx_of(o.items, name)) }
    } else {
        o
    }
}

/// No two fields share a name.
pub open spec fn distinct_names(items: Seq<SpecItem>) -> bool {
    forall|i: int, j: int|
        0 <= i < j < items.len() ==> items[i].name != items[j].name
}

/// Well-formedness of a value: nested objects are themselves well formed.
pub open spec fn wf_value(v: SpecValue) -> bool
    decreases v,
{
    match v {
        SpecValue::Obj { o } => wf_obj(o),
        SpecValue::Arr { objs } => forall|i: int| 0 <= i < objs.len() ==> wf_obj(#[trigger] objs[i]),
        _ => true,
    }
}

/// Well-formedness of a field: it holds an explicit value or a default (or
/// both), and whatever it holds is well formed.
pub open spec fn wf_item(it: SpecItem) -> bool
    decreases it,
{
    &&& it.value is Some || it.default is Some
    &&& match it.value {
        Some(v) => wf_value(v),
        None => true,
    }
    &&& match it.default {
        Some(v) => wf_value(v),
        None => true,
    }
}

/// Well-formedness of an object: field names are distinct and every field is
/// well formed.
pub open spec fn wf_obj(o: SpecObj) -> bool
    decreases o,
{
    &&& distinct_names(o.items)
    &&& forall|i: int| 0 <= i < o.items.len() ==> wf_item(#[trigger] o.items[i])
}

} // verus!
