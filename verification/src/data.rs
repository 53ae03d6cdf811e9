//! The data-object store: dynamically typed key/value objects (`DataObj`),
//! arrays of objects (`DataArray`), runtime type tags (`DataType`), and the
//! typed-extraction trait (`FromDataItem`).

use vstd::prelude::*;
use crate::model::{
    SpecValue, SpecItem, SpecObj, tag_of, idx_of, contains_name, lemma_idx_of, lookup_value,
    set_default_obj, remove_obj, wf_item, wf_obj,
};

verus! {

/// Raw type discriminant: no value.
pub const RAW_TYPE_NULL: u32 = 0;

/// Raw type discriminant: a string value.
pub const RAW_TYPE_STRING: u32 = 1;

/// Raw type discriminant: a numeric value; a numeric sub-discriminant tells
/// integers and doubles apart.
pub const RAW_TYPE_NUMBER: u32 = 2;

/// Raw type discriminant: a boolean value.
pub const RAW_TYPE_BOOLEAN: u32 = 3;

/// Raw type discriminant: a nested object.
pub const RAW_TYPE_OBJECT: u32 = 4;

/// Raw type discriminant: an array of objects.
pub const RAW_TYPE_ARRAY: u32 = 5;

/// Raw numeric sub-discriminant: not a number.
pub const RAW_NUM_INVALID: u32 = 0;

/// Raw numeric sub-discriminant: a 64-bit integer.
pub const RAW_NUM_INT: u32 = 1;

/// Raw numeric sub-discriminant: a double-precision number.
pub const RAW_NUM_DOUBLE: u32 = 2;

/// The closed set of runtime type tags a stored value can carry.
#[derive(Debug, Eq, PartialEq, Copy, Clone, Structural)]
pub enum DataType {
    String,
    Int,
    Double,
    Boolean,
    /// Map container
    Object,
    /// Array container
    Array,
}

impl DataType {
    /// Resolves a raw type discriminant (and, for numbers, the numeric
    /// sub-discriminant) to its tag. Any discriminant outside the closed set
    /// indicates an unrecoverable mismatch, so it is excluded up front.
    pub fn new(typ: u32, numtyp: u32) -> (t: DataType)
        requires
            typ == RAW_TYPE_STRING || typ == RAW_TYPE_NUMBER || typ == RAW_TYPE_BOOLEAN
                || typ == RAW_TYPE_OBJECT || typ == RAW_TYPE_ARRAY,
            typ == RAW_TYPE_NUMBER ==> numtyp == RAW_NUM_INT || numtyp == RAW_NUM_DOUBLE,
        ensures
            t == (if typ == RAW_TYPE_STRING {
                DataType::String
            } else if typ == RAW_TYPE_NUMBER {
                if numtyp == RAW_NUM_INT {
                    DataType::Int
                } else {
                    DataType::Double
                }
            } else if typ == RAW_TYPE_BOOLEAN {
                DataType::Boolean
            } else if typ == RAW_TYPE_OBJECT {
                DataType::Object
            } else {
                DataType::Array
            }),
    {
        if typ == RAW_TYPE_STRING {
            DataType::String
        } else if typ == RAW_TYPE_NUMBER {
            if numtyp == RAW_NUM_INT {
                DataType::Int
            } else {
                DataType::Double
            }
        } else if typ == RAW_TYPE_BOOLEAN {
            DataType::Boolean
        } else if typ == RAW_TYPE_OBJECT {
            DataType::Object
        } else {
            DataType::Array
        }
    }

    /// The runtime tag of a stored value.
    pub fn from_item(item: &DataValue) -> (t: DataType)
        ensures
            t == tag_of(item@),
    {
        match item {
            DataValue::Str(_) => DataType::String,
            DataValue::Int(_) => DataType::Int,
            DataValue::Dbl(_) => DataType::Double,
            DataValue::Bool(_) => DataType::Boolean,
            DataValue::Obj(_) => DataType::Object,
            DataValue::Arr(_) => DataType::Array,
        }
    }
}

/// A double-precision number, carried as its decimal text. The store keeps
/// numbers of the double kind in their textual form, so no floating-point
/// arithmetic is ever performed on them.
#[derive(Debug, PartialEq, Eq)]
pub struct DoubleText(pub String);

impl View for DoubleText {
    type V = Seq<char>;

    open spec fn view(&self) -> Seq<char> {
        self.0@
    }
}

/// One dynamically typed stored value.
pub enum DataValue {
    Str(String),
    Int(i64),
    Dbl(DoubleText),
    Bool(bool),
    Obj(DataObj),
    Arr(DataArray),
}

/// One named field of an object: an optional explicit value and an optional
/// schema default.
pub struct DataItem {
    pub name: String,
    pub value: Option<DataValue>,
    pub default: Option<DataValue>,
}

/// A mutable key/value mapping whose values are dynamically typed.
pub struct DataObj {
    pub items: Vec<DataItem>,
}

/// An ordered, indexable sequence of objects.
pub struct DataArray {
    pub items: Vec<DataObj>,
}

/// The model of a stored value.
pub open spec fn view_value(v: DataValue) -> SpecValue
    decreases v,
{
    match v {
        DataValue::Str(s) => SpecValue::Str { s: s@ },
        DataValue::Int(i) => SpecValue::Int { i: i },
        DataValue::Dbl(d) => SpecValue::Dbl { text: d@ },
        DataValue::Bool(b) => SpecValue::Bool { b: b },
        DataValue::Obj(o) => SpecValue::Obj { o: view_obj(o) },
        DataValue::Arr(a) => SpecValue::Arr { objs: view_objs(a.items@) },
    }
}

/// The model of one field.
pub open spec fn view_item(it: DataItem) -> SpecItem
    decreases it,
{
    SpecItem {
        name: it.name@,
        value: match it.value {
            Some(v) => Some(view_value(v)),
            None => None,
        },
        default: match it.default {
            Some(v) => Some(view_value(v)),
            None => None,
        },
    }
}

/// The models of a sequence of objects.
pub open spec fn view_objs(objs: Seq<DataObj>) -> Seq<SpecObj>
    decreases objs,
{
    Seq::new(
        objs.len(),
        |i: int|
            if 0 <= i < objs.len() {
                view_obj(objs[i])
            } else {
                arbitrary()
            },
    )
}

/// The models of a sequence of fields.
pub open spec fn view_items(items: Seq<DataItem>) -> Seq<SpecItem>
    decreases items,
{
    Seq::new(
        items.len(),
        |i: int|
            if 0 <= i < items.len() {
                view_item(items[i])
            } else {
                arbitrary()
            },
    )
}

/// The model of an object.
pub open spec fn view_obj(o: DataObj) -> SpecObj
    decreases o,
{
    SpecObj { items: view_items(o.items@) }
}

impl View for DataValue {
    type V = SpecValue;

    open spec fn view(&self) -> SpecValue {
        view_value(*self)
    }
}

impl View for DataObj {
    type V = SpecObj;

    open spec fn view(&self) -> SpecObj {
        view_obj(*self)
    }
}

impl View for DataArray {
    type V = Seq<SpecObj>;

    open spec fn view(&self) -> Seq<SpecObj> {
        view_objs(self.items@)
    }
}

/// A deep copy of a stored value.
fn clone_value(v: &DataValue) -> (r: DataValue)
    ensures
        r@ == v@,
    decreases *v,
{
    match v {
        DataValue::Str(s) => DataValue::Str(s.clone()),
        DataValue::Int(i) => DataValue::Int(*i),
        DataValue::Dbl(d) => DataValue::Dbl(DoubleText(d.0.clone())),
        DataValue::Bool(b) => DataValue::Bool(*b),
        DataValue::Obj(o) => DataValue::Obj(clone_obj(o)),
        DataValue::Arr(a) => DataValue::Arr(clone_array(a)),
    }
}

/// A deep copy of one field.
fn clone_item(it: &DataItem) -> (r: DataItem)
    ensures
        view_item(r) == view_item(*it),
    decreases *it,
{
    let value = match &it.value {
        Some(v) => Some(clone_value(v)),
        None => None,
    };
    let default = match &it.default {
        Some(v) => Some(clone_value(v)),
        None => None,
    };
    DataItem { name: it.name.clone(), value: value, default: default }
}

/// A deep copy of an object.
fn clone_obj(o: &DataObj) -> (r: DataObj)
    ensures
        r@ == o@,
    decreases *o,
{
    let mut items: Vec<DataItem> = Vec::new();
    let mut j: usize = 0;
    while j < o.items.len()
        invariant
            0 <= j <= o.items.len(),
            items@.len() == j,
            forall|k: int| 0 <= k < j ==> view_item(#[trigger] items@[k]) == view_item(o.items@[k]),
        decreases o.items.len() - j,
    {
        proof {
            assert(decreases_to!(*o => o.items@[j as int]));
        }
        let it = clone_item(&o.items[j]);
        items.push(it);
        j += 1;
    }
    let r = DataObj { items };
    proof {
        assert(r@.items =~= o@.items);
    }
    r
}

/// A deep copy of an array.
fn clone_array(a: &DataArray) -> (r: DataArray)
    ensures
        r@ == a@,
    decreases *a,
{
    let mut items: Vec<DataObj> = Vec::new();
    let mut j: usize = 0;
    while j < a.items.len()
        invariant
            0 <= j <= a.items.len(),
            items@.len() == j,
            forall|k: int| 0 <= k < j ==> view_obj(#[trigger] items@[k]) == view_obj(a.items@[k]),
        decreases a.items.len() - j,
    {
        proof {
            assert(decreases_to!(*a => a.items@[j as int]));
        }
        let o = clone_obj(&a.items[j]);
        items.push(o);
        j += 1;
    }
    let r = DataArray { items };
    proof {
        assert(r@ =~= a@);
    }
    r
}

impl DataObj {
    /// Creates an empty data object.
    pub fn new() -> (r: DataObj)
        ensures
            r@.items.len() == 0,
            wf_obj(r@),
    {
        DataObj { items: Vec::new() }
    }

    /// The position of the field named `name`, if there is one.
    fn find_index(&self, name: &str) -> (r: Option<usize>)
        ensures
            match r {
                Some(i) => contains_name(self@.items, name@) && i == idx_of(self@.items, name@),
                None => !contains_name(self@.items, name@),
            },
    {
        let key = name.to_owned();
        let mut j: usize = 0;
        while j < self.items.len()
            invariant
                j <= self.items.len(),
                key@ == name@,
                forall|k: int| 0 <= k < j ==> self@.items[k].name != name@,
            decreases self.items.len() - j,
        {
            if self.items[j].name == key {
                proof {
                    assert(self@.items[j as int].name == name@);
                    lemma_idx_of(self@.items, name@);
                }
                return Some(j);
            }
            j += 1;
        }
        proof {
            lemma_idx_of(self@.items, name@);
        }
        None
    }

    /// Fetches a typed property. A missing field, or a field whose runtime
    /// tag differs from `T`'s declared tag, yields no value rather than a
    /// coerced one. A returned container is a deep copy of the stored one:
    /// changing it does not reach this object.
    pub fn get<T: FromDataItem>(&self, name: &str) -> (r: Option<T>)
        requires
            wf_obj(self@),
        ensures
            match lookup_value(self@, name@) {
                Some(v) => {
                    if tag_of(v) == T::typ_spec() {
                        r matches Some(x) && T::decodes(v, x)
                    } else {
                        r is None
                    }
                },
                None => r is None,
            },
    {
        let i = match self.find_index(name) {
            Some(i) => i,
            None => {
                return None;
            },
        };
        let it = &self.items[i];
        let v: &DataValue = if let Some(v) = &it.value {
            v
        } else if let Some(d) = &it.default {
            d
        } else {
            // A well-formed field holds an explicit value or a default.
            proof {
                assert(wf_item(self@.items[i as int]));
            }
            return None;
        };
        let typ = DataType::from_item(v);
        if typ == T::typ() {
            T::from_item_unchecked(v)
        } else {
            None
        }
    }

    /// Installs `v` as the schema default for `name`: an existing field keeps
    /// its explicit value and gets `v` as its default; a missing field is
    /// appended with no explicit value.
    fn install_default(&mut self, name: &str, v: DataValue) -> (nothing: ())
        ensures
            view_obj(*final(self)) == set_default_obj(view_obj(*old(self)), name@, v@),
    {
        match self.find_index(name) {
            Some(i) => {
                let it = self.items.remove(i);
                let updated = DataItem { name: it.name, value: it.value, default: Some(v) };
                self.items.insert(i, updated);
                proof {
                    let m0 = view_obj(*old(self));
                    let mi = idx_of(m0.items, name@);
                    assert(view_obj(*self).items =~= m0.items.update(
                        mi,
                        SpecItem {
                            name: m0.items[mi].name,
                            value: m0.items[mi].value,
                            default: Some(v@),
                        },
                    ));
                }
            },
            None => {
                self.items.push(DataItem { name: name.to_owned(), value: None, default: Some(v) });
                proof {
                    let m0 = view_obj(*old(self));
                    assert(view_obj(*self).items =~= m0.items.push(
                        SpecItem { name: name@, value: None, default: Some(v@) },
                    ));
                }
            },
        }
    }

    /// Sets a schema default for the key. Array-typed defaults have no such
    /// operation, so the array tag is excluded.
    pub fn set_default<T: FromDataItem>(&mut self, name: &str, value: T)
        requires
            T::typ_spec() != DataType::Array,
        ensures
            view_obj(*final(self)) == set_default_obj(view_obj(*old(self)), name@, value.encode()),
    {
        T::set_default_unchecked(self, name, value)
    }

    /// Clears all fields.
    pub fn clear(&mut self)
        ensures
            view_obj(*final(self)).items.len() == 0,
            wf_obj(view_obj(*final(self))),
    {
        self.items.clear();
    }

    /// Removes the field named `name` whole; no-op if it is absent.
    pub fn remove(&mut self, name: &str)
        ensures
            view_obj(*final(self)) == remove_obj(view_obj(*old(self)), name@),
    {
        match self.find_index(name) {
            Some(i) => {
                self.items.remove(i);
                proof {
                    let m0 = view_obj(*old(self));
                    assert(view_obj(*self).items =~= m0.items.remove(idx_of(m0.items, name@)));
                }
            },
            None => {},
        }
    }
}

impl Default for DataObj {
    /// An empty data object.
    fn default() -> (r: DataObj)
        ensures
            r@.items.len() == 0,
            wf_obj(r@),
    {
        DataObj::new()
    }
}

impl DataArray {
    /// The number of elements.
    pub fn len(&self) -> (n: usize)
        ensures
            n == self@.len(),
    {
        self.items.len()
    }

    /// Whether the array has no elements.
    pub fn is_empty(&self) -> (b: bool)
        ensures
            b == (self@.len() == 0),
    {
        self.len() == 0
    }

    /// The element at `index`, as an object of its own — a deep copy sharing
    /// no storage with the array; out-of-range access yields no value.
    pub fn get(&self, index: usize) -> (r: Option<DataObj>)
        ensures
            index < self@.len() ==> (r matches Some(o) && o@ == self@[index as int]),
            index >= self@.len() ==> r is None,
    {
        if index < self.items.len() {
            Some(clone_obj(&self.items[index]))
        } else {
            None
        }
    }
}

/// A capability trait: the host types that can be materialized from a stored
/// value. Each declares the tag it decodes from, how a decoded host value
/// relates to the stored model value, and how it installs itself as a schema
/// default.
pub trait FromDataItem: Sized {
    /// The tag this host type decodes from.
    spec fn typ_spec() -> DataType;

    /// What it means for `r` to be the decoding of the model value `v`.
    spec fn decodes(v: SpecValue, r: Self) -> bool;

    /// The model value `self` encodes to when installed as a schema default.
    spec fn encode(&self) -> SpecValue;

    /// The tag this host type decodes from.
    fn typ() -> (t: DataType)
        ensures
            t == Self::typ_spec(),
    ;

    /// Decodes a stored value whose runtime tag was checked to match.
    fn from_item_unchecked(item: &DataValue) -> (r: Option<Self>)
        requires
            tag_of(item@) == Self::typ_spec(),
        ensures
            r matches Some(x) && Self::decodes(item@, x),
    ;

    /// Installs `val` as the schema default for `name` on `obj`. Array
    /// defaults have no such operation, so the array tag is excluded.
    fn set_default_unchecked(obj: &mut DataObj, name: &str, val: Self)
        requires
            Self::typ_spec() != DataType::Array,
        ensures
            view_obj(*final(obj)) == set_default_obj(view_obj(*old(obj)), name@, val.encode()),
    ;

    /// Decoding an encoded value yields the value itself: installing a
    /// schema default loses nothing.
    proof fn decode_encode(&self)
        ensures
            Self::decodes(self.encode(), *self),
    ;

    /// An encoded value carries exactly the tag this type declares, so a
    /// generic caller can chain `set_default` and `get`.
    proof fn encode_tag(&self)
        ensures
            tag_of(self.encode()) == Self::typ_spec(),
    ;
}

impl FromDataItem for String {
    open spec fn typ_spec() -> DataType {
        DataType::String
    }

    open spec fn decodes(v: SpecValue, r: Self) -> bool {
        v matches SpecValue::Str { s } && r@ == s
    }

    open spec fn encode(&self) -> SpecValue {
        SpecValue::Str { s: self@ }
    }

    fn typ() -> (t: DataType) {
        DataType::String
    }

    fn from_item_unchecked(item: &DataValue) -> (r: Option<Self>) {
        if let DataValue::Str(s) = item {
            Some(s.clone())
        } else {
            None
        }
    }

    fn set_default_unchecked(obj: &mut DataObj, name: &str, val: Self) {
        obj.install_default(name, DataValue::Str(val))
    }
    proof fn decode_encode(&self) {
    }

    proof fn encode_tag(&self) {
    }
}

impl FromDataItem for i64 {
    open spec fn typ_spec() -> DataType {
        DataType::Int
    }

    open spec fn decodes(v: SpecValue, r: Self) -> bool {
        v matches SpecValue::Int { i } && r == i as i64
    }

    open spec fn encode(&self) -> SpecValue {
        SpecValue::Int { i: *self as i64 }
    }

    fn typ() -> (t: DataType) {
        DataType::Int
    }

    fn from_item_unchecked(item: &DataValue) -> (r: Option<Self>) {
        if let DataValue::Int(i) = item {
            Some(*i)
        } else {
            None
        }
    }

    fn set_default_unchecked(obj: &mut DataObj, name: &str, val: Self) {
        obj.install_default(name, DataValue::Int(val))
    }
    proof fn decode_encode(&self) {
    }

    proof fn encode_tag(&self) {
    }
}

impl FromDataItem for u64 {
    open spec fn typ_spec() -> DataType {
        DataType::Int
    }

    open spec fn decodes(v: SpecValue, r: Self) -> bool {
        v matches SpecValue::Int { i } && r == i as u64
    }

    open spec fn encode(&self) -> SpecValue {
        SpecValue::Int { i: *self as i64 }
    }

    fn typ() -> (t: DataType) {
        DataType::Int
    }

    fn from_item_unchecked(item: &DataValue) -> (r: Option<Self>) {
        if let DataValue::Int(i) = item {
            Some(#[verifier::truncate] (*i as u64))
        } else {
            None
        }
    }

    fn set_default_unchecked(obj: &mut DataObj, name: &str, val: Self) {
        obj.install_default(name, DataValue::Int(#[verifier::truncate] (val as i64)))
    }
    proof fn decode_encode(&self) {
        assert(((*self as i64) as u64) == *self) by (bit_vector);
    }

    proof fn encode_tag(&self) {
    }
}

impl FromDataItem for i32 {
    open spec fn typ_spec() -> DataType {
        DataType::Int
    }

    open spec fn decodes(v: SpecValue, r: Self) -> bool {
        v matches SpecValue::Int { i } && r == i as i32
    }

    open spec fn encode(&self) -> SpecValue {
        SpecValue::Int { i: *self as i64 }
    }

    fn typ() -> (t: DataType) {
        DataType::Int
    }

    fn from_item_unchecked(item: &DataValue) -> (r: Option<Self>) {
        if let DataValue::Int(i) = item {
            Some(#[verifier::truncate] (*i as i32))
        } else {
            None
        }
    }

    fn set_default_unchecked(obj: &mut DataObj, name: &str, val: Self) {
        obj.install_default(name, DataValue::Int(val as i64))
    }
    proof fn decode_encode(&self) {
    }

    proof fn encode_tag(&self) {
    }
}

impl FromDataItem for u32 {
    open spec fn typ_spec() -> DataType {
        DataType::Int
    }

    open spec fn decodes(v: SpecValue, r: Self) -> bool {
        v matches SpecValue::Int { i } && r == i as u32
    }

    open spec fn encode(&self) -> SpecValue {
        SpecValue::Int { i: *self as i64 }
    }

    fn typ() -> (t: DataType) {
        DataType::Int
    }

    fn from_item_unchecked(item: &DataValue) -> (r: Option<Self>) {
        if let DataValue::Int(i) = item {
            Some(#[verifier::truncate] (*i as u32))
        } else {
            None
        }
    }

    fn set_default_unchecked(obj: &mut DataObj, name: &str, val: Self) {
        obj.install_default(name, DataValue::Int(val as i64))
    }
    proof fn decode_encode(&self) {
    }

    proof fn encode_tag(&self) {
    }
}

impl FromDataItem for i16 {
    open spec fn typ_spec() -> DataType {
        DataType::Int
    }

    open spec fn decodes(v: SpecValue, r: Self) -> bool {
        v matches SpecValue::Int { i } && r == i as i16
    }

    open spec fn encode(&self) -> SpecValue {
        SpecValue::Int { i: *self as i64 }
    }

    fn typ() -> (t: DataType) {
        DataType::Int
    }

    fn from_item_unchecked(item: &DataValue) -> (r: Option<Self>) {
        if let DataValue::Int(i) = item {
            Some(#[verifier::truncate] (*i as i16))
        } else {
            None
        }
    }

    fn set_default_unchecked(obj: &mut DataObj, name: &str, val: Self) {
        obj.install_default(name, DataValue::Int(val as i64))
    }
    proof fn decode_encode(&self) {
    }

    proof fn encode_tag(&self) {
    }
}

impl FromDataItem for u16 {
    open spec fn typ_spec() -> DataType {
        DataType::Int
    }

    open spec fn decodes(v: SpecValue, r: Self) -> bool {
        v matches SpecValue::Int { i } && r == i as u16
    }

    open spec fn encode(&self) -> SpecValue {
        SpecValue::Int { i: *self as i64 }
    }

    fn typ() -> (t: DataType) {
        DataType::Int
    }

    fn from_item_unchecked(item: &DataValue) -> (r: Option<Self>) {
        if let DataValue::Int(i) = item {
            Some(#[verifier::truncate] (*i as u16))
        } else {
            None
        }
    }

    fn set_default_unchecked(obj: &mut DataObj, name: &str, val: Self) {
        obj.install_default(name, DataValue::Int(val as i64))
    }
    proof fn decode_encode(&self) {
    }

    proof fn encode_tag(&self) {
    }
}

impl FromDataItem for i8 {
    open spec fn typ_spec() -> DataType {
        DataType::Int
    }

    open spec fn decodes(v: SpecValue, r: Self) -> bool {
        v matches SpecValue::Int { i } && r == i as i8
    }

    open spec fn encode(&self) -> SpecValue {
        SpecValue::Int { i: *self as i64 }
    }

    fn typ() -> (t: DataType) {
        DataType::Int
    }

    fn from_item_unchecked(item: &DataValue) -> (r: Option<Self>) {
        if let DataValue::Int(i) = item {
            Some(#[verifier::truncate] (*i as i8))
        } else {
            None
        }
    }

    fn set_default_unchecked(obj: &mut DataObj, name: &str, val: Self) {
        obj.install_default(name, DataValue::Int(val as i64))
    }
    proof fn decode_encode(&self) {
    }

    proof fn encode_tag(&self) {
    }
}

impl FromDataItem for u8 {
    open spec fn typ_spec() -> DataType {
        DataType::Int
    }

    open spec fn decodes(v: SpecValue, r: Self) -> bool {
        v matches SpecValue::Int { i } && r == i as u8
    }

    open spec fn encode(&self) -> SpecValue {
        SpecValue::Int { i: *self as i64 }
    }

    fn typ() -> (t: DataType) {
        DataType::Int
    }

    fn from_item_unchecked(item: &DataValue) -> (r: Option<Self>) {
        if let DataValue::Int(i) = item {
            Some(#[verifier::truncate] (*i as u8))
        } else {
            None
        }
    }

    fn set_default_unchecked(obj: &mut DataObj, name: &str, val: Self) {
        obj.install_default(name, DataValue::Int(val as i64))
    }
    proof fn decode_encode(&self) {
    }

    proof fn encode_tag(&self) {
    }
}

impl FromDataItem for isize {
    open spec fn typ_spec() -> DataType {
        DataType::Int
    }

    open spec fn decodes(v: SpecValue, r: Self) -> bool {
        v matches SpecValue::Int { i } && r == i as isize
    }

    open spec fn encode(&self) -> SpecValue {
        SpecValue::Int { i: *self as i64 }
    }

    fn typ() -> (t: DataType) {
        DataType::Int
    }

    fn from_item_unchecked(item: &DataValue) -> (r: Option<Self>) {
        if let DataValue::Int(i) = item {
            Some(#[verifier::truncate] (*i as isize))
        } else {
            None
        }
    }

    fn set_default_unchecked(obj: &mut DataObj, name: &str, val: Self) {
        obj.install_default(name, DataValue::Int(val as i64))
    }
    proof fn decode_encode(&self) {
        assert(((*self as i64) as isize) == *self) by (bit_vector);
    }

    proof fn encode_tag(&self) {
    }
}

impl FromDataItem for usize {
    open spec fn typ_spec() -> DataType {
        DataType::Int
    }

    open spec fn decodes(v: SpecValue, r: Self) -> bool {
        v matches SpecValue::Int { i } && r == i as usize
    }

    open spec fn encode(&self) -> SpecValue {
        SpecValue::Int { i: *self as i64 }
    }

    fn typ() -> (t: DataType) {
        DataType::Int
    }

    fn from_item_unchecked(item: &DataValue) -> (r: Option<Self>) {
        if let DataValue::Int(i) = item {
            Some(#[verifier::truncate] (*i as usize))
        } else {
            None
        }
    }

    fn set_default_unchecked(obj: &mut DataObj, name: &str, val: Self) {
        obj.install_default(name, DataValue::Int(#[verifier::truncate] (val as i64)))
    }
    proof fn decode_encode(&self) {
        assert(((*self as i64) as usize) == *self) by (bit_vector);
    }

    proof fn encode_tag(&self) {
    }
}

impl FromDataItem for DoubleText {
    open spec fn typ_spec() -> DataType {
        DataType::Double
    }

    open spec fn decodes(v: SpecValue, r: Self) -> bool {
        v matches SpecValue::Dbl { text } && r@ == text
    }

    open spec fn encode(&self) -> SpecValue {
        SpecValue::Dbl { text: self@ }
    }

    fn typ() -> (t: DataType) {
        DataType::Double
    }

    fn from_item_unchecked(item: &DataValue) -> (r: Option<Self>) {
        if let DataValue::Dbl(d) = item {
            Some(DoubleText(d.0.clone()))
        } else {
            None
        }
    }

    fn set_default_unchecked(obj: &mut DataObj, name: &str, val: Self) {
        obj.install_default(name, DataValue::Dbl(val))
    }
    proof fn decode_encode(&self) {
    }

    proof fn encode_tag(&self) {
    }
}

impl FromDataItem for bool {
    open spec fn typ_spec() -> DataType {
        DataType::Boolean
    }

    open spec fn decodes(v: SpecValue, r: Self) -> bool {
        v matches SpecValue::Bool { b } && r == b
    }

    open spec fn encode(&self) -> SpecValue {
        SpecValue::Bool { b: *self }
    }

    fn typ() -> (t: DataType) {
        DataType::Boolean
    }

    fn from_item_unchecked(item: &DataValue) -> (r: Option<Self>) {
        if let DataValue::Bool(b) = item {
            Some(*b)
        } else {
            None
        }
    }

    fn set_default_unchecked(obj: &mut DataObj, name: &str, val: Self) {
        obj.install_default(name, DataValue::Bool(val))
    }
    proof fn decode_encode(&self) {
    }

    proof fn encode_tag(&self) {
    }
}

impl FromDataItem for DataObj {
    open spec fn typ_spec() -> DataType {
        DataType::Object
    }

    open spec fn decodes(v: SpecValue, r: Self) -> bool {
        v matches SpecValue::Obj { o } && r@ == o
    }

    open spec fn encode(&self) -> SpecValue {
        SpecValue::Obj { o: self@ }
    }

    fn typ() -> (t: DataType) {
        DataType::Object
    }

    fn from_item_unchecked(item: &DataValue) -> (r: Option<Self>) {
        if let DataValue::Obj(o) = item {
            Some(clone_obj(o))
        } else {
            None
        }
    }

    fn set_default_unchecked(obj: &mut DataObj, name: &str, val: Self) {
        obj.install_default(name, DataValue::Obj(val))
    }
    proof fn decode_encode(&self) {
    }

    proof fn encode_tag(&self) {
    }
}

impl FromDataItem for DataArray {
    open spec fn typ_spec() -> DataType {
        DataType::Array
    }

    open spec fn decodes(v: SpecValue, r: Self) -> bool {
        v matches SpecValue::Arr { objs } && r@ == objs
    }

    open spec fn encode(&self) -> SpecValue {
        SpecValue::Arr { objs: self@ }
    }

    fn typ() -> (t: DataType) {
        DataType::Array
    }

    fn from_item_unchecked(item: &DataValue) -> (r: Option<Self>) {
        if let DataValue::Arr(a) = item {
            Some(clone_array(a))
        } else {
            None
        }
    }

    /// The store has no operation that installs an array default; the tag is
    /// excluded by the contract, so this is never reached.
    fn set_default_unchecked(_obj: &mut DataObj, _name: &str, _val: Self) {
    }
    proof fn decode_encode(&self) {
    }

    proof fn encode_tag(&self) {
    }
}

} // verus!
