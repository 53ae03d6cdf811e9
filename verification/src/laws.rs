//! Laws of the store, stated over the model and proved once and for all.

use vstd::prelude::*;
use crate::model::{
    SpecValue, SpecItem, SpecObj, idx_of, contains_name, lemma_idx_of, lookup_item, lookup_value,
    set_default_obj, remove_obj, wf_value, wf_item, wf_obj,
};

verus! {

/// Schema-default round trip: installing a default for a key that has no
/// explicit value makes a lookup of that key yield exactly that default.
pub proof fn lemma_set_default_get(o: SpecObj, name: Seq<char>, v: SpecValue)
    requires
        match lookup_item(o, name) {
            Some(it) => it.value is None,
            None => true,
        },
    ensures
        lookup_value(set_default_obj(o, name, v), name) == Some(v),
{
    lemma_idx_of(o.items, name);
    let o2 = set_default_obj(o, name, v);
    if contains_name(o.items, name) {
        let i = idx_of(o.items, name);
        lemma_idx_of(o2.items, name);
        assert(o2.items[i].name == name);
        assert(idx_of(o2.items, name) == i) by {
            if idx_of(o2.items, name) < i {
                assert(o.items[idx_of(o2.items, name)].name == name);
            }
        }
    } else {
        let n = o.items.len() as int;
        lemma_idx_of(o2.items, name);
        assert(o2.items[n].name == name);
        assert(idx_of(o2.items, name) == n) by {
            if idx_of(o2.items, name) < n {
                assert(o.items[idx_of(o2.items, name)].name == name);
            }
        }
    }
}

/// Removing a key makes a lookup of that key yield nothing.
pub proof fn lemma_remove_get(o: SpecObj, name: Seq<char>)
    requires
        wf_obj(o),
    ensures
        lookup_value(remove_obj(o, name), name) is None,
{
    lemma_idx_of(o.items, name);
    if contains_name(o.items, name) {
        let i = idx_of(o.items, name);
        let r = remove_obj(o, name).items;
        assert forall|k: int| 0 <= k < r.len() implies r[k].name != name by {
            if k < i {
                assert(r[k] == o.items[k]);
            } else {
                assert(r[k] == o.items[k + 1]);
            }
        }
        lemma_idx_of(r, name);
        if contains_name(r, name) {
            assert(r[idx_of(r, name)].name == name);
        }
    }
}

/// Installing a well-formed default keeps the object well formed.
pub proof fn lemma_set_default_wf(o: SpecObj, name: Seq<char>, v: SpecValue)
    requires
        wf_obj(o),
        wf_value(v),
    ensures
        wf_obj(set_default_obj(o, name, v)),
{
    lemma_idx_of(o.items, name);
    let o2 = set_default_obj(o, name, v);
    if contains_name(o.items, name) {
        let i = idx_of(o.items, name);
        assert forall|k: int| 0 <= k < o2.items.len() implies wf_item(#[trigger] o2.items[k]) by {
            if k != i {
                assert(o2.items[k] == o.items[k]);
            }
        }
    } else {
        let n = o.items.len() as int;
        assert forall|k: int| 0 <= k < o2.items.len() implies wf_item(#[trigger] o2.items[k]) by {
            if k < n {
                assert(o2.items[k] == o.items[k]);
            }
        }
        assert forall|i: int, j: int| 0 <= i < j < o2.items.len() implies o2.items[i].name
            != o2.items[j].name by {
            if j < n {
                assert(o2.items[i] == o.items[i] && o2.items[j] == o.items[j]);
            } else {
                assert(o.items[i].name != name);
            }
        }
    }
}

/// Removing a key keeps the object well formed.
pub proof fn lemma_remove_wf(o: SpecObj, name: Seq<char>)
    requires
        wf_obj(o),
    ensures
        wf_obj(remove_obj(o, name)),
{
    lemma_idx_of(o.items, name);
    if contains_name(o.items, name) {
        let i = idx_of(o.items, name);
        let r = remove_obj(o, name).items;
        assert forall|k: int| 0 <= k < r.len() implies wf_item(#[trigger] r[k]) by {
            if k < i {
                assert(r[k] == o.items[k]);
            } else {
                assert(r[k] == o.items[k + 1]);
            }
        }
        assert forall|k: int, l: int| 0 <= k < l < r.len() implies r[k].name != r[l].name by {
            let k0 = if k < i { k } else { k + 1 };
            let l0 = if l < i { l } else { l + 1 };
            assert(r[k] == o.items[k0] && r[l] == o.items[l0]);
        }
    }
}

} // verus!
