use vstd::prelude::*;
use crate::data::{DataModel, InMemoryData, LinkV, model_get, model_layers_drop, model_layers_write, model_pos};
use crate::json::JsonV;
use crate::selection::{FieldSelector, inner_of, seq_height};
use crate::store_laws::layer_keys_unique;
use crate::store_spec::{
    key_of_entity_v, field_v, store_data, store_object, store_fields, store_array, store_items, write_query_v,
    invalidate_entity, invalidate_fields, invalidate_field, invalidate_target, invalidate_list, invalidate_query_v,
};

verus! {

/// A well-formed store never has two optimistic layers under one key.
pub proof fn lemma_model_layer_keys_unique(d: InMemoryData)
    requires
        d.wf(),
    ensures
        layer_keys_unique(d.model().optimistic_records),
        layer_keys_unique(d.model().optimistic_links),
{
    assert(layer_keys_unique(d.model().optimistic_records)) by {
        assert forall|i: int, j: int| 0 <= i < j < d.model().optimistic_records.len()
            implies d.model().optimistic_records[i].0 != d.model().optimistic_records[j].0 by {
            assert(d.optimistic_records.entries@[i].0@ != d.optimistic_records.entries@[j].0@);
        }
    }
    assert(layer_keys_unique(d.model().optimistic_links)) by {
        assert forall|i: int, j: int| 0 <= i < j < d.model().optimistic_links.len()
            implies d.model().optimistic_links[i].0 != d.model().optimistic_links[j].0 by {
            assert(d.optimistic_links.entries@[i].0@ != d.optimistic_links.entries@[j].0@);
        }
    }
}

/// Writing into the layer `key` and then dropping it leaves the other layers as they were.
pub proof fn lemma_layers_write_drop<V>(s: Seq<(u64, Map<Seq<char>, Map<(Seq<char>, Seq<char>), V>>)>, key: u64, e: Seq<char>, f: (Seq<char>, Seq<char>), v: V)
    requires
        layer_keys_unique(s),
    ensures
        layer_keys_unique(model_layers_write(s, key, e, f, v)),
        model_layers_drop(model_layers_write(s, key, e, f, v), key) == model_layers_drop(s, key),
{
    let t = model_layers_write(s, key, e, f, v);
    match model_pos(s, key) {
        Some(p) => {
            assert(0 <= p < s.len() && s[p].0 == key);
            assert(t == s.update(p, (key, crate::data::model_write(s[p].1, e, f, v))));
            assert forall|i: int, j: int| 0 <= i < j < t.len() implies t[i].0 != t[j].0 by {
                assert(s[i].0 != s[j].0);
            }
            assert(exists|i: int| 0 <= i < t.len() && #[trigger] t[i].0 == key) by {
                assert(t[p].0 == key);
            }
            let q = choose|i: int| 0 <= i < t.len() && #[trigger] t[i].0 == key;
            if q != p {
                if q < p {
                    assert(t[q].0 != t[p].0);
                } else {
                    assert(t[p].0 != t[q].0);
                }
            }
            assert(model_pos(t, key) == Some(p));
            assert(t.remove(p) =~= s.remove(p));
        },
        None => {
            assert forall|i: int| 0 <= i < s.len() implies #[trigger] s[i].0 != key by {
                if s[i].0 == key {
                    assert(exists|q: int| 0 <= q < s.len() && #[trigger] s[q].0 == key);
                }
            }
            let n = s.len() as int;
            assert(t == s.push((key, crate::data::model_write(Map::empty(), e, f, v))));
            assert(t[n].0 == key);
            assert forall|i: int, j: int| 0 <= i < j < t.len() implies t[i].0 != t[j].0 by {
                if j < n {
                    assert(s[i].0 != s[j].0);
                } else {
                    assert(t[i] == s[i]);
                }
            }
            assert(exists|i: int| 0 <= i < t.len() && #[trigger] t[i].0 == key);
            let q = choose|i: int| 0 <= i < t.len() && #[trigger] t[i].0 == key;
            if q < n {
                assert(t[q] == s[q]);
            }
            assert(model_pos(t, key) == Some(n));
            assert(t.remove(n) =~= s);
        },
    }
}

/// What an optimistic write under `key` may change between `a` and `b`: no base record and
/// no dependency; the optimistic layers but the one under `key`; a base link only by making
/// it null.
pub open spec fn optimistic_frame(key: u64, a: DataModel, b: DataModel) -> bool {
    &&& b.records == a.records
    &&& b.dependencies == a.dependencies
    &&& layer_keys_unique(b.optimistic_records)
    &&& layer_keys_unique(b.optimistic_links)
    &&& model_layers_drop(b.optimistic_records, key) == model_layers_drop(a.optimistic_records, key)
    &&& model_layers_drop(b.optimistic_links, key) == model_layers_drop(a.optimistic_links, key)
    &&& forall|e: Seq<char>, f: (Seq<char>, Seq<char>)|
        #[trigger] model_get(b.links, e, f) == model_get(a.links, e, f)
            || model_get(b.links, e, f) == Some(LinkV::Null)
}

/// An optimistic frame that keeps every base link as well.
pub open spec fn strict_frame(key: u64, a: DataModel, b: DataModel) -> bool {
    &&& optimistic_frame(key, a, b)
    &&& b.links == a.links
}

pub proof fn lemma_frame_refl(key: u64, a: DataModel)
    requires
        layer_keys_unique(a.optimistic_records),
        layer_keys_unique(a.optimistic_links),
    ensures
        optimistic_frame(key, a, a),
{
}

pub proof fn lemma_frame_trans(key: u64, a: DataModel, b: DataModel, c: DataModel)
    requires
        optimistic_frame(key, a, b),
        optimistic_frame(key, b, c),
    ensures
        optimistic_frame(key, a, c),
{
    assert forall|e: Seq<char>, f: (Seq<char>, Seq<char>)|
        #[trigger] model_get(c.links, e, f) == model_get(a.links, e, f)
            || model_get(c.links, e, f) == Some(LinkV::Null) by {
        assert(model_get(c.links, e, f) == model_get(b.links, e, f) || model_get(c.links, e, f) == Some(LinkV::Null));
        assert(model_get(b.links, e, f) == model_get(a.links, e, f) || model_get(b.links, e, f) == Some(LinkV::Null));
    }
}

pub proof fn lemma_frame_count(key: u64, a: DataModel, keys: Seq<Seq<char>>, by: isize)
    requires
        layer_keys_unique(a.optimistic_records),
        layer_keys_unique(a.optimistic_links),
    ensures
        optimistic_frame(key, a, a.count(keys, by)),
{
    let b = a.count(keys, by);
    assert forall|e: Seq<char>, f: (Seq<char>, Seq<char>)|
        #[trigger] model_get(b.links, e, f) == model_get(a.links, e, f)
            || model_get(b.links, e, f) == Some(LinkV::Null) by {
    }
}

pub proof fn lemma_frame_put_record(m: DataModel, key: u64, e: Seq<char>, f: (Seq<char>, Seq<char>), v: Option<JsonV>)
    requires
        layer_keys_unique(m.optimistic_records),
        layer_keys_unique(m.optimistic_links),
    ensures
        optimistic_frame(key, m, crate::store_spec::put_record(m, Some(key), e, f, v)),
{
    lemma_layers_write_drop(m.optimistic_records, key, e, f, v);
}

pub proof fn lemma_frame_put_link(m: DataModel, key: u64, e: Seq<char>, f: (Seq<char>, Seq<char>), l: Option<LinkV>)
    requires
        layer_keys_unique(m.optimistic_records),
        layer_keys_unique(m.optimistic_links),
    ensures
        optimistic_frame(key, m, crate::store_spec::put_link(m, Some(key), e, f, l)),
{
    let p1 = m.replaced(key, e, f);
    let p2 = m.plan(e, f, l, 1isize);
    let c1 = m.count(p1.0, p1.1);
    let c2 = c1.count(p2.0, p2.1);
    lemma_frame_count(key, m, p1.0, p1.1);
    lemma_frame_count(key, c1, p2.0, p2.1);
    lemma_frame_trans(key, m, c1, c2);
    lemma_layers_write_drop(c2.optimistic_links, key, e, f, l);
    let r = crate::store_spec::put_link(m, Some(key), e, f, l);
    assert(r == DataModel { optimistic_links: model_layers_write(c2.optimistic_links, key, e, f, l), ..c2 });
    assert(optimistic_frame(key, c2, r));
    lemma_frame_trans(key, m, c2, r);
}

pub proof fn lemma_frame_null_link(m: DataModel, key: u64, e: Seq<char>, f: (Seq<char>, Seq<char>))
    requires
        layer_keys_unique(m.optimistic_records),
        layer_keys_unique(m.optimistic_links),
    ensures
        optimistic_frame(key, m, m.write_link(e, f, LinkV::Null)),
{
    let old_keys = match model_get(m.links, e, f) {
        Some(x) => x.keys(),
        None => Seq::empty(),
    };
    let c1 = m.count(old_keys, -1isize);
    let c2 = c1.count(LinkV::Null.keys(), 1isize);
    lemma_frame_count(key, m, old_keys, -1isize);
    lemma_frame_count(key, c1, LinkV::Null.keys(), 1isize);
    lemma_frame_trans(key, m, c1, c2);
    let r = m.write_link(e, f, LinkV::Null);
    assert(r == DataModel { links: crate::data::model_write(c2.links, e, f, LinkV::Null), ..c2 });
    assert forall|e2: Seq<char>, f2: (Seq<char>, Seq<char>)|
        #[trigger] model_get(r.links, e2, f2) == model_get(c2.links, e2, f2)
            || model_get(r.links, e2, f2) == Some(LinkV::Null) by {
        if e2 == e && f2 == f {
            assert(model_get(r.links, e2, f2) == Some(LinkV::Null));
        } else if e2 == e {
            assert(model_get(r.links, e2, f2) == model_get(c2.links, e2, f2));
        } else {
            assert(model_get(r.links, e2, f2) == model_get(c2.links, e2, f2));
        }
    }
    assert(optimistic_frame(key, c2, r));
    lemma_frame_trans(key, m, c2, r);
}

pub proof fn lemma_optimistic_store_data(
    custom: Map<Seq<char>, Seq<char>>,
    m: DataModel,
    deps: Seq<Seq<char>>,
    key: u64,
    e: Seq<char>,
    sel: FieldSelector,
    v: JsonV,
)
    requires
        layer_keys_unique(m.optimistic_records),
        layer_keys_unique(m.optimistic_links),
    ensures
        optimistic_frame(key, m, store_data(custom, m, deps, Some(key), e, sel, v).m),
    decreases sel.height(), 2nat, 0int,
{
    match sel {
        FieldSelector::Scalar(_, _) => {
            lemma_frame_put_record(m, key, e, sel.key_v(), Some(v));
        },
        _ => {
            if v is Array {
                lemma_optimistic_store_array(custom, m, deps, key, e, sel, v);
            } else {
                lemma_optimistic_store_object(custom, m, deps, key, e, sel, v);
            }
        },
    }
}

pub proof fn lemma_optimistic_store_object(
    custom: Map<Seq<char>, Seq<char>>,
    m: DataModel,
    deps: Seq<Seq<char>>,
    key: u64,
    e: Seq<char>,
    sel: FieldSelector,
    v: JsonV,
)
    requires
        layer_keys_unique(m.optimistic_records),
        layer_keys_unique(m.optimistic_links),
    ensures
        optimistic_frame(key, m, store_object(custom, m, deps, Some(key), e, sel, v).m),
    decreases sel.height(), 1nat, 0int,
{
    lemma_frame_refl(key, m);
    match crate::store_spec::sel_typename(m, e, sel) {
        None => {},
        Some(t) => match v {
            JsonV::Null => {
                lemma_frame_null_link(m, key, e, sel.key_v());
            },
            JsonV::Object(fields) => match key_of_entity_v(custom, t, fields) {
                None => {},
                Some(k) => {
                    crate::selection::lemma_inner_height(sel, t);
                    lemma_optimistic_store_fields(custom, m, deps.push(k), key, k, inner_of(sel, t), fields, 0);
                    let r = store_fields(custom, m, deps.push(k), Some(key), k, inner_of(sel, t), fields, 0);
                    if r.out is Done {
                        lemma_frame_put_link(r.m, key, e, sel.key_v(), Some(LinkV::Single(k)));
                        lemma_frame_trans(key, m, r.m,
                            crate::store_spec::put_link(r.m, Some(key), e, sel.key_v(), Some(LinkV::Single(k))));
                    }
                },
            },
            _ => {},
        },
    }
}

pub proof fn lemma_optimistic_store_fields(
    custom: Map<Seq<char>, Seq<char>>,
    m: DataModel,
    deps: Seq<Seq<char>>,
    key: u64,
    e: Seq<char>,
    sels: Seq<FieldSelector>,
    fields: Seq<(Seq<char>, JsonV)>,
    i: int,
)
    requires
        layer_keys_unique(m.optimistic_records),
        layer_keys_unique(m.optimistic_links),
    ensures
        optimistic_frame(key, m, store_fields(custom, m, deps, Some(key), e, sels, fields, i).m),
    decreases seq_height(sels), 0nat, sels.len() - i,
{
    lemma_frame_refl(key, m);
    if 0 <= i < sels.len() {
        match field_v(fields, sels[i].name_v()) {
            None => {},
            Some(v) => {
                crate::selection::lemma_seq_height(sels, i);
                lemma_optimistic_store_data(custom, m, deps, key, e, sels[i], v);
                let r = store_data(custom, m, deps, Some(key), e, sels[i], v);
                if r.out is Done {
                    lemma_optimistic_store_fields(custom, r.m, r.deps, key, e, sels, fields, i + 1);
                    lemma_frame_trans(key, m, r.m, store_fields(custom, r.m, r.deps, Some(key), e, sels, fields, i + 1).m);
                }
            },
        }
    }
}

pub proof fn lemma_optimistic_store_array(
    custom: Map<Seq<char>, Seq<char>>,
    m: DataModel,
    deps: Seq<Seq<char>>,
    key: u64,
    e: Seq<char>,
    sel: FieldSelector,
    v: JsonV,
)
    requires
        layer_keys_unique(m.optimistic_records),
        layer_keys_unique(m.optimistic_links),
    ensures
        optimistic_frame(key, m, store_array(custom, m, deps, Some(key), e, sel, v).m),
    decreases sel.height(), 1nat, 0int,
{
    lemma_frame_refl(key, m);
    match crate::store_spec::sel_typename(m, e, sel) {
        None => {},
        Some(t) => match v {
            JsonV::Array(items) => {
                lemma_optimistic_store_items(custom, m, deps, key, e, sel, t, items, 0, Seq::empty());
            },
            _ => {},
        },
    }
}

pub proof fn lemma_optimistic_store_items(
    custom: Map<Seq<char>, Seq<char>>,
    m: DataModel,
    deps: Seq<Seq<char>>,
    key: u64,
    e: Seq<char>,
    sel: FieldSelector,
    t: Seq<char>,
    items: Seq<JsonV>,
    i: int,
    keys: Seq<Seq<char>>,
)
    requires
        layer_keys_unique(m.optimistic_records),
        layer_keys_unique(m.optimistic_links),
    ensures
        optimistic_frame(key, m, store_items(custom, m, deps, Some(key), e, sel, t, items, i, keys).m),
    decreases sel.height(), 0nat, items.len() - i,
{
    lemma_frame_refl(key, m);
    if sel is Scalar {
    } else if 0 <= i < items.len() {
        match items[i] {
            JsonV::Object(fields) => match key_of_entity_v(custom, t, fields) {
                None => {},
                Some(k) => {
                    crate::selection::lemma_inner_height(sel, t);
                    lemma_optimistic_store_fields(custom, m, deps.push(k), key, k, inner_of(sel, t), fields, 0);
                    let r = store_fields(custom, m, deps.push(k), Some(key), k, inner_of(sel, t), fields, 0);
                    if r.out is Done {
                        lemma_optimistic_store_items(custom, r.m, r.deps, key, e, sel, t, items, i + 1, keys.push(k));
                        lemma_frame_trans(key, m, r.m,
                            store_items(custom, r.m, r.deps, Some(key), e, sel, t, items, i + 1, keys.push(k)).m);
                    }
                },
            },
            _ => {},
        }
    } else {
        lemma_frame_put_link(m, key, e, sel.key_v(), Some(LinkV::List(keys)));
    }
}

/// Invalidating under the layer `key` only deletes records there.
pub proof fn lemma_optimistic_invalidate_entity(m: DataModel, inv: Seq<Seq<char>>, key: u64, e: Seq<char>, sels: Seq<FieldSelector>)
    requires
        layer_keys_unique(m.optimistic_records),
        layer_keys_unique(m.optimistic_links),
    ensures
        strict_frame(key, m, invalidate_entity(m, inv, Some(key), e, sels).m),
    decreases seq_height(sels), 1nat, 0int,
{
    let inv2 = if e != "Mutation"@ { inv.push(e) } else { inv };
    lemma_optimistic_invalidate_fields(m, inv2, key, e, sels, 0);
}

pub proof fn lemma_optimistic_invalidate_fields(m: DataModel, inv: Seq<Seq<char>>, key: u64, e: Seq<char>, sels: Seq<FieldSelector>, i: int)
    requires
        layer_keys_unique(m.optimistic_records),
        layer_keys_unique(m.optimistic_links),
    ensures
        strict_frame(key, m, invalidate_fields(m, inv, Some(key), e, sels, i).m),
    decreases seq_height(sels), 0nat, sels.len() - i,
{
    lemma_frame_refl(key, m);
    if 0 <= i < sels.len() {
        crate::selection::lemma_seq_height(sels, i);
        lemma_optimistic_invalidate_field(m, inv, key, e, sels[i]);
        let r = invalidate_field(m, inv, Some(key), e, sels[i]);
        if !r.stuck {
            lemma_optimistic_invalidate_fields(r.m, r.inv, key, e, sels, i + 1);
            lemma_frame_trans(key, m, r.m, invalidate_fields(r.m, r.inv, Some(key), e, sels, i + 1).m);
        }
    }
}

pub proof fn lemma_optimistic_invalidate_field(m: DataModel, inv: Seq<Seq<char>>, key: u64, e: Seq<char>, sel: FieldSelector)
    requires
        layer_keys_unique(m.optimistic_records),
        layer_keys_unique(m.optimistic_links),
    ensures
        strict_frame(key, m, invalidate_field(m, inv, Some(key), e, sel).m),
    decreases sel.height(), 2nat, 0int,
{
    lemma_frame_refl(key, m);
    match sel {
        FieldSelector::Scalar(_, _) => {
            lemma_frame_put_record(m, key, e, sel.key_v(), None);
        },
        _ => match m.link(e, sel.key_v()) {
            Some(LinkV::Single(k)) => {
                lemma_optimistic_invalidate_target(m, inv, key, sel, k);
            },
            Some(LinkV::List(ks)) => {
                lemma_optimistic_invalidate_list(m, inv, key, sel, ks, 0);
            },
            _ => {},
        },
    }
}

pub proof fn lemma_optimistic_invalidate_target(m: DataModel, inv: Seq<Seq<char>>, key: u64, sel: FieldSelector, k: Seq<char>)
    requires
        layer_keys_unique(m.optimistic_records),
        layer_keys_unique(m.optimistic_links),
    ensures
        strict_frame(key, m, invalidate_target(m, inv, Some(key), sel, k).m),
    decreases sel.height(), 1nat, 0int,
{
    lemma_frame_refl(key, m);
    match sel {
        FieldSelector::Scalar(_, _) => {},
        FieldSelector::Object(_, _, _, inner) => {
            crate::selection::lemma_inner_height(sel, Seq::empty());
            lemma_optimistic_invalidate_entity(m, inv, key, k, inner@);
        },
        FieldSelector::Union(_, _, vs) => match crate::store_spec::typename_of(m, k) {
            None => {},
            Some(t) => {
                crate::selection::lemma_inner_height(sel, t);
                lemma_optimistic_invalidate_entity(m, inv, key, k, crate::selection::pick(vs@, t));
            },
        },
    }
}

pub proof fn lemma_optimistic_invalidate_list(m: DataModel, inv: Seq<Seq<char>>, key: u64, sel: FieldSelector, ks: Seq<Seq<char>>, i: int)
    requires
        layer_keys_unique(m.optimistic_records),
        layer_keys_unique(m.optimistic_links),
    ensures
        strict_frame(key, m, invalidate_list(m, inv, Some(key), sel, ks, i).m),
    decreases sel.height(), 1nat, ks.len() - i,
{
    lemma_frame_refl(key, m);
    if 0 <= i < ks.len() {
        lemma_optimistic_invalidate_target(m, inv, key, sel, ks[i]);
        let r = invalidate_target(m, inv, Some(key), sel, ks[i]);
        if !r.stuck {
            lemma_optimistic_invalidate_list(r.m, r.inv, key, sel, ks, i + 1);
            lemma_frame_trans(key, m, r.m, invalidate_list(r.m, r.inv, Some(key), sel, ks, i + 1).m);
        }
    }
}

/// What dropping the layer `key` from `after` gives back of `before`: the base records, the
/// dependencies, the other optimistic layers, and so every record a reader sees once the
/// layer is dropped from both; when `before` had no layer under `key`, every record a reader
/// saw in `before`. A base link differs only by having become null.
pub open spec fn rolled_back(key: u64, before: DataModel, after: DataModel) -> bool {
    &&& after.records == before.records
    &&& after.dependencies == before.dependencies
    &&& after.clear_optimistic_layer(key).optimistic_records == before.clear_optimistic_layer(key).optimistic_records
    &&& after.clear_optimistic_layer(key).optimistic_links == before.clear_optimistic_layer(key).optimistic_links
    &&& forall|e: Seq<char>, f: (Seq<char>, Seq<char>)|
        #[trigger] after.clear_optimistic_layer(key).record(e, f) == before.clear_optimistic_layer(key).record(e, f)
    &&& model_pos(before.optimistic_records, key) is None ==> forall|e: Seq<char>, f: (Seq<char>, Seq<char>)|
        #[trigger] after.clear_optimistic_layer(key).record(e, f) == before.record(e, f)
    &&& forall|e: Seq<char>, f: (Seq<char>, Seq<char>)|
        #[trigger] model_get(after.links, e, f) == model_get(before.links, e, f)
            || model_get(after.links, e, f) == Some(LinkV::Null)
}

pub proof fn lemma_frame_rolled_back(key: u64, a: DataModel, b: DataModel)
    requires
        optimistic_frame(key, a, b),
    ensures
        rolled_back(key, a, b),
{
    if model_pos(a.optimistic_records, key) is None {
        assert(model_layers_drop(a.optimistic_records, key) == a.optimistic_records);
    }
}

/// An optimistic write of a result never changes a base record or a dependency, and
/// dropping its layer takes back every record it wrote (see `rolled_back`). Of the base
/// links, an optimistic write can only make one null: a null object under a field is
/// written to the base layer.
pub proof fn law_optimistic_write_undone(
    custom: Map<Seq<char>, Seq<char>>,
    m: DataModel,
    deps: Seq<Seq<char>>,
    root: Seq<char>,
    data: Option<JsonV>,
    selection: Seq<FieldSelector>,
    key: u64,
)
    requires
        layer_keys_unique(m.optimistic_records),
        layer_keys_unique(m.optimistic_links),
    ensures
        rolled_back(key, m, write_query_v(custom, m, deps, root, data, selection, key, true).m),
{
    lemma_frame_refl(key, m);
    match data {
        Some(JsonV::Object(fields)) => {
            lemma_optimistic_store_fields(custom, m, deps, key, root, selection, fields, 0);
        },
        _ => {},
    }
    lemma_frame_rolled_back(key, m, write_query_v(custom, m, deps, root, data, selection, key, true).m);
}

/// An optimistic mutation (an optimistic invalidation of what its selection reaches, then
/// an optimistic write of its result) is rolled back by dropping its layer, as a single
/// optimistic write is; this holds also where the invalidation stopped.
pub proof fn law_optimistic_mutation_undone(
    custom: Map<Seq<char>, Seq<char>>,
    m: DataModel,
    root: Seq<char>,
    data: Option<JsonV>,
    selection: Seq<FieldSelector>,
    key: u64,
)
    requires
        layer_keys_unique(m.optimistic_records),
        layer_keys_unique(m.optimistic_links),
    ensures
        ({
            let v = invalidate_query_v(m, Seq::empty(), root, true, selection, key, true);
            let w = write_query_v(custom, v.m, v.inv, root, data, selection, key, true);
            &&& rolled_back(key, m, v.m)
            &&& rolled_back(key, m, w.m)
        }),
{
    let v = invalidate_query_v(m, Seq::empty(), root, true, selection, key, true);
    lemma_optimistic_invalidate_entity(m, Seq::empty(), key, root, selection);
    lemma_frame_rolled_back(key, m, v.m);
    let w = write_query_v(custom, v.m, v.inv, root, data, selection, key, true);
    lemma_frame_refl(key, v.m);
    match data {
        Some(JsonV::Object(fields)) => {
            lemma_optimistic_store_fields(custom, v.m, v.inv, key, root, selection, fields, 0);
        },
        _ => {},
    }
    lemma_frame_trans(key, m, v.m, w.m);
    lemma_frame_rolled_back(key, m, w.m);
}

/// `rolled_back`, and the base links are kept too, so that every link a reader sees once
/// the layer is dropped is also given back.
pub open spec fn rolled_back_exactly(key: u64, before: DataModel, after: DataModel) -> bool {
    &&& rolled_back(key, before, after)
    &&& after.links == before.links
    &&& forall|e: Seq<char>, f: (Seq<char>, Seq<char>)|
        #[trigger] after.clear_optimistic_layer(key).link(e, f) == before.clear_optimistic_layer(key).link(e, f)
    &&& model_pos(before.optimistic_links, key) is None ==> forall|e: Seq<char>, f: (Seq<char>, Seq<char>)|
        #[trigger] after.clear_optimistic_layer(key).link(e, f) == before.link(e, f)
}

pub proof fn lemma_strict_rolled_back(key: u64, a: DataModel, b: DataModel)
    requires
        strict_frame(key, a, b),
    ensures
        rolled_back_exactly(key, a, b),
{
    lemma_frame_rolled_back(key, a, b);
    if model_pos(a.optimistic_links, key) is None {
        assert(model_layers_drop(a.optimistic_links, key) == a.optimistic_links);
    }
}

/// An invalidation written into the layer `key` (an optimistic one) leaves the base records,
/// the base links and the dependencies alone, and dropping the layer gives back every record
/// and link a reader saw: those it saw before with that layer dropped, and, when there was
/// no layer under `key`, those it saw before the invalidation.
pub proof fn law_optimistic_invalidation_undone(
    m: DataModel,
    inv: Seq<Seq<char>>,
    root: Seq<char>,
    has_data: bool,
    selection: Seq<FieldSelector>,
    key: u64,
)
    requires
        layer_keys_unique(m.optimistic_records),
        layer_keys_unique(m.optimistic_links),
    ensures
        rolled_back_exactly(key, m, invalidate_query_v(m, inv, root, has_data, selection, key, true).m),
{
    lemma_frame_refl(key, m);
    if has_data {
        lemma_optimistic_invalidate_entity(m, inv, key, root, selection);
    }
    lemma_strict_rolled_back(key, m, invalidate_query_v(m, inv, root, has_data, selection, key, true).m);
}

/// One write into an optimistic layer: a record or a link, where `None` deletes the field for
/// the readers of that layer.
pub enum OptimisticWrite {
    Record(Seq<char>, (Seq<char>, Seq<char>), Option<JsonV>),
    Link(Seq<char>, (Seq<char>, Seq<char>), Option<LinkV>),
}

/// The store after the writes `ws`, in order, into the optimistic layer `key`.
pub open spec fn apply_optimistic(m: DataModel, key: u64, ws: Seq<OptimisticWrite>) -> DataModel
    decreases ws.len(),
{
    if ws.len() == 0 {
        m
    } else {
        let next = match ws[0] {
            OptimisticWrite::Record(e, f, v) => m.write_record_optimistic(key, e, f, v),
            OptimisticWrite::Link(e, f, l) => m.write_link_optimistic(key, e, f, l),
        };
        apply_optimistic(next, key, ws.drop_first())
    }
}

proof fn lemma_apply_optimistic_frame(m: DataModel, key: u64, ws: Seq<OptimisticWrite>)
    requires
        layer_keys_unique(m.optimistic_records),
        layer_keys_unique(m.optimistic_links),
    ensures
        strict_frame(key, m, apply_optimistic(m, key, ws)),
    decreases ws.len(),
{
    lemma_frame_refl(key, m);
    if ws.len() > 0 {
        let next = match ws[0] {
            OptimisticWrite::Record(e, f, v) => m.write_record_optimistic(key, e, f, v),
            OptimisticWrite::Link(e, f, l) => m.write_link_optimistic(key, e, f, l),
        };
        match ws[0] {
            OptimisticWrite::Record(e, f, v) => {
                lemma_frame_put_record(m, key, e, f, v);
            },
            OptimisticWrite::Link(e, f, l) => {
                lemma_frame_put_link(m, key, e, f, l);
            },
        }
        assert(next.links == m.links);
        lemma_apply_optimistic_frame(next, key, ws.drop_first());
        lemma_frame_trans(key, m, next, apply_optimistic(next, key, ws.drop_first()));
    }
}

/// Any sequence of record and link writes into the optimistic layer `key` leaves the base
/// records, the base links and the dependencies alone, and dropping the layer gives back
/// every record and link a reader saw: those it saw before the writes with that layer
/// dropped, and, when there was no layer under `key`, those it saw before the writes.
pub proof fn law_optimistic_writes_undone(m: DataModel, key: u64, ws: Seq<OptimisticWrite>)
    requires
        layer_keys_unique(m.optimistic_records),
        layer_keys_unique(m.optimistic_links),
    ensures
        rolled_back_exactly(key, m, apply_optimistic(m, key, ws)),
{
    lemma_apply_optimistic_frame(m, key, ws);
    lemma_strict_rolled_back(key, m, apply_optimistic(m, key, ws));
}

} // verus!
