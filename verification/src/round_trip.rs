use vstd::prelude::*;
use crate::data::{DataModel, LinkV};
use crate::json::JsonV;
use crate::selection::{FieldSelector, inner_of, seq_height};
use crate::store_spec::{field_v, key_of_entity_v, WriteStep};

verus! {

/// The selection holds no union, at any depth.
pub open spec fn union_free(sel: FieldSelector) -> bool
    decreases sel.height(), 1nat,
{
    match sel {
        FieldSelector::Scalar(_, _) => true,
        FieldSelector::Object(_, _, _, inner) => union_free_seq(inner@),
        FieldSelector::Union(_, _, _) => false,
    }
}

pub open spec fn union_free_seq(sels: Seq<FieldSelector>) -> bool
    decreases seq_height(sels), 0nat,
{
    if sels.len() == 0 {
        true
    } else {
        proof {
            crate::selection::lemma_seq_height(sels, sels.len() - 1);
        }
        union_free(sels.last()) && union_free_seq(sels.drop_last())
    }
}

pub proof fn lemma_union_free_index(sels: Seq<FieldSelector>, j: int)
    requires
        union_free_seq(sels),
        0 <= j < sels.len(),
    ensures
        union_free(sels[j]),
    decreases sels.len(),
{
    if j < sels.len() - 1 {
        lemma_union_free_index(sels.drop_last(), j);
    }
}

/// One write into the base layer.
pub enum WriteOp {
    Rec(Seq<char>, (Seq<char>, Seq<char>), JsonV),
    Lnk(Seq<char>, (Seq<char>, Seq<char>), LinkV),
}

/// The writes, in order, that storing the value `v` of the field `sel` of entity `e` makes.
pub open spec fn trace_data(custom: Map<Seq<char>, Seq<char>>, e: Seq<char>, sel: FieldSelector, v: JsonV) -> Seq<WriteOp>
    decreases sel.height(), 2nat, 0int,
{
    match sel {
        FieldSelector::Scalar(_, _) => seq![WriteOp::Rec(e, sel.key_v(), v)],
        _ => if v is Array {
            trace_array(custom, e, sel, v)
        } else {
            trace_object(custom, e, sel, v)
        },
    }
}

pub open spec fn trace_object(custom: Map<Seq<char>, Seq<char>>, e: Seq<char>, sel: FieldSelector, v: JsonV) -> Seq<WriteOp>
    decreases sel.height(), 1nat, 0int,
{
    match sel {
        FieldSelector::Object(_, _, t, inner) => match v {
            JsonV::Null => seq![WriteOp::Lnk(e, sel.key_v(), LinkV::Null)],
            JsonV::Object(fields) => match key_of_entity_v(custom, t@, fields) {
                Some(k) => {
                    proof {
                        crate::selection::lemma_inner_height(sel, t@);
                    }
                    trace_fields(custom, k, inner@, fields, 0) + seq![WriteOp::Lnk(e, sel.key_v(), LinkV::Single(k))]
                },
                None => Seq::empty(),
            },
            _ => Seq::empty(),
        },
        _ => Seq::empty(),
    }
}

pub open spec fn trace_fields(
    custom: Map<Seq<char>, Seq<char>>,
    e: Seq<char>,
    sels: Seq<FieldSelector>,
    fields: Seq<(Seq<char>, JsonV)>,
    i: int,
) -> Seq<WriteOp>
    decreases seq_height(sels), 0nat, sels.len() - i,
{
    if 0 <= i < sels.len() {
        match field_v(fields, sels[i].name_v()) {
            Some(v) => {
                proof {
                    crate::selection::lemma_seq_height(sels, i);
                }
                trace_data(custom, e, sels[i], v) + trace_fields(custom, e, sels, fields, i + 1)
            },
            None => Seq::empty(),
        }
    } else {
        Seq::empty()
    }
}

pub open spec fn trace_array(custom: Map<Seq<char>, Seq<char>>, e: Seq<char>, sel: FieldSelector, v: JsonV) -> Seq<WriteOp>
    decreases sel.height(), 1nat, 0int,
{
    match sel {
        FieldSelector::Object(_, _, t, _) => match v {
            JsonV::Array(items) => trace_items(custom, e, sel, t@, items, 0, Seq::empty()),
            _ => Seq::empty(),
        },
        _ => Seq::empty(),
    }
}

pub open spec fn trace_items(
    custom: Map<Seq<char>, Seq<char>>,
    e: Seq<char>,
    sel: FieldSelector,
    t: Seq<char>,
    items: Seq<JsonV>,
    i: int,
    keys: Seq<Seq<char>>,
) -> Seq<WriteOp>
    decreases sel.height(), 0nat, items.len() - i,
{
    if sel is Scalar {
        Seq::empty()
    } else if 0 <= i < items.len() {
        match items[i] {
            JsonV::Object(fields) => match key_of_entity_v(custom, t, fields) {
                Some(k) => {
                    proof {
                        crate::selection::lemma_inner_height(sel, t);
                    }
                    trace_fields(custom, k, inner_of(sel, t), fields, 0) + trace_items(custom, e, sel, t, items, i + 1, keys.push(k))
                },
                None => Seq::empty(),
            },
            _ => Seq::empty(),
        }
    } else {
        seq![WriteOp::Lnk(e, sel.key_v(), LinkV::List(keys))]
    }
}

/// The data fits a selection without unions: every selected field is there, every object
/// has a key, and values have the shape their selectors ask for.
pub open spec fn ok_data(custom: Map<Seq<char>, Seq<char>>, sel: FieldSelector, v: JsonV) -> bool
    decreases sel.height(), 2nat, 0int,
{
    match sel {
        FieldSelector::Scalar(_, _) => true,
        _ => if v is Array {
            ok_array(custom, sel, v)
        } else {
            ok_object(custom, sel, v)
        },
    }
}

pub open spec fn ok_object(custom: Map<Seq<char>, Seq<char>>, sel: FieldSelector, v: JsonV) -> bool
    decreases sel.height(), 1nat, 0int,
{
    match sel {
        FieldSelector::Object(_, _, t, inner) => match v {
            JsonV::Null => true,
            JsonV::Object(fields) => match key_of_entity_v(custom, t@, fields) {
                Some(k) => {
                    proof {
                        crate::selection::lemma_inner_height(sel, t@);
                    }
                    ok_fields(custom, inner@, fields, 0)
                },
                None => false,
            },
            _ => false,
        },
        _ => false,
    }
}

pub open spec fn ok_fields(custom: Map<Seq<char>, Seq<char>>, sels: Seq<FieldSelector>, fields: Seq<(Seq<char>, JsonV)>, i: int) -> bool
    decreases seq_height(sels), 0nat, sels.len() - i,
{
    if 0 <= i < sels.len() {
        match field_v(fields, sels[i].name_v()) {
            Some(v) => {
                proof {
                    crate::selection::lemma_seq_height(sels, i);
                }
                ok_data(custom, sels[i], v) && ok_fields(custom, sels, fields, i + 1)
            },
            None => false,
        }
    } else {
        true
    }
}

pub open spec fn ok_array(custom: Map<Seq<char>, Seq<char>>, sel: FieldSelector, v: JsonV) -> bool
    decreases sel.height(), 1nat, 0int,
{
    match sel {
        FieldSelector::Object(_, _, t, _) => match v {
            JsonV::Array(items) => ok_items(custom, sel, t@, items, 0),
            _ => false,
        },
        _ => false,
    }
}

pub open spec fn ok_items(custom: Map<Seq<char>, Seq<char>>, sel: FieldSelector, t: Seq<char>, items: Seq<JsonV>, i: int) -> bool
    decreases sel.height(), 0nat, items.len() - i,
{
    if sel is Scalar {
        false
    } else if 0 <= i < items.len() {
        match items[i] {
            JsonV::Object(fields) => match key_of_entity_v(custom, t, fields) {
                Some(k) => {
                    proof {
                        crate::selection::lemma_inner_height(sel, t);
                    }
                    ok_fields(custom, inner_of(sel, t), fields, 0) && ok_items(custom, sel, t, items, i + 1)
                },
                None => false,
            },
            _ => false,
        }
    } else {
        true
    }
}

/// One base write applied to the store.
pub open spec fn apply_op(m: DataModel, op: WriteOp) -> DataModel {
    match op {
        WriteOp::Rec(e, f, v) => m.write_record(e, f, Some(v)),
        WriteOp::Lnk(e, f, l) => m.write_link(e, f, l),
    }
}

/// The writes applied in order.
pub open spec fn apply(m: DataModel, t: Seq<WriteOp>) -> DataModel
    decreases t.len(),
{
    if t.len() == 0 {
        m
    } else {
        apply_op(apply(m, t.drop_last()), t.last())
    }
}

pub proof fn lemma_apply_concat(m: DataModel, a: Seq<WriteOp>, b: Seq<WriteOp>)
    ensures
        apply(m, a + b) == apply(apply(m, a), b),
    decreases b.len(),
{
    if b.len() == 0 {
        assert(a + b =~= a);
    } else {
        lemma_apply_concat(m, a, b.drop_last());
        assert((a + b).drop_last() =~= a + b.drop_last());
    }
}

proof fn lemma_apply_one(m: DataModel, op: WriteOp)
    ensures
        apply(m, seq![op]) == apply_op(m, op),
{
    assert(seq![op].drop_last() =~= Seq::<WriteOp>::empty());
    assert(apply(m, seq![op].drop_last()) == m);
    assert(seq![op].last() == op);
}

/// A base write of a selection without unions that goes through applies its trace.
pub proof fn lemma_store_data_trace(
    custom: Map<Seq<char>, Seq<char>>,
    m: DataModel,
    deps: Seq<Seq<char>>,
    e: Seq<char>,
    sel: FieldSelector,
    v: JsonV,
)
    requires
        union_free(sel),
    ensures
        crate::store_spec::store_data(custom, m, deps, None, e, sel, v).out is Done
            ==> crate::store_spec::store_data(custom, m, deps, None, e, sel, v).m == apply(m, trace_data(custom, e, sel, v))
                && ok_data(custom, sel, v),
    decreases sel.height(), 2nat, 0int,
{
    match sel {
        FieldSelector::Scalar(_, _) => {
            lemma_apply_one(m, WriteOp::Rec(e, sel.key_v(), v));
        },
        _ => {
            if v is Array {
                lemma_store_array_trace(custom, m, deps, e, sel, v);
            } else {
                lemma_store_object_trace(custom, m, deps, e, sel, v);
            }
        },
    }
}

pub proof fn lemma_store_object_trace(
    custom: Map<Seq<char>, Seq<char>>,
    m: DataModel,
    deps: Seq<Seq<char>>,
    e: Seq<char>,
    sel: FieldSelector,
    v: JsonV,
)
    requires
        union_free(sel),
    ensures
        crate::store_spec::store_object(custom, m, deps, None, e, sel, v).out is Done
            ==> crate::store_spec::store_object(custom, m, deps, None, e, sel, v).m == apply(m, trace_object(custom, e, sel, v))
                && ok_object(custom, sel, v),
    decreases sel.height(), 1nat, 0int,
{
    match sel {
        FieldSelector::Object(_, _, t, inner) => match v {
            JsonV::Null => {
                lemma_apply_one(m, WriteOp::Lnk(e, sel.key_v(), LinkV::Null));
            },
            JsonV::Object(fields) => match key_of_entity_v(custom, t@, fields) {
                Some(k) => {
                    crate::selection::lemma_inner_height(sel, t@);
                    lemma_store_fields_trace(custom, m, deps.push(k), k, inner@, fields, 0);
                    let r = crate::store_spec::store_fields(custom, m, deps.push(k), None, k, inner@, fields, 0);
                    let tf = trace_fields(custom, k, inner@, fields, 0);
                    let op = WriteOp::Lnk(e, sel.key_v(), LinkV::Single(k));
                    lemma_apply_concat(m, tf, seq![op]);
                    lemma_apply_one(apply(m, tf), op);
                },
                None => {},
            },
            _ => {},
        },
        _ => {},
    }
}

pub proof fn lemma_store_fields_trace(
    custom: Map<Seq<char>, Seq<char>>,
    m: DataModel,
    deps: Seq<Seq<char>>,
    e: Seq<char>,
    sels: Seq<FieldSelector>,
    fields: Seq<(Seq<char>, JsonV)>,
    i: int,
)
    requires
        union_free_seq(sels),
    ensures
        crate::store_spec::store_fields(custom, m, deps, None, e, sels, fields, i).out is Done
            ==> crate::store_spec::store_fields(custom, m, deps, None, e, sels, fields, i).m == apply(m, trace_fields(custom, e, sels, fields, i))
                && ok_fields(custom, sels, fields, i),
    decreases seq_height(sels), 0nat, sels.len() - i,
{
    if 0 <= i < sels.len() {
        match field_v(fields, sels[i].name_v()) {
            Some(v) => {
                crate::selection::lemma_seq_height(sels, i);
                lemma_union_free_index(sels, i);
                lemma_store_data_trace(custom, m, deps, e, sels[i], v);
                let r = crate::store_spec::store_data(custom, m, deps, None, e, sels[i], v);
                if r.out is Done {
                    lemma_store_fields_trace(custom, r.m, r.deps, e, sels, fields, i + 1);
                    lemma_apply_concat(m, trace_data(custom, e, sels[i], v), trace_fields(custom, e, sels, fields, i + 1));
                }
            },
            None => {},
        }
    } else {
        assert(apply(m, Seq::<WriteOp>::empty()) == m);
    }
}

pub proof fn lemma_store_array_trace(
    custom: Map<Seq<char>, Seq<char>>,
    m: DataModel,
    deps: Seq<Seq<char>>,
    e: Seq<char>,
    sel: FieldSelector,
    v: JsonV,
)
    requires
        union_free(sel),
    ensures
        crate::store_spec::store_array(custom, m, deps, None, e, sel, v).out is Done
            ==> crate::store_spec::store_array(custom, m, deps, None, e, sel, v).m == apply(m, trace_array(custom, e, sel, v))
                && ok_array(custom, sel, v),
    decreases sel.height(), 1nat, 0int,
{
    match sel {
        FieldSelector::Object(_, _, t, _) => match v {
            JsonV::Array(items) => {
                lemma_store_items_trace(custom, m, deps, e, sel, t@, items, 0, Seq::empty());
            },
            _ => {},
        },
        _ => {},
    }
}

pub proof fn lemma_store_items_trace(
    custom: Map<Seq<char>, Seq<char>>,
    m: DataModel,
    deps: Seq<Seq<char>>,
    e: Seq<char>,
    sel: FieldSelector,
    t: Seq<char>,
    items: Seq<JsonV>,
    i: int,
    keys: Seq<Seq<char>>,
)
    requires
        union_free(sel),
    ensures
        crate::store_spec::store_items(custom, m, deps, None, e, sel, t, items, i, keys).out is Done
            ==> crate::store_spec::store_items(custom, m, deps, None, e, sel, t, items, i, keys).m
                == apply(m, trace_items(custom, e, sel, t, items, i, keys)) && ok_items(custom, sel, t, items, i),
    decreases sel.height(), 0nat, items.len() - i,
{
    if sel is Scalar {
    } else if 0 <= i < items.len() {
        match items[i] {
            JsonV::Object(fields) => match key_of_entity_v(custom, t, fields) {
                Some(k) => {
                    crate::selection::lemma_inner_height(sel, t);
                    assert(union_free_seq(inner_of(sel, t)));
                    lemma_store_fields_trace(custom, m, deps.push(k), k, inner_of(sel, t), fields, 0);
                    let r = crate::store_spec::store_fields(custom, m, deps.push(k), None, k, inner_of(sel, t), fields, 0);
                    if r.out is Done {
                        lemma_store_items_trace(custom, r.m, r.deps, e, sel, t, items, i + 1, keys.push(k));
                        lemma_apply_concat(m, trace_fields(custom, k, inner_of(sel, t), fields, 0),
                            trace_items(custom, e, sel, t, items, i + 1, keys.push(k)));
                    }
                },
                None => {},
            },
            _ => {},
        }
    } else {
        lemma_apply_one(m, WriteOp::Lnk(e, sel.key_v(), LinkV::List(keys)));
    }
}

/// Two writes go to the same field, both as records or both as links.
pub open spec fn same_target(a: WriteOp, b: WriteOp) -> bool {
    match (a, b) {
        (WriteOp::Rec(e1, f1, _), WriteOp::Rec(e2, f2, _)) => e1 == e2 && f1 == f2,
        (WriteOp::Lnk(e1, f1, _), WriteOp::Lnk(e2, f2, _)) => e1 == e2 && f1 == f2,
        _ => false,
    }
}

/// Writes to the same field write the same value: the data says one thing of each field of
/// each entity, wherever the entity occurs in it.
pub open spec fn consistent(t: Seq<WriteOp>) -> bool {
    forall|i: int, j: int| 0 <= i < t.len() && 0 <= j < t.len() && same_target(t[i], t[j]) ==> t[i] == t[j]
}

/// The base layer holds what the write wrote.
pub open spec fn stored(m: DataModel, op: WriteOp) -> bool {
    match op {
        WriteOp::Rec(e, f, v) => crate::data::model_get(m.records, e, f) == Some(v),
        WriteOp::Lnk(e, f, l) => crate::data::model_get(m.links, e, f) == Some(l),
    }
}

/// Readers see what the write wrote.
pub open spec fn holds(m: DataModel, op: WriteOp) -> bool {
    match op {
        WriteOp::Rec(e, f, v) => m.record(e, f) == Some(v),
        WriteOp::Lnk(e, f, l) => m.link(e, f) == Some(l),
    }
}

/// No optimistic layer hides the field that the write wrote.
pub open spec fn unshadowed(m: DataModel, op: WriteOp) -> bool {
    match op {
        WriteOp::Rec(e, f, _) => crate::store_laws::no_layer_holds(m.optimistic_records, e, f),
        WriteOp::Lnk(e, f, _) => crate::store_laws::no_layer_holds(m.optimistic_links, e, f),
    }
}

proof fn lemma_apply_op_frame(m: DataModel, op: WriteOp, other: WriteOp)
    requires
        stored(m, other),
        !same_target(op, other),
    ensures
        stored(apply_op(m, op), other),
{
}

/// After the writes, the base layer holds each of them, when writes to one field agree.
pub proof fn lemma_apply_stored(m: DataModel, t: Seq<WriteOp>, k: int)
    requires
        consistent(t),
        0 <= k < t.len(),
    ensures
        stored(apply(m, t), t[k]),
    decreases t.len(),
{
    let last = t.last();
    let prev = t.drop_last();
    if same_target(last, t[k]) {
        assert(t[t.len() - 1] == t[k]);
    } else {
        assert(k < t.len() - 1);
        assert forall|i: int, j: int| 0 <= i < prev.len() && 0 <= j < prev.len() && same_target(prev[i], prev[j]) implies prev[i] == prev[j] by {
            assert(prev[i] == t[i] && prev[j] == t[j]);
        }
        assert(prev[k] == t[k]);
        lemma_apply_stored(m, prev, k);
        lemma_apply_op_frame(apply(m, prev), last, t[k]);
    }
}

/// Base writes leave the optimistic layers as they were.
pub proof fn lemma_apply_layers(m: DataModel, t: Seq<WriteOp>)
    ensures
        apply(m, t).optimistic_records == m.optimistic_records,
        apply(m, t).optimistic_links == m.optimistic_links,
    decreases t.len(),
{
    if t.len() > 0 {
        lemma_apply_layers(m, t.drop_last());
    }
}

/// What reading the selection back gives of the data: each selected field, in the order
/// of the selection, objects and lists of objects read through their own selections.
pub open spec fn project_data(sel: FieldSelector, v: JsonV) -> JsonV
    decreases sel.height(), 2nat, 0int,
{
    match sel {
        FieldSelector::Scalar(_, _) => v,
        FieldSelector::Object(_, _, _, inner) => match v {
            JsonV::Array(items) => JsonV::Array(project_items(sel, items, 0)),
            JsonV::Object(fields) => {
                proof {
                    crate::selection::lemma_inner_height(sel, Seq::empty());
                }
                JsonV::Object(project_fields(inner@, fields, 0))
            },
            _ => JsonV::Null,
        },
        FieldSelector::Union(_, _, _) => JsonV::Null,
    }
}

pub open spec fn project_fields(sels: Seq<FieldSelector>, fields: Seq<(Seq<char>, JsonV)>, i: int) -> Seq<(Seq<char>, JsonV)>
    decreases seq_height(sels), 0nat, sels.len() - i,
{
    if 0 <= i < sels.len() {
        proof {
            crate::selection::lemma_seq_height(sels, i);
        }
        seq![(sels[i].name_v(), project_data(sels[i], field_v(fields, sels[i].name_v())->0))]
            + project_fields(sels, fields, i + 1)
    } else {
        Seq::empty()
    }
}

pub open spec fn project_items(sel: FieldSelector, items: Seq<JsonV>, i: int) -> Seq<JsonV>
    decreases sel.height(), 1nat, items.len() - i,
{
    match sel {
        FieldSelector::Object(_, _, _, inner) => if 0 <= i < items.len() {
            proof {
                crate::selection::lemma_inner_height(sel, Seq::empty());
            }
            seq![JsonV::Object(project_fields(inner@, items[i]->Object_0, 0))] + project_items(sel, items, i + 1)
        } else {
            Seq::empty()
        },
        _ => Seq::empty(),
    }
}

/// The keys of the objects of a list.
pub open spec fn item_keys(custom: Map<Seq<char>, Seq<char>>, t: Seq<char>, items: Seq<JsonV>) -> Seq<Seq<char>> {
    Seq::new(items.len(), |j: int| key_of_entity_v(custom, t, items[j]->Object_0)->0)
}

proof fn lemma_concat_contains<A>(a: Seq<A>, b: Seq<A>, x: A)
    ensures
        (a + b).contains(x) <==> a.contains(x) || b.contains(x),
{
    if a.contains(x) {
        let k = choose|k: int| 0 <= k < a.len() && a[k] == x;
        assert((a + b)[k] == x);
    }
    if b.contains(x) {
        let k = choose|k: int| 0 <= k < b.len() && b[k] == x;
        assert((a + b)[a.len() + k] == x);
    }
    if (a + b).contains(x) {
        let k = choose|k: int| 0 <= k < (a + b).len() && (a + b)[k] == x;
        if k < a.len() {
            assert(a[k] == x);
        } else {
            assert(b[k - a.len()] == x);
        }
    }
}

/// Every object of a list that fits its selection has a key and fits the inner selection.
proof fn lemma_ok_items_each(custom: Map<Seq<char>, Seq<char>>, sel: FieldSelector, t: Seq<char>, items: Seq<JsonV>, i: int)
    requires
        ok_items(custom, sel, t, items, i),
        0 <= i <= items.len(),
    ensures
        forall|j: int| i <= j < items.len() ==> (#[trigger] items[j]) is Object
            && key_of_entity_v(custom, t, items[j]->Object_0) is Some
            && ok_fields(custom, inner_of(sel, t), items[j]->Object_0, 0),
    decreases items.len() - i,
{
    if i < items.len() {
        lemma_ok_items_each(custom, sel, t, items, i + 1);
    }
}

/// The writes of a list end with the link to the keys of all its objects.
proof fn lemma_trace_items_link(
    custom: Map<Seq<char>, Seq<char>>,
    e: Seq<char>,
    sel: FieldSelector,
    t: Seq<char>,
    items: Seq<JsonV>,
    i: int,
    keys: Seq<Seq<char>>,
)
    requires
        ok_items(custom, sel, t, items, i),
        0 <= i <= items.len(),
        keys == item_keys(custom, t, items).take(i),
    ensures
        trace_items(custom, e, sel, t, items, i, keys).contains(WriteOp::Lnk(e, sel.key_v(), LinkV::List(item_keys(custom, t, items)))),
    decreases items.len() - i,
{
    let ks = item_keys(custom, t, items);
    let tr = trace_items(custom, e, sel, t, items, i, keys);
    let op = WriteOp::Lnk(e, sel.key_v(), LinkV::List(ks));
    if i < items.len() {
        let fields = items[i]->Object_0;
        let k = key_of_entity_v(custom, t, fields)->0;
        assert(ks[i] == k);
        assert(keys.push(k) =~= ks.take(i + 1));
        lemma_trace_items_link(custom, e, sel, t, items, i + 1, keys.push(k));
        let a = trace_fields(custom, k, inner_of(sel, t), fields, 0);
        let b = trace_items(custom, e, sel, t, items, i + 1, keys.push(k));
        assert(tr == a + b);
        lemma_concat_contains(a, b, op);
    } else {
        assert(keys =~= ks);
        assert(tr[0] == op);
    }
}

/// The writes of a list hold the writes of each of its objects' fields.
proof fn lemma_trace_items_fields(
    custom: Map<Seq<char>, Seq<char>>,
    e: Seq<char>,
    sel: FieldSelector,
    t: Seq<char>,
    items: Seq<JsonV>,
    i: int,
    keys: Seq<Seq<char>>,
    j: int,
    op: WriteOp,
)
    requires
        ok_items(custom, sel, t, items, i),
        0 <= i <= j < items.len(),
        keys == item_keys(custom, t, items).take(i),
        trace_fields(custom, item_keys(custom, t, items)[j], inner_of(sel, t), items[j]->Object_0, 0).contains(op),
    ensures
        trace_items(custom, e, sel, t, items, i, keys).contains(op),
    decreases items.len() - i,
{
    let ks = item_keys(custom, t, items);
    let fields = items[i]->Object_0;
    let k = key_of_entity_v(custom, t, fields)->0;
    assert(ks[i] == k);
    let a = trace_fields(custom, k, inner_of(sel, t), fields, 0);
    let b = trace_items(custom, e, sel, t, items, i + 1, keys.push(k));
    assert(trace_items(custom, e, sel, t, items, i, keys) == a + b);
    lemma_concat_contains(a, b, op);
    if j > i {
        assert(keys.push(k) =~= ks.take(i + 1));
        lemma_trace_items_fields(custom, e, sel, t, items, i + 1, keys.push(k), j, op);
    }
}

/// Reading a field back gives the data, when readers see every write that storing it made.
pub proof fn lemma_read_data(
    custom: Map<Seq<char>, Seq<char>>,
    m: DataModel,
    d: Seq<Seq<char>>,
    e: Seq<char>,
    sel: FieldSelector,
    v: JsonV,
)
    requires
        union_free(sel),
        ok_data(custom, sel, v),
        forall|op: WriteOp| trace_data(custom, e, sel, v).contains(op) ==> holds(m, op),
    ensures
        crate::store_spec::read_field(m, d, e, sel).out == Ok::<JsonV, crate::store_spec::ReadFault>(project_data(sel, v)),
    decreases sel.height(), 2nat, 0int,
{
    match sel {
        FieldSelector::Scalar(_, _) => {
            assert(trace_data(custom, e, sel, v)[0] == WriteOp::Rec(e, sel.key_v(), v));
            assert(trace_data(custom, e, sel, v).contains(WriteOp::Rec(e, sel.key_v(), v)));
            assert(holds(m, WriteOp::Rec(e, sel.key_v(), v)));
        },
        FieldSelector::Object(_, _, t, inner) => {
            crate::selection::lemma_inner_height(sel, Seq::empty());
            match v {
                JsonV::Null => {
                    assert(trace_data(custom, e, sel, v)[0] == WriteOp::Lnk(e, sel.key_v(), LinkV::Null));
                    assert(trace_data(custom, e, sel, v).contains(WriteOp::Lnk(e, sel.key_v(), LinkV::Null)));
                    assert(holds(m, WriteOp::Lnk(e, sel.key_v(), LinkV::Null)));
                },
                JsonV::Object(fields) => {
                    let k = key_of_entity_v(custom, t@, fields)->0;
                    let a = trace_fields(custom, k, inner@, fields, 0);
                    let op = WriteOp::Lnk(e, sel.key_v(), LinkV::Single(k));
                    lemma_concat_contains(a, seq![op], op);
                    assert(seq![op][0] == op);
                    assert(holds(m, op));
                    assert forall|x: WriteOp| a.contains(x) implies holds(m, x) by {
                        lemma_concat_contains(a, seq![op], x);
                    }
                    lemma_read_fields(custom, m, d.push(k), k, inner@, fields, 0, Seq::empty());
                    assert(Seq::<(Seq<char>, JsonV)>::empty() + project_fields(inner@, fields, 0) =~= project_fields(inner@, fields, 0));
                },
                JsonV::Array(items) => {
                    let ks = item_keys(custom, t@, items);
                    assert(Seq::<Seq<char>>::empty() =~= ks.take(0));
                    lemma_ok_items_each(custom, sel, t@, items, 0);
                    lemma_trace_items_link(custom, e, sel, t@, items, 0, Seq::empty());
                    assert(holds(m, WriteOp::Lnk(e, sel.key_v(), LinkV::List(ks))));
                    assert forall|j: int, op: WriteOp| 0 <= j < items.len()
                        && trace_fields(custom, ks[j], inner_of(sel, t@), items[j]->Object_0, 0).contains(op) implies holds(m, op) by {
                        lemma_trace_items_fields(custom, e, sel, t@, items, 0, Seq::empty(), j, op);
                    }
                    lemma_read_items(custom, m, d, sel, t@, items, ks, 0, Seq::empty());
                    assert(Seq::<JsonV>::empty() + project_items(sel, items, 0) =~= project_items(sel, items, 0));
                },
                _ => {},
            }
        },
        FieldSelector::Union(_, _, _) => {},
    }
}

pub proof fn lemma_read_fields(
    custom: Map<Seq<char>, Seq<char>>,
    m: DataModel,
    d: Seq<Seq<char>>,
    e: Seq<char>,
    sels: Seq<FieldSelector>,
    fields: Seq<(Seq<char>, JsonV)>,
    i: int,
    acc: Seq<(Seq<char>, JsonV)>,
)
    requires
        union_free_seq(sels),
        ok_fields(custom, sels, fields, i),
        0 <= i <= sels.len(),
        forall|op: WriteOp| trace_fields(custom, e, sels, fields, i).contains(op) ==> holds(m, op),
    ensures
        crate::store_spec::read_entity(m, d, e, sels, i, acc).out
            == Ok::<Seq<(Seq<char>, JsonV)>, crate::store_spec::ReadFault>(acc + project_fields(sels, fields, i)),
    decreases seq_height(sels), 0nat, sels.len() - i,
{
    if i < sels.len() {
        crate::selection::lemma_seq_height(sels, i);
        lemma_union_free_index(sels, i);
        let v = field_v(fields, sels[i].name_v())->0;
        let a = trace_data(custom, e, sels[i], v);
        let b = trace_fields(custom, e, sels, fields, i + 1);
        assert forall|x: WriteOp| a.contains(x) implies holds(m, x) by {
            lemma_concat_contains(a, b, x);
        }
        assert forall|x: WriteOp| b.contains(x) implies holds(m, x) by {
            lemma_concat_contains(a, b, x);
        }
        lemma_read_data(custom, m, d, e, sels[i], v);
        let r = crate::store_spec::read_field(m, d, e, sels[i]);
        let acc2 = acc.push((sels[i].name_v(), project_data(sels[i], v)));
        lemma_read_fields(custom, m, r.deps, e, sels, fields, i + 1, acc2);
        assert(acc2 + project_fields(sels, fields, i + 1) =~= acc + project_fields(sels, fields, i));
    } else {
        assert(acc + Seq::<(Seq<char>, JsonV)>::empty() =~= acc);
    }
}

pub proof fn lemma_read_items(
    custom: Map<Seq<char>, Seq<char>>,
    m: DataModel,
    d: Seq<Seq<char>>,
    sel: FieldSelector,
    t: Seq<char>,
    items: Seq<JsonV>,
    ks: Seq<Seq<char>>,
    i: int,
    acc: Seq<JsonV>,
)
    requires
        union_free(sel),
        sel is Object,
        0 <= i <= items.len(),
        ks == item_keys(custom, t, items),
        forall|j: int| i <= j < items.len() ==> (#[trigger] items[j]) is Object
            && key_of_entity_v(custom, t, items[j]->Object_0) is Some
            && ok_fields(custom, inner_of(sel, t), items[j]->Object_0, 0),
        forall|j: int, op: WriteOp| i <= j < items.len()
            && trace_fields(custom, ks[j], inner_of(sel, t), items[j]->Object_0, 0).contains(op) ==> holds(m, op),
    ensures
        crate::store_spec::read_list(m, d, sel, ks, i, acc).out
            == Ok::<Seq<JsonV>, crate::store_spec::ReadFault>(acc + project_items(sel, items, i)),
    decreases sel.height(), 1nat, items.len() - i,
{
    crate::selection::lemma_inner_height(sel, Seq::empty());
    let inner = inner_of(sel, Seq::empty());
    assert(inner == inner_of(sel, t));
    if i < items.len() {
        let fields = items[i]->Object_0;
        assert(items[i] is Object);
        assert(crate::store_spec::member_typename(m, sel, ks[i]) == Ok::<Seq<char>, crate::store_spec::ReadFault>(Seq::empty()));
        lemma_read_fields(custom, m, d.push(ks[i]), ks[i], inner, fields, 0, Seq::empty());
        assert(Seq::<(Seq<char>, JsonV)>::empty() + project_fields(inner, fields, 0) =~= project_fields(inner, fields, 0));
        let r = crate::store_spec::read_entity(m, d.push(ks[i]), ks[i], inner, 0, Seq::empty());
        let acc2 = acc.push(JsonV::Object(project_fields(inner, fields, 0)));
        lemma_read_items(custom, m, r.deps, sel, t, items, ks, i + 1, acc2);
        assert(acc2 + project_items(sel, items, i + 1) =~= acc + project_items(sel, items, i));
    } else {
        assert(acc + Seq::<JsonV>::empty() =~= acc);
    }
}

/// What a query writes is what it reads back: after the result of a query whose selection
/// holds no union is written into the base layer, reading the same selection from the root
/// gives each selected field of the data, objects and lists followed through their keys.
/// This holds when the data says one thing of each field of each entity wherever the entity
/// occurs (`consistent`), when no optimistic layer hides a written field, and when no entity
/// whose records were written is queued for collection once the write is done.
pub proof fn law_write_then_read(
    custom: Map<Seq<char>, Seq<char>>,
    m: DataModel,
    deps: Seq<Seq<char>>,
    root: Seq<char>,
    fields: Seq<(Seq<char>, JsonV)>,
    sels: Seq<FieldSelector>,
    key: u64,
    read_deps: Seq<Seq<char>>,
)
    requires
        union_free_seq(sels),
        crate::store_spec::write_query_v(custom, m, deps, root, Some(JsonV::Object(fields)), sels, key, false).out is Done,
        consistent(trace_fields(custom, root, sels, fields, 0)),
        forall|op: WriteOp| trace_fields(custom, root, sels, fields, 0).contains(op) ==> unshadowed(m, op),
        forall|e: Seq<char>, f: (Seq<char>, Seq<char>), v: JsonV| trace_fields(custom, root, sels, fields, 0).contains(WriteOp::Rec(e, f, v))
            ==> !apply(m, trace_fields(custom, root, sels, fields, 0)).gc_queue.contains(e),
    ensures
        crate::store_spec::read_entity(
            crate::store_spec::write_query_v(custom, m, deps, root, Some(JsonV::Object(fields)), sels, key, false).m,
            read_deps,
            root,
            sels,
            0,
            Seq::empty(),
        ).out == Ok::<Seq<(Seq<char>, JsonV)>, crate::store_spec::ReadFault>(project_fields(sels, fields, 0)),
{
    let t = trace_fields(custom, root, sels, fields, 0);
    lemma_store_fields_trace(custom, m, deps, root, sels, fields, 0);
    let r = crate::store_spec::store_fields(custom, m, deps, None, root, sels, fields, 0);
    let a = apply(m, t);
    let w = crate::store_spec::write_query_v(custom, m, deps, root, Some(JsonV::Object(fields)), sels, key, false);
    assert(r.m == a);
    assert(w.m == a.set_dependencies(key, r.deps).collect_garbage());
    lemma_apply_layers(m, t);
    assert forall|op: WriteOp| t.contains(op) implies holds(w.m, op) by {
        let k = choose|k: int| 0 <= k < t.len() && t[k] == op;
        lemma_apply_stored(m, t, k);
        assert(unshadowed(m, op));
        match op {
            WriteOp::Rec(e, f, v) => {
                assert(!a.gc_queue.contains(e));
                crate::store_laws::lemma_no_layer_find(m.optimistic_records, e, f);
            },
            WriteOp::Lnk(e, f, l) => {
                crate::store_laws::lemma_no_layer_find(m.optimistic_links, e, f);
            },
        }
    }
    lemma_read_fields(custom, w.m, read_deps, root, sels, fields, 0, Seq::empty());
    assert(Seq::<(Seq<char>, JsonV)>::empty() + project_fields(sels, fields, 0) =~= project_fields(sels, fields, 0));
}

} // verus!
