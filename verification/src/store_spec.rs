use vstd::prelude::*;
use crate::data::{DataModel, LinkV};
use crate::json::JsonV;
use crate::selection::{FieldSelector, inner_of, pick, seq_height};

verus! {

/// The root entities are named after the operation type and have no id.
pub open spec fn is_root_v(t: Seq<char>) -> bool {
    t == "Query"@ || t == "Mutation"@ || t == "Subscription"@
}

/// The field under which every entity keeps its typename.
pub open spec fn typename_key() -> (Seq<char>, Seq<char>) {
    ("__typename"@, Seq::empty())
}

/// The value of the first field called `name` in an object.
pub open spec fn field_v(fields: Seq<(Seq<char>, JsonV)>, name: Seq<char>) -> Option<JsonV>
    decreases fields.len(),
{
    if fields.len() == 0 {
        None
    } else if fields[0].0 == name {
        Some(fields[0].1)
    } else {
        field_v(fields.drop_first(), name)
    }
}

/// The text of a string value.
pub open spec fn str_v(v: Option<JsonV>) -> Option<Seq<char>> {
    match v {
        Some(JsonV::Str(s)) => Some(s),
        _ => None,
    }
}

/// The key of an entity: its typename, a colon and its id.
pub open spec fn entity_key_v(typename: Seq<char>, id: Seq<char>) -> Seq<char> {
    typename + ":"@ + id
}

/// The key under which an entity is normalized. A root type is its own key; another type
/// takes the string at its custom key field, or else at `id`, or, when there is no `id`
/// field, at `_id`.
pub open spec fn key_of_entity_v(
    custom: Map<Seq<char>, Seq<char>>,
    typename: Seq<char>,
    fields: Seq<(Seq<char>, JsonV)>,
) -> Option<Seq<char>> {
    if is_root_v(typename) {
        Some(typename)
    } else {
        let id = if custom.contains_key(typename) {
            str_v(field_v(fields, custom[typename]))
        } else {
            str_v(
                match field_v(fields, "id"@) {
                    Some(v) => Some(v),
                    None => field_v(fields, "_id"@),
                },
            )
        };
        match id {
            Some(id) => Some(entity_key_v(typename, id)),
            None => None,
        }
    }
}

/// How a write ends: done, refused with a message, or at a point where it cannot go on
/// (a value of the wrong shape for its selection, or a union without a typename).
pub enum Outcome {
    Done,
    Failed(Seq<char>),
    Stuck,
}

/// The store, the entities recorded so far and the outcome after a write.
pub struct WriteStep {
    pub m: DataModel,
    pub deps: Seq<Seq<char>>,
    pub out: Outcome,
}

/// A record write into the optimistic layer `opt` when there is one, else into the base.
pub open spec fn put_record(m: DataModel, opt: Option<u64>, e: Seq<char>, f: (Seq<char>, Seq<char>), v: Option<JsonV>) -> DataModel {
    match opt {
        Some(k) => m.write_record_optimistic(k, e, f, v),
        None => m.write_record(e, f, v),
    }
}

/// A link write into the optimistic layer `opt` when there is one; the base layer only
/// takes links, not deletions.
pub open spec fn put_link(m: DataModel, opt: Option<u64>, e: Seq<char>, f: (Seq<char>, Seq<char>), l: Option<LinkV>) -> DataModel {
    match opt {
        Some(k) => m.write_link_optimistic(k, e, f, l),
        None => match l {
            Some(l) => m.write_link(e, f, l),
            None => m,
        },
    }
}

/// The typename of a union member, as its `__typename` record gives it.
pub open spec fn typename_of(m: DataModel, e: Seq<char>) -> Option<Seq<char>> {
    str_v(m.record(e, typename_key()))
}

/// The typename that a selector normalizes its entities under. For a union the cache
/// reads it from the entity that holds the field.
pub open spec fn sel_typename(m: DataModel, e: Seq<char>, sel: FieldSelector) -> Option<Seq<char>> {
    match sel {
        FieldSelector::Scalar(_, _) => None,
        FieldSelector::Object(_, _, t, _) => Some(t@),
        FieldSelector::Union(_, _, _) => typename_of(m, e),
    }
}

pub open spec fn object_error(e: Seq<char>, name: Seq<char>) -> Seq<char> {
    "Cache error: couldn't find index for "@ + e + ":"@ + name
}

pub open spec fn array_error(e: Seq<char>, f: (Seq<char>, Seq<char>)) -> Seq<char> {
    "Cache error: couldn't find index for "@ + e + ":"@ + f.0 + f.1
}

/// Store the value `v` of the field `sel` of entity `e`.
pub open spec fn store_data(
    custom: Map<Seq<char>, Seq<char>>,
    m: DataModel,
    deps: Seq<Seq<char>>,
    opt: Option<u64>,
    e: Seq<char>,
    sel: FieldSelector,
    v: JsonV,
) -> WriteStep
    decreases sel.height(), 2nat, 0int,
{
    match sel {
        FieldSelector::Scalar(_, _) => WriteStep { m: put_record(m, opt, e, sel.key_v(), Some(v)), deps, out: Outcome::Done },
        _ => if v is Array {
            store_array(custom, m, deps, opt, e, sel, v)
        } else {
            store_object(custom, m, deps, opt, e, sel, v)
        },
    }
}

/// Store an object (or null) under a field that links to one entity.
pub open spec fn store_object(
    custom: Map<Seq<char>, Seq<char>>,
    m: DataModel,
    deps: Seq<Seq<char>>,
    opt: Option<u64>,
    e: Seq<char>,
    sel: FieldSelector,
    v: JsonV,
) -> WriteStep
    decreases sel.height(), 1nat, 0int,
{
    match sel_typename(m, e, sel) {
        None => WriteStep { m, deps, out: Outcome::Stuck },
        Some(t) => match v {
            JsonV::Null => WriteStep { m: m.write_link(e, sel.key_v(), LinkV::Null), deps, out: Outcome::Done },
            JsonV::Object(fields) => match key_of_entity_v(custom, t, fields) {
                None => WriteStep { m, deps, out: Outcome::Failed(object_error(e, sel.name_v())) },
                Some(k) => {
                    proof {
                        crate::selection::lemma_inner_height(sel, t);
                    }
                    let r = store_fields(custom, m, deps.push(k), opt, k, inner_of(sel, t), fields, 0);
                    if r.out is Done {
                        WriteStep { m: put_link(r.m, opt, e, sel.key_v(), Some(LinkV::Single(k))), deps: r.deps, out: Outcome::Done }
                    } else {
                        r
                    }
                },
            },
            _ => WriteStep { m, deps, out: Outcome::Stuck },
        },
    }
}

/// Store each selected field of an object, in the order of the selection.
pub open spec fn store_fields(
    custom: Map<Seq<char>, Seq<char>>,
    m: DataModel,
    deps: Seq<Seq<char>>,
    opt: Option<u64>,
    e: Seq<char>,
    sels: Seq<FieldSelector>,
    fields: Seq<(Seq<char>, JsonV)>,
    i: int,
) -> WriteStep
    decreases seq_height(sels), 0nat, sels.len() - i,
{
    if 0 <= i < sels.len() {
        match field_v(fields, sels[i].name_v()) {
            None => WriteStep { m, deps, out: Outcome::Stuck },
            Some(v) => {
                proof {
                    crate::selection::lemma_seq_height(sels, i);
                }
                let r = store_data(custom, m, deps, opt, e, sels[i], v);
                if r.out is Done {
                    store_fields(custom, r.m, r.deps, opt, e, sels, fields, i + 1)
                } else {
                    r
                }
            },
        }
    } else {
        WriteStep { m, deps, out: Outcome::Done }
    }
}

/// Store a list of objects under a field that links to many entities.
pub open spec fn store_array(
    custom: Map<Seq<char>, Seq<char>>,
    m: DataModel,
    deps: Seq<Seq<char>>,
    opt: Option<u64>,
    e: Seq<char>,
    sel: FieldSelector,
    v: JsonV,
) -> WriteStep
    decreases sel.height(), 1nat, 0int,
{
    match sel_typename(m, e, sel) {
        None => WriteStep { m, deps, out: Outcome::Stuck },
        Some(t) => match v {
            JsonV::Array(items) => store_items(custom, m, deps, opt, e, sel, t, items, 0, Seq::empty()),
            _ => WriteStep { m, deps, out: Outcome::Stuck },
        },
    }
}

/// Store the items of a list from the `i`th on; `keys` holds the keys of those before.
pub open spec fn store_items(
    custom: Map<Seq<char>, Seq<char>>,
    m: DataModel,
    deps: Seq<Seq<char>>,
    opt: Option<u64>,
    e: Seq<char>,
    sel: FieldSelector,
    t: Seq<char>,
    items: Seq<JsonV>,
    i: int,
    keys: Seq<Seq<char>>,
) -> WriteStep
    decreases sel.height(), 0nat, items.len() - i,
{
    if sel is Scalar {
        WriteStep { m, deps, out: Outcome::Stuck }
    } else if 0 <= i < items.len() {
        match items[i] {
            JsonV::Object(fields) => match key_of_entity_v(custom, t, fields) {
                None => WriteStep { m, deps, out: Outcome::Failed(array_error(e, sel.key_v())) },
                Some(k) => {
                    proof {
                        crate::selection::lemma_inner_height(sel, t);
                    }
                    let r = store_fields(custom, m, deps.push(k), opt, k, inner_of(sel, t), fields, 0);
                    if r.out is Done {
                        store_items(custom, r.m, r.deps, opt, e, sel, t, items, i + 1, keys.push(k))
                    } else {
                        r
                    }
                },
            },
            _ => WriteStep { m, deps, out: Outcome::Stuck },
        }
    } else {
        WriteStep { m: put_link(m, opt, e, sel.key_v(), Some(LinkV::List(keys))), deps, out: Outcome::Done }
    }
}

/// Write the result of an operation: each selected field of the data under the root entity,
/// then, for a write that is not optimistic, the dependencies of the query and a collection.
pub open spec fn write_query_v(
    custom: Map<Seq<char>, Seq<char>>,
    m: DataModel,
    deps: Seq<Seq<char>>,
    root: Seq<char>,
    data: Option<JsonV>,
    selection: Seq<FieldSelector>,
    key: u64,
    optimistic: bool,
) -> WriteStep {
    match data {
        Some(JsonV::Object(fields)) => {
            let opt = if optimistic { Some(key) } else { None };
            let r = store_fields(custom, m, deps, opt, root, selection, fields, 0);
            if r.out is Done && !optimistic {
                WriteStep { m: r.m.set_dependencies(key, r.deps).collect_garbage(), ..r }
            } else {
                r
            }
        },
        _ => WriteStep { m, deps, out: Outcome::Done },
    }
}

/// The store with the entry of a query deleted: each field that the selection names is taken
/// out of the root entity, in every layer.
pub open spec fn delete_entry_v(m: DataModel, root: Seq<char>, sels: Seq<FieldSelector>) -> DataModel
    decreases sels.len(),
{
    if sels.len() == 0 {
        m
    } else {
        delete_entry_v(m, root, sels.drop_last()).delete_field(root, sels.last().key_v())
    }
}

/// Why a read found no result: a field is not in the cache, or what is there cannot be read.
pub enum ReadFault {
    Missing,
    Invalid(Seq<char>),
}

/// The entities visited so far and the value read.
pub struct ReadStep<T> {
    pub deps: Seq<Seq<char>>,
    pub out: Result<T, ReadFault>,
}

/// Read the field `sel` of entity `e`, following links to the entities they point to.
pub open spec fn read_field(m: DataModel, deps: Seq<Seq<char>>, e: Seq<char>, sel: FieldSelector) -> ReadStep<JsonV>
    decreases sel.height(), 2nat, 0int,
{
    match sel {
        FieldSelector::Scalar(_, _) => match m.record(e, sel.key_v()) {
            None => ReadStep { deps, out: Err(ReadFault::Missing) },
            Some(v) => ReadStep { deps, out: Ok(v) },
        },
        _ => match m.link(e, sel.key_v()) {
            None => ReadStep { deps, out: Err(ReadFault::Missing) },
            Some(LinkV::Null) => ReadStep { deps, out: Ok(JsonV::Null) },
            Some(LinkV::Single(k)) => {
                let inner = match sel {
                    FieldSelector::Union(_, _, vs) => match m.record(k, typename_key()) {
                        None => Err(ReadFault::Missing),
                        Some(JsonV::Str(t)) => Ok(t),
                        Some(_) => Err(ReadFault::Invalid("typename isn't a string"@)),
                    },
                    _ => Ok(Seq::empty()),
                };
                match inner {
                    Err(x) => ReadStep { deps, out: Err(x) },
                    Ok(t) => {
                        proof {
                            crate::selection::lemma_inner_height(sel, t);
                        }
                        let r = read_entity(m, deps.push(k), k, inner_of(sel, t), 0, Seq::empty());
                        match r.out {
                            Ok(fields) => ReadStep { deps: r.deps, out: Ok(JsonV::Object(fields)) },
                            Err(x) => ReadStep { deps: r.deps, out: Err(x) },
                        }
                    },
                }
            },
            Some(LinkV::List(ks)) => {
                let r = read_list(m, deps, sel, ks, 0, Seq::empty());
                match r.out {
                    Ok(items) => ReadStep { deps: r.deps, out: Ok(JsonV::Array(items)) },
                    Err(x) => ReadStep { deps: r.deps, out: Err(x) },
                }
            },
        },
    }
}

/// Read a field as an optional value: a null (a null record or a null link) gives `None`.
/// A link to one entity gives its selected fields without adding the entity to the
/// entities visited; a union takes the fields of the typename of that entity, which must be
/// there as a string. A list link is read as `read_field` reads it.
pub open spec fn read_optional(m: DataModel, deps: Seq<Seq<char>>, e: Seq<char>, sel: FieldSelector)
    -> ReadStep<Option<JsonV>>
{
    match sel {
        FieldSelector::Scalar(_, _) => match m.record(e, sel.key_v()) {
            None => ReadStep { deps, out: Err(ReadFault::Missing) },
            Some(JsonV::Null) => ReadStep { deps, out: Ok(None) },
            Some(v) => ReadStep { deps, out: Ok(Some(v)) },
        },
        _ => match m.link(e, sel.key_v()) {
            None => ReadStep { deps, out: Err(ReadFault::Missing) },
            Some(LinkV::Null) => ReadStep { deps, out: Ok(None) },
            Some(LinkV::Single(k)) => {
                let inner = match sel {
                    FieldSelector::Union(_, _, _) => match m.record(k, typename_key()) {
                        None => Err(ReadFault::Invalid("typename missing"@)),
                        Some(JsonV::Str(t)) => Ok(t),
                        Some(_) => Err(ReadFault::Invalid("typename not a string"@)),
                    },
                    _ => Ok(Seq::empty()),
                };
                match inner {
                    Err(x) => ReadStep { deps, out: Err(x) },
                    Ok(t) => {
                        let r = read_entity(m, deps, k, inner_of(sel, t), 0, Seq::empty());
                        match r.out {
                            Ok(fields) => ReadStep { deps: r.deps, out: Ok(Some(JsonV::Object(fields))) },
                            Err(x) => ReadStep { deps: r.deps, out: Err(x) },
                        }
                    },
                }
            },
            Some(LinkV::List(ks)) => {
                let r = read_list(m, deps, sel, ks, 0, Seq::empty());
                match r.out {
                    Ok(items) => ReadStep { deps: r.deps, out: Ok(Some(JsonV::Array(items))) },
                    Err(x) => ReadStep { deps: r.deps, out: Err(x) },
                }
            },
        },
    }
}

/// Read a field as a value of an enum. A scalar gives its stored value, whose variant the
/// reader takes from it; a union gives the typename of the entity it links to, which names
/// the variant, with the fields that this typename selects. The linked entity is not added
/// to the entities visited.
pub open spec fn read_variant(m: DataModel, deps: Seq<Seq<char>>, e: Seq<char>, sel: FieldSelector)
    -> ReadStep<(Option<Seq<char>>, JsonV)>
{
    match sel {
        FieldSelector::Scalar(_, _) => match m.record(e, sel.key_v()) {
            None => ReadStep { deps, out: Err(ReadFault::Missing) },
            Some(v) => ReadStep { deps, out: Ok((None, v)) },
        },
        FieldSelector::Union(_, _, _) => match m.link(e, sel.key_v()) {
            Some(LinkV::Single(k)) => match m.record(k, typename_key()) {
                None => ReadStep { deps, out: Err(ReadFault::Invalid("missing typename"@)) },
                Some(JsonV::Str(t)) => {
                    let r = read_entity(m, deps, k, inner_of(sel, t), 0, Seq::empty());
                    match r.out {
                        Ok(fields) => ReadStep { deps: r.deps, out: Ok((Some(t), JsonV::Object(fields))) },
                        Err(x) => ReadStep { deps: r.deps, out: Err(x) },
                    }
                },
                Some(_) => ReadStep { deps, out: Err(ReadFault::Invalid("typename not a string"@)) },
            },
            _ => ReadStep { deps, out: Err(ReadFault::Missing) },
        },
        FieldSelector::Object(_, _, _, _) => ReadStep { deps, out: Err(ReadFault::Missing) },
    }
}

/// The typename of a list member of a union: here a missing one cannot be read either.
pub open spec fn member_typename(m: DataModel, sel: FieldSelector, k: Seq<char>) -> Result<Seq<char>, ReadFault> {
    match sel {
        FieldSelector::Union(_, _, _) => match m.record(k, typename_key()) {
            None => Err(ReadFault::Invalid("missing typename"@)),
            Some(JsonV::Str(t)) => Ok(t),
            Some(_) => Err(ReadFault::Invalid("typename isn't a string"@)),
        },
        _ => Ok(Seq::empty()),
    }
}

/// Read the entities of a list link from the `i`th on; `acc` holds those before.
pub open spec fn read_list(
    m: DataModel,
    deps: Seq<Seq<char>>,
    sel: FieldSelector,
    ks: Seq<Seq<char>>,
    i: int,
    acc: Seq<JsonV>,
) -> ReadStep<Seq<JsonV>>
    decreases sel.height(), 1nat, ks.len() - i,
{
    if sel is Scalar {
        ReadStep { deps, out: Ok(acc) }
    } else if 0 <= i < ks.len() {
        match member_typename(m, sel, ks[i]) {
            Err(x) => ReadStep { deps, out: Err(x) },
            Ok(t) => {
                proof {
                    crate::selection::lemma_inner_height(sel, t);
                }
                let r = read_entity(m, deps.push(ks[i]), ks[i], inner_of(sel, t), 0, Seq::empty());
                match r.out {
                    Ok(fields) => read_list(m, r.deps, sel, ks, i + 1, acc.push(JsonV::Object(fields))),
                    Err(x) => ReadStep { deps: r.deps, out: Err(x) },
                }
            },
        }
    } else {
        ReadStep { deps, out: Ok(acc) }
    }
}

/// Read the selected fields of entity `e` from the `i`th on; `acc` holds those before.
pub open spec fn read_entity(
    m: DataModel,
    deps: Seq<Seq<char>>,
    e: Seq<char>,
    sels: Seq<FieldSelector>,
    i: int,
    acc: Seq<(Seq<char>, JsonV)>,
) -> ReadStep<Seq<(Seq<char>, JsonV)>>
    decreases seq_height(sels), 0nat, sels.len() - i,
{
    if 0 <= i < sels.len() {
        proof {
            crate::selection::lemma_seq_height(sels, i);
        }
        let r = read_field(m, deps, e, sels[i]);
        match r.out {
            Ok(v) => read_entity(m, r.deps, e, sels, i + 1, acc.push((sels[i].name_v(), v))),
            Err(x) => ReadStep { deps: r.deps, out: Err(x) },
        }
    } else {
        ReadStep { deps, out: Ok(acc) }
    }
}

/// The store, the entities invalidated so far, and whether the walk got stuck: on a union
/// member without a string typename, or on a deletion that `removal_stuck` rules out.
pub struct InvalidateStep {
    pub m: DataModel,
    pub inv: Seq<Seq<char>>,
    pub stuck: bool,
}

/// Invalidate the selected fields of entity `e`, which is recorded as invalidated unless it
/// is the `Mutation` root.
pub open spec fn invalidate_entity(
    m: DataModel,
    inv: Seq<Seq<char>>,
    opt: Option<u64>,
    e: Seq<char>,
    sels: Seq<FieldSelector>,
) -> InvalidateStep
    decreases seq_height(sels), 1nat, 0int,
{
    let inv2 = if e != "Mutation"@ { inv.push(e) } else { inv };
    invalidate_fields(m, inv2, opt, e, sels, 0)
}

pub open spec fn invalidate_fields(
    m: DataModel,
    inv: Seq<Seq<char>>,
    opt: Option<u64>,
    e: Seq<char>,
    sels: Seq<FieldSelector>,
    i: int,
) -> InvalidateStep
    decreases seq_height(sels), 0nat, sels.len() - i,
{
    if 0 <= i < sels.len() {
        proof {
            crate::selection::lemma_seq_height(sels, i);
        }
        let r = invalidate_field(m, inv, opt, e, sels[i]);
        if r.stuck {
            r
        } else {
            invalidate_fields(r.m, r.inv, opt, e, sels, i + 1)
        }
    } else {
        InvalidateStep { m, inv, stuck: false }
    }
}

/// Deleting a base record also drops a base link under the same field, which lowers the
/// count of the entity that held it: an entity without a count cannot be lowered.
pub open spec fn removal_stuck(m: DataModel, e: Seq<char>, f: (Seq<char>, Seq<char>)) -> bool {
    &&& m.records.contains_key(e)
    &&& crate::data::model_get(m.links, e, f) is Some
    &&& !m.ref_counts.contains_key(e)
}

/// A scalar is deleted; a link is followed to the entities it points to.
pub open spec fn invalidate_field(
    m: DataModel,
    inv: Seq<Seq<char>>,
    opt: Option<u64>,
    e: Seq<char>,
    sel: FieldSelector,
) -> InvalidateStep
    decreases sel.height(), 2nat, 0int,
{
    match sel {
        FieldSelector::Scalar(_, _) => if opt is None && removal_stuck(m, e, sel.key_v()) {
            InvalidateStep { m, inv, stuck: true }
        } else {
            InvalidateStep { m: put_record(m, opt, e, sel.key_v(), None), inv, stuck: false }
        },
        _ => match m.link(e, sel.key_v()) {
            Some(LinkV::Single(k)) => invalidate_target(m, inv, opt, sel, k),
            Some(LinkV::List(ks)) => invalidate_list(m, inv, opt, sel, ks, 0),
            _ => InvalidateStep { m, inv, stuck: false },
        },
    }
}

pub open spec fn invalidate_target(
    m: DataModel,
    inv: Seq<Seq<char>>,
    opt: Option<u64>,
    sel: FieldSelector,
    k: Seq<char>,
) -> InvalidateStep
    decreases sel.height(), 1nat, 0int,
{
    match sel {
        FieldSelector::Scalar(_, _) => InvalidateStep { m, inv, stuck: false },
        FieldSelector::Object(_, _, _, inner) => {
            proof {
                crate::selection::lemma_inner_height(sel, Seq::empty());
            }
            invalidate_entity(m, inv, opt, k, inner@)
        },
        FieldSelector::Union(_, _, vs) => match typename_of(m, k) {
            None => InvalidateStep { m, inv, stuck: true },
            Some(t) => {
                proof {
                    crate::selection::lemma_inner_height(sel, t);
                }
                invalidate_entity(m, inv, opt, k, pick(vs@, t))
            },
        },
    }
}

pub open spec fn invalidate_list(
    m: DataModel,
    inv: Seq<Seq<char>>,
    opt: Option<u64>,
    sel: FieldSelector,
    ks: Seq<Seq<char>>,
    i: int,
) -> InvalidateStep
    decreases sel.height(), 1nat, ks.len() - i,
{
    if 0 <= i < ks.len() {
        let r = invalidate_target(m, inv, opt, sel, ks[i]);
        if r.stuck {
            r
        } else {
            invalidate_list(r.m, r.inv, opt, sel, ks, i + 1)
        }
    } else {
        InvalidateStep { m, inv, stuck: false }
    }
}

/// Strictly ascending, so each number once.
pub open spec fn ascending(s: Seq<u64>) -> bool {
    forall|a: int, b: int| 0 <= a < b < s.len() ==> s[a] < s[b]
}

/// The query `q` is to run again after the entities `entities` changed: one of them but
/// the root `Query` has it as a dependent, and it is not the query that made the change.
pub open spec fn rerun_v(m: DataModel, entities: Seq<Seq<char>>, originating: u64, q: u64) -> bool {
    &&& q != originating
    &&& exists|k: int| 0 <= k < entities.len() && entities[k] != "Query"@ && #[trigger] m.dependents(entities[k]).contains(q)
}

/// Invalidate what an operation's selection reaches from the root entity; for a write that
/// is not optimistic the operation's optimistic layer is dropped as well.
pub open spec fn invalidate_query_v(
    m: DataModel,
    inv: Seq<Seq<char>>,
    root: Seq<char>,
    has_data: bool,
    selection: Seq<FieldSelector>,
    key: u64,
    optimistic: bool,
) -> InvalidateStep {
    if !has_data {
        InvalidateStep { m, inv, stuck: false }
    } else {
        let opt = if optimistic { Some(key) } else { None };
        let r = invalidate_entity(m, inv, opt, root, selection);
        if r.stuck || optimistic {
            r
        } else {
            InvalidateStep { m: r.m.clear_optimistic_layer(key), ..r }
        }
    }
}

} // verus!
