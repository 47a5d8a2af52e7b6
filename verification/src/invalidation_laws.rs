use vstd::prelude::*;
use crate::data::{DataModel, LinkV, model_get};
use crate::selection::{FieldSelector, seq_height};
use crate::store_laws::{lemma_invalidate_fields_erases, lemma_invalidate_list_erases, lemma_no_layer_find, no_layer_holds, records_only_erased};
use crate::store_spec::{invalidate_entity, invalidate_field, invalidate_fields, invalidate_list, invalidate_query_v, invalidate_target};

verus! {

/// Every entity recorded in `a` is still recorded in `b`.
pub open spec fn inv_grows(a: Seq<Seq<char>>, b: Seq<Seq<char>>) -> bool {
    forall|x: Seq<char>| a.contains(x) ==> #[trigger] b.contains(x)
}

/// What a base invalidation keeps of the root entity `root`, when that entity has no
/// records: it still has none, and its links, base and optimistic, stay as they were.
pub open spec fn root_kept(a: DataModel, b: DataModel, root: Seq<char>) -> bool {
    &&& !b.records.contains_key(root)
    &&& b.optimistic_links == a.optimistic_links
    &&& forall|f: (Seq<char>, Seq<char>)| #[trigger] model_get(b.links, root, f) == model_get(a.links, root, f)
}

proof fn lemma_root_kept_trans(a: DataModel, b: DataModel, c: DataModel, root: Seq<char>)
    requires
        root_kept(a, b, root),
        root_kept(b, c, root),
    ensures
        root_kept(a, c, root),
{
    assert forall|f: (Seq<char>, Seq<char>)| #[trigger] model_get(c.links, root, f) == model_get(a.links, root, f) by {
        assert(model_get(c.links, root, f) == model_get(b.links, root, f));
    }
}

/// Base records only go away: a record of `b` is the record of `a`; optimistic records stay.
pub open spec fn shrinks(a: DataModel, b: DataModel) -> bool {
    &&& b.optimistic_records == a.optimistic_records
    &&& forall|e: Seq<char>, f: (Seq<char>, Seq<char>)| #[trigger] model_get(b.records, e, f) is None
        || model_get(b.records, e, f) == model_get(a.records, e, f)
}

proof fn lemma_shrinks_trans(a: DataModel, b: DataModel, c: DataModel)
    requires
        shrinks(a, b),
        shrinks(b, c),
    ensures
        shrinks(a, c),
{
    assert forall|e: Seq<char>, f: (Seq<char>, Seq<char>)| #[trigger] model_get(c.records, e, f) is None
        || model_get(c.records, e, f) == model_get(a.records, e, f) by {
        assert(model_get(b.records, e, f) is None || model_get(b.records, e, f) == model_get(a.records, e, f));
    }
}

/// A typename still there after records went away is the one that was there before.
proof fn lemma_shrinks_typename(a: DataModel, b: DataModel, k: Seq<char>)
    requires
        shrinks(a, b),
        crate::store_spec::typename_of(b, k) is Some,
    ensures
        crate::store_spec::typename_of(b, k) == crate::store_spec::typename_of(a, k),
{
    assert(model_get(b.records, k, crate::store_spec::typename_key()) is None
        || model_get(b.records, k, crate::store_spec::typename_key()) == model_get(a.records, k, crate::store_spec::typename_key()));
}

proof fn lemma_root_kept_erase(m: DataModel, root: Seq<char>, e: Seq<char>, f: (Seq<char>, Seq<char>))
    requires
        !m.records.contains_key(root),
    ensures
        root_kept(m, m.write_record(e, f, None), root),
{
    let r = m.write_record(e, f, None);
    if m.records.contains_key(e) {
        assert(e != root);
        assert forall|f2: (Seq<char>, Seq<char>)| #[trigger] model_get(r.links, root, f2) == model_get(m.links, root, f2) by {
        }
        assert(!r.records.contains_key(root));
    }
}

/// A base walk keeps the entities recorded so far and, when the root entity has no records,
/// what `root_kept` says of it.
proof fn lemma_walk_entity(m: DataModel, inv: Seq<Seq<char>>, e: Seq<char>, sels: Seq<FieldSelector>, root: Seq<char>)
    ensures
        inv_grows(inv, invalidate_entity(m, inv, None, e, sels).inv),
        shrinks(m, invalidate_entity(m, inv, None, e, sels).m),
        !m.records.contains_key(root) ==> root_kept(m, invalidate_entity(m, inv, None, e, sels).m, root),
    decreases seq_height(sels), 1nat, 0int,
{
    let inv2 = if e != "Mutation"@ { inv.push(e) } else { inv };
    lemma_walk_fields(m, inv2, e, sels, 0, root);
    assert forall|x: Seq<char>| inv.contains(x) implies #[trigger] inv2.contains(x) by {
        if e != "Mutation"@ {
            let i = choose|i: int| 0 <= i < inv.len() && inv[i] == x;
            assert(inv2[i] == x);
        }
    }
}

proof fn lemma_walk_fields(m: DataModel, inv: Seq<Seq<char>>, e: Seq<char>, sels: Seq<FieldSelector>, i: int, root: Seq<char>)
    ensures
        inv_grows(inv, invalidate_fields(m, inv, None, e, sels, i).inv),
        shrinks(m, invalidate_fields(m, inv, None, e, sels, i).m),
        !m.records.contains_key(root) ==> root_kept(m, invalidate_fields(m, inv, None, e, sels, i).m, root),
    decreases seq_height(sels), 0nat, sels.len() - i,
{
    if 0 <= i < sels.len() {
        crate::selection::lemma_seq_height(sels, i);
        lemma_walk_field(m, inv, e, sels[i], root);
        let r = invalidate_field(m, inv, None, e, sels[i]);
        if !r.stuck {
            lemma_walk_fields(r.m, r.inv, e, sels, i + 1, root);
            lemma_shrinks_trans(m, r.m, invalidate_fields(r.m, r.inv, None, e, sels, i + 1).m);
            if !m.records.contains_key(root) {
                lemma_root_kept_trans(m, r.m, invalidate_fields(r.m, r.inv, None, e, sels, i + 1).m, root);
            }
        }
    }
}

proof fn lemma_walk_field(m: DataModel, inv: Seq<Seq<char>>, e: Seq<char>, sel: FieldSelector, root: Seq<char>)
    ensures
        inv_grows(inv, invalidate_field(m, inv, None, e, sel).inv),
        shrinks(m, invalidate_field(m, inv, None, e, sel).m),
        !m.records.contains_key(root) ==> root_kept(m, invalidate_field(m, inv, None, e, sel).m, root),
    decreases sel.height(), 2nat, 0int,
{
    match sel {
        FieldSelector::Scalar(_, _) => {
            if !m.records.contains_key(root) {
                lemma_root_kept_erase(m, root, e, sel.key_v());
            }
        },
        _ => match m.link(e, sel.key_v()) {
            Some(LinkV::Single(k)) => lemma_walk_target(m, inv, sel, k, root),
            Some(LinkV::List(ks)) => lemma_walk_list(m, inv, sel, ks, 0, root),
            _ => {},
        },
    }
}

proof fn lemma_walk_target(m: DataModel, inv: Seq<Seq<char>>, sel: FieldSelector, k: Seq<char>, root: Seq<char>)
    ensures
        inv_grows(inv, invalidate_target(m, inv, None, sel, k).inv),
        shrinks(m, invalidate_target(m, inv, None, sel, k).m),
        !m.records.contains_key(root) ==> root_kept(m, invalidate_target(m, inv, None, sel, k).m, root),
    decreases sel.height(), 1nat, 0int,
{
    match sel {
        FieldSelector::Scalar(_, _) => {},
        FieldSelector::Object(_, _, _, inner) => {
            crate::selection::lemma_inner_height(sel, Seq::empty());
            lemma_walk_entity(m, inv, k, inner@, root);
        },
        FieldSelector::Union(_, _, vs) => match crate::store_spec::typename_of(m, k) {
            None => {},
            Some(t) => {
                crate::selection::lemma_inner_height(sel, t);
                lemma_walk_entity(m, inv, k, crate::selection::pick(vs@, t), root);
            },
        },
    }
}

proof fn lemma_walk_list(m: DataModel, inv: Seq<Seq<char>>, sel: FieldSelector, ks: Seq<Seq<char>>, i: int, root: Seq<char>)
    ensures
        inv_grows(inv, invalidate_list(m, inv, None, sel, ks, i).inv),
        shrinks(m, invalidate_list(m, inv, None, sel, ks, i).m),
        !m.records.contains_key(root) ==> root_kept(m, invalidate_list(m, inv, None, sel, ks, i).m, root),
    decreases sel.height(), 1nat, ks.len() - i,
{
    if 0 <= i < ks.len() {
        lemma_walk_target(m, inv, sel, ks[i], root);
        let r = invalidate_target(m, inv, None, sel, ks[i]);
        if !r.stuck {
            lemma_walk_list(r.m, r.inv, sel, ks, i + 1, root);
            lemma_shrinks_trans(m, r.m, invalidate_list(r.m, r.inv, None, sel, ks, i + 1).m);
            if !m.records.contains_key(root) {
                lemma_root_kept_trans(m, r.m, invalidate_list(r.m, r.inv, None, sel, ks, i + 1).m, root);
            }
        }
    }
}

/// Base links under the field key `f` stay as they were, and so do the optimistic links.
pub open spec fn key_kept(a: DataModel, b: DataModel, f: (Seq<char>, Seq<char>)) -> bool {
    &&& b.optimistic_links == a.optimistic_links
    &&& forall|e: Seq<char>| #[trigger] model_get(b.links, e, f) == model_get(a.links, e, f)
}

proof fn lemma_key_kept_trans(a: DataModel, b: DataModel, c: DataModel, f: (Seq<char>, Seq<char>))
    requires
        key_kept(a, b, f),
        key_kept(b, c, f),
    ensures
        key_kept(a, c, f),
{
    assert forall|e: Seq<char>| #[trigger] model_get(c.links, e, f) == model_get(a.links, e, f) by {
        assert(model_get(c.links, e, f) == model_get(b.links, e, f));
    }
}

/// A base walk whose selection names no scalar of the key `f` keeps every link under `f`:
/// deleting a scalar only ever drops the base link under the scalar's own key.
proof fn lemma_keep_entity(m: DataModel, inv: Seq<Seq<char>>, e: Seq<char>, sels: Seq<FieldSelector>, f: (Seq<char>, Seq<char>))
    requires
        !crate::selection::names_scalar(sels, f),
    ensures
        key_kept(m, invalidate_entity(m, inv, None, e, sels).m, f),
    decreases seq_height(sels), 1nat, 0int,
{
    let inv2 = if e != "Mutation"@ { inv.push(e) } else { inv };
    lemma_keep_fields(m, inv2, e, sels, 0, f);
}

proof fn lemma_keep_fields(m: DataModel, inv: Seq<Seq<char>>, e: Seq<char>, sels: Seq<FieldSelector>, i: int, f: (Seq<char>, Seq<char>))
    requires
        !crate::selection::names_scalar(sels, f),
    ensures
        key_kept(m, invalidate_fields(m, inv, None, e, sels, i).m, f),
    decreases seq_height(sels), 0nat, sels.len() - i,
{
    if 0 <= i < sels.len() {
        crate::selection::lemma_seq_height(sels, i);
        crate::selection::lemma_names_index(sels, f, i);
        lemma_keep_field(m, inv, e, sels[i], f);
        let r = invalidate_field(m, inv, None, e, sels[i]);
        if !r.stuck {
            lemma_keep_fields(r.m, r.inv, e, sels, i + 1, f);
            lemma_key_kept_trans(m, r.m, invalidate_fields(r.m, r.inv, None, e, sels, i + 1).m, f);
        }
    }
}

proof fn lemma_keep_field(m: DataModel, inv: Seq<Seq<char>>, e: Seq<char>, sel: FieldSelector, f: (Seq<char>, Seq<char>))
    requires
        !crate::selection::sel_names_scalar(sel, f),
    ensures
        key_kept(m, invalidate_field(m, inv, None, e, sel).m, f),
    decreases sel.height(), 2nat, 0int,
{
    match sel {
        FieldSelector::Scalar(_, _) => {
            let r = m.write_record(e, sel.key_v(), None);
            assert forall|e2: Seq<char>| #[trigger] model_get(r.links, e2, f) == model_get(m.links, e2, f) by {
            }
        },
        _ => match m.link(e, sel.key_v()) {
            Some(LinkV::Single(k)) => lemma_keep_target(m, inv, sel, k, f),
            Some(LinkV::List(ks)) => lemma_keep_list(m, inv, sel, ks, 0, f),
            _ => {},
        },
    }
}

proof fn lemma_keep_target(m: DataModel, inv: Seq<Seq<char>>, sel: FieldSelector, k: Seq<char>, f: (Seq<char>, Seq<char>))
    requires
        !crate::selection::sel_names_scalar(sel, f),
    ensures
        key_kept(m, invalidate_target(m, inv, None, sel, k).m, f),
    decreases sel.height(), 1nat, 0int,
{
    match sel {
        FieldSelector::Scalar(_, _) => {},
        FieldSelector::Object(_, _, _, inner) => {
            crate::selection::lemma_inner_height(sel, Seq::empty());
            lemma_keep_entity(m, inv, k, inner@, f);
        },
        FieldSelector::Union(_, _, vs) => match crate::store_spec::typename_of(m, k) {
            None => {},
            Some(t) => {
                crate::selection::lemma_inner_height(sel, t);
                crate::selection::lemma_names_pick(vs@, t, f);
                lemma_keep_entity(m, inv, k, crate::selection::pick(vs@, t), f);
            },
        },
    }
}

proof fn lemma_keep_list(m: DataModel, inv: Seq<Seq<char>>, sel: FieldSelector, ks: Seq<Seq<char>>, i: int, f: (Seq<char>, Seq<char>))
    requires
        !crate::selection::sel_names_scalar(sel, f),
    ensures
        key_kept(m, invalidate_list(m, inv, None, sel, ks, i).m, f),
    decreases sel.height(), 1nat, ks.len() - i,
{
    if 0 <= i < ks.len() {
        lemma_keep_target(m, inv, sel, ks[i], f);
        let r = invalidate_target(m, inv, None, sel, ks[i]);
        if !r.stuck {
            lemma_keep_list(r.m, r.inv, sel, ks, i + 1, f);
            lemma_key_kept_trans(m, r.m, invalidate_list(r.m, r.inv, None, sel, ks, i + 1).m, f);
        }
    }
}

/// An entity that a base invalidation walks into is recorded (unless it is the `Mutation`
/// root), and each scalar that the walk selects on it loses its base record.
proof fn lemma_entity_cleared(m: DataModel, inv: Seq<Seq<char>>, k: Seq<char>, inner: Seq<FieldSelector>, s: int)
    requires
        0 <= s < inner.len(),
        inner[s] is Scalar,
        k != "Mutation"@,
        !invalidate_entity(m, inv, None, k, inner).stuck,
    ensures
        invalidate_entity(m, inv, None, k, inner).inv.contains(k),
        model_get(invalidate_entity(m, inv, None, k, inner).m.records, k, inner[s].key_v()) is None,
{
    let inv2 = inv.push(k);
    crate::store_laws::lemma_invalidate_fields_clears(m, inv2, k, inner, 0, s);
    lemma_walk_fields(m, inv2, k, inner, 0, k);
    assert(inv2.contains(k)) by {
        assert(inv2[inv.len() as int] == k);
    }
}

/// The selection that a field's selector applies to the entity `k` it links to: an object's
/// inner selection, or the variant of a union that the typename `k` has in `m` picks.
pub open spec fn target_inner(sel: FieldSelector, m: DataModel, k: Seq<char>) -> Option<Seq<FieldSelector>> {
    match sel {
        FieldSelector::Scalar(_, _) => None,
        FieldSelector::Object(_, _, _, inner) => Some(inner@),
        FieldSelector::Union(_, _, vs) => match crate::store_spec::typename_of(m, k) {
            Some(t) => Some(crate::selection::pick(vs@, t)),
            None => None,
        },
    }
}

/// Walking into an entity that went through applies the selection `target_inner` gives,
/// as the store stood before any record went away.
proof fn lemma_target_is_entity(m0: DataModel, m: DataModel, inv: Seq<Seq<char>>, sel: FieldSelector, k: Seq<char>, inner: Seq<FieldSelector>)
    requires
        shrinks(m0, m),
        target_inner(sel, m0, k) == Some(inner),
        !invalidate_target(m, inv, None, sel, k).stuck,
    ensures
        invalidate_target(m, inv, None, sel, k) == invalidate_entity(m, inv, None, k, inner),
{
    match sel {
        FieldSelector::Union(_, _, vs) => {
            lemma_shrinks_typename(m0, m, k);
        },
        _ => {},
    }
}

/// The walk of a list of entities goes into each of them from the `i`th on.
proof fn lemma_list_cleared(
    m0: DataModel,
    m: DataModel,
    inv: Seq<Seq<char>>,
    sel: FieldSelector,
    inner: Seq<FieldSelector>,
    ks: Seq<Seq<char>>,
    i: int,
    q: int,
    s: int,
)
    requires
        shrinks(m0, m),
        target_inner(sel, m0, ks[q]) == Some(inner),
        0 <= s < inner.len(),
        inner[s] is Scalar,
        0 <= i <= q < ks.len(),
        ks[q] != "Mutation"@,
        !invalidate_list(m, inv, None, sel, ks, i).stuck,
    ensures
        invalidate_list(m, inv, None, sel, ks, i).inv.contains(ks[q]),
        model_get(invalidate_list(m, inv, None, sel, ks, i).m.records, ks[q], inner[s].key_v()) is None,
    decreases ks.len() - i,
{
    let t = invalidate_target(m, inv, None, sel, ks[i]);
    let rest = invalidate_list(t.m, t.inv, None, sel, ks, i + 1);
    lemma_walk_target(m, inv, sel, ks[i], ks[i]);
    if q == i {
        lemma_target_is_entity(m0, m, inv, sel, ks[i], inner);
        lemma_entity_cleared(m, inv, ks[i], inner, s);
        lemma_walk_list(t.m, t.inv, sel, ks, i + 1, ks[i]);
        lemma_invalidate_list_erases(t.m, t.inv, sel, ks, i + 1);
        assert(records_only_erased(t.m, rest.m));
    } else {
        lemma_shrinks_trans(m0, m, t.m);
        lemma_list_cleared(m0, t.m, t.inv, sel, inner, ks, i + 1, q, s);
    }
}

/// The walk of the root's fields from the `i`th on goes into each entity that the `j`th
/// field links to, as the store held it before the walk.
proof fn lemma_fields_reach(
    m0: DataModel,
    m: DataModel,
    inv: Seq<Seq<char>>,
    root: Seq<char>,
    sels: Seq<FieldSelector>,
    i: int,
    j: int,
    inner: Seq<FieldSelector>,
    k: Seq<char>,
    s: int,
)
    requires
        shrinks(m0, m),
        0 <= i <= j < sels.len(),
        (!m.records.contains_key(root) || !crate::selection::names_scalar(sels, sels[j].key_v())),
        target_inner(sels[j], m0, k) == Some(inner),
        0 <= s < inner.len(),
        inner[s] is Scalar,
        m.link(root, sels[j].key_v()) matches Some(l) && l.keys().contains(k),
        k != "Mutation"@,
        !invalidate_fields(m, inv, None, root, sels, i).stuck,
    ensures
        invalidate_fields(m, inv, None, root, sels, i).inv.contains(k),
        model_get(invalidate_fields(m, inv, None, root, sels, i).m.records, k, inner[s].key_v()) is None,
    decreases sels.len() - i,
{
    crate::selection::lemma_seq_height(sels, i);
    let r = invalidate_field(m, inv, None, root, sels[i]);
    let rest = invalidate_fields(r.m, r.inv, None, root, sels, i + 1);
    lemma_walk_field(m, inv, root, sels[i], root);
    if i < j {
        if m.records.contains_key(root) {
            crate::selection::lemma_names_index(sels, sels[j].key_v(), i);
            lemma_keep_field(m, inv, root, sels[i], sels[j].key_v());
        }
        assert(r.m.link(root, sels[j].key_v()) == m.link(root, sels[j].key_v()));
        lemma_shrinks_trans(m0, m, r.m);
        lemma_fields_reach(m0, r.m, r.inv, root, sels, i + 1, j, inner, k, s);
    } else {
        let sel = sels[j];
        match m.link(root, sel.key_v()) {
            Some(LinkV::Single(k1)) => {
                assert(seq![k1].contains(k));
                assert(seq![k1][0] == k1);
                assert(k == k1);
                lemma_target_is_entity(m0, m, inv, sel, k, inner);
                lemma_entity_cleared(m, inv, k, inner, s);
            },
            Some(LinkV::List(ks)) => {
                let q = choose|q: int| 0 <= q < ks.len() && ks[q] == k;
                lemma_list_cleared(m0, m, inv, sel, inner, ks, 0, q, s);
            },
            _ => {},
        }
        lemma_walk_fields(r.m, r.inv, root, sels, i + 1, k);
        lemma_invalidate_fields_erases(r.m, r.inv, root, sels, i + 1);
        assert(records_only_erased(r.m, rest.m));
    }
}

/// A mutation's result invalidates every entity that its selection reaches through a link
/// of the root, each member of a list link included: each entity that an object or union
/// field of the root links to is recorded among the invalidated entities (so the queries
/// that depend on it run again), and each scalar that the field selects on it (for a union,
/// the variant of the entity's typename) is gone from it, so a reader that no optimistic
/// layer answers finds it missing. This holds where the invalidation goes through, and
/// where the root entity has no records of its own or the field's key is not also the key
/// of a scalar that the selection names (deleting such a scalar of the root would drop the
/// link under the same key before the walk got to it).
pub proof fn law_invalidation_reaches_linked_entities(
    m: DataModel,
    inv: Seq<Seq<char>>,
    root: Seq<char>,
    sels: Seq<FieldSelector>,
    key: u64,
    j: int,
    inner: Seq<FieldSelector>,
    k: Seq<char>,
    s: int,
)
    requires
        0 <= j < sels.len(),
        (!m.records.contains_key(root) || !crate::selection::names_scalar(sels, sels[j].key_v())),
        m.link(root, sels[j].key_v()) matches Some(l) && l.keys().contains(k),
        target_inner(sels[j], m, k) == Some(inner),
        0 <= s < inner.len(),
        inner[s] is Scalar,
        k != "Mutation"@,
        !invalidate_query_v(m, inv, root, true, sels, key, false).stuck,
    ensures
        invalidate_query_v(m, inv, root, true, sels, key, false).inv.contains(k),
        model_get(invalidate_query_v(m, inv, root, true, sels, key, false).m.records, k, inner[s].key_v()) is None,
        no_layer_holds(m.optimistic_records, k, inner[s].key_v())
            ==> invalidate_query_v(m, inv, root, true, sels, key, false).m.record(k, inner[s].key_v()) is None,
{
    let inv2 = if root != "Mutation"@ { inv.push(root) } else { inv };
    let r = invalidate_fields(m, inv2, None, root, sels, 0);
    lemma_fields_reach(m, m, inv2, root, sels, 0, j, inner, k, s);
    lemma_invalidate_fields_erases(m, inv2, root, sels, 0);
    let f = inner[s].key_v();
    if no_layer_holds(m.optimistic_records, k, f) {
        let src = m.optimistic_records;
        let d = crate::data::model_layers_drop(src, key);
        assert forall|i: int| 0 <= i < d.len() implies model_get(#[trigger] d[i].1, k, f) is None by {
            match crate::data::model_pos(src, key) {
                Some(p) => {
                    if i < p {
                        assert(d[i] == src[i]);
                    } else {
                        assert(d[i] == src[i + 1]);
                    }
                },
                None => {},
            }
        }
        lemma_no_layer_find(d, k, f);
    }
}

proof fn lemma_target_records(m: DataModel, inv: Seq<Seq<char>>, sel: FieldSelector, k: Seq<char>)
    requires
        !(sel is Scalar),
        k != "Mutation"@,
        !invalidate_target(m, inv, None, sel, k).stuck,
    ensures
        invalidate_target(m, inv, None, sel, k).inv.contains(k),
{
    let inv2 = inv.push(k);
    assert(inv2[inv.len() as int] == k);
    match sel {
        FieldSelector::Object(_, _, _, inner) => {
            lemma_walk_fields(m, inv2, k, inner@, 0, k);
        },
        FieldSelector::Union(_, _, vs) => match crate::store_spec::typename_of(m, k) {
            Some(t) => {
                lemma_walk_fields(m, inv2, k, crate::selection::pick(vs@, t), 0, k);
            },
            None => {},
        },
        _ => {},
    }
}

proof fn lemma_list_records(m: DataModel, inv: Seq<Seq<char>>, sel: FieldSelector, ks: Seq<Seq<char>>, i: int, q: int)
    requires
        !(sel is Scalar),
        0 <= i <= q < ks.len(),
        ks[q] != "Mutation"@,
        !invalidate_list(m, inv, None, sel, ks, i).stuck,
    ensures
        invalidate_list(m, inv, None, sel, ks, i).inv.contains(ks[q]),
    decreases ks.len() - i,
{
    let t = invalidate_target(m, inv, None, sel, ks[i]);
    if q == i {
        lemma_target_records(m, inv, sel, ks[i]);
        lemma_walk_list(t.m, t.inv, sel, ks, i + 1, ks[i]);
    } else {
        lemma_list_records(t.m, t.inv, sel, ks, i + 1, q);
    }
}

proof fn lemma_fields_records(
    m: DataModel,
    inv: Seq<Seq<char>>,
    root: Seq<char>,
    sels: Seq<FieldSelector>,
    i: int,
    j: int,
    k: Seq<char>,
)
    requires
        0 <= i <= j < sels.len(),
        (!m.records.contains_key(root) || !crate::selection::names_scalar(sels, sels[j].key_v())),
        !(sels[j] is Scalar),
        m.link(root, sels[j].key_v()) matches Some(l) && l.keys().contains(k),
        k != "Mutation"@,
        !invalidate_fields(m, inv, None, root, sels, i).stuck,
    ensures
        invalidate_fields(m, inv, None, root, sels, i).inv.contains(k),
    decreases sels.len() - i,
{
    crate::selection::lemma_seq_height(sels, i);
    let r = invalidate_field(m, inv, None, root, sels[i]);
    lemma_walk_field(m, inv, root, sels[i], root);
    if i < j {
        if m.records.contains_key(root) {
            crate::selection::lemma_names_index(sels, sels[j].key_v(), i);
            lemma_keep_field(m, inv, root, sels[i], sels[j].key_v());
        }
        assert(r.m.link(root, sels[j].key_v()) == m.link(root, sels[j].key_v()));
        lemma_fields_records(r.m, r.inv, root, sels, i + 1, j, k);
    } else {
        let sel = sels[j];
        match m.link(root, sel.key_v()) {
            Some(LinkV::Single(k1)) => {
                assert(seq![k1][0] == k1);
                assert(k == k1);
                lemma_target_records(m, inv, sel, k);
            },
            Some(LinkV::List(ks)) => {
                let q = choose|q: int| 0 <= q < ks.len() && ks[q] == k;
                lemma_list_records(m, inv, sel, ks, 0, q);
            },
            _ => {},
        }
        lemma_walk_fields(r.m, r.inv, root, sels, i + 1, k);
    }
}

/// A mutation's result records, among the invalidated entities, the root (unless it is the
/// `Mutation` root) and every entity that an object or union field of the root links to,
/// each member of a list link included; so every query that depends on one of them runs
/// again. This holds where the invalidation goes through, and where the root entity has no
/// records of its own or the field's key is not also the key of a scalar that the selection
/// names.
pub proof fn law_invalidation_records_linked_entities(
    m: DataModel,
    inv: Seq<Seq<char>>,
    root: Seq<char>,
    sels: Seq<FieldSelector>,
    key: u64,
    j: int,
    k: Seq<char>,
)
    requires
        0 <= j < sels.len(),
        (!m.records.contains_key(root) || !crate::selection::names_scalar(sels, sels[j].key_v())),
        !(sels[j] is Scalar),
        m.link(root, sels[j].key_v()) matches Some(l) && l.keys().contains(k),
        k != "Mutation"@,
        !invalidate_query_v(m, inv, root, true, sels, key, false).stuck,
    ensures
        invalidate_query_v(m, inv, root, true, sels, key, false).inv.contains(k),
        root != "Mutation"@ ==> invalidate_query_v(m, inv, root, true, sels, key, false).inv.contains(root),
        inv_grows(inv, invalidate_query_v(m, inv, root, true, sels, key, false).inv),
{
    let inv2 = if root != "Mutation"@ { inv.push(root) } else { inv };
    lemma_fields_records(m, inv2, root, sels, 0, j, k);
    lemma_walk_fields(m, inv2, root, sels, 0, root);
    assert forall|x: Seq<char>| inv.contains(x) implies #[trigger] inv2.contains(x) by {
        if root != "Mutation"@ {
            let i = choose|i: int| 0 <= i < inv.len() && inv[i] == x;
            assert(inv2[i] == x);
        }
    }
    if root != "Mutation"@ {
        assert(inv2[inv.len() as int] == root);
    }
}

} // verus!
