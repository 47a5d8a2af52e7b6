use vstd::prelude::*;
use crate::data::{DataModel, LayerModel, LinkV};
use crate::json::JsonV;
use crate::selection::FieldSelector;
use crate::store_spec::ReadStep;

verus! {

/// Every selector selects a scalar.
pub open spec fn all_scalars(sels: Seq<FieldSelector>) -> bool {
    forall|j: int| 0 <= j < sels.len() ==> #[trigger] sels[j] is Scalar
}

/// The object has a field for every selected name.
pub open spec fn covers(fields: Seq<(Seq<char>, JsonV)>, sels: Seq<FieldSelector>) -> bool {
    forall|j: int| 0 <= j < sels.len() ==> crate::store_spec::field_v(fields, #[trigger] sels[j].name_v()) is Some
}

/// Each selected name with the value that the object has for it.
pub open spec fn selected(fields: Seq<(Seq<char>, JsonV)>, sels: Seq<FieldSelector>) -> Seq<(Seq<char>, JsonV)> {
    Seq::new(sels.len(), |j: int| (sels[j].name_v(), crate::store_spec::field_v(fields, sels[j].name_v())->0))
}

/// No optimistic layer holds the field.
pub open spec fn no_layer_holds<V>(s: Seq<(u64, LayerModel<V>)>, e: Seq<char>, f: (Seq<char>, Seq<char>)) -> bool {
    forall|i: int| 0 <= i < s.len() ==> crate::data::model_get(#[trigger] s[i].1, e, f) is None
}

pub proof fn lemma_no_layer_find<V>(s: Seq<(u64, LayerModel<V>)>, e: Seq<char>, f: (Seq<char>, Seq<char>))
    requires
        no_layer_holds(s, e, f),
    ensures
        crate::data::model_find(s, e, f) is None,
    decreases s.len(),
{
    if s.len() > 0 {
        assert(crate::data::model_get(s[0].1, e, f) is None);
        assert forall|i: int| 0 <= i < s.drop_first().len() implies crate::data::model_get(#[trigger] s.drop_first()[i].1, e, f) is None by {
            assert(s.drop_first()[i] == s[i + 1]);
        }
        lemma_no_layer_find(s.drop_first(), e, f);
    }
}

/// The first layer holding a field decides it when no other layer holds it.
proof fn lemma_find_sole_holder<V>(s: Seq<(u64, LayerModel<V>)>, e: Seq<char>, f: (Seq<char>, Seq<char>), p: int, v: V)
    requires
        0 <= p < s.len(),
        crate::data::model_get(s[p].1, e, f) == Some(v),
        forall|i: int| 0 <= i < s.len() && i != p ==> crate::data::model_get(#[trigger] s[i].1, e, f) is None,
    ensures
        crate::data::model_find(s, e, f) == Some(v),
    decreases s.len(),
{
    if p != 0 {
        assert(crate::data::model_get(s[0].1, e, f) is None);
        assert forall|i: int| 0 <= i < s.drop_first().len() && i != p - 1
            implies crate::data::model_get(#[trigger] s.drop_first()[i].1, e, f) is None by {
            assert(s.drop_first()[i] == s[i + 1]);
        }
        assert(s.drop_first()[p - 1] == s[p]);
        lemma_find_sole_holder(s.drop_first(), e, f, p - 1, v);
    }
}

/// A record written into the base layer is what readers see there, when no optimistic layer
/// holds the field.
pub proof fn law_record_read_after_write(m: DataModel, e: Seq<char>, f: (Seq<char>, Seq<char>), v: JsonV)
    requires
        no_layer_holds(m.optimistic_records, e, f),
    ensures
        m.write_record(e, f, Some(v)).record(e, f) == Some(v),
{
    lemma_no_layer_find(m.optimistic_records, e, f);
}

/// A base record write leaves every other field as readers saw it.
pub proof fn law_record_write_frame(
    m: DataModel,
    e: Seq<char>,
    f: (Seq<char>, Seq<char>),
    v: JsonV,
    e2: Seq<char>,
    f2: (Seq<char>, Seq<char>),
)
    requires
        e2 != e || f2 != f,
    ensures
        m.write_record(e, f, Some(v)).record(e2, f2) == m.record(e2, f2),
{
}

/// A link written into the base layer is what readers see there, when no optimistic layer
/// holds the field.
pub proof fn law_link_read_after_write(m: DataModel, e: Seq<char>, f: (Seq<char>, Seq<char>), l: LinkV)
    requires
        no_layer_holds(m.optimistic_links, e, f),
    ensures
        m.write_link(e, f, l).link(e, f) == Some(l),
{
    lemma_no_layer_find(m.optimistic_links, e, f);
}

/// No two layers have the same key.
pub open spec fn layer_keys_unique<V>(s: Seq<(u64, LayerModel<V>)>) -> bool {
    forall|i: int, j: int| 0 <= i < j < s.len() ==> s[i].0 != s[j].0
}

/// What an optimistic layer writes is what readers see, when no other layer holds the
/// field; a deletion there hides the field.
pub proof fn law_optimistic_record_visible(m: DataModel, key: u64, e: Seq<char>, f: (Seq<char>, Seq<char>), v: Option<JsonV>)
    requires
        layer_keys_unique(m.optimistic_records),
        forall|i: int| 0 <= i < m.optimistic_records.len() && m.optimistic_records[i].0 != key
            ==> crate::data::model_get(#[trigger] m.optimistic_records[i].1, e, f) is None,
    ensures
        m.write_record_optimistic(key, e, f, v).record(e, f) == v,
{
    let s = m.optimistic_records;
    let t = crate::data::model_layers_write(s, key, e, f, v);
    match crate::data::model_pos(s, key) {
        Some(p) => {
            assert forall|i: int| 0 <= i < t.len() && i != p implies crate::data::model_get(#[trigger] t[i].1, e, f) is None by {
                assert(t[i] == s[i]);
                if s[i].0 == key {
                    if i < p {
                        assert(s[i].0 != s[p].0);
                    } else {
                        assert(s[p].0 != s[i].0);
                    }
                }
            }
            lemma_find_sole_holder(t, e, f, p, v);
        },
        None => {
            let p = s.len() as int;
            assert forall|i: int| 0 <= i < t.len() && i != p implies crate::data::model_get(#[trigger] t[i].1, e, f) is None by {
                assert(t[i] == s[i]);
                if s[i].0 == key {
                    assert(exists|q: int| 0 <= q < s.len() && #[trigger] s[q].0 == key);
                }
            }
            lemma_find_sole_holder(t, e, f, p, v);
        },
    }
}

/// Dropping a layer that an optimistic write just made undoes the write.
pub proof fn law_clear_undoes_fresh_optimistic_record(m: DataModel, key: u64, e: Seq<char>, f: (Seq<char>, Seq<char>), v: Option<JsonV>)
    requires
        crate::data::model_pos(m.optimistic_records, key) is None,
        crate::data::model_pos(m.optimistic_links, key) is None,
    ensures
        m.write_record_optimistic(key, e, f, v).clear_optimistic_layer(key) == m,
{
    let s = m.optimistic_records;
    let t = crate::data::model_layers_write(s, key, e, f, v);
    assert(t == s.push((key, crate::data::model_write(Map::empty(), e, f, v))));
    assert(t[s.len() as int].0 == key);
    let q = choose|q: int| 0 <= q < t.len() && #[trigger] t[q].0 == key;
    if q < s.len() {
        assert(t[q] == s[q]);
        assert(exists|i: int| 0 <= i < s.len() && #[trigger] s[i].0 == key);
    }
    assert(crate::data::model_pos(t, key) == Some(s.len() as int));
    assert(t.remove(s.len() as int) =~= s);
    assert(m.write_record_optimistic(key, e, f, v).clear_optimistic_layer(key) =~= m);
}

/// A query that a write records as depending on an entity is one of the entity's dependents.
pub proof fn law_dependencies_recorded(m: DataModel, q: u64, deps: Seq<Seq<char>>, e: Seq<char>)
    requires
        deps.contains(e),
        e != "Query"@,
    ensures
        m.set_dependencies(q, deps).dependents(e).contains(q),
{
}

/// Recording dependencies never takes a dependent away.
pub proof fn law_dependents_only_grow(m: DataModel, q: u64, deps: Seq<Seq<char>>, e: Seq<char>)
    ensures
        m.dependents(e).subset_of(m.set_dependencies(q, deps).dependents(e)),
{
}

/// After a query records its dependencies, a change to one of them (other than the root)
/// that another operation makes asks for the query to run again.
pub proof fn law_dependent_query_reruns(m: DataModel, q: u64, deps: Seq<Seq<char>>, entities: Seq<Seq<char>>, k: int, originating: u64)
    requires
        0 <= k < entities.len(),
        deps.contains(entities[k]),
        entities[k] != "Query"@,
        q != originating,
    ensures
        crate::store_spec::rerun_v(m.set_dependencies(q, deps), entities, originating, q),
{
    assert(m.set_dependencies(q, deps).dependents(entities[k]).contains(q));
}

/// The base records after the selected scalars of `fields`, from the `i`th selector on, are
/// written under entity `e`.
pub open spec fn scalars_written(
    records: LayerModel<JsonV>,
    e: Seq<char>,
    sels: Seq<FieldSelector>,
    fields: Seq<(Seq<char>, JsonV)>,
    i: int,
) -> LayerModel<JsonV>
    decreases sels.len() - i,
{
    if 0 <= i < sels.len() {
        scalars_written(
            crate::data::model_write(records, e, sels[i].key_v(), crate::store_spec::field_v(fields, sels[i].name_v())->0),
            e,
            sels,
            fields,
            i + 1,
        )
    } else {
        records
    }
}

proof fn lemma_store_scalars(
    custom: Map<Seq<char>, Seq<char>>,
    m: DataModel,
    deps: Seq<Seq<char>>,
    e: Seq<char>,
    sels: Seq<FieldSelector>,
    fields: Seq<(Seq<char>, JsonV)>,
    i: int,
)
    requires
        all_scalars(sels),
        covers(fields, sels),
        0 <= i <= sels.len(),
    ensures
        crate::store_spec::store_fields(custom, m, deps, None, e, sels, fields, i) == (crate::store_spec::WriteStep {
            m: DataModel { records: scalars_written(m.records, e, sels, fields, i), ..m },
            deps,
            out: crate::store_spec::Outcome::Done,
        }),
    decreases sels.len() - i,
{
    if i < sels.len() {
        assert(sels[i] is Scalar);
        assert(crate::store_spec::field_v(fields, sels[i].name_v()) is Some);
        let v = crate::store_spec::field_v(fields, sels[i].name_v())->0;
        let m1 = DataModel { records: crate::data::model_write(m.records, e, sels[i].key_v(), v), ..m };
        assert(crate::store_spec::store_data(custom, m, deps, None, e, sels[i], v) == (crate::store_spec::WriteStep {
            m: m1, deps, out: crate::store_spec::Outcome::Done }));
        lemma_store_scalars(custom, m1, deps, e, sels, fields, i + 1);
    }
}

proof fn lemma_scalars_written_get(
    records: LayerModel<JsonV>,
    e: Seq<char>,
    sels: Seq<FieldSelector>,
    fields: Seq<(Seq<char>, JsonV)>,
    i: int,
    j: int,
)
    requires
        0 <= i <= j < sels.len(),
    ensures
        crate::data::model_get(scalars_written(records, e, sels, fields, i), e, sels[j].key_v())
            == Some(crate::store_spec::field_v(fields, sels[j].name_v())->0),
    decreases sels.len() - i,
{
    let v = crate::store_spec::field_v(fields, sels[i].name_v())->0;
    let r1 = crate::data::model_write(records, e, sels[i].key_v(), v);
    if i < j {
        lemma_scalars_written_get(r1, e, sels, fields, i + 1, j);
    } else {
        lemma_scalars_written_keep(r1, e, sels, fields, i + 1, sels[j].key_v());
    }
}

/// Later writes of the same field write the same value: the name of the field is its key's.
proof fn lemma_scalars_written_keep(
    records: LayerModel<JsonV>,
    e: Seq<char>,
    sels: Seq<FieldSelector>,
    fields: Seq<(Seq<char>, JsonV)>,
    i: int,
    f: (Seq<char>, Seq<char>),
)
    requires
        0 <= i <= sels.len(),
        crate::data::model_get(records, e, f) == Some(crate::store_spec::field_v(fields, f.0)->0),
    ensures
        crate::data::model_get(scalars_written(records, e, sels, fields, i), e, f)
            == Some(crate::store_spec::field_v(fields, f.0)->0),
    decreases sels.len() - i,
{
    if i < sels.len() {
        let v = crate::store_spec::field_v(fields, sels[i].name_v())->0;
        let r1 = crate::data::model_write(records, e, sels[i].key_v(), v);
        assert(sels[i].key_v().0 == sels[i].name_v());
        lemma_scalars_written_keep(r1, e, sels, fields, i + 1, f);
    }
}

proof fn lemma_read_scalars(
    m: DataModel,
    deps: Seq<Seq<char>>,
    e: Seq<char>,
    sels: Seq<FieldSelector>,
    fields: Seq<(Seq<char>, JsonV)>,
    i: int,
    acc: Seq<(Seq<char>, JsonV)>,
)
    requires
        all_scalars(sels),
        0 <= i <= sels.len(),
        acc == selected(fields, sels).take(i),
        forall|j: int| i <= j < sels.len() ==> m.record(e, #[trigger] sels[j].key_v())
            == Some(crate::store_spec::field_v(fields, sels[j].name_v())->0),
    ensures
        crate::store_spec::read_entity(m, deps, e, sels, i, acc) == (ReadStep { deps, out: Ok(selected(fields, sels)) }),
    decreases sels.len() - i,
{
    if i < sels.len() {
        assert(sels[i] is Scalar);
        let v = crate::store_spec::field_v(fields, sels[i].name_v())->0;
        assert(m.record(e, sels[i].key_v()) == Some(v));
        assert(crate::store_spec::read_field(m, deps, e, sels[i]) == (ReadStep::<JsonV> { deps, out: Ok(v) }));
        assert(selected(fields, sels).take(i + 1) =~= acc.push((sels[i].name_v(), crate::store_spec::field_v(fields, sels[i].name_v())->0)));
        lemma_read_scalars(m, deps, e, sels, fields, i + 1, selected(fields, sels).take(i + 1));
    } else {
        assert(selected(fields, sels).take(i) =~= selected(fields, sels));
    }
}

/// A query that selects scalars of its root entity reads back, once its result is written,
/// the values that the result held, provided that no optimistic layer hides them and that
/// the root is not queued for collection.
pub proof fn law_scalar_round_trip(
    custom: Map<Seq<char>, Seq<char>>,
    m: DataModel,
    deps: Seq<Seq<char>>,
    root: Seq<char>,
    fields: Seq<(Seq<char>, JsonV)>,
    sels: Seq<FieldSelector>,
    key: u64,
    read_deps: Seq<Seq<char>>,
)
    requires
        all_scalars(sels),
        covers(fields, sels),
        !m.gc_queue.contains(root),
        forall|j: int| 0 <= j < sels.len() ==> no_layer_holds(m.optimistic_records, root, #[trigger] sels[j].key_v()),
    ensures
        ({
            let w = crate::store_spec::write_query_v(custom, m, deps, root, Some(JsonV::Object(fields)), sels, key, false);
            &&& w.out is Done
            &&& crate::store_spec::read_entity(w.m, read_deps, root, sels, 0, Seq::empty())
                == (ReadStep { deps: read_deps, out: Ok(selected(fields, sels)) })
        }),
{
    lemma_store_scalars(custom, m, deps, root, sels, fields, 0);
    let w = crate::store_spec::write_query_v(custom, m, deps, root, Some(JsonV::Object(fields)), sels, key, false);
    let recs = scalars_written(m.records, root, sels, fields, 0);
    assert(w.m.records == recs.remove_keys(m.gc_queue));
    assert(w.m.optimistic_records == m.optimistic_records);
    assert forall|j: int| 0 <= j < sels.len() implies w.m.record(root, #[trigger] sels[j].key_v())
        == Some(crate::store_spec::field_v(fields, sels[j].name_v())->0) by {
        lemma_scalars_written_get(m.records, root, sels, fields, 0, j);
        lemma_no_layer_find(m.optimistic_records, root, sels[j].key_v());
    }
    assert(selected(fields, sels).take(0) =~= Seq::<(Seq<char>, JsonV)>::empty());
    lemma_read_scalars(w.m, read_deps, root, sels, fields, 0, Seq::empty());
}

/// No base record comes back: a field without a record keeps none, and the optimistic
/// records stay as they were.
pub open spec fn records_only_erased(a: DataModel, b: DataModel) -> bool {
    &&& forall|e: Seq<char>, f: (Seq<char>, Seq<char>)| crate::data::model_get(a.records, e, f) is None
        ==> #[trigger] crate::data::model_get(b.records, e, f) is None
    &&& b.optimistic_records == a.optimistic_records
}

proof fn lemma_erased_trans(a: DataModel, b: DataModel, c: DataModel)
    requires
        records_only_erased(a, b),
        records_only_erased(b, c),
    ensures
        records_only_erased(a, c),
{
    assert forall|e: Seq<char>, f: (Seq<char>, Seq<char>)| crate::data::model_get(a.records, e, f) is None
        implies #[trigger] crate::data::model_get(c.records, e, f) is None by {
        assert(crate::data::model_get(b.records, e, f) is None);
    }
}

proof fn lemma_erase_step(m: DataModel, e: Seq<char>, f: (Seq<char>, Seq<char>))
    ensures
        records_only_erased(m, m.write_record(e, f, None)),
        crate::data::model_get(m.write_record(e, f, None).records, e, f) is None,
{
}

/// A base invalidation only takes records away.
pub proof fn lemma_invalidate_entity_erases(m: DataModel, inv: Seq<Seq<char>>, e: Seq<char>, sels: Seq<FieldSelector>)
    ensures
        records_only_erased(m, crate::store_spec::invalidate_entity(m, inv, None, e, sels).m),
    decreases crate::selection::seq_height(sels), 1nat, 0int,
{
    let inv2 = if e != "Mutation"@ { inv.push(e) } else { inv };
    lemma_invalidate_fields_erases(m, inv2, e, sels, 0);
}

pub proof fn lemma_invalidate_fields_erases(m: DataModel, inv: Seq<Seq<char>>, e: Seq<char>, sels: Seq<FieldSelector>, i: int)
    ensures
        records_only_erased(m, crate::store_spec::invalidate_fields(m, inv, None, e, sels, i).m),
    decreases crate::selection::seq_height(sels), 0nat, sels.len() - i,
{
    if 0 <= i < sels.len() {
        crate::selection::lemma_seq_height(sels, i);
        lemma_invalidate_field_erases(m, inv, e, sels[i]);
        let r = crate::store_spec::invalidate_field(m, inv, None, e, sels[i]);
        if !r.stuck {
            lemma_invalidate_fields_erases(r.m, r.inv, e, sels, i + 1);
            lemma_erased_trans(m, r.m, crate::store_spec::invalidate_fields(r.m, r.inv, None, e, sels, i + 1).m);
        }
    }
}

pub proof fn lemma_invalidate_field_erases(m: DataModel, inv: Seq<Seq<char>>, e: Seq<char>, sel: FieldSelector)
    ensures
        records_only_erased(m, crate::store_spec::invalidate_field(m, inv, None, e, sel).m),
    decreases sel.height(), 2nat, 0int,
{
    match sel {
        FieldSelector::Scalar(_, _) => {
            lemma_erase_step(m, e, sel.key_v());
        },
        _ => match m.link(e, sel.key_v()) {
            Some(LinkV::Single(k)) => lemma_invalidate_target_erases(m, inv, sel, k),
            Some(LinkV::List(ks)) => lemma_invalidate_list_erases(m, inv, sel, ks, 0),
            _ => {},
        },
    }
}

pub proof fn lemma_invalidate_target_erases(m: DataModel, inv: Seq<Seq<char>>, sel: FieldSelector, k: Seq<char>)
    ensures
        records_only_erased(m, crate::store_spec::invalidate_target(m, inv, None, sel, k).m),
    decreases sel.height(), 1nat, 0int,
{
    match sel {
        FieldSelector::Scalar(_, _) => {},
        FieldSelector::Object(_, _, _, inner) => {
            crate::selection::lemma_inner_height(sel, Seq::empty());
            lemma_invalidate_entity_erases(m, inv, k, inner@);
        },
        FieldSelector::Union(_, _, vs) => match crate::store_spec::typename_of(m, k) {
            None => {},
            Some(t) => {
                crate::selection::lemma_inner_height(sel, t);
                lemma_invalidate_entity_erases(m, inv, k, crate::selection::pick(vs@, t));
            },
        },
    }
}

pub proof fn lemma_invalidate_list_erases(m: DataModel, inv: Seq<Seq<char>>, sel: FieldSelector, ks: Seq<Seq<char>>, i: int)
    ensures
        records_only_erased(m, crate::store_spec::invalidate_list(m, inv, None, sel, ks, i).m),
    decreases sel.height(), 1nat, ks.len() - i,
{
    if 0 <= i < ks.len() {
        lemma_invalidate_target_erases(m, inv, sel, ks[i]);
        let r = crate::store_spec::invalidate_target(m, inv, None, sel, ks[i]);
        if !r.stuck {
            lemma_invalidate_list_erases(r.m, r.inv, sel, ks, i + 1);
            lemma_erased_trans(m, r.m, crate::store_spec::invalidate_list(r.m, r.inv, None, sel, ks, i + 1).m);
        }
    }
}

/// A base invalidation that goes through takes away every scalar it selects on the entity.
pub proof fn lemma_invalidate_fields_clears(m: DataModel, inv: Seq<Seq<char>>, e: Seq<char>, sels: Seq<FieldSelector>, i: int, j: int)
    requires
        0 <= i <= j < sels.len(),
        sels[j] is Scalar,
        !crate::store_spec::invalidate_fields(m, inv, None, e, sels, i).stuck,
    ensures
        crate::data::model_get(crate::store_spec::invalidate_fields(m, inv, None, e, sels, i).m.records, e, sels[j].key_v()) is None,
    decreases sels.len() - i,
{
    crate::selection::lemma_seq_height(sels, i);
    let r = crate::store_spec::invalidate_field(m, inv, None, e, sels[i]);
    if i == j {
        lemma_erase_step(m, e, sels[j].key_v());
        lemma_invalidate_fields_erases(r.m, r.inv, e, sels, i + 1);
    } else {
        lemma_invalidate_fields_clears(r.m, r.inv, e, sels, i + 1, j);
    }
}

proof fn lemma_read_misses(m: DataModel, d: Seq<Seq<char>>, e: Seq<char>, sels: Seq<FieldSelector>, i: int, acc: Seq<(Seq<char>, JsonV)>, j: int)
    requires
        0 <= i <= j < sels.len(),
        sels[j] is Scalar,
        m.record(e, sels[j].key_v()) is None,
    ensures
        crate::store_spec::read_entity(m, d, e, sels, i, acc).out is Err,
    decreases sels.len() - i,
{
    crate::selection::lemma_seq_height(sels, i);
    let r = crate::store_spec::read_field(m, d, e, sels[i]);
    if i < j && r.out is Ok {
        lemma_read_misses(m, r.deps, e, sels, i + 1, acc.push((sels[i].name_v(), r.out->Ok_0)), j);
    }
}

/// After a mutation's result invalidates its selection, a read of that selection misses:
/// a scalar that the selection takes from the root entity, and that no optimistic layer
/// holds, is gone, so the query goes to the network again.
pub proof fn law_invalidation_evicts(
    m: DataModel,
    inv: Seq<Seq<char>>,
    root: Seq<char>,
    sels: Seq<FieldSelector>,
    key: u64,
    j: int,
    read_deps: Seq<Seq<char>>,
)
    requires
        0 <= j < sels.len(),
        sels[j] is Scalar,
        no_layer_holds(m.optimistic_records, root, sels[j].key_v()),
        !crate::store_spec::invalidate_query_v(m, inv, root, true, sels, key, false).stuck,
    ensures
        crate::store_spec::read_entity(crate::store_spec::invalidate_query_v(m, inv, root, true, sels, key, false).m,
            read_deps, root, sels, 0, Seq::empty()).out is Err,
{
    let inv2 = if root != "Mutation"@ { inv.push(root) } else { inv };
    let r = crate::store_spec::invalidate_fields(m, inv2, None, root, sels, 0);
    lemma_invalidate_fields_clears(m, inv2, root, sels, 0, j);
    lemma_invalidate_fields_erases(m, inv2, root, sels, 0);
    let fin = r.m.clear_optimistic_layer(key);
    let s = m.optimistic_records;
    let d = crate::data::model_layers_drop(s, key);
    assert forall|i: int| 0 <= i < d.len() implies crate::data::model_get(#[trigger] d[i].1, root, sels[j].key_v()) is None by {
        match crate::data::model_pos(s, key) {
            Some(p) => {
                if i < p {
                    assert(d[i] == s[i]);
                } else {
                    assert(d[i] == s[i + 1]);
                }
            },
            None => {},
        }
    }
    lemma_no_layer_find(d, root, sels[j].key_v());
    lemma_read_misses(fin, read_deps, root, sels, 0, Seq::empty(), j);
}

proof fn lemma_find_erased<V>(s: Seq<(u64, crate::data::LayerModel<V>)>, e: Seq<char>, f: (Seq<char>, Seq<char>), e2: Seq<char>, f2: (Seq<char>, Seq<char>))
    ensures
        crate::data::model_find(crate::data::model_layers_erase(s, e, f), e2, f2)
            == if e2 == e && f2 == f { None } else { crate::data::model_find(s, e2, f2) },
    decreases s.len(),
{
    if s.len() > 0 {
        let t = crate::data::model_layers_erase(s, e, f);
        assert(t.drop_first() =~= crate::data::model_layers_erase(s.drop_first(), e, f));
        assert(t[0] == (s[0].0, crate::data::model_erase(s[0].1, e, f)));
        lemma_find_erased(s.drop_first(), e, f, e2, f2);
    }
}

/// Deleting a field takes it from what readers see, and changes no other field they see.
pub proof fn lemma_delete_field_reads(m: DataModel, e: Seq<char>, f: (Seq<char>, Seq<char>), e2: Seq<char>, f2: (Seq<char>, Seq<char>))
    ensures
        m.delete_field(e, f).record(e2, f2) == if e2 == e && f2 == f { None } else { m.record(e2, f2) },
        m.delete_field(e, f).link(e2, f2) == if e2 == e && f2 == f { None } else { m.link(e2, f2) },
{
    lemma_find_erased(m.optimistic_records, e, f, e2, f2);
    lemma_find_erased(m.optimistic_links, e, f, e2, f2);
}

/// After an entry is deleted, no field that its selection names is left at the root.
pub proof fn lemma_delete_entry_clears(m: DataModel, root: Seq<char>, sels: Seq<FieldSelector>, j: int)
    requires
        0 <= j < sels.len(),
    ensures
        crate::store_spec::delete_entry_v(m, root, sels).record(root, sels[j].key_v()) is None,
        crate::store_spec::delete_entry_v(m, root, sels).link(root, sels[j].key_v()) is None,
    decreases sels.len(),
{
    let prev = crate::store_spec::delete_entry_v(m, root, sels.drop_last());
    lemma_delete_field_reads(prev, root, sels.last().key_v(), root, sels[j].key_v());
    if j < sels.len() - 1 {
        assert(sels.drop_last()[j] == sels[j]);
        lemma_delete_entry_clears(m, root, sels.drop_last(), j);
    }
}

/// Once the entry of a query is deleted, a read of its selection misses: the first field it
/// names is gone from the root in every layer. (A selection that names no field reads as an
/// empty object, whatever the store holds.)
pub proof fn law_deleted_entry_misses(m: DataModel, root: Seq<char>, sels: Seq<FieldSelector>, deps: Seq<Seq<char>>)
    requires
        sels.len() > 0,
    ensures
        crate::store_spec::read_entity(crate::store_spec::delete_entry_v(m, root, sels), deps, root, sels, 0, Seq::empty()).out
            is Err,
{
    lemma_delete_entry_clears(m, root, sels, 0);
    crate::selection::lemma_seq_height(sels, 0);
    let d = crate::store_spec::delete_entry_v(m, root, sels);
    let r = crate::store_spec::read_field(d, deps, root, sels[0]);
    match sels[0] {
        FieldSelector::Scalar(_, _) => {
            assert(d.record(root, sels[0].key_v()) is None);
            assert(r.out is Err);
        },
        _ => {
            assert(d.link(root, sels[0].key_v()) is None);
            assert(r.out is Err);
        },
    }
}

} // verus!
