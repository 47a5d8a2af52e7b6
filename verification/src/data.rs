use vstd::prelude::*;
use crate::json::Json;
use crate::table::{KeyEq, Table};

verus! {

/// The key of a field on an entity: the field's name and its arguments.
#[derive(PartialEq, Eq, Hash, Debug, Clone)]
pub struct FieldKey {
    pub name: String,
    pub args: String,
}

impl View for FieldKey {
    type V = (Seq<char>, Seq<char>);

    open spec fn view(&self) -> (Seq<char>, Seq<char>) {
        (self.name@, self.args@)
    }
}

impl KeyEq for FieldKey {
    fn key_eq(&self, other: &Self) -> (b: bool) {
        self.name == other.name && self.args == other.args
    }

    fn key_copy(&self) -> (c: Self) {
        FieldKey { name: self.name.clone(), args: self.args.clone() }
    }
}

impl FieldKey {
    pub fn new(name: String, args: String) -> (k: FieldKey)
        ensures
            k.name == name,
            k.args == args,
    {
        FieldKey { name, args }
    }
}

/// A field key made of borrowed parts, for lookups that need not own them.
pub struct RefFieldKey<'a> {
    pub name: &'a String,
    pub args: &'a String,
}

impl<'a> RefFieldKey<'a> {
    /// The borrowed form of a key.
    pub fn of(key: &'a FieldKey) -> (r: RefFieldKey<'a>)
        ensures
            r.name@ == key.name@,
            r.args@ == key.args@,
    {
        RefFieldKey { name: &key.name, args: &key.args }
    }

    /// An owned copy of the key.
    pub fn to_key(&self) -> (k: FieldKey)
        ensures
            k@ == (self.name@, self.args@),
    {
        FieldKey { name: self.name.clone(), args: self.args.clone() }
    }
}

/// Where a field that holds entities points: one entity, a list of them, or nothing.
#[derive(PartialEq, Eq, Hash, Debug, Clone)]
pub enum Link {
    Single(String),
    List(Vec<String>),
    Null,
}

impl Link {
    /// The keys of the entities that the link points to, in order.
    pub open spec fn keys(self) -> Seq<Seq<char>> {
        match self {
            Link::Single(k) => seq![k@],
            Link::List(ks) => ks@.map_values(|k: String| k@),
            Link::Null => Seq::empty(),
        }
    }
}

/// A copy of a link.
pub fn copy_link(l: &Link) -> (r: Link)
    ensures
        r@ == l@,
{
    match l {
        Link::Single(k) => Link::Single(k.clone()),
        Link::List(ks) => {
            let mut out: Vec<String> = Vec::new();
            let mut i: usize = 0;
            while i < ks.len()
                invariant
                    i <= ks@.len(),
                    out@.len() == i,
                    forall|j: int| 0 <= j < i ==> #[trigger] out@[j]@ == ks@[j]@,
                decreases ks@.len() - i,
            {
                out.push(ks[i].clone());
                i = i + 1;
            }
            let r = Link::List(out);
            assert(keys_v(out@) =~= keys_v(ks@));
            r
        },
        Link::Null => Link::Null,
    }
}

/// A layer of writes: entity key, then field key, then value.
pub type Layer<V> = Table<String, Table<FieldKey, V>>;

/// The value that a layer holds for a field, if the layer holds the field at all.
pub open spec fn layer_get<V>(layer: Layer<V>, e: Seq<char>, f: (Seq<char>, Seq<char>)) -> Option<V> {
    if layer@.contains_key(e) && layer@[e]@.contains_key(f) {
        Some(layer@[e]@[f])
    } else {
        None
    }
}

/// The first of the layers, in order, that holds the field decides its value.
pub open spec fn layers_find<V>(
    layers: Seq<(u64, Layer<V>)>,
    e: Seq<char>,
    f: (Seq<char>, Seq<char>),
) -> Option<V>
    decreases layers.len(),
{
    if layers.len() == 0 {
        None
    } else if layer_get(layers[0].1, e, f) is Some {
        layer_get(layers[0].1, e, f)
    } else {
        layers_find(layers.drop_first(), e, f)
    }
}

pub open spec fn layer_wf<V>(layer: Layer<V>) -> bool {
    &&& layer.wf()
    &&& forall|e: Seq<char>| #[trigger] layer@.contains_key(e) ==> layer@[e].wf()
}

pub open spec fn layers_wf<V>(layers: Table<u64, Layer<V>>) -> bool {
    &&& layers.wf()
    &&& forall|i: int| 0 <= i < layers.entries@.len() ==> layer_wf(#[trigger] layers.entries@[i].1)
}

/// The normalized store: records (scalar values) and links (references between entities),
/// each with a base layer and keyed optimistic layers on top of it, the queries that depend
/// on each entity, and the reference counts that decide which entities are collected.
pub struct InMemoryData {
    pub records: Layer<Json>,
    pub links: Layer<Link>,
    pub optimistic_records: Table<u64, Layer<Option<Json>>>,
    pub optimistic_links: Table<u64, Layer<Option<Link>>>,
    pub dependencies: Table<String, Vec<u64>>,
    pub ref_counts: Table<String, isize>,
    pub gc_queue: Table<String, ()>,
}

impl InMemoryData {
    /// The value of a record in the base layer.
    pub open spec fn base_record(self, e: Seq<char>, f: (Seq<char>, Seq<char>)) -> Option<Json> {
        layer_get(self.records, e, f)
    }

    /// The link in the base layer.
    pub open spec fn base_link(self, e: Seq<char>, f: (Seq<char>, Seq<char>)) -> Option<Link> {
        layer_get(self.links, e, f)
    }

    /// The record that a reader sees: the first optimistic layer that holds the field
    /// decides (a `None` there is a deletion), else the base layer.
    pub open spec fn record(self, e: Seq<char>, f: (Seq<char>, Seq<char>)) -> Option<Json> {
        match layers_find(self.optimistic_records.entries@, e, f) {
            Some(o) => o,
            None => self.base_record(e, f),
        }
    }

    /// The link that a reader sees.
    pub open spec fn link(self, e: Seq<char>, f: (Seq<char>, Seq<char>)) -> Option<Link> {
        match layers_find(self.optimistic_links.entries@, e, f) {
            Some(o) => o,
            None => self.base_link(e, f),
        }
    }

    /// The queries recorded as depending on an entity.
    pub open spec fn dependents(self, e: Seq<char>) -> Set<u64> {
        if self.dependencies@.contains_key(e) {
            self.dependencies@[e]@.to_set()
        } else {
            Set::empty()
        }
    }

    /// Every entity that some stored link points to has a reference count.
    pub open spec fn links_counted(self) -> bool {
        &&& forall|e: Seq<char>, f: (Seq<char>, Seq<char>), k: Seq<char>|
            #![trigger self.base_link(e, f), self.ref_counts@.contains_key(k)]
            self.base_link(e, f) matches Some(l) && l.keys().contains(k)
                ==> self.ref_counts@.contains_key(k)
        &&& forall|i: int, e: Seq<char>, f: (Seq<char>, Seq<char>), k: Seq<char>|
            #![trigger layer_get(self.optimistic_links.entries@[i].1, e, f), self.ref_counts@.contains_key(k)]
            0 <= i < self.optimistic_links.entries@.len() ==> (
                layer_get(self.optimistic_links.entries@[i].1, e, f) matches Some(Some(l))
                && l.keys().contains(k) ==> self.ref_counts@.contains_key(k))
    }

    pub open spec fn wf(self) -> bool {
        &&& layer_wf(self.records)
        &&& layer_wf(self.links)
        &&& layers_wf(self.optimistic_records)
        &&& layers_wf(self.optimistic_links)
        &&& self.dependencies.wf()
        &&& forall|e: Seq<char>| #[trigger] self.dependencies@.contains_key(e)
            ==> self.dependencies@[e]@.no_duplicates()
        &&& self.ref_counts.wf()
        &&& self.gc_queue.wf()
        &&& self.links_counted()
    }

    pub fn new() -> (d: Self)
        ensures
            d.wf(),
            d.records@.is_empty(),
            d.links@.is_empty(),
            d.optimistic_records@.is_empty(),
            d.optimistic_links@.is_empty(),
            d.dependencies@.is_empty(),
            d.ref_counts@.is_empty(),
            d.gc_queue@.is_empty(),
            d.model() == DataModel::empty(),
    {
        let d = InMemoryData {
            records: Table::new(),
            links: Table::new(),
            optimistic_records: Table::new(),
            optimistic_links: Table::new(),
            dependencies: Table::new(),
            ref_counts: Table::new(),
            gc_queue: Table::new(),
        };
        proof {
            assert(layer_model(d.records, record_v()) =~= Map::empty());
            assert(layer_model(d.links, link_v()) =~= Map::empty());
            assert(layers_model(d.optimistic_records.entries@, opt_record_v()) =~= Seq::empty());
            assert(layers_model(d.optimistic_links.entries@, opt_link_v_fn()) =~= Seq::empty());
            assert(d.dependencies@.map_values(|v: Vec<u64>| v@.to_set()) =~= Map::empty());
            assert(d.gc_queue@.dom() =~= Set::empty());
            assert(d.model() =~= DataModel::empty());
        }
        d
    }
}


/// One change of a reference count: an entity with a count gets `by` added (wrapping, as an
/// atomic add does) and is queued for collection when the count drops to zero or below, or
/// taken off the queue otherwise; an entity without a count gets one of `by`.
pub open spec fn count_step(
    rc: Map<Seq<char>, isize>,
    gc: Map<Seq<char>, ()>,
    k: Seq<char>,
    by: isize,
) -> (Map<Seq<char>, isize>, Map<Seq<char>, ()>) {
    if rc.contains_key(k) {
        let n = rc[k].wrapping_add(by);
        (rc.insert(k, n), if n <= 0 { gc.insert(k, ()) } else { gc.remove(k) })
    } else {
        (rc.insert(k, by), gc)
    }
}

/// The same change applied to each key in order.
pub open spec fn count_all(
    rc: Map<Seq<char>, isize>,
    gc: Map<Seq<char>, ()>,
    keys: Seq<Seq<char>>,
    by: isize,
) -> (Map<Seq<char>, isize>, Map<Seq<char>, ()>)
    decreases keys.len(),
{
    if keys.len() == 0 {
        (rc, gc)
    } else {
        let (r1, g1) = count_step(rc, gc, keys[0], by);
        count_all(r1, g1, keys.drop_first(), by)
    }
}

/// A change by `by` never needs a missing count: it is an increase, or every key is counted.
pub open spec fn count_allowed(rc: Map<Seq<char>, isize>, keys: Seq<Seq<char>>, by: isize) -> bool {
    by >= 0 || forall|i: int| 0 <= i < keys.len() ==> rc.contains_key(#[trigger] keys[i])
}

pub proof fn lemma_count_all_dom(
    rc: Map<Seq<char>, isize>,
    gc: Map<Seq<char>, ()>,
    keys: Seq<Seq<char>>,
    by: isize,
)
    ensures
        rc.dom().subset_of(count_all(rc, gc, keys, by).0.dom()),
        by >= 0 ==> forall|i: int| 0 <= i < keys.len() ==> count_all(rc, gc, keys, by).0.contains_key(#[trigger] keys[i]),
        forall|k: Seq<char>| #[trigger] count_all(rc, gc, keys, by).0.contains_key(k)
            ==> rc.contains_key(k) || keys.contains(k),
    decreases keys.len(),
{
    if keys.len() > 0 {
        let (r1, g1) = count_step(rc, gc, keys[0], by);
        lemma_count_all_dom(r1, g1, keys.drop_first(), by);
        assert forall|i: int| 0 <= i < keys.len() && by >= 0 implies count_all(rc, gc, keys, by).0.contains_key(#[trigger] keys[i]) by {
            if i > 0 {
                assert(keys.drop_first()[i - 1] == keys[i]);
            }
        }
        assert forall|k: Seq<char>| #[trigger] count_all(rc, gc, keys, by).0.contains_key(k)
            implies rc.contains_key(k) || keys.contains(k) by {
            if !rc.contains_key(k) && k != keys[0] {
                assert(keys.drop_first().contains(k));
                let j = choose|j: int| 0 <= j < keys.drop_first().len() && keys.drop_first()[j] == k;
                assert(keys[j + 1] == k);
            } else if k == keys[0] {
                assert(keys[0] == k);
            }
        }
    }
}

/// Apply one change to the two tables.
fn count_key(ref_counts: &mut Table<String, isize>, gc_queue: &mut Table<String, ()>, key: &String, by: isize)
    requires
        old(ref_counts).wf(),
        old(gc_queue).wf(),
        by >= 0 || old(ref_counts)@.contains_key(key@),
    ensures
        final(ref_counts).wf(),
        final(gc_queue).wf(),
        (final(ref_counts)@, final(gc_queue)@) == count_step(old(ref_counts)@, old(gc_queue)@, key@, by),
{
    match ref_counts.get(key) {
        Some(c) => {
            let n = c.wrapping_add(by);
            ref_counts.insert(key.clone(), n);
            if n <= 0 {
                gc_queue.insert(key.clone(), ());
            } else {
                gc_queue.remove(key);
            }
        },
        None => {
            ref_counts.insert(key.clone(), by);
        },
    }
}

/// Apply the change to each key in order.
fn count_keys(ref_counts: &mut Table<String, isize>, gc_queue: &mut Table<String, ()>, keys: &Vec<String>, by: isize)
    requires
        old(ref_counts).wf(),
        old(gc_queue).wf(),
        count_allowed(old(ref_counts)@, keys@.map_values(|k: String| k@), by),
    ensures
        final(ref_counts).wf(),
        final(gc_queue).wf(),
        (final(ref_counts)@, final(gc_queue)@) == count_all(old(ref_counts)@, old(gc_queue)@, keys@.map_values(|k: String| k@), by),
{
    let ghost all = keys@.map_values(|k: String| k@);
    assert(all.skip(0) =~= all);
    let mut i: usize = 0;
    while i < keys.len()
        invariant
            i <= keys@.len(),
            all == keys@.map_values(|k: String| k@),
            ref_counts.wf(),
            gc_queue.wf(),
            count_allowed(old(ref_counts)@, all, by),
            old(ref_counts)@.dom().subset_of(ref_counts@.dom()),
            count_all(old(ref_counts)@, old(gc_queue)@, all, by) == count_all(ref_counts@, gc_queue@, all.skip(i as int), by),
        decreases keys@.len() - i,
    {
        proof {
            assert(all.skip(i as int)[0] == keys@[i as int]@);
            assert(all.skip(i as int).drop_first() =~= all.skip(i + 1));
            if by < 0 {
                assert(old(ref_counts)@.contains_key(all[i as int]));
            }
        }
        let ghost before = ref_counts@;
        count_key(ref_counts, gc_queue, &keys[i], by);
        proof {
            assert(before.dom().subset_of(ref_counts@.dom()));
        }
        i = i + 1;
    }
    assert(all.skip(i as int) =~= Seq::<Seq<char>>::empty());
}

/// Find the value that a layer holds for a field.
fn layer_lookup<'a, V>(layer: &'a Layer<V>, e: &String, f: &FieldKey) -> (r: Option<&'a V>)
    requires
        layer_wf(*layer),
    ensures
        r is None <==> layer_get(*layer, e@, f@) is None,
        r matches Some(v) ==> layer_get(*layer, e@, f@) == Some(*v),
{
    match layer.get(e) {
        Some(entity) => entity.get(f),
        None => None,
    }
}

/// Find the value that the first of the layers holding the field gives it.
fn layers_lookup<'a, V>(layers: &'a Table<u64, Layer<V>>, e: &String, f: &FieldKey) -> (r: Option<&'a V>)
    requires
        layers_wf(*layers),
    ensures
        r is None <==> layers_find(layers.entries@, e@, f@) is None,
        r matches Some(v) ==> layers_find(layers.entries@, e@, f@) == Some(*v),
{
    let ghost s = layers.entries@;
    assert(s.skip(0) =~= s);
    let mut i: usize = 0;
    while i < layers.entries.len()
        invariant
            i <= s.len(),
            s == layers.entries@,
            layers_wf(*layers),
            layers_find(s, e@, f@) == layers_find(s.skip(i as int), e@, f@),
        decreases s.len() - i,
    {
        proof {
            assert(s.skip(i as int)[0] == s[i as int]);
            assert(s.skip(i as int).drop_first() =~= s.skip(i + 1));
        }
        match layer_lookup(&layers.entries[i].1, e, f) {
            Some(v) => {
                return Some(v);
            },
            None => {},
        }
        i = i + 1;
    }
    None
}

/// Counting more entities keeps every stored link counted.
pub proof fn lemma_links_counted_grow(a: InMemoryData, b: InMemoryData)
    requires
        a.links_counted(),
        a.links == b.links,
        a.optimistic_links == b.optimistic_links,
        a.ref_counts@.dom().subset_of(b.ref_counts@.dom()),
    ensures
        b.links_counted(),
{
    assert forall|e: Seq<char>, f: (Seq<char>, Seq<char>), k: Seq<char>|
        #![trigger b.base_link(e, f), b.ref_counts@.contains_key(k)]
        b.base_link(e, f) matches Some(l) && l.keys().contains(k)
        implies b.ref_counts@.contains_key(k) by {
        assert(a.base_link(e, f) == b.base_link(e, f));
        assert(a.ref_counts@.contains_key(k));
    }
    assert forall|i: int, e: Seq<char>, f: (Seq<char>, Seq<char>), k: Seq<char>|
        #![trigger layer_get(b.optimistic_links.entries@[i].1, e, f), b.ref_counts@.contains_key(k)]
        0 <= i < b.optimistic_links.entries@.len() && (
        layer_get(b.optimistic_links.entries@[i].1, e, f) matches Some(Some(l))
        && l.keys().contains(k)) implies b.ref_counts@.contains_key(k) by {
        assert(layer_get(a.optimistic_links.entries@[i].1, e, f) == layer_get(b.optimistic_links.entries@[i].1, e, f));
        assert(a.ref_counts@.contains_key(k));
    }
}

impl InMemoryData {
    /// Read a record through the optimistic layers.
    pub fn read_record(&self, e: &String, f: &FieldKey) -> (r: Option<&Json>)
        requires
            self.wf(),
        ensures
            r is None <==> self.record(e@, f@) is None,
            r matches Some(v) ==> self.record(e@, f@) == Some(*v),
    {
        match layers_lookup(&self.optimistic_records, e, f) {
            Some(o) => o.as_ref(),
            None => layer_lookup(&self.records, e, f),
        }
    }

    /// Read a link through the optimistic layers.
    pub fn read_link(&self, e: &String, f: &FieldKey) -> (r: Option<&Link>)
        requires
            self.wf(),
        ensures
            r is None <==> self.link(e@, f@) is None,
            r matches Some(v) ==> self.link(e@, f@) == Some(*v),
    {
        match layers_lookup(&self.optimistic_links, e, f) {
            Some(o) => o.as_ref(),
            None => layer_lookup(&self.links, e, f),
        }
    }

    /// Whether the base layer holds records of the entity.
    pub fn has_records(&self, e: &String) -> (b: bool)
        requires
            self.wf(),
        ensures
            b == self.records@.contains_key(e@),
    {
        self.records.contains_key(e)
    }

    /// Whether the base layer holds a link at the field.
    pub fn has_base_link(&self, e: &String, f: &FieldKey) -> (b: bool)
        requires
            self.wf(),
        ensures
            b == self.base_link(e@, f@) is Some,
    {
        layer_lookup(&self.links, e, f).is_some()
    }

    /// Change the reference count of an entity.
    pub fn update_ref_count(&mut self, key: &String, by: isize)
        requires
            old(self).wf(),
            by >= 0 || old(self).ref_counts@.contains_key(key@),
        ensures
            final(self).wf(),
            (final(self).ref_counts@, final(self).gc_queue@) == count_step(old(self).ref_counts@, old(self).gc_queue@, key@, by),
            final(self).records == old(self).records,
            final(self).links == old(self).links,
            final(self).optimistic_records == old(self).optimistic_records,
            final(self).optimistic_links == old(self).optimistic_links,
            final(self).dependencies == old(self).dependencies,
    {
        count_key(&mut self.ref_counts, &mut self.gc_queue, key, by);
        proof {
            lemma_links_counted_grow(*old(self), *self);
        }
    }
}


pub open spec fn layer_dom<V>(layer: Option<Layer<V>>) -> Set<Seq<char>> {
    match layer {
        Some(l) => l@.dom(),
        None => Set::empty(),
    }
}

pub open spec fn layer_get_opt<V>(layer: Option<Layer<V>>, e: Seq<char>, f: (Seq<char>, Seq<char>)) -> Option<V> {
    match layer {
        Some(l) => layer_get(l, e, f),
        None => None,
    }
}

/// `new` is `old` (or an empty layer) with `v` written at field `f` of entity `e`.
pub open spec fn layer_written<V>(
    old: Option<Layer<V>>,
    new: Layer<V>,
    e: Seq<char>,
    f: (Seq<char>, Seq<char>),
    v: V,
) -> bool {
    &&& layer_wf(new)
    &&& new@.dom() == layer_dom(old).insert(e)
    &&& forall|e2: Seq<char>, f2: (Seq<char>, Seq<char>)| #[trigger] layer_get(new, e2, f2)
        == (if e2 == e && f2 == f { Some(v) } else { layer_get_opt(old, e2, f2) })
}

/// `new` is `old` with field `f` of entity `e` taken away; the entity itself stays.
pub open spec fn layer_erased<V>(old: Layer<V>, new: Layer<V>, e: Seq<char>, f: (Seq<char>, Seq<char>)) -> bool {
    &&& layer_wf(new)
    &&& new@.dom() == old@.dom()
    &&& forall|e2: Seq<char>, f2: (Seq<char>, Seq<char>)| #[trigger] layer_get(new, e2, f2)
        == (if e2 == e && f2 == f { None } else { layer_get(old, e2, f2) })
}

/// The position of the layer with the given key, if there is one.
pub open spec fn layer_pos<V>(layers: Seq<(u64, Layer<V>)>, key: u64) -> Option<int> {
    if exists|i: int| 0 <= i < layers.len() && #[trigger] layers[i].0 == key {
        Some(choose|i: int| 0 <= i < layers.len() && #[trigger] layers[i].0 == key)
    } else {
        None
    }
}

/// `new` is `old` with `v` written into the layer `key`, which is created at the end when
/// there is none yet; every other layer stays as it was, in its place.
pub open spec fn layers_written<V>(
    old: Seq<(u64, Layer<V>)>,
    new: Seq<(u64, Layer<V>)>,
    key: u64,
    e: Seq<char>,
    f: (Seq<char>, Seq<char>),
    v: V,
) -> bool {
    match layer_pos(old, key) {
        Some(i) => {
            &&& new.len() == old.len()
            &&& forall|j: int| 0 <= j < old.len() && j != i ==> #[trigger] new[j] == old[j]
            &&& new[i].0 == key
            &&& layer_written(Some(old[i].1), new[i].1, e, f, v)
        },
        None => {
            &&& new.len() == old.len() + 1
            &&& forall|j: int| 0 <= j < old.len() ==> #[trigger] new[j] == old[j]
            &&& new[old.len() as int].0 == key
            &&& layer_written(None, new[old.len() as int].1, e, f, v)
        },
    }
}

/// Write `v` at field `f` of entity `e`, creating the entity when it is missing.
fn layer_write<V>(layer: &mut Layer<V>, e: String, f: FieldKey, v: V)
    requires
        layer_wf(*old(layer)),
    ensures
        layer_written(Some(*old(layer)), *final(layer), e@, f@, v),
{
    let ghost fv = f@;
    let entity = layer.remove(&e);
    let mut entity = match entity {
        Some(t) => t,
        None => Table::new(),
    };
    entity.insert(f, v);
    layer.insert(e, entity);
    proof {
        let old_layer = *old(layer);
        assert(layer@.dom() =~= old_layer@.dom().insert(e@));
        assert forall|e2: Seq<char>, f2: (Seq<char>, Seq<char>)| #[trigger] layer_get(*layer, e2, f2)
            == (if e2 == e@ && f2 == fv { Some(v) } else { layer_get(old_layer, e2, f2) }) by {
        }
    }
}

/// A fresh layer that holds only `v` at field `f` of entity `e`.
fn layer_single<V>(e: String, f: FieldKey, v: V) -> (layer: Layer<V>)
    ensures
        layer_written(None, layer, e@, f@, v),
{
    let mut layer: Layer<V> = Table::new();
    let ghost empty = layer;
    layer_write(&mut layer, e, f, v);
    proof {
        assert(layer_dom(Some(empty)) =~= layer_dom(None::<Layer<V>>));
        assert forall|e2: Seq<char>, f2: (Seq<char>, Seq<char>)| #[trigger] layer_get(layer, e2, f2)
            == (if e2 == e@ && f2 == f@ { Some(v) } else { layer_get_opt(None::<Layer<V>>, e2, f2) }) by {
            assert(layer_get_opt(Some(empty), e2, f2) == layer_get_opt(None::<Layer<V>>, e2, f2));
        }
    }
    layer
}


/// Take field `f` of entity `e` out of a layer, when the entity is there.
fn layer_erase<V>(layer: &mut Layer<V>, e: &String, f: &FieldKey)
    requires
        layer_wf(*old(layer)),
    ensures
        layer_erased(*old(layer), *final(layer), e@, f@),
{
    match layer.remove(e) {
        Some(entity) => {
            let mut entity = entity;
            entity.remove(f);
            layer.insert(e.clone(), entity);
            proof {
                let old_layer = *old(layer);
                assert(layer@.dom() =~= old_layer@.dom());
            }
        },
        None => {
            proof {
                assert(layer@ =~= old(layer)@);
            }
        },
    }
}

proof fn lemma_unique_pos<V>(layers: Seq<(u64, Layer<V>)>, i: int)
    requires
        crate::table::keys_unique(layers),
        0 <= i < layers.len(),
    ensures
        layer_pos(layers, layers[i].0) == Some(i),
{
    let j = choose|j: int| 0 <= j < layers.len() && #[trigger] layers[j].0 == layers[i].0;
    if j != i {
        if j < i {
            assert(layers[j].0@ != layers[i].0@);
        } else {
            assert(layers[i].0@ != layers[j].0@);
        }
    }
}

/// Write `v` into the layer `key`, creating that layer after all others when it is missing.
fn layers_write<V>(layers: &mut Table<u64, Layer<V>>, key: u64, e: String, f: FieldKey, v: V)
    requires
        layers_wf(*old(layers)),
    ensures
        layers_wf(*final(layers)),
        layers_written(old(layers).entries@, final(layers).entries@, key, e@, f@, v),
{
    let ghost s = layers.entries@;
    match layers.index_of(&key) {
        Some(i) => {
            proof {
                lemma_unique_pos(s, i as int);
            }
            let (k, mut layer) = layers.entries.remove(i);
            layer_write(&mut layer, e, f, v);
            layers.entries.insert(i, (k, layer));
            proof {
                assert(layers.entries@ =~= s.update(i as int, (k, layer)));
                crate::table::lemma_entries_map_update(s, i as int, layer);
                assert forall|j: int| 0 <= j < layers.entries@.len() implies layer_wf(#[trigger] layers.entries@[j].1) by {
                    if j != i {
                        assert(layers.entries@[j] == s[j]);
                    }
                }
            }
        },
        None => {
            proof {
                crate::table::lemma_entries_map_dom(s, key);
                assert(layer_pos(s, key) is None) by {
                    if exists|i: int| 0 <= i < s.len() && #[trigger] s[i].0 == key {
                        let i = choose|i: int| 0 <= i < s.len() && #[trigger] s[i].0 == key;
                        assert(s[i].0@ == key@);
                    }
                }
            }
            let layer = layer_single(e, f, v);
            proof {
                crate::table::lemma_entries_map_push(s, key, layer);
            }
            layers.entries.push((key, layer));
            proof {
                assert forall|j: int| 0 <= j < layers.entries@.len() implies layer_wf(#[trigger] layers.entries@[j].1) by {
                    if j < s.len() {
                        assert(layers.entries@[j] == s[j]);
                    }
                }
            }
        },
    }
}


/// Copies of the keys that a link points to.
fn link_keys(l: &Link) -> (r: Vec<String>)
    ensures
        r@.map_values(|k: String| k@) == l.keys(),
{
    let r = match l {
        Link::Single(k) => {
            let mut v: Vec<String> = Vec::new();
            v.push(k.clone());
            v
        },
        Link::List(ks) => {
            let mut v: Vec<String> = Vec::new();
            let mut i: usize = 0;
            while i < ks.len()
                invariant
                    i <= ks@.len(),
                    v@.len() == i,
                    forall|j: int| 0 <= j < i ==> #[trigger] v@[j]@ == ks@[j]@,
                decreases ks@.len() - i,
            {
                v.push(ks[i].clone());
                i = i + 1;
            }
            v
        },
        Link::Null => Vec::new(),
    };
    assert(r@.map_values(|k: String| k@) =~= l.keys());
    r
}

/// The links of `b` are among those of `a`, and `b` counts at least what `a` counts.
pub proof fn lemma_links_counted_sub(a: InMemoryData, b: InMemoryData)
    requires
        a.links_counted(),
        forall|e: Seq<char>, f: (Seq<char>, Seq<char>)| #[trigger] b.base_link(e, f) is Some
            ==> b.base_link(e, f) == a.base_link(e, f),
        a.optimistic_links == b.optimistic_links,
        a.ref_counts@.dom().subset_of(b.ref_counts@.dom()),
    ensures
        b.links_counted(),
{
    assert forall|e: Seq<char>, f: (Seq<char>, Seq<char>), k: Seq<char>|
        #![trigger b.base_link(e, f), b.ref_counts@.contains_key(k)]
        b.base_link(e, f) matches Some(l) && l.keys().contains(k)
        implies b.ref_counts@.contains_key(k) by {
        assert(a.base_link(e, f) == b.base_link(e, f));
        assert(a.ref_counts@.contains_key(k));
    }
    assert forall|i: int, e: Seq<char>, f: (Seq<char>, Seq<char>), k: Seq<char>|
        #![trigger layer_get(b.optimistic_links.entries@[i].1, e, f), b.ref_counts@.contains_key(k)]
        0 <= i < b.optimistic_links.entries@.len() && (
        layer_get(b.optimistic_links.entries@[i].1, e, f) matches Some(Some(l))
        && l.keys().contains(k)) implies b.ref_counts@.contains_key(k) by {
        assert(layer_get(a.optimistic_links.entries@[i].1, e, f) == layer_get(b.optimistic_links.entries@[i].1, e, f));
        assert(a.ref_counts@.contains_key(k));
    }
}

/// Changing only the base records keeps the store well formed.
pub proof fn lemma_wf_records_changed(a: InMemoryData, b: InMemoryData)
    requires
        a.wf(),
        layer_wf(b.records),
        b.links == a.links,
        b.optimistic_records == a.optimistic_records,
        b.optimistic_links == a.optimistic_links,
        b.dependencies == a.dependencies,
        b.ref_counts == a.ref_counts,
        b.gc_queue == a.gc_queue,
    ensures
        b.wf(),
{
    lemma_links_counted_grow(a, b);
}

impl InMemoryData {
    /// `self` is `old` with the base link at field `f` of entity `e` removed and the
    /// entity's own count lowered by one, when there was such a link; else `old` itself.
    pub open spec fn link_removed(old: InMemoryData, new: InMemoryData, e: Seq<char>, f: (Seq<char>, Seq<char>)) -> bool {
        &&& new.records == old.records
        &&& new.optimistic_records == old.optimistic_records
        &&& new.optimistic_links == old.optimistic_links
        &&& new.dependencies == old.dependencies
        &&& if old.base_link(e, f) is Some {
            &&& layer_erased(old.links, new.links, e, f)
            &&& (new.ref_counts@, new.gc_queue@) == count_step(old.ref_counts@, old.gc_queue@, e, -1isize)
        } else {
            &&& new.links == old.links
            &&& new.ref_counts == old.ref_counts
            &&& new.gc_queue == old.gc_queue
        }
    }

    /// Remove a base link; the count that is lowered is the one of the entity that held it.
    pub fn remove_link(&mut self, e: &String, f: &FieldKey)
        requires
            old(self).wf(),
            old(self).base_link(e@, f@) is Some ==> old(self).ref_counts@.contains_key(e@),
        ensures
            final(self).wf(),
            InMemoryData::link_removed(*old(self), *final(self), e@, f@),
    {
        if layer_lookup(&self.links, e, f).is_some() {
            layer_erase(&mut self.links, e, f);
            count_key(&mut self.ref_counts, &mut self.gc_queue, e, -1);
            proof {
                lemma_links_counted_sub(*old(self), *self);
            }
        }
    }

    /// Write a record into the base layer. Writing `None` removes the field from an entity
    /// that has records, together with a base link under the same field.
    pub fn write_record(&mut self, e: String, f: FieldKey, value: Option<Json>)
        requires
            old(self).wf(),
            value is None && old(self).records@.contains_key(e@) && old(self).base_link(e@, f@) is Some
                ==> old(self).ref_counts@.contains_key(e@),
        ensures
            final(self).wf(),
            match value {
                Some(v) => {
                    &&& layer_written(Some(old(self).records), final(self).records, e@, f@, v)
                    &&& final(self).links == old(self).links
                    &&& final(self).optimistic_records == old(self).optimistic_records
                    &&& final(self).optimistic_links == old(self).optimistic_links
                    &&& final(self).dependencies == old(self).dependencies
                    &&& final(self).ref_counts == old(self).ref_counts
                    &&& final(self).gc_queue == old(self).gc_queue
                },
                None => if old(self).records@.contains_key(e@) {
                    exists|mid: InMemoryData| {
                        &&& layer_erased(old(self).records, mid.records, e@, f@)
                        &&& mid.links == old(self).links
                        &&& mid.optimistic_records == old(self).optimistic_records
                        &&& mid.optimistic_links == old(self).optimistic_links
                        &&& mid.dependencies == old(self).dependencies
                        &&& mid.ref_counts == old(self).ref_counts
                        &&& mid.gc_queue == old(self).gc_queue
                        &&& InMemoryData::link_removed(mid, *final(self), e@, f@)
                    }
                } else {
                    *final(self) == *old(self)
                },
            },
            final(self).model() == old(self).model().write_record(e@, f@, opt_json_v(value)),
    {
        let ghost ev = e@;
        let ghost fv = f@;
        match value {
            Some(v) => {
                layer_write(&mut self.records, e, f, v);
                proof {
                    lemma_wf_records_changed(*old(self), *self);
                    crate::data_model::lemma_written_model(Some(old(self).records), self.records, ev, fv, v, record_v());
                    assert(self.model() =~= old(self).model().write_record(ev, fv, opt_json_v(value)));
                }
            },
            None => {
                if self.records.contains_key(&e) {
                    layer_erase(&mut self.records, &e, &f);
                    proof {
                        lemma_wf_records_changed(*old(self), *self);
                        crate::data_model::lemma_erased_model(old(self).records, self.records, ev, fv, record_v());
                    }
                    let ghost mid = *self;
                    self.remove_link(&e, &f);
                    assert(InMemoryData::link_removed(mid, *self, e@, f@));
                    proof {
                        let om = old(self).model();
                        let erased = DataModel { records: model_erase(om.records, ev, fv), ..om };
                        assert(mid.model() =~= erased);
                        old(self).lemma_reads_model();
                        if old(self).base_link(ev, fv) is Some {
                            crate::data_model::lemma_erased_model(mid.links, self.links, ev, fv, link_v());
                            mid.lemma_gc_model();
                            reveal_with_fuel(count_all, 2);
                            assert(seq![ev].drop_first() =~= Seq::<Seq<char>>::empty());
                            assert(self.model() =~= DataModel { links: model_erase(om.links, ev, fv), ..erased }.count(seq![ev], -1isize));
                        } else {
                            assert(self.model() =~= erased);
                        }
                    }
                } else {
                    assert(self.model() =~= old(self).model().write_record(ev, fv, opt_json_v(value)));
                }
            },
        }
    }

    /// Write a link into the base layer: the entities that the old link pointed to lose a
    /// count, those that the new one points to gain one.
    pub fn write_link(&mut self, e: String, f: FieldKey, link: Link)
        requires
            old(self).wf(),
        ensures
            final(self).wf(),
            layer_written(Some(old(self).links), final(self).links, e@, f@, link),
            (final(self).ref_counts@, final(self).gc_queue@) == ({
                let old_keys = match old(self).base_link(e@, f@) {
                    Some(l) => l.keys(),
                    None => Seq::empty(),
                };
                let (r1, g1) = count_all(old(self).ref_counts@, old(self).gc_queue@, old_keys, -1isize);
                count_all(r1, g1, link.keys(), 1isize)
            }),
            final(self).records == old(self).records,
            final(self).optimistic_records == old(self).optimistic_records,
            final(self).optimistic_links == old(self).optimistic_links,
            final(self).dependencies == old(self).dependencies,
            final(self).model() == old(self).model().write_link(e@, f@, link@),
    {
        let ghost ev = e@;
        let ghost fv = f@;
        let ghost lv = link;
        let old_keys = match layer_lookup(&self.links, &e, &f) {
            Some(l) => link_keys(l),
            None => Vec::new(),
        };
        proof {
            let ok = old_keys@.map_values(|k: String| k@);
            assert(ok =~= match old(self).base_link(e@, f@) {
                Some(l) => l.keys(),
                None => Seq::<Seq<char>>::empty(),
            });
            assert forall|i: int| 0 <= i < ok.len() implies self.ref_counts@.contains_key(#[trigger] ok[i]) by {
                let l = old(self).base_link(e@, f@)->0;
                assert(l.keys().contains(ok[i]));
            }
        }
        count_keys(&mut self.ref_counts, &mut self.gc_queue, &old_keys, -1);
        let new_keys = link_keys(&link);
        let ghost r1 = self.ref_counts@;
        let ghost g1 = self.gc_queue@;
        count_keys(&mut self.ref_counts, &mut self.gc_queue, &new_keys, 1);
        proof {
            lemma_count_all_dom(old(self).ref_counts@, old(self).gc_queue@, old_keys@.map_values(|k: String| k@), -1isize);
            lemma_count_all_dom(r1, g1, new_keys@.map_values(|k: String| k@), 1isize);
        }
        let ghost before = *self;
        layer_write(&mut self.links, e, f, link);
        proof {
            assert(old(self).ref_counts@.dom().subset_of(self.ref_counts@.dom()));
            let nk = new_keys@.map_values(|k: String| k@);
            assert forall|e2: Seq<char>, f2: (Seq<char>, Seq<char>), k: Seq<char>|
                #![trigger self.base_link(e2, f2), self.ref_counts@.contains_key(k)]
                self.base_link(e2, f2) matches Some(l) && l.keys().contains(k)
                implies self.ref_counts@.contains_key(k) by {
                if e2 == e@ && f2 == f@ {
                    let j = choose|j: int| 0 <= j < nk.len() && nk[j] == k;
                    assert(self.ref_counts@.contains_key(nk[j]));
                } else {
                    assert(old(self).base_link(e2, f2) == self.base_link(e2, f2));
                    assert(old(self).ref_counts@.contains_key(k));
                }
            }
            assert forall|i: int, e2: Seq<char>, f2: (Seq<char>, Seq<char>), k: Seq<char>|
                #![trigger layer_get(self.optimistic_links.entries@[i].1, e2, f2), self.ref_counts@.contains_key(k)]
                0 <= i < self.optimistic_links.entries@.len() && (
                layer_get(self.optimistic_links.entries@[i].1, e2, f2) matches Some(Some(l))
                && l.keys().contains(k)) implies self.ref_counts@.contains_key(k) by {
                assert(old(self).ref_counts@.contains_key(k));
            }
            crate::data_model::lemma_written_model(Some(old(self).links), self.links, ev, fv, lv, link_v());
            old(self).lemma_reads_model();
            old(self).lemma_gc_model();
            lv.lemma_view_keys();
            assert(opt_link_v(old(self).base_link(ev, fv)) == model_get(old(self).model().links, ev, fv));
            match old(self).base_link(ev, fv) {
                Some(x) => x.lemma_view_keys(),
                None => {},
            }
            let om = old(self).model();
            let ok = match model_get(om.links, ev, fv) {
                Some(x) => x.keys(),
                None => Seq::<Seq<char>>::empty(),
            };
            om.lemma_count_gc(ok, -1isize);
            assert(self.model() =~= om.write_link(ev, fv, lv@));
        }
    }
}


impl InMemoryData {
    /// Take field `f` of entity `e` out of the base records and links and out of every
    /// optimistic layer; the entities of a base link taken out lose a count.
    pub fn delete_field(&mut self, e: &String, f: &FieldKey)
        requires
            old(self).wf(),
        ensures
            final(self).wf(),
            final(self).dependencies == old(self).dependencies,
            final(self).model() == old(self).model().delete_field(e@, f@),
    {
        let ghost ev = e@;
        let ghost fv = f@;
        let old_keys = match layer_lookup(&self.links, e, f) {
            Some(l) => link_keys(l),
            None => Vec::new(),
        };
        proof {
            let ok = old_keys@.map_values(|k: String| k@);
            assert(ok =~= match old(self).base_link(ev, fv) {
                Some(l) => l.keys(),
                None => Seq::<Seq<char>>::empty(),
            });
            assert forall|i: int| 0 <= i < ok.len() implies self.ref_counts@.contains_key(#[trigger] ok[i]) by {
                let l = old(self).base_link(ev, fv)->0;
                assert(l.keys().contains(ok[i]));
            }
        }
        count_keys(&mut self.ref_counts, &mut self.gc_queue, &old_keys, -1);
        proof {
            lemma_count_all_dom(old(self).ref_counts@, old(self).gc_queue@, old_keys@.map_values(|k: String| k@), -1isize);
        }
        layer_erase(&mut self.records, e, f);
        layer_erase(&mut self.links, e, f);
        layers_erase(&mut self.optimistic_records, e, f);
        layers_erase(&mut self.optimistic_links, e, f);
        proof {
            let o = *old(self);
            assert(o.ref_counts@.dom().subset_of(self.ref_counts@.dom()));
            assert forall|e2: Seq<char>, f2: (Seq<char>, Seq<char>), k: Seq<char>|
                #![trigger self.base_link(e2, f2), self.ref_counts@.contains_key(k)]
                self.base_link(e2, f2) matches Some(l) && l.keys().contains(k)
                implies self.ref_counts@.contains_key(k) by {
                assert(o.base_link(e2, f2) == self.base_link(e2, f2));
                assert(o.ref_counts@.contains_key(k));
            }
            let sa = o.optimistic_links.entries@;
            let sb = self.optimistic_links.entries@;
            assert forall|i: int, e2: Seq<char>, f2: (Seq<char>, Seq<char>), k: Seq<char>|
                #![trigger layer_get(sb[i].1, e2, f2), self.ref_counts@.contains_key(k)]
                0 <= i < sb.len() && (
                layer_get(sb[i].1, e2, f2) matches Some(Some(l))
                && l.keys().contains(k)) implies self.ref_counts@.contains_key(k) by {
                assert(sb[i].0 == sa[i].0);
                assert(layer_erased(sa[i].1, sb[i].1, ev, fv));
                assert(layer_get(sb[i].1, e2, f2) == (if e2 == ev && f2 == fv { None } else { layer_get(sa[i].1, e2, f2) }));
                assert(o.ref_counts@.contains_key(k));
            }
            assert(self.links_counted());
            crate::data_model::lemma_erased_model(o.records, self.records, ev, fv, record_v());
            crate::data_model::lemma_erased_model(o.links, self.links, ev, fv, link_v());
            crate::data_model::lemma_layers_erased_model(o.optimistic_records.entries@, self.optimistic_records.entries@, ev, fv, opt_record_v());
            crate::data_model::lemma_layers_erased_model(o.optimistic_links.entries@, self.optimistic_links.entries@, ev, fv, opt_link_v_fn());
            o.lemma_reads_model();
            o.lemma_gc_model();
            assert(opt_link_v(o.base_link(ev, fv)) == model_get(o.model().links, ev, fv));
            match o.base_link(ev, fv) {
                Some(x) => x.lemma_view_keys(),
                None => {},
            }
            let om = o.model();
            let ok = match model_get(om.links, ev, fv) {
                Some(x) => x.keys(),
                None => Seq::<Seq<char>>::empty(),
            };
            om.lemma_count_gc(ok, -1isize);
            assert(self.model() =~= om.delete_field(ev, fv));
        }
    }
}

/// A field found through the layers was written by one of them.
pub proof fn lemma_layers_find_some<V>(layers: Seq<(u64, Layer<V>)>, e: Seq<char>, f: (Seq<char>, Seq<char>))
    requires
        layers_find(layers, e, f) is Some,
    ensures
        exists|i: int| 0 <= i < layers.len() && #[trigger] layer_get(layers[i].1, e, f) == layers_find(layers, e, f),
    decreases layers.len(),
{
    if layer_get(layers[0].1, e, f) is Some {
        assert(layer_get(layers[0].1, e, f) == layers_find(layers, e, f));
    } else {
        lemma_layers_find_some(layers.drop_first(), e, f);
        let i = choose|i: int| 0 <= i < layers.drop_first().len() && #[trigger] layer_get(layers.drop_first()[i].1, e, f) == layers_find(layers.drop_first(), e, f);
        assert(layers.drop_first()[i] == layers[i + 1]);
    }
}

impl InMemoryData {
    /// Every entity that the visible link points to is counted.
    pub proof fn lemma_visible_link_counted(self, e: Seq<char>, f: (Seq<char>, Seq<char>))
        requires
            self.links_counted(),
        ensures
            self.link(e, f) matches Some(l) ==> forall|k: Seq<char>| l.keys().contains(k) ==> #[trigger] self.ref_counts@.contains_key(k),
    {
        match layers_find(self.optimistic_links.entries@, e, f) {
            Some(o) => {
                lemma_layers_find_some(self.optimistic_links.entries@, e, f);
                let i = choose|i: int| 0 <= i < self.optimistic_links.entries@.len() && #[trigger] layer_get(self.optimistic_links.entries@[i].1, e, f) == layers_find(self.optimistic_links.entries@, e, f);
                assert forall|k: Seq<char>| self.link(e, f) matches Some(l) && l.keys().contains(k)
                    implies #[trigger] self.ref_counts@.contains_key(k) by {
                    assert(layer_get(self.optimistic_links.entries@[i].1, e, f) == Some(Some(self.link(e, f)->0)));
                }
            },
            None => {
                assert forall|k: Seq<char>| self.link(e, f) matches Some(l) && l.keys().contains(k)
                    implies #[trigger] self.ref_counts@.contains_key(k) by {
                    assert(self.base_link(e, f) == self.link(e, f));
                }
            },
        }
    }

    /// The counting that writing `l` into an optimistic layer does for one side of the
    /// change: a link counts its own entities by `by`; a deletion (`None`) counts, by the
    /// opposite amount, the entities of the link that readers see at that field.
    pub open spec fn count_plan(self, e: Seq<char>, f: (Seq<char>, Seq<char>), l: Option<Link>, by: isize) -> (Seq<Seq<char>>, isize) {
        match l {
            Some(l) => (l.keys(), by),
            None => (
                match self.link(e, f) {
                    Some(v) => v.keys(),
                    None => Seq::empty(),
                },
                (0 - by) as isize,
            ),
        }
    }

    /// The counting for the value that an optimistic write replaces in its layer.
    pub open spec fn replaced_plan(self, key: u64, e: Seq<char>, f: (Seq<char>, Seq<char>)) -> (Seq<Seq<char>>, isize) {
        match layer_pos(self.optimistic_links.entries@, key) {
            Some(i) => match layer_get(self.optimistic_links.entries@[i].1, e, f) {
                Some(o) => self.count_plan(e, f, o, -1isize),
                None => (Seq::empty(), 0isize),
            },
            None => (Seq::empty(), 0isize),
        }
    }

    fn plan_count(&self, e: &String, f: &FieldKey, l: &Option<Link>, by: isize) -> (r: (Vec<String>, isize))
        requires
            self.wf(),
            by == 1 || by == -1,
            by == -1 && l is Some ==> forall|k: Seq<char>| l->0.keys().contains(k) ==> #[trigger] self.ref_counts@.contains_key(k),
        ensures
            (r.0@.map_values(|k: String| k@), r.1) == self.count_plan(e@, f@, *l, by),
            count_allowed(self.ref_counts@, r.0@.map_values(|k: String| k@), r.1)
                || (l is Some && by == 1isize),
    {
        match l {
            Some(link) => {
                let keys = link_keys(link);
                proof {
                    let ks = keys@.map_values(|k: String| k@);
                    if by == -1 {
                        assert forall|i: int| 0 <= i < ks.len() implies self.ref_counts@.contains_key(#[trigger] ks[i]) by {
                            assert(link.keys().contains(ks[i]));
                        }
                    }
                }
                (keys, by)
            },
            None => {
                proof {
                    self.lemma_visible_link_counted(e@, f@);
                }
                let keys = match self.read_link(e, f) {
                    Some(v) => link_keys(v),
                    None => {
                        let v: Vec<String> = Vec::new();
                        assert(v@.map_values(|k: String| k@) =~= Seq::<Seq<char>>::empty());
                        v
                    },
                };
                proof {
                    let ks = keys@.map_values(|k: String| k@);
                    if by == 1 {
                        assert forall|i: int| 0 <= i < ks.len() implies self.ref_counts@.contains_key(#[trigger] ks[i]) by {
                            assert(self.link(e@, f@)->0.keys().contains(ks[i]));
                        }
                    }
                }
                (keys, 0 - by)
            },
        }
    }
}


/// The layers left after the one with the given key is dropped.
pub open spec fn layers_without<V>(layers: Seq<(u64, Layer<V>)>, key: u64) -> Seq<(u64, Layer<V>)> {
    match layer_pos(layers, key) {
        Some(i) => layers.remove(i),
        None => layers,
    }
}

/// Drop the layer with the given key, keeping the others in order.
fn layers_drop<V>(layers: &mut Table<u64, Layer<V>>, key: u64)
    requires
        layers_wf(*old(layers)),
    ensures
        layers_wf(*final(layers)),
        final(layers).entries@ == layers_without(old(layers).entries@, key),
{
    let ghost s = layers.entries@;
    let r = layers.remove(&key);
    proof {
        if r is Some {
            let i = choose|i: int| 0 <= i < s.len() && #[trigger] s[i].0@ == key@
                && layers.entries@ == s.remove(i);
            lemma_unique_pos(s, i);
            assert forall|j: int| 0 <= j < layers.entries@.len() implies layer_wf(#[trigger] layers.entries@[j].1) by {
                if j < i {
                    assert(layers.entries@[j] == s[j]);
                } else {
                    assert(layers.entries@[j] == s[j + 1]);
                }
            }
        } else {
            crate::table::lemma_entries_map_dom(s, key);
            if exists|i: int| 0 <= i < s.len() && #[trigger] s[i].0 == key {
                let i = choose|i: int| 0 <= i < s.len() && #[trigger] s[i].0 == key;
                assert(s[i].0@ == key@);
            }
        }
    }
}

/// `new` is `old` with field `f` of entity `e` taken out of every layer; the layers keep
/// their keys and their order.
pub open spec fn layers_erased<V>(old: Seq<(u64, Layer<V>)>, new: Seq<(u64, Layer<V>)>, e: Seq<char>, f: (Seq<char>, Seq<char>)) -> bool {
    &&& new.len() == old.len()
    &&& forall|i: int| 0 <= i < old.len() ==> #[trigger] new[i].0 == old[i].0 && layer_erased(old[i].1, new[i].1, e, f)
}

/// Take field `f` of entity `e` out of every layer.
fn layers_erase<V>(layers: &mut Table<u64, Layer<V>>, e: &String, f: &FieldKey)
    requires
        layers_wf(*old(layers)),
    ensures
        layers_wf(*final(layers)),
        layers_erased(old(layers).entries@, final(layers).entries@, e@, f@),
{
    let ghost s = layers.entries@;
    let mut i: usize = 0;
    while i < layers.entries.len()
        invariant
            i <= layers.entries@.len(),
            layers.entries@.len() == s.len(),
            forall|j: int| 0 <= j < s.len() ==> #[trigger] layers.entries@[j].0 == s[j].0,
            forall|j: int| 0 <= j < i ==> layer_erased(s[j].1, #[trigger] layers.entries@[j].1, e@, f@),
            forall|j: int| i <= j < s.len() ==> #[trigger] layers.entries@[j] == s[j],
            crate::table::keys_unique(s),
            forall|j: int| 0 <= j < s.len() ==> layer_wf(#[trigger] s[j].1),
        decreases s.len() - i,
    {
        let ghost before = layers.entries@;
        let (k, mut layer) = layers.entries.remove(i);
        proof {
            assert(layer == s[i as int].1);
        }
        layer_erase(&mut layer, e, f);
        layers.entries.insert(i, (k, layer));
        proof {
            assert(layers.entries@ =~= before.update(i as int, (k, layer)));
        }
        i = i + 1;
    }
    proof {
        assert forall|a: int, b: int| 0 <= a < b < layers.entries@.len() implies layers.entries@[a].0@ != layers.entries@[b].0@ by {
            assert(s[a].0@ != s[b].0@);
        }
        assert forall|j: int| 0 <= j < layers.entries@.len() implies layer_wf(#[trigger] layers.entries@[j].1) by {
        }
    }
}

pub proof fn lemma_push_to_set<A>(s: Seq<A>, x: A)
    ensures
        s.push(x).to_set() == s.to_set().insert(x),
{
    assert forall|y: A| s.push(x).to_set().contains(y) <==> s.to_set().insert(x).contains(y) by {
        if s.to_set().contains(y) {
            let j = choose|j: int| 0 <= j < s.len() && s[j] == y;
            assert(s.push(x)[j] == y);
        }
        if s.push(x).to_set().contains(y) && y != x {
            let j = choose|j: int| 0 <= j < s.push(x).len() && s.push(x)[j] == y;
            assert(s[j] == y);
        }
        if y == x {
            assert(s.push(x)[s.len() as int] == x);
        }
    }
    assert(s.push(x).to_set() =~= s.to_set().insert(x));
}

/// Whether a sequence of keys holds `e`.
pub open spec fn mentions(deps: Seq<String>, e: Seq<char>) -> bool {
    exists|i: int| 0 <= i < deps.len() && #[trigger] deps[i]@ == e
}

fn vec_has(v: &Vec<u64>, x: u64) -> (b: bool)
    ensures
        b == v@.contains(x),
{
    let mut i: usize = 0;
    while i < v.len()
        invariant
            i <= v@.len(),
            forall|j: int| 0 <= j < i ==> v@[j] != x,
        decreases v@.len() - i,
    {
        if v[i] == x {
            return true;
        }
        i = i + 1;
    }
    false
}

impl InMemoryData {
    /// Write a record into the optimistic layer `key`, creating the layer after all others
    /// when it is missing. `None` marks the field as deleted in that layer.
    pub fn write_record_optimistic(&mut self, key: u64, e: String, f: FieldKey, value: Option<Json>)
        requires
            old(self).wf(),
        ensures
            final(self).wf(),
            layers_written(old(self).optimistic_records.entries@, final(self).optimistic_records.entries@, key, e@, f@, value),
            final(self).records == old(self).records,
            final(self).links == old(self).links,
            final(self).optimistic_links == old(self).optimistic_links,
            final(self).dependencies == old(self).dependencies,
            final(self).ref_counts == old(self).ref_counts,
            final(self).gc_queue == old(self).gc_queue,
            final(self).model() == old(self).model().write_record_optimistic(key, e@, f@, opt_json_v(value)),
    {
        let ghost ev = e@;
        let ghost fv = f@;
        layers_write(&mut self.optimistic_records, key, e, f, value);
        proof {
            lemma_links_counted_grow(*old(self), *self);
            crate::data_model::lemma_layers_written_model(old(self).optimistic_records.entries@, self.optimistic_records.entries@, key, ev, fv, value, opt_record_v());
            assert(self.model() =~= old(self).model().write_record_optimistic(key, ev, fv, opt_json_v(value)));
        }
    }

    /// Write a link into the optimistic layer `key`. The value it replaces in that layer is
    /// counted down and the new one up, as `count_plan` says.
    pub fn write_link_optimistic(&mut self, key: u64, e: String, f: FieldKey, link: Option<Link>)
        requires
            old(self).wf(),
        ensures
            final(self).wf(),
            layers_written(old(self).optimistic_links.entries@, final(self).optimistic_links.entries@, key, e@, f@, link),
            (final(self).ref_counts@, final(self).gc_queue@) == ({
                let p1 = old(self).replaced_plan(key, e@, f@);
                let (r1, g1) = count_all(old(self).ref_counts@, old(self).gc_queue@, p1.0, p1.1);
                let p2 = old(self).count_plan(e@, f@, link, 1isize);
                count_all(r1, g1, p2.0, p2.1)
            }),
            final(self).records == old(self).records,
            final(self).links == old(self).links,
            final(self).optimistic_records == old(self).optimistic_records,
            final(self).dependencies == old(self).dependencies,
            final(self).model() == old(self).model().write_link_optimistic(key, e@, f@, opt_link_v(link)),
    {
        let ghost ev = e@;
        let ghost fv = f@;
        let ghost lv = link;
        let ghost s = self.optimistic_links.entries@;
        let (keys1, by1) = match self.optimistic_links.index_of(&key) {
            Some(i) => {
                proof {
                    lemma_unique_pos(s, i as int);
                }
                match layer_lookup(&self.optimistic_links.entries[i].1, &e, &f) {
                    Some(o) => {
                        proof {
                            if o is Some {
                                assert forall|k: Seq<char>| o->0.keys().contains(k) implies #[trigger] self.ref_counts@.contains_key(k) by {
                                    assert(layer_get(self.optimistic_links.entries@[i as int].1, e@, f@) == Some(*o));
                                }
                            }
                        }
                        self.plan_count(&e, &f, o, -1)
                    },
                    None => {
                        let v: Vec<String> = Vec::new();
                        assert(v@.map_values(|k: String| k@) =~= Seq::<Seq<char>>::empty());
                        (v, 0isize)
                    },
                }
            },
            None => {
                proof {
                    crate::table::lemma_entries_map_dom(s, key);
                    if exists|i: int| 0 <= i < s.len() && #[trigger] s[i].0 == key {
                        let i = choose|i: int| 0 <= i < s.len() && #[trigger] s[i].0 == key;
                        assert(s[i].0@ == key@);
                    }
                }
                let v: Vec<String> = Vec::new();
                assert(v@.map_values(|k: String| k@) =~= Seq::<Seq<char>>::empty());
                (v, 0isize)
            },
        };
        let (keys2, by2) = self.plan_count(&e, &f, &link, 1);
        let ghost mid0 = *self;
        count_keys(&mut self.ref_counts, &mut self.gc_queue, &keys1, by1);
        let ghost r1 = self.ref_counts@;
        let ghost g1 = self.gc_queue@;
        proof {
            lemma_count_all_dom(mid0.ref_counts@, mid0.gc_queue@, keys1@.map_values(|k: String| k@), by1);
            if !(link is Some) {
                let ks = keys2@.map_values(|k: String| k@);
                assert forall|i: int| 0 <= i < ks.len() implies r1.contains_key(#[trigger] ks[i]) by {
                    if by2 < 0 {
                        assert(mid0.ref_counts@.contains_key(ks[i]));
                    }
                }
            }
        }
        count_keys(&mut self.ref_counts, &mut self.gc_queue, &keys2, by2);
        proof {
            lemma_count_all_dom(r1, g1, keys2@.map_values(|k: String| k@), by2);
        }
        let ghost mid = *self;
        layers_write(&mut self.optimistic_links, key, e, f, link);
        proof {
            assert(old(self).ref_counts@.dom().subset_of(self.ref_counts@.dom()));
            lemma_links_counted_after_layer_write(*old(self), *self, key, ev, fv, lv);
            old(self).lemma_model_plans(key, ev, fv, lv);
            crate::data_model::lemma_layers_written_model(s, self.optimistic_links.entries@, key, ev, fv, lv, opt_link_v_fn());
            old(self).lemma_gc_model();
            let om = old(self).model();
            let p1 = om.replaced(key, ev, fv);
            om.lemma_count_gc(p1.0, p1.1);
            assert(self.model() =~= om.write_link_optimistic(key, ev, fv, opt_link_v(lv)));
        }
    }
}

/// After an optimistic link write whose new entities are counted, every link is counted.
proof fn lemma_links_counted_after_layer_write(
    a: InMemoryData,
    b: InMemoryData,
    key: u64,
    e: Seq<char>,
    f: (Seq<char>, Seq<char>),
    link: Option<Link>,
)
    requires
        a.links_counted(),
        a.links == b.links,
        layers_written(a.optimistic_links.entries@, b.optimistic_links.entries@, key, e, f, link),
        a.ref_counts@.dom().subset_of(b.ref_counts@.dom()),
        link matches Some(l) ==> forall|k: Seq<char>| l.keys().contains(k) ==> #[trigger] b.ref_counts@.contains_key(k),
    ensures
        b.links_counted(),
{
    let sa = a.optimistic_links.entries@;
    let sb = b.optimistic_links.entries@;
    assert forall|e2: Seq<char>, f2: (Seq<char>, Seq<char>), k: Seq<char>|
        #![trigger b.base_link(e2, f2), b.ref_counts@.contains_key(k)]
        b.base_link(e2, f2) matches Some(l) && l.keys().contains(k)
        implies b.ref_counts@.contains_key(k) by {
        assert(a.base_link(e2, f2) == b.base_link(e2, f2));
        assert(a.ref_counts@.contains_key(k));
    }
    assert forall|i: int, e2: Seq<char>, f2: (Seq<char>, Seq<char>), k: Seq<char>|
        #![trigger layer_get(sb[i].1, e2, f2), b.ref_counts@.contains_key(k)]
        0 <= i < sb.len() && (
        layer_get(sb[i].1, e2, f2) matches Some(Some(l))
        && l.keys().contains(k)) implies b.ref_counts@.contains_key(k) by {
        match layer_pos(sa, key) {
            Some(p) => {
                if i == p {
                    if !(e2 == e && f2 == f) {
                        assert(layer_get(sb[i].1, e2, f2) == layer_get(sa[i].1, e2, f2));
                        assert(a.ref_counts@.contains_key(k));
                    }
                } else {
                    assert(sb[i] == sa[i]);
                    assert(a.ref_counts@.contains_key(k));
                }
            },
            None => {
                if i < sa.len() {
                    assert(sb[i] == sa[i]);
                    assert(a.ref_counts@.contains_key(k));
                }
            },
        }
    }
}


impl InMemoryData {
    /// Drop the optimistic layer `key` from the records and from the links.
    pub fn clear_optimistic_layer(&mut self, key: u64)
        requires
            old(self).wf(),
        ensures
            final(self).wf(),
            final(self).optimistic_records.entries@ == layers_without(old(self).optimistic_records.entries@, key),
            final(self).optimistic_links.entries@ == layers_without(old(self).optimistic_links.entries@, key),
            final(self).records == old(self).records,
            final(self).links == old(self).links,
            final(self).dependencies == old(self).dependencies,
            final(self).ref_counts == old(self).ref_counts,
            final(self).gc_queue == old(self).gc_queue,
            final(self).model() == old(self).model().clear_optimistic_layer(key),
    {
        layers_drop(&mut self.optimistic_records, key);
        layers_drop(&mut self.optimistic_links, key);
        proof {
            crate::data_model::lemma_layers_without_model(old(self).optimistic_records.entries@, key, opt_record_v());
            crate::data_model::lemma_layers_without_model(old(self).optimistic_links.entries@, key, opt_link_v_fn());
            assert(self.model() =~= old(self).model().clear_optimistic_layer(key));
            let sa = old(self).optimistic_links.entries@;
            let sb = self.optimistic_links.entries@;
            assert forall|e2: Seq<char>, f2: (Seq<char>, Seq<char>), k: Seq<char>|
                #![trigger self.base_link(e2, f2), self.ref_counts@.contains_key(k)]
                self.base_link(e2, f2) matches Some(l) && l.keys().contains(k)
                implies self.ref_counts@.contains_key(k) by {
                assert(old(self).base_link(e2, f2) == self.base_link(e2, f2));
            }
            assert forall|i: int, e2: Seq<char>, f2: (Seq<char>, Seq<char>), k: Seq<char>|
                #![trigger layer_get(sb[i].1, e2, f2), self.ref_counts@.contains_key(k)]
                0 <= i < sb.len() && (
                layer_get(sb[i].1, e2, f2) matches Some(Some(l))
                && l.keys().contains(k)) implies self.ref_counts@.contains_key(k) by {
                match layer_pos(sa, key) {
                    Some(p) => {
                        if i < p {
                            assert(sb[i] == sa[i]);
                            assert(layer_get(sa[i].1, e2, f2) == layer_get(sb[i].1, e2, f2));
                        } else {
                            assert(sb[i] == sa[i + 1]);
                            assert(layer_get(sa[i + 1].1, e2, f2) == layer_get(sb[i].1, e2, f2));
                        }
                    },
                    None => {
                        assert(layer_get(sa[i].1, e2, f2) == layer_get(sb[i].1, e2, f2));
                    },
                }
            }
        }
    }

    /// Record that the query `query_key` depends on each of the given entities; the root
    /// `Query` entity is never recorded.
    pub fn set_dependencies(&mut self, query_key: u64, dependencies: Vec<String>)
        requires
            old(self).wf(),
        ensures
            final(self).wf(),
            forall|e: Seq<char>| #[trigger] final(self).dependents(e) == if mentions(dependencies@, e) && e != "Query"@ {
                old(self).dependents(e).insert(query_key)
            } else {
                old(self).dependents(e)
            },
            final(self).records == old(self).records,
            final(self).links == old(self).links,
            final(self).optimistic_records == old(self).optimistic_records,
            final(self).optimistic_links == old(self).optimistic_links,
            final(self).ref_counts == old(self).ref_counts,
            final(self).gc_queue == old(self).gc_queue,
            final(self).model() == old(self).model().set_dependencies(query_key, keys_v(dependencies@)),
    {
        let root = String::from_str("Query");
        let mut i: usize = 0;
        while i < dependencies.len()
            invariant
                i <= dependencies@.len(),
                root@ == "Query"@,
                self.wf(),
                forall|e: Seq<char>| #[trigger] self.dependents(e) == if mentions(dependencies@.take(i as int), e) && e != "Query"@ {
                    old(self).dependents(e).insert(query_key)
                } else {
                    old(self).dependents(e)
                },
                forall|e: Seq<char>| #[trigger] self.dependencies@.contains_key(e) <==>
                    old(self).dependencies@.contains_key(e) || (mentions(dependencies@.take(i as int), e) && e != "Query"@),
                self.records == old(self).records,
                self.links == old(self).links,
                self.optimistic_records == old(self).optimistic_records,
                self.optimistic_links == old(self).optimistic_links,
                self.ref_counts == old(self).ref_counts,
                self.gc_queue == old(self).gc_queue,
            decreases dependencies@.len() - i,
        {
            let dep = &dependencies[i];
            let ghost before = *self;
            if *dep != root {
                let set = match self.dependencies.remove(dep) {
                    Some(v) => {
                        let mut v = v;
                        if !vec_has(&v, query_key) {
                            v.push(query_key);
                        }
                        v
                    },
                    None => {
                        let mut v: Vec<u64> = Vec::new();
                        v.push(query_key);
                        v
                    },
                };
                proof {
                    if before.dependencies@.contains_key(dep@) {
                        let v0 = before.dependencies@[dep@]@;
                        if v0.contains(query_key) {
                            assert(set@ == v0);
                            assert(v0.to_set().insert(query_key) =~= v0.to_set());
                        } else {
                            lemma_push_to_set(v0, query_key);
                        }
                    } else {
                        lemma_push_to_set(Seq::<u64>::empty(), query_key);
                        assert(Seq::<u64>::empty().push(query_key) =~= set@);
                        assert(Seq::<u64>::empty().to_set() =~= Set::<u64>::empty());
                    }
                    assert(set@.to_set() =~= before.dependents(dep@).insert(query_key));
                }
                self.dependencies.insert(dep.clone(), set);
                proof {
                    assert forall|e: Seq<char>| #[trigger] self.dependencies@.contains_key(e)
                        implies self.dependencies@[e]@.no_duplicates() by {
                        if e != dep@ {
                            assert(before.dependencies@.contains_key(e));
                        }
                    }
                }
            }
            proof {
                assert forall|e: Seq<char>| #[trigger] self.dependents(e) == (if e == dep@ && dep@ != "Query"@ {
                    before.dependents(e).insert(query_key)
                } else {
                    before.dependents(e)
                }) by {
                    if e != dep@ || dep@ == "Query"@ {
                        assert(self.dependencies@.contains_key(e) == before.dependencies@.contains_key(e));
                    }
                }
                assert forall|e: Seq<char>| #[trigger] self.dependents(e) == if mentions(dependencies@.take(i + 1), e) && e != "Query"@ {
                    old(self).dependents(e).insert(query_key)
                } else {
                    old(self).dependents(e)
                } by {
                    assert(dependencies@.take(i + 1)[i as int] == dependencies@[i as int]);
                    if mentions(dependencies@.take(i as int), e) {
                        let j = choose|j: int| 0 <= j < dependencies@.take(i as int).len() && #[trigger] dependencies@.take(i as int)[j]@ == e;
                        assert(dependencies@.take(i + 1)[j] == dependencies@.take(i as int)[j]);
                    }
                    if mentions(dependencies@.take(i + 1), e) && e != dep@ {
                        let j = choose|j: int| 0 <= j < dependencies@.take(i + 1).len() && #[trigger] dependencies@.take(i + 1)[j]@ == e;
                        assert(dependencies@.take(i as int)[j] == dependencies@.take(i + 1)[j]);
                    }
                    if e == dep@ && e != "Query"@ {
                        assert(old(self).dependents(e).insert(query_key).insert(query_key) =~= old(self).dependents(e).insert(query_key));
                    }
                }
                assert forall|e: Seq<char>| #[trigger] self.dependencies@.contains_key(e) <==>
                    old(self).dependencies@.contains_key(e) || (mentions(dependencies@.take(i + 1), e) && e != "Query"@) by {
                    assert(dependencies@.take(i + 1)[i as int] == dependencies@[i as int]);
                    if mentions(dependencies@.take(i as int), e) {
                        let j = choose|j: int| 0 <= j < dependencies@.take(i as int).len() && #[trigger] dependencies@.take(i as int)[j]@ == e;
                        assert(dependencies@.take(i + 1)[j] == dependencies@.take(i as int)[j]);
                    }
                    if mentions(dependencies@.take(i + 1), e) && e != dep@ {
                        let j = choose|j: int| 0 <= j < dependencies@.take(i + 1).len() && #[trigger] dependencies@.take(i + 1)[j]@ == e;
                        assert(dependencies@.take(i as int)[j] == dependencies@.take(i + 1)[j]);
                    }
                    if e != dep@ || dep@ == "Query"@ {
                        assert(self.dependencies@.contains_key(e) == before.dependencies@.contains_key(e));
                    }
                }
                lemma_links_counted_grow(before, *self);
            }
            i = i + 1;
        }
        assert(dependencies@.take(dependencies@.len() as int) =~= dependencies@);
        proof {
            let ds = keys_v(dependencies@);
            old(self).lemma_reads_model();
            assert forall|e: Seq<char>| ds.contains(e) <==> mentions(dependencies@, e) by {
                if ds.contains(e) {
                    let j = choose|j: int| 0 <= j < ds.len() && ds[j] == e;
                    assert(dependencies@[j]@ == e);
                }
                if mentions(dependencies@, e) {
                    let j = choose|j: int| 0 <= j < dependencies@.len() && #[trigger] dependencies@[j]@ == e;
                    assert(ds[j] == e);
                }
            }
            let m = old(self).model().set_dependencies(query_key, ds);
            assert(self.model().dependencies.dom() =~= m.dependencies.dom());
            assert forall|e: Seq<char>| #[trigger] self.model().dependencies.contains_key(e)
                implies self.model().dependencies[e] == m.dependencies[e] by {
                assert(self.dependents(e) == self.dependencies@[e]@.to_set());
            }
            assert(self.model().dependencies =~= m.dependencies);
            assert(self.model() =~= m);
        }
    }

    /// The queries that depend on an entity, each once.
    pub fn get_dependencies(&self, e: &String) -> (r: Vec<u64>)
        requires
            self.wf(),
        ensures
            r@.to_set() == self.dependents(e@),
            r@.no_duplicates(),
    {
        match self.dependencies.get(e) {
            Some(v) => {
                let mut r: Vec<u64> = Vec::new();
                let mut i: usize = 0;
                while i < v.len()
                    invariant
                        i <= v@.len(),
                        r@ == v@.take(i as int),
                    decreases v@.len() - i,
                {
                    r.push(v[i]);
                    assert(v@.take(i + 1) =~= v@.take(i as int).push(v@[i as int]));
                    i = i + 1;
                }
                assert(v@.take(v@.len() as int) =~= v@);
                r
            },
            None => {
                let r: Vec<u64> = Vec::new();
                assert(r@.to_set() =~= Set::<u64>::empty());
                r
            },
        }
    }

    /// Drop the base records of every entity queued for collection, and empty the queue.
    pub fn collect_garbage(&mut self)
        requires
            old(self).wf(),
        ensures
            final(self).wf(),
            final(self).records@ == old(self).records@.remove_keys(old(self).gc_queue@.dom()),
            final(self).gc_queue@ == Map::<Seq<char>, ()>::empty(),
            final(self).links == old(self).links,
            final(self).optimistic_records == old(self).optimistic_records,
            final(self).optimistic_links == old(self).optimistic_links,
            final(self).dependencies == old(self).dependencies,
            final(self).ref_counts == old(self).ref_counts,
            final(self).model() == old(self).model().collect_garbage(),
    {
        let keys = self.gc_queue.keys();
        let ghost ks = keys@.map_values(|k: String| k@);
        let mut i: usize = 0;
        while i < keys.len()
            invariant
                i <= keys@.len(),
                ks == keys@.map_values(|k: String| k@),
                layer_wf(self.records),
                self.links == old(self).links,
                self.optimistic_records == old(self).optimistic_records,
                self.optimistic_links == old(self).optimistic_links,
                self.dependencies == old(self).dependencies,
                self.ref_counts == old(self).ref_counts,
                self.gc_queue == old(self).gc_queue,
                self.records@ == old(self).records@.remove_keys(ks.take(i as int).to_set()),
            decreases keys@.len() - i,
        {
            self.records.remove(&keys[i]);
            proof {
                assert(ks.take(i + 1) =~= ks.take(i as int).push(ks[i as int]));
                lemma_push_to_set(ks.take(i as int), ks[i as int]);
                assert(self.records@ =~= old(self).records@.remove_keys(ks.take(i + 1).to_set()));
                assert forall|e: Seq<char>| #[trigger] self.records@.contains_key(e) implies self.records@[e].wf() by {
                    assert(old(self).records@.contains_key(e));
                }
            }
            i = i + 1;
        }
        proof {
            assert(ks.take(ks.len() as int) =~= ks);
            assert forall|k: Seq<char>| ks.to_set().contains(k) <==> old(self).gc_queue@.dom().contains(k) by {
                crate::table::lemma_entries_map_dom(old(self).gc_queue.entries@, k);
                if old(self).gc_queue@.dom().contains(k) {
                    let j = choose|j: int| 0 <= j < old(self).gc_queue.entries@.len() && #[trigger] old(self).gc_queue.entries@[j].0@ == k;
                    assert(ks[j] == k);
                }
            }
            assert(ks.to_set() =~= old(self).gc_queue@.dom());
        }
        self.gc_queue = Table::new();
        proof {
            lemma_links_counted_grow(*old(self), *self);
            assert(layer_model(self.records, record_v()) =~= layer_model(old(self).records, record_v()).remove_keys(old(self).gc_queue@.dom()));
            assert(self.gc_queue@.dom() =~= Set::<Seq<char>>::empty());
            assert(self.model() =~= old(self).model().collect_garbage());
        }
    }

    /// Replace the base records and links with the given ones and drop every optimistic layer.
    /// An entity that the new links point to and that has no count gets a count of one;
    /// the counts there are stay.
    pub fn hydrate_data(&mut self, records: Layer<Json>, links: Layer<Link>)
        requires
            old(self).wf(),
            layer_wf(records),
            layer_wf(links),
        ensures
            final(self).wf(),
            final(self).records == records,
            final(self).links == links,
            final(self).optimistic_records@.is_empty(),
            final(self).optimistic_links@.is_empty(),
            final(self).optimistic_records.entries@.len() == 0,
            final(self).optimistic_links.entries@.len() == 0,
            final(self).dependencies == old(self).dependencies,
            final(self).gc_queue == old(self).gc_queue,
            forall|k: Seq<char>| #[trigger] final(self).ref_counts@.contains_key(k)
                <==> old(self).ref_counts@.contains_key(k) || referenced(links, k),
            forall|k: Seq<char>| old(self).ref_counts@.contains_key(k)
                ==> #[trigger] final(self).ref_counts@[k] == old(self).ref_counts@[k],
            forall|k: Seq<char>| !old(self).ref_counts@.contains_key(k) && #[trigger] final(self).ref_counts@.contains_key(k)
                ==> final(self).ref_counts@[k] == 1,
    {
        let ghost rc0 = self.ref_counts@;
        let mut a: usize = 0;
        while a < links.entries.len()
            invariant
                a <= links.entries@.len(),
                old(self).wf(),
                self.dependencies == old(self).dependencies,
                self.gc_queue == old(self).gc_queue,
                self.ref_counts.wf(),
                forall|k: Seq<char>| #[trigger] self.ref_counts@.contains_key(k) <==> rc0.contains_key(k) || seen_links(links, a as int, 0, k),
                forall|k: Seq<char>| rc0.contains_key(k) ==> #[trigger] self.ref_counts@[k] == rc0[k],
                forall|k: Seq<char>| !rc0.contains_key(k) && #[trigger] self.ref_counts@.contains_key(k) ==> self.ref_counts@[k] == 1,
            decreases links.entries@.len() - a,
        {
            let mut b: usize = 0;
            while b < links.entries[a].1.entries.len()
                invariant
                    a < links.entries@.len(),
                    b <= links.entries@[a as int].1.entries@.len(),
                    old(self).wf(),
                    self.dependencies == old(self).dependencies,
                    self.gc_queue == old(self).gc_queue,
                    self.ref_counts.wf(),
                    forall|k: Seq<char>| #[trigger] self.ref_counts@.contains_key(k) <==> rc0.contains_key(k) || seen_links(links, a as int, b as int, k),
                    forall|k: Seq<char>| rc0.contains_key(k) ==> #[trigger] self.ref_counts@[k] == rc0[k],
                    forall|k: Seq<char>| !rc0.contains_key(k) && #[trigger] self.ref_counts@.contains_key(k) ==> self.ref_counts@[k] == 1,
                decreases links.entries@[a as int].1.entries@.len() - b,
            {
                let ks = link_keys(&links.entries[a].1.entries[b].1);
                let ghost before = self.ref_counts@;
                count_missing(&mut self.ref_counts, &ks);
                proof {
                    let l = link_at(links, a as int, b as int);
                    assert(ks@.map_values(|k: String| k@) == l.keys());
                    assert(keys_v(ks@) == l.keys());
                    assert forall|k: Seq<char>| seen_links(links, a as int, b + 1, k)
                        <==> seen_links(links, a as int, b as int, k) || l.keys().contains(k) by {
                        if seen_links(links, a as int, b + 1, k) {
                            let (a2, b2) = choose|a2: int, b2: int| 0 <= a2 < links.entries@.len()
                                && 0 <= b2 < links.entries@[a2].1.entries@.len()
                                && (a2 < a || (a2 == a && b2 < b + 1)) && #[trigger] link_at(links, a2, b2).keys().contains(k);
                            if !(a2 == a && b2 == b) {
                                assert(seen_links(links, a as int, b as int, k));
                            }
                        }
                        if l.keys().contains(k) {
                            assert(link_at(links, a as int, b as int).keys().contains(k));
                        }
                        if seen_links(links, a as int, b as int, k) {
                            let (a2, b2) = choose|a2: int, b2: int| 0 <= a2 < links.entries@.len()
                                && 0 <= b2 < links.entries@[a2].1.entries@.len()
                                && (a2 < a || (a2 == a && b2 < b)) && #[trigger] link_at(links, a2, b2).keys().contains(k);
                            assert(link_at(links, a2, b2).keys().contains(k));
                        }
                    }
                }
                b = b + 1;
            }
            proof {
                assert forall|k: Seq<char>| seen_links(links, a + 1, 0, k) <==> seen_links(links, a as int, b as int, k) by {
                    if seen_links(links, a + 1, 0, k) {
                        let (a2, b2) = choose|a2: int, b2: int| 0 <= a2 < links.entries@.len()
                            && 0 <= b2 < links.entries@[a2].1.entries@.len()
                            && (a2 < a + 1 || (a2 == a + 1 && b2 < 0)) && #[trigger] link_at(links, a2, b2).keys().contains(k);
                        assert(link_at(links, a2, b2).keys().contains(k));
                    }
                    if seen_links(links, a as int, b as int, k) {
                        let (a2, b2) = choose|a2: int, b2: int| 0 <= a2 < links.entries@.len()
                            && 0 <= b2 < links.entries@[a2].1.entries@.len()
                            && (a2 < a || (a2 == a && b2 < b)) && #[trigger] link_at(links, a2, b2).keys().contains(k);
                        assert(link_at(links, a2, b2).keys().contains(k));
                    }
                }
            }
            a = a + 1;
        }
        let ghost o = *self;
        self.records = records;
        self.links = links;
        self.optimistic_records = Table::new();
        self.optimistic_links = Table::new();
        proof {
            assert forall|e: Seq<char>, f: (Seq<char>, Seq<char>), k: Seq<char>|
                #![trigger self.base_link(e, f), self.ref_counts@.contains_key(k)]
                self.base_link(e, f) matches Some(l) && l.keys().contains(k)
                implies self.ref_counts@.contains_key(k) by {
                lemma_layer_get_entry(links, e, f);
                let (a2, b2) = choose|a2: int, b2: int| 0 <= a2 < links.entries@.len()
                    && 0 <= b2 < links.entries@[a2].1.entries@.len()
                    && #[trigger] link_at(links, a2, b2) == layer_get(links, e, f)->0;
                assert(link_at(links, a2, b2).keys().contains(k));
                assert(seen_links(links, links.entries@.len() as int, 0, k));
            }
        }
    }
}

/// The link at the `b`th field of the `a`th entity of a layer.
pub open spec fn link_at(links: Layer<Link>, a: int, b: int) -> Link {
    links.entries@[a].1.entries@[b].1
}

/// Some link of the layer before the `b`th field of the `a`th entity points to `k`.
pub open spec fn seen_links(links: Layer<Link>, a: int, b: int, k: Seq<char>) -> bool {
    exists|a2: int, b2: int| 0 <= a2 < links.entries@.len() && 0 <= b2 < links.entries@[a2].1.entries@.len()
        && (a2 < a || (a2 == a && b2 < b)) && #[trigger] link_at(links, a2, b2).keys().contains(k)
}

/// Some link of the layer points to `k`.
pub open spec fn referenced(links: Layer<Link>, k: Seq<char>) -> bool {
    seen_links(links, links.entries@.len() as int, 0, k)
}

/// A link found in a layer is at one of its entries.
proof fn lemma_layer_get_entry(links: Layer<Link>, e: Seq<char>, f: (Seq<char>, Seq<char>))
    requires
        layer_wf(links),
        layer_get(links, e, f) is Some,
    ensures
        exists|a2: int, b2: int| 0 <= a2 < links.entries@.len() && 0 <= b2 < links.entries@[a2].1.entries@.len()
            && #[trigger] link_at(links, a2, b2) == layer_get(links, e, f)->0,
{
    crate::table::lemma_entries_map_dom(links.entries@, e);
    let a2 = choose|i: int| 0 <= i < links.entries@.len() && #[trigger] links.entries@[i].0@ == e;
    crate::table::lemma_entries_map_index(links.entries@, a2);
    let inner = links.entries@[a2].1;
    assert(inner == links@[e]);
    crate::table::lemma_entries_map_dom(inner.entries@, f);
    let b2 = choose|i: int| 0 <= i < inner.entries@.len() && #[trigger] inner.entries@[i].0@ == f;
    crate::table::lemma_entries_map_index(inner.entries@, b2);
    assert(link_at(links, a2, b2) == layer_get(links, e, f)->0);
}

/// Give each of the keys that has no count a count of one; the counts there are stay.
fn count_missing(ref_counts: &mut Table<String, isize>, keys: &Vec<String>)
    requires
        old(ref_counts).wf(),
    ensures
        final(ref_counts).wf(),
        forall|k: Seq<char>| #[trigger] final(ref_counts)@.contains_key(k)
            <==> old(ref_counts)@.contains_key(k) || keys_v(keys@).contains(k),
        forall|k: Seq<char>| old(ref_counts)@.contains_key(k) ==> #[trigger] final(ref_counts)@[k] == old(ref_counts)@[k],
        forall|k: Seq<char>| !old(ref_counts)@.contains_key(k) && #[trigger] final(ref_counts)@.contains_key(k)
            ==> final(ref_counts)@[k] == 1,
{
    let mut i: usize = 0;
    while i < keys.len()
        invariant
            i <= keys@.len(),
            ref_counts.wf(),
            forall|k: Seq<char>| #[trigger] ref_counts@.contains_key(k)
                <==> old(ref_counts)@.contains_key(k) || keys_v(keys@.take(i as int)).contains(k),
            forall|k: Seq<char>| old(ref_counts)@.contains_key(k) ==> #[trigger] ref_counts@[k] == old(ref_counts)@[k],
            forall|k: Seq<char>| !old(ref_counts)@.contains_key(k) && #[trigger] ref_counts@.contains_key(k)
                ==> ref_counts@[k] == 1,
        decreases keys@.len() - i,
    {
        if !ref_counts.contains_key(&keys[i]) {
            ref_counts.insert(keys[i].clone(), 1);
        }
        proof {
            let p = keys_v(keys@.take(i as int));
            let q = keys_v(keys@.take(i + 1));
            assert(q =~= p.push(keys@[i as int]@));
            assert forall|k: Seq<char>| q.contains(k) <==> p.contains(k) || k == keys@[i as int]@ by {
                if q.contains(k) {
                    let j = choose|j: int| 0 <= j < q.len() && q[j] == k;
                    if j < p.len() {
                        assert(p[j] == k);
                    }
                }
                if p.contains(k) {
                    let j = choose|j: int| 0 <= j < p.len() && p[j] == k;
                    assert(q[j] == k);
                }
                if k == keys@[i as int]@ {
                    assert(q[i as int] == k);
                }
            }
        }
        i = i + 1;
    }
    proof {
        assert(keys@.take(keys@.len() as int) =~= keys@);
    }
}

/// A field key as the model sees it: the field's name and its arguments.
pub type FieldKeyV = (Seq<char>, Seq<char>);

/// One layer as the model sees it: entity key, then field key, then value.
pub type LayerModel<V> = Map<Seq<char>, Map<FieldKeyV, V>>;

/// A link as the model sees it.
#[verifier::ext_equal]
pub enum LinkV {
    Single(Seq<char>),
    List(Seq<Seq<char>>),
    Null,
}

impl LinkV {
    pub open spec fn keys(self) -> Seq<Seq<char>> {
        match self {
            LinkV::Single(k) => seq![k],
            LinkV::List(ks) => ks,
            LinkV::Null => Seq::empty(),
        }
    }
}

/// The keys of a list of strings, as the model sees them.
pub open spec fn keys_v(v: Seq<String>) -> Seq<Seq<char>> {
    v.map_values(|s: String| s@)
}

impl View for Link {
    type V = LinkV;

    open spec fn view(&self) -> LinkV {
        match self {
            Link::Single(k) => LinkV::Single(k@),
            Link::List(ks) => LinkV::List(keys_v(ks@)),
            Link::Null => LinkV::Null,
        }
    }
}

impl Link {
    pub proof fn lemma_view_keys(self)
        ensures
            self@.keys() == self.keys(),
    {
        assert(self@.keys() =~= self.keys());
    }
}

pub open spec fn opt_json_v(o: Option<Json>) -> Option<crate::json::JsonV> {
    match o {
        Some(j) => Some(j.deep()),
        None => None,
    }
}

pub open spec fn opt_link_v(o: Option<Link>) -> Option<LinkV> {
    match o {
        Some(l) => Some(l@),
        None => None,
    }
}

/// How the model sees each kind of stored value.
pub open spec fn record_v() -> spec_fn(Json) -> crate::json::JsonV {
    |j: Json| j.deep()
}

pub open spec fn opt_record_v() -> spec_fn(Option<Json>) -> Option<crate::json::JsonV> {
    |o: Option<Json>| opt_json_v(o)
}

pub open spec fn link_v() -> spec_fn(Link) -> LinkV {
    |l: Link| l@
}

pub open spec fn opt_link_v_fn() -> spec_fn(Option<Link>) -> Option<LinkV> {
    |o: Option<Link>| opt_link_v(o)
}

/// What the store holds, as plain maps and sequences.
#[verifier::ext_equal]
pub struct DataModel {
    pub records: LayerModel<crate::json::JsonV>,
    pub links: LayerModel<LinkV>,
    pub optimistic_records: Seq<(u64, LayerModel<Option<crate::json::JsonV>>)>,
    pub optimistic_links: Seq<(u64, LayerModel<Option<LinkV>>)>,
    pub dependencies: Map<Seq<char>, Set<u64>>,
    pub ref_counts: Map<Seq<char>, isize>,
    pub gc_queue: Set<Seq<char>>,
}

/// The model of a layer, each value seen through `g`.
pub open spec fn layer_model<V, W>(l: Layer<V>, g: spec_fn(V) -> W) -> LayerModel<W> {
    l@.map_values(|t: Table<FieldKey, V>| t@.map_values(g))
}

pub open spec fn layers_model<V, W>(s: Seq<(u64, Layer<V>)>, g: spec_fn(V) -> W) -> Seq<(u64, LayerModel<W>)> {
    s.map_values(|p: (u64, Layer<V>)| (p.0, layer_model(p.1, g)))
}

/// The fields of an entity in a layer; none when the entity is missing.
pub open spec fn entity_of<V>(m: LayerModel<V>, e: Seq<char>) -> Map<FieldKeyV, V> {
    if m.contains_key(e) {
        m[e]
    } else {
        Map::empty()
    }
}

pub open spec fn model_get<V>(m: LayerModel<V>, e: Seq<char>, f: FieldKeyV) -> Option<V> {
    if m.contains_key(e) && m[e].contains_key(f) {
        Some(m[e][f])
    } else {
        None
    }
}

pub open spec fn model_write<V>(m: LayerModel<V>, e: Seq<char>, f: FieldKeyV, v: V) -> LayerModel<V> {
    m.insert(e, entity_of(m, e).insert(f, v))
}

pub open spec fn model_erase<V>(m: LayerModel<V>, e: Seq<char>, f: FieldKeyV) -> LayerModel<V> {
    if m.contains_key(e) {
        m.insert(e, m[e].remove(f))
    } else {
        m
    }
}

pub open spec fn model_pos<V>(s: Seq<(u64, LayerModel<V>)>, key: u64) -> Option<int> {
    if exists|i: int| 0 <= i < s.len() && #[trigger] s[i].0 == key {
        Some(choose|i: int| 0 <= i < s.len() && #[trigger] s[i].0 == key)
    } else {
        None
    }
}

/// The first layer in order that holds the field decides it.
pub open spec fn model_find<V>(s: Seq<(u64, LayerModel<V>)>, e: Seq<char>, f: FieldKeyV) -> Option<V>
    decreases s.len(),
{
    if s.len() == 0 {
        None
    } else if model_get(s[0].1, e, f) is Some {
        model_get(s[0].1, e, f)
    } else {
        model_find(s.drop_first(), e, f)
    }
}

pub open spec fn model_layers_write<V>(s: Seq<(u64, LayerModel<V>)>, key: u64, e: Seq<char>, f: FieldKeyV, v: V) -> Seq<(u64, LayerModel<V>)> {
    match model_pos(s, key) {
        Some(i) => s.update(i, (key, model_write(s[i].1, e, f, v))),
        None => s.push((key, model_write(Map::empty(), e, f, v))),
    }
}

pub open spec fn model_layers_drop<V>(s: Seq<(u64, LayerModel<V>)>, key: u64) -> Seq<(u64, LayerModel<V>)> {
    match model_pos(s, key) {
        Some(i) => s.remove(i),
        None => s,
    }
}

pub open spec fn model_layers_erase<V>(s: Seq<(u64, LayerModel<V>)>, e: Seq<char>, f: FieldKeyV) -> Seq<(u64, LayerModel<V>)> {
    s.map_values(|p: (u64, LayerModel<V>)| (p.0, model_erase(p.1, e, f)))
}

impl DataModel {
    /// A store that holds nothing.
    pub open spec fn empty() -> DataModel {
        DataModel {
            records: Map::empty(),
            links: Map::empty(),
            optimistic_records: Seq::empty(),
            optimistic_links: Seq::empty(),
            dependencies: Map::empty(),
            ref_counts: Map::empty(),
            gc_queue: Set::empty(),
        }
    }

    /// The record that a reader sees: the first optimistic layer that holds the field
    /// decides (a `None` there is a deletion), else the base layer.
    pub open spec fn record(self, e: Seq<char>, f: FieldKeyV) -> Option<crate::json::JsonV> {
        match model_find(self.optimistic_records, e, f) {
            Some(o) => o,
            None => model_get(self.records, e, f),
        }
    }

    /// The link that a reader sees.
    pub open spec fn link(self, e: Seq<char>, f: FieldKeyV) -> Option<LinkV> {
        match model_find(self.optimistic_links, e, f) {
            Some(o) => o,
            None => model_get(self.links, e, f),
        }
    }

    /// The queries recorded as depending on an entity.
    pub open spec fn dependents(self, e: Seq<char>) -> Set<u64> {
        if self.dependencies.contains_key(e) {
            self.dependencies[e]
        } else {
            Set::empty()
        }
    }

    pub open spec fn with_counts(self, counts: (Map<Seq<char>, isize>, Map<Seq<char>, ()>)) -> DataModel {
        DataModel { ref_counts: counts.0, gc_queue: counts.1.dom(), ..self }
    }

    pub open spec fn gc_map(self) -> Map<Seq<char>, ()> {
        Map::new(|k: Seq<char>| self.gc_queue.contains(k), |k: Seq<char>| ())
    }

    /// The counts after each key in order is counted by `by`.
    pub open spec fn count(self, keys: Seq<Seq<char>>, by: isize) -> DataModel {
        self.with_counts(count_all(self.ref_counts, self.gc_map(), keys, by))
    }

    /// A base record write; `None` takes the field (and a base link under the same field,
    /// whose entity then loses a count) away from an entity that has records.
    pub open spec fn write_record(self, e: Seq<char>, f: FieldKeyV, value: Option<crate::json::JsonV>) -> DataModel {
        match value {
            Some(v) => DataModel { records: model_write(self.records, e, f, v), ..self },
            None => if self.records.contains_key(e) {
                let erased = DataModel { records: model_erase(self.records, e, f), ..self };
                if model_get(self.links, e, f) is Some {
                    DataModel { links: model_erase(self.links, e, f), ..erased }.count(seq![e], -1isize)
                } else {
                    erased
                }
            } else {
                self
            },
        }
    }

    /// A base link write: the entities of the replaced link lose a count, those of the new
    /// one gain one.
    pub open spec fn write_link(self, e: Seq<char>, f: FieldKeyV, l: LinkV) -> DataModel {
        let old_keys = match model_get(self.links, e, f) {
            Some(x) => x.keys(),
            None => Seq::empty(),
        };
        let counted = self.count(old_keys, -1isize).count(l.keys(), 1isize);
        DataModel { links: model_write(self.links, e, f, l), ..counted }
    }

    pub open spec fn write_record_optimistic(self, key: u64, e: Seq<char>, f: FieldKeyV, value: Option<crate::json::JsonV>) -> DataModel {
        DataModel { optimistic_records: model_layers_write(self.optimistic_records, key, e, f, value), ..self }
    }

    /// The counting for one side of an optimistic link change: a link counts its own
    /// entities by `by`; a deletion counts those of the visible link by the opposite amount.
    pub open spec fn plan(self, e: Seq<char>, f: FieldKeyV, l: Option<LinkV>, by: isize) -> (Seq<Seq<char>>, isize) {
        match l {
            Some(l) => (l.keys(), by),
            None => (
                match self.link(e, f) {
                    Some(v) => v.keys(),
                    None => Seq::empty(),
                },
                (0 - by) as isize,
            ),
        }
    }

    /// The counting for the value that an optimistic write replaces in its layer.
    pub open spec fn replaced(self, key: u64, e: Seq<char>, f: FieldKeyV) -> (Seq<Seq<char>>, isize) {
        match model_pos(self.optimistic_links, key) {
            Some(i) => match model_get(self.optimistic_links[i].1, e, f) {
                Some(o) => self.plan(e, f, o, -1isize),
                None => (Seq::empty(), 0isize),
            },
            None => (Seq::empty(), 0isize),
        }
    }

    pub open spec fn write_link_optimistic(self, key: u64, e: Seq<char>, f: FieldKeyV, l: Option<LinkV>) -> DataModel {
        let p1 = self.replaced(key, e, f);
        let p2 = self.plan(e, f, l, 1isize);
        let counted = self.count(p1.0, p1.1).count(p2.0, p2.1);
        DataModel { optimistic_links: model_layers_write(self.optimistic_links, key, e, f, l), ..counted }
    }

    /// The field taken out of the base layers and out of every optimistic layer; the
    /// entities of a base link taken out lose a count.
    pub open spec fn delete_field(self, e: Seq<char>, f: FieldKeyV) -> DataModel {
        let old_keys = match model_get(self.links, e, f) {
            Some(x) => x.keys(),
            None => Seq::empty(),
        };
        let counted = self.count(old_keys, -1isize);
        DataModel {
            records: model_erase(self.records, e, f),
            links: model_erase(self.links, e, f),
            optimistic_records: model_layers_erase(self.optimistic_records, e, f),
            optimistic_links: model_layers_erase(self.optimistic_links, e, f),
            ..counted
        }
    }

    pub open spec fn clear_optimistic_layer(self, key: u64) -> DataModel {
        DataModel {
            optimistic_records: model_layers_drop(self.optimistic_records, key),
            optimistic_links: model_layers_drop(self.optimistic_links, key),
            ..self
        }
    }

    /// Every entity among `deps` but the root `Query` gets the query `key` as a dependent.
    pub open spec fn set_dependencies(self, key: u64, deps: Seq<Seq<char>>) -> DataModel {
        DataModel {
            dependencies: Map::new(
                |e: Seq<char>| self.dependencies.contains_key(e) || (deps.contains(e) && e != "Query"@),
                |e: Seq<char>| if deps.contains(e) && e != "Query"@ {
                    self.dependents(e).insert(key)
                } else {
                    self.dependents(e)
                },
            ),
            ..self
        }
    }

    pub open spec fn collect_garbage(self) -> DataModel {
        DataModel { records: self.records.remove_keys(self.gc_queue), gc_queue: Set::empty(), ..self }
    }
}

impl InMemoryData {
    pub open spec fn model(self) -> DataModel {
        DataModel {
            records: layer_model(self.records, record_v()),
            links: layer_model(self.links, link_v()),
            optimistic_records: layers_model(self.optimistic_records.entries@, opt_record_v()),
            optimistic_links: layers_model(self.optimistic_links.entries@, opt_link_v_fn()),
            dependencies: self.dependencies@.map_values(|v: Vec<u64>| v@.to_set()),
            ref_counts: self.ref_counts@,
            gc_queue: self.gc_queue@.dom(),
        }
    }
}

} // verus!
