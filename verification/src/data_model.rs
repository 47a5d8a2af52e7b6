use vstd::prelude::*;
use crate::data::{DataModel, InMemoryData, Layer, LayerModel};

verus! {

/// The value a lookup finds, seen through `g`.
pub open spec fn seen<V, W>(o: Option<V>, g: spec_fn(V) -> W) -> Option<W> {
    match o {
        Some(v) => Some(g(v)),
        None => None,
    }
}

/// The model of a layer answers a lookup as the layer does.
pub proof fn lemma_layer_get_model<V, W>(l: Layer<V>, e: Seq<char>, f: (Seq<char>, Seq<char>), g: spec_fn(V) -> W)
    ensures
        seen(crate::data::layer_get(l, e, f), g) == crate::data::model_get(crate::data::layer_model(l, g), e, f),
{
}

/// The model of an optional layer; a missing layer is empty.
pub open spec fn opt_model<V, W>(l: Option<Layer<V>>, g: spec_fn(V) -> W) -> LayerModel<W> {
    match l {
        Some(l) => crate::data::layer_model(l, g),
        None => Map::empty(),
    }
}

/// A write into a layer is a write into its model.
pub proof fn lemma_written_model<V, W>(
    old: Option<Layer<V>>,
    new: Layer<V>,
    e: Seq<char>,
    f: (Seq<char>, Seq<char>),
    v: V,
    g: spec_fn(V) -> W,
)
    requires
        crate::data::layer_written(old, new, e, f, v),
    ensures
        crate::data::layer_model(new, g) == crate::data::model_write(opt_model(old, g), e, f, g(v)),
{
    let a = crate::data::layer_model(new, g);
    let om = opt_model(old, g);
    let b = crate::data::model_write(om, e, f, g(v));
    assert(om.dom() =~= crate::data::layer_dom(old));
    assert(a.dom() =~= b.dom());
    assert forall|e2: Seq<char>| #[trigger] a.contains_key(e2) implies a[e2] =~= b[e2] by {
        assert forall|f2: (Seq<char>, Seq<char>)| a[e2].contains_key(f2) <==> b[e2].contains_key(f2) by {
            assert(crate::data::layer_get(new, e2, f2) == crate::data::layer_get(new, e2, f2));
        }
        assert forall|f2: (Seq<char>, Seq<char>)| #[trigger] a[e2].contains_key(f2) implies a[e2][f2] == b[e2][f2] by {
            assert(crate::data::layer_get(new, e2, f2) == crate::data::layer_get(new, e2, f2));
        }
    }
    assert(a =~= b);
}

/// Taking a field out of a layer is taking it out of its model.
pub proof fn lemma_erased_model<V, W>(old: Layer<V>, new: Layer<V>, e: Seq<char>, f: (Seq<char>, Seq<char>), g: spec_fn(V) -> W)
    requires
        crate::data::layer_erased(old, new, e, f),
    ensures
        crate::data::layer_model(new, g) == crate::data::model_erase(crate::data::layer_model(old, g), e, f),
{
    let a = crate::data::layer_model(new, g);
    let om = crate::data::layer_model(old, g);
    let b = crate::data::model_erase(om, e, f);
    assert(a.dom() =~= b.dom());
    assert forall|e2: Seq<char>| #[trigger] a.contains_key(e2) implies a[e2] =~= b[e2] by {
        assert forall|f2: (Seq<char>, Seq<char>)| a[e2].contains_key(f2) <==> b[e2].contains_key(f2) by {
            assert(crate::data::layer_get(new, e2, f2) == crate::data::layer_get(new, e2, f2));
        }
        assert forall|f2: (Seq<char>, Seq<char>)| #[trigger] a[e2].contains_key(f2) implies a[e2][f2] == b[e2][f2] by {
            assert(crate::data::layer_get(new, e2, f2) == crate::data::layer_get(new, e2, f2));
        }
    }
    assert(a =~= b);
}

/// With unique keys, a layer is found at the same place in the model.
pub proof fn lemma_pos_model<V, W>(s: Seq<(u64, Layer<V>)>, key: u64, g: spec_fn(V) -> W)
    requires
        crate::table::keys_unique(s),
    ensures
        crate::data::model_pos(crate::data::layers_model(s, g), key) == crate::data::layer_pos(s, key),
{
    let m = crate::data::layers_model(s, g);
    if exists|i: int| 0 <= i < s.len() && #[trigger] s[i].0 == key {
        let i = choose|i: int| 0 <= i < s.len() && #[trigger] s[i].0 == key;
        assert(m[i].0 == key);
        let j = choose|j: int| 0 <= j < m.len() && #[trigger] m[j].0 == key;
        assert(s[j].0 == key);
        if i < j {
            assert(s[i].0@ != s[j].0@);
        } else if j < i {
            assert(s[j].0@ != s[i].0@);
        }
    } else {
        if exists|j: int| 0 <= j < m.len() && #[trigger] m[j].0 == key {
            let j = choose|j: int| 0 <= j < m.len() && #[trigger] m[j].0 == key;
            assert(s[j].0 == key);
        }
    }
}

/// A write into the keyed layers is the same write into their models.
pub proof fn lemma_layers_written_model<V, W>(
    old: Seq<(u64, Layer<V>)>,
    new: Seq<(u64, Layer<V>)>,
    key: u64,
    e: Seq<char>,
    f: (Seq<char>, Seq<char>),
    v: V,
    g: spec_fn(V) -> W,
)
    requires
        crate::table::keys_unique(old),
        crate::data::layers_written(old, new, key, e, f, v),
    ensures
        crate::data::layers_model(new, g) == crate::data::model_layers_write(crate::data::layers_model(old, g), key, e, f, g(v)),
{
    lemma_pos_model(old, key, g);
    let mo = crate::data::layers_model(old, g);
    let mn = crate::data::layers_model(new, g);
    match crate::data::layer_pos(old, key) {
        Some(i) => {
            lemma_written_model(Some(old[i].1), new[i].1, e, f, v, g);
            assert(mn =~= mo.update(i, (key, crate::data::model_write(mo[i].1, e, f, g(v)))));
        },
        None => {
            lemma_written_model(None, new[old.len() as int].1, e, f, v, g);
            assert(mn =~= mo.push((key, crate::data::model_write(Map::empty(), e, f, g(v)))));
        },
    }
}

/// Dropping a keyed layer is dropping it from the models.
pub proof fn lemma_layers_without_model<V, W>(old: Seq<(u64, Layer<V>)>, key: u64, g: spec_fn(V) -> W)
    requires
        crate::table::keys_unique(old),
    ensures
        crate::data::layers_model(crate::data::layers_without(old, key), g)
            == crate::data::model_layers_drop(crate::data::layers_model(old, g), key),
{
    lemma_pos_model(old, key, g);
    match crate::data::layer_pos(old, key) {
        Some(i) => {
            assert(crate::data::layers_model(old.remove(i), g) =~= crate::data::layers_model(old, g).remove(i));
        },
        None => {},
    }
}

/// Taking a field out of every layer is taking it out of every layer's model.
pub proof fn lemma_layers_erased_model<V, W>(
    old: Seq<(u64, Layer<V>)>,
    new: Seq<(u64, Layer<V>)>,
    e: Seq<char>,
    f: (Seq<char>, Seq<char>),
    g: spec_fn(V) -> W,
)
    requires
        crate::data::layers_erased(old, new, e, f),
    ensures
        crate::data::layers_model(new, g) == crate::data::model_layers_erase(crate::data::layers_model(old, g), e, f),
{
    let a = crate::data::layers_model(new, g);
    let b = crate::data::model_layers_erase(crate::data::layers_model(old, g), e, f);
    assert forall|i: int| 0 <= i < a.len() implies a[i] == b[i] by {
        assert(new[i].0 == old[i].0);
        lemma_erased_model(old[i].1, new[i].1, e, f, g);
    }
    assert(a =~= b);
}

/// Searching the layers is searching their models.
pub proof fn lemma_find_model<V, W>(s: Seq<(u64, Layer<V>)>, e: Seq<char>, f: (Seq<char>, Seq<char>), g: spec_fn(V) -> W)
    ensures
        seen(crate::data::layers_find(s, e, f), g) == crate::data::model_find(crate::data::layers_model(s, g), e, f),
    decreases s.len(),
{
    if s.len() > 0 {
        lemma_layer_get_model(s[0].1, e, f, g);
        assert(crate::data::layers_model(s, g).drop_first() =~= crate::data::layers_model(s.drop_first(), g));
        lemma_find_model(s.drop_first(), e, f, g);
    }
}

/// A map to unit is the map that its domain gives.
pub proof fn lemma_unit_map(g: Map<Seq<char>, ()>)
    ensures
        Map::new(|k: Seq<char>| g.dom().contains(k), |k: Seq<char>| ()) == g,
{
    assert(Map::new(|k: Seq<char>| g.dom().contains(k), |k: Seq<char>| ()) =~= g);
}

impl InMemoryData {
    /// Readers see through the store what they see through its model.
    pub proof fn lemma_reads_model(self)
        ensures
            forall|e: Seq<char>, f: (Seq<char>, Seq<char>)| #[trigger] self.record(e, f)
                == self.record(e, f) && crate::data::opt_json_v(self.record(e, f)) == self.model().record(e, f),
            forall|e: Seq<char>, f: (Seq<char>, Seq<char>)| #[trigger] self.link(e, f)
                == self.link(e, f) && crate::data::opt_link_v(self.link(e, f)) == self.model().link(e, f),
            forall|e: Seq<char>, f: (Seq<char>, Seq<char>)| #[trigger] self.base_link(e, f)
                == self.base_link(e, f) && crate::data::opt_link_v(self.base_link(e, f))
                == crate::data::model_get(self.model().links, e, f),
            forall|e: Seq<char>| #[trigger] self.dependents(e) == self.model().dependents(e),
    {
        assert forall|e: Seq<char>, f: (Seq<char>, Seq<char>)|
            crate::data::opt_json_v(#[trigger] self.record(e, f)) == self.model().record(e, f) by {
            lemma_find_model(self.optimistic_records.entries@, e, f, crate::data::opt_record_v());
            lemma_layer_get_model(self.records, e, f, crate::data::record_v());
        }
        assert forall|e: Seq<char>, f: (Seq<char>, Seq<char>)|
            crate::data::opt_link_v(#[trigger] self.link(e, f)) == self.model().link(e, f) by {
            lemma_find_model(self.optimistic_links.entries@, e, f, crate::data::opt_link_v_fn());
            lemma_layer_get_model(self.links, e, f, crate::data::link_v());
        }
        assert forall|e: Seq<char>, f: (Seq<char>, Seq<char>)|
            crate::data::opt_link_v(#[trigger] self.base_link(e, f))
            == crate::data::model_get(self.model().links, e, f) by {
            lemma_layer_get_model(self.links, e, f, crate::data::link_v());
        }
    }

    /// One side of an optimistic link change counts in the store as in its model.
    pub proof fn lemma_plan_model(self, e: Seq<char>, f: (Seq<char>, Seq<char>), o: Option<crate::data::Link>, by: isize)
        ensures
            self.count_plan(e, f, o, by) == self.model().plan(e, f, crate::data::opt_link_v(o), by),
    {
        self.lemma_reads_model();
        assert(crate::data::opt_link_v(self.link(e, f)) == self.model().link(e, f));
        match o {
            Some(l) => {
                l.lemma_view_keys();
            },
            None => {
                match self.link(e, f) {
                    Some(v) => {
                        v.lemma_view_keys();
                    },
                    None => {},
                }
            },
        }
    }

    /// The counting that an optimistic link write plans is the one its model plans.
    pub proof fn lemma_model_plans(self, key: u64, e: Seq<char>, f: (Seq<char>, Seq<char>), l: Option<crate::data::Link>)
        requires
            self.wf(),
        ensures
            self.replaced_plan(key, e, f) == self.model().replaced(key, e, f),
            self.count_plan(e, f, l, 1isize) == self.model().plan(e, f, crate::data::opt_link_v(l), 1isize),
    {
        self.lemma_plan_model(e, f, l, 1isize);
        let s = self.optimistic_links.entries@;
        let g = crate::data::opt_link_v_fn();
        lemma_pos_model(s, key, g);
        match crate::data::layer_pos(s, key) {
            Some(i) => {
                lemma_layer_get_model(s[i].1, e, f, g);
                assert(self.model().optimistic_links[i].1 == crate::data::layer_model(s[i].1, g));
                match crate::data::layer_get(s[i].1, e, f) {
                    Some(o) => {
                        self.lemma_plan_model(e, f, o, -1isize);
                    },
                    None => {},
                }
            },
            None => {},
        }
    }

    /// The counts of the store, seen as the model's: the queue's domain gives it back.
    pub proof fn lemma_gc_model(self)
        ensures
            self.model().gc_map() == self.gc_queue@,
    {
        lemma_unit_map(self.gc_queue@);
    }
}

impl DataModel {
    /// Counting changes nothing but the counts, and leaves the queue as its map gives it.
    pub proof fn lemma_count_gc(self, keys: Seq<Seq<char>>, by: isize)
        ensures
            self.count(keys, by).gc_map() == crate::data::count_all(self.ref_counts, self.gc_map(), keys, by).1,
    {
        lemma_unit_map(crate::data::count_all(self.ref_counts, self.gc_map(), keys, by).1);
    }
}

} // verus!
