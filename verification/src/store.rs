use vstd::prelude::*;
use crate::data::{FieldKey, InMemoryData, Link, copy_link};
use crate::json::{Json, copy_json};
use crate::selection::{FieldSelector, field_key, pick_selection, selector_field_name};
use crate::store_spec;
use crate::table::Table;
use crate::types::OperationType;

verus! {

/// Whether a typename is one of the root operation types.
pub fn is_root(typename: &str) -> (b: bool)
    ensures
        b == store_spec::is_root_v(typename@),
{
    let t = typename.to_owned();
    t == String::from_str("Query") || t == String::from_str("Mutation") || t == String::from_str("Subscription")
}

/// The key of an entity: its typename, a colon and its id.
pub fn entity_key(typename: &str, key: &str) -> (s: String)
    ensures
        s@ == store_spec::entity_key_v(typename@, key@),
{
    let mut s = typename.to_owned();
    s.append(":");
    s.append(key);
    s
}

/// The value of the first field called `name` in an object.
pub fn json_field<'a>(fields: &'a Vec<(String, Json)>, name: &String) -> (r: Option<&'a Json>)
    ensures
        match r {
            Some(v) => store_spec::field_v(crate::json::deep_fields(fields@), name@) == Some(v.deep()),
            None => store_spec::field_v(crate::json::deep_fields(fields@), name@) is None,
        },
{
    let ghost d = crate::json::deep_fields(fields@);
    proof {
        crate::json::lemma_deep_fields_index(fields@, 0);
        assert(d.skip(0) =~= d);
    }
    let mut i: usize = 0;
    while i < fields.len()
        invariant
            i <= fields@.len(),
            d == crate::json::deep_fields(fields@),
            d.len() == fields@.len(),
            store_spec::field_v(d, name@) == store_spec::field_v(d.skip(i as int), name@),
        decreases fields@.len() - i,
    {
        proof {
            crate::json::lemma_deep_fields_index(fields@, i as int);
            assert(d.skip(i as int)[0] == d[i as int]);
            assert(d.skip(i as int).drop_first() =~= d.skip(i + 1));
        }
        if fields[i].0 == *name {
            return Some(&fields[i].1);
        }
        i = i + 1;
    }
    proof {
        assert(d.skip(i as int) =~= Seq::<(Seq<char>, crate::json::JsonV)>::empty());
    }
    None
}

/// The text of a value that is a string.
fn json_str(v: Option<&Json>) -> (r: Option<&String>)
    ensures
        match v {
            Some(Json::Str(s)) => r == Some(s),
            _ => r is None,
        },
{
    match v {
        Some(Json::Str(s)) => Some(s),
        _ => None,
    }
}

/// The error of a write that cannot find where to normalize an entity.
#[derive(Debug, Clone, PartialEq)]
pub enum StoreError {
    InvalidMetadata(String),
}

impl StoreError {
    /// The text of the error.
    pub fn message(&self) -> (s: String)
        ensures
            match self {
                StoreError::InvalidMetadata(m) => s@ == "Invalid metadata: "@ + m@,
            },
    {
        match self {
            StoreError::InvalidMetadata(m) => {
                let mut s = String::from_str("Invalid metadata: ");
                s.append(m.as_str());
                s
            },
        }
    }
}

/// Why a read gives no result: a field is not in the cache, or what is there cannot be read.
#[derive(Debug, Clone, PartialEq)]
pub enum ReadError {
    Missing,
    Invalid(String),
}

impl ReadError {
    pub fn is_missing(&self) -> (b: bool)
        ensures
            b == (self is Missing),
    {
        match self {
            ReadError::Missing => true,
            ReadError::Invalid(_) => false,
        }
    }
}

pub open spec fn fault_matches(x: ReadError, f: store_spec::ReadFault) -> bool {
    match x {
        ReadError::Missing => f is Missing,
        ReadError::Invalid(s) => f == store_spec::ReadFault::Invalid(s@),
    }
}

/// The result of a read, as the model of a read describes it.
pub open spec fn read_matches(r: Result<Json, ReadError>, out: Result<crate::json::JsonV, store_spec::ReadFault>) -> bool {
    match r {
        Ok(j) => out == Ok::<crate::json::JsonV, store_spec::ReadFault>(j.deep()),
        Err(x) => out is Err && fault_matches(x, out->Err_0),
    }
}

/// How a write can end short of done: refused with an error, or stopped where the data or
/// the store does not fit the selection (a value of the wrong shape, a missing field, a
/// union without a string typename).
#[derive(Debug, Clone, PartialEq)]
pub enum WriteFault {
    Refused(StoreError),
    Stopped,
}

/// The result of a write, as the model of a write describes it.
pub open spec fn result_matches(res: Result<(), WriteFault>, out: store_spec::Outcome) -> bool {
    match res {
        Ok(()) => out is Done,
        Err(WriteFault::Refused(StoreError::InvalidMetadata(s))) => out == store_spec::Outcome::Failed(s@),
        Err(WriteFault::Stopped) => out is Stuck,
    }
}

/// The field that holds an entity's typename.
fn typename_field() -> (k: FieldKey)
    ensures
        k@ == store_spec::typename_key(),
{
    FieldKey { name: String::from_str("__typename"), args: String::new() }
}

fn object_error_message(e: &String, name: &String) -> (s: String)
    ensures
        s@ == store_spec::object_error(e@, name@),
{
    let mut s = String::from_str("Cache error: couldn't find index for ");
    s.append(e.as_str());
    s.append(":");
    s.append(name.as_str());
    s
}

fn array_error_message(e: &String, f: &FieldKey) -> (s: String)
    ensures
        s@ == store_spec::array_error(e@, f@),
{
    let mut s = String::from_str("Cache error: couldn't find index for ");
    s.append(e.as_str());
    s.append(":");
    s.append(f.name.as_str());
    s.append(f.args.as_str());
    s
}

/// Copies of a list of strings.
fn copy_strings(v: &Vec<String>) -> (r: Vec<String>)
    ensures
        crate::data::keys_v(r@) == crate::data::keys_v(v@),
{
    let mut r: Vec<String> = Vec::new();
    let mut i: usize = 0;
    while i < v.len()
        invariant
            i <= v@.len(),
            r@.len() == i,
            forall|j: int| 0 <= j < i ==> #[trigger] r@[j]@ == v@[j]@,
        decreases v@.len() - i,
    {
        r.push(v[i].clone());
        i = i + 1;
    }
    assert(crate::data::keys_v(r@) =~= crate::data::keys_v(v@));
    r
}

proof fn lemma_keys_push(v: Seq<String>, k: String)
    ensures
        crate::data::keys_v(v.push(k)) == crate::data::keys_v(v).push(k@),
{
    assert(crate::data::keys_v(v.push(k)) =~= crate::data::keys_v(v).push(k@));
}

/// Insert `x` into an ascending list, unless it is there already.
pub(crate) fn insert_ascending(v0: Vec<u64>, x: u64) -> (r: Vec<u64>)
    requires
        store_spec::ascending(v0@),
    ensures
        store_spec::ascending(r@),
        forall|q: u64| r@.contains(q) <==> v0@.contains(q) || q == x,
{
    let mut v = v0;
    let ghost s = v@;
    let mut i: usize = 0;
    while i < v.len() && v[i] < x
        invariant
            i <= v@.len(),
            v@ == s,
            store_spec::ascending(v@),
            forall|j: int| 0 <= j < i ==> v@[j] < x,
        decreases v@.len() - i,
    {
        i = i + 1;
    }
    if i < v.len() && v[i] == x {
        proof {
            assert(v@[i as int] == x);
            assert(s.contains(x));
            assert(forall|q: u64| v@.contains(q) <==> s.contains(q) || q == x);
        }
        v
    } else {
        v.insert(i, x);
        proof {
            assert(v@ == s.insert(i as int, x));
            lemma_insert_ascending(s, i as int, x);
            assert(forall|q: u64| v@.contains(q) <==> s.contains(q) || q == x);
        }
        v
    }
}

proof fn lemma_insert_ascending(s: Seq<u64>, i: int, x: u64)
    requires
        store_spec::ascending(s),
        0 <= i <= s.len(),
        forall|j: int| 0 <= j < i ==> s[j] < x,
        i < s.len() ==> s[i] != x,
        i < s.len() ==> s[i] >= x,
    ensures
        store_spec::ascending(s.insert(i, x)),
        forall|q: u64| #![trigger s.insert(i, x).contains(q)] #![trigger s.contains(q)]
            s.insert(i, x).contains(q) <==> s.contains(q) || q == x,
{
    let v = s.insert(i, x);
    assert forall|a: int, b: int| 0 <= a < b < v.len() implies v[a] < v[b] by {
        if b < i {
            assert(v[a] == s[a] && v[b] == s[b]);
        } else if b == i {
            assert(v[a] == s[a]);
        } else if a < i {
            assert(v[a] == s[a] && v[b] == s[b - 1]);
            assert(s[b - 1] >= s[i]);
        } else if a == i {
            assert(v[b] == s[b - 1]);
            assert(s[b - 1] >= s[i]);
        } else {
            assert(v[a] == s[a - 1] && v[b] == s[b - 1]);
        }
    }
    assert forall|q: u64| v.contains(q) <==> s.contains(q) || q == x by {
        if v.contains(q) {
            let k = choose|k: int| 0 <= k < v.len() && #[trigger] v[k] == q;
            if k < i {
                assert(s[k] == q);
            } else if k > i {
                assert(s[k - 1] == q);
            }
        }
        if s.contains(q) {
            let k = choose|k: int| 0 <= k < s.len() && #[trigger] s[k] == q;
            if k < i {
                assert(v[k] == q);
            } else {
                assert(v[k + 1] == q);
            }
        }
        if q == x {
            assert(v[i] == x);
        }
    }
}

/// The normalized cache: the data, and for some typenames the field that holds their id.
pub struct Store {
    pub custom_keys: Table<String, String>,
    pub data: InMemoryData,
}

impl Store {
    pub open spec fn wf(&self) -> bool {
        &&& self.custom_keys.wf()
        &&& self.data.wf()
    }

    /// The custom key fields, by typename.
    pub open spec fn custom(&self) -> Map<Seq<char>, Seq<char>> {
        self.custom_keys@.map_values(|s: String| s@)
    }

    pub fn new(custom_keys: Table<String, String>) -> (s: Store)
        requires
            custom_keys.wf(),
        ensures
            s.wf(),
            s.custom_keys == custom_keys,
            s.data.model() == crate::data::DataModel::empty(),
    {
        Store { custom_keys, data: InMemoryData::new() }
    }

    /// The key under which an entity of type `typename` with these fields is normalized.
    pub fn key_of_entity(&self, typename: &String, entity: &Vec<(String, Json)>) -> (r: Option<String>)
        requires
            self.wf(),
        ensures
            match r {
                Some(k) => store_spec::key_of_entity_v(self.custom(), typename@, crate::json::deep_fields(entity@)) == Some(k@),
                None => store_spec::key_of_entity_v(self.custom(), typename@, crate::json::deep_fields(entity@)) is None,
            },
    {
        if is_root(typename.as_str()) {
            return Some(typename.clone());
        }
        let id = match self.custom_keys.get(typename) {
            Some(custom_key) => json_str(json_field(entity, custom_key)),
            None => {
                let v = match json_field(entity, &String::from_str("id")) {
                    Some(v) => Some(v),
                    None => json_field(entity, &String::from_str("_id")),
                };
                json_str(v)
            },
        };
        match id {
            Some(id) => Some(entity_key(typename.as_str(), id.as_str())),
            None => None,
        }
    }

    /// What a write leaves: the store well formed with its custom keys, and the data, the
    /// recorded entities and the result that the model of the write gives.
    pub open spec fn write_done(
        old: Store,
        new: Store,
        old_deps: Seq<String>,
        new_deps: Seq<String>,
        res: Result<(), WriteFault>,
        r: store_spec::WriteStep,
    ) -> bool {
        &&& new.wf()
        &&& new.custom_keys == old.custom_keys
        &&& new.data.model() == r.m
        &&& crate::data::keys_v(new_deps) == r.deps
        &&& result_matches(res, r.out)
    }

    /// Store the value of the field `sel` of entity `e`.
    fn store_data(&mut self, opt: Option<u64>, e: &String, sel: &FieldSelector, value: &Json, deps: &mut Vec<String>) -> (res: Result<(), WriteFault>)
        requires
            old(self).wf(),
        ensures
            Store::write_done(*old(self), *final(self), old(deps)@, final(deps)@, res,
                store_spec::store_data(old(self).custom(), old(self).data.model(), crate::data::keys_v(old(deps)@), opt, e@, *sel, value.deep())),
        decreases sel.height(), 2nat, 0int,
    {
        match sel {
            FieldSelector::Scalar(_, _) => {
                let v = copy_json(value);
                self.put_record(opt, e.clone(), field_key(sel), Some(v));
                Ok(())
            },
            _ => match value {
                Json::Array(_) => self.store_array(opt, e, sel, value, deps),
                _ => self.store_object(opt, e, sel, value, deps),
            },
        }
    }

    /// The typename that a selector normalizes under and its inner selection for it; `None`
    /// for a scalar, or for a union whose holder has no string typename.
    fn selection_for<'a>(&self, e: &String, sel: &'a FieldSelector, empty: &'a Vec<FieldSelector>) -> (r: Option<(String, &'a Vec<FieldSelector>)>)
        requires
            self.wf(),
            empty@.len() == 0,
        ensures
            match r {
                Some((t, inner)) => {
                    &&& store_spec::sel_typename(self.data.model(), e@, *sel) == Some(t@)
                    &&& inner@ == crate::selection::inner_of(*sel, t@)
                },
                None => store_spec::sel_typename(self.data.model(), e@, *sel) is None,
            },
    {
        match sel {
            FieldSelector::Scalar(_, _) => None,
            FieldSelector::Object(_, _, t, inner) => Some((t.clone(), inner)),
            FieldSelector::Union(_, _, variants) => {
                let tk = typename_field();
                proof {
                    self.data.lemma_reads_model();
                }
                let t = match self.data.read_record(e, &tk) {
                    Some(Json::Str(t)) => t.clone(),
                    _ => {
                        return None;
                    },
                };
                let inner = match pick_selection(variants, &t) {
                    Some(v) => v,
                    None => empty,
                };
                assert(inner@ == crate::selection::pick(variants@, t@));
                Some((t, inner))
            },
        }
    }

    /// Store an object (or null) under a field that links to one entity.
    fn store_object(&mut self, opt: Option<u64>, e: &String, sel: &FieldSelector, value: &Json, deps: &mut Vec<String>) -> (res: Result<(), WriteFault>)
        requires
            old(self).wf(),
        ensures
            Store::write_done(*old(self), *final(self), old(deps)@, final(deps)@, res,
                store_spec::store_object(old(self).custom(), old(self).data.model(), crate::data::keys_v(old(deps)@), opt, e@, *sel, value.deep())),
        decreases sel.height(), 1nat, 0int,
    {
        let empty: Vec<FieldSelector> = Vec::new();
        let (typename, inner) = match self.selection_for(e, sel, &empty) {
            Some(p) => p,
            None => {
                return Err(WriteFault::Stopped);
            },
        };
        match value {
            Json::Null => {
                self.data.write_link(e.clone(), field_key(sel), Link::Null);
                Ok(())
            },
            Json::Object(fields) => {
                match self.key_of_entity(&typename, fields) {
                    None => Err(WriteFault::Refused(StoreError::InvalidMetadata(object_error_message(e, selector_field_name(sel))))),
                    Some(k) => {
                        proof {
                            lemma_keys_push(deps@, k);
                            crate::selection::lemma_inner_height(*sel, typename@);
                        }
                        deps.push(k.clone());
                        match self.store_fields(opt, &k, inner, fields, deps) {
                            Err(x) => Err(x),
                            Ok(()) => {
                                self.put_link(opt, e.clone(), field_key(sel), Some(Link::Single(k)));
                                Ok(())
                            },
                        }
                    },
                }
            },
            _ => Err(WriteFault::Stopped),
        }
    }

    /// Store each selected field of an object, in the order of the selection.
    fn store_fields(&mut self, opt: Option<u64>, e: &String, sels: &Vec<FieldSelector>, fields: &Vec<(String, Json)>, deps: &mut Vec<String>) -> (res: Result<(), WriteFault>)
        requires
            old(self).wf(),
        ensures
            Store::write_done(*old(self), *final(self), old(deps)@, final(deps)@, res,
                store_spec::store_fields(old(self).custom(), old(self).data.model(), crate::data::keys_v(old(deps)@), opt, e@, sels@, crate::json::deep_fields(fields@), 0)),
        decreases crate::selection::seq_height(sels@), 0nat, 0int,
    {
        let ghost fv = crate::json::deep_fields(fields@);
        let ghost start = store_spec::store_fields(old(self).custom(), old(self).data.model(), crate::data::keys_v(old(deps)@), opt, e@, sels@, fv, 0);
        let mut res: Result<(), WriteFault> = Ok(());
        let mut i: usize = 0;
        while i < sels.len()
            invariant_except_break
                i <= sels@.len(),
                res is Ok,
                start == store_spec::store_fields(self.custom(), self.data.model(), crate::data::keys_v(deps@), opt, e@, sels@, fv, i as int),
            invariant
                self.wf(),
                self.custom_keys == old(self).custom_keys,
                fv == crate::json::deep_fields(fields@),
            ensures
                Store::write_done(*old(self), *self, old(deps)@, deps@, res, start),
            decreases sels@.len() - i,
        {
            let name = selector_field_name(&sels[i]);
            match json_field(fields, name) {
                None => {
                    res = Err(WriteFault::Stopped);
                    break;
                },
                Some(v) => {
                    proof {
                        crate::selection::lemma_seq_height(sels@, i as int);
                    }
                    let ghost m_i = self.data.model();
                    let ghost d_i = crate::data::keys_v(deps@);
                    match self.store_data(opt, e, &sels[i], v, deps) {
                        Err(x) => {
                            proof {
                                let r = store_spec::store_data(old(self).custom(), m_i, d_i, opt, e@, sels@[i as int], v.deep());
                                assert(!(r.out is Done));
                                assert(start == r);
                            }
                            res = Err(x);
                            break;
                        },
                        Ok(()) => {},
                    }
                },
            }
            i = i + 1;
        }
        res
    }

    /// Store a list of objects under a field that links to many entities.
    fn store_array(&mut self, opt: Option<u64>, e: &String, sel: &FieldSelector, value: &Json, deps: &mut Vec<String>) -> (res: Result<(), WriteFault>)
        requires
            old(self).wf(),
        ensures
            Store::write_done(*old(self), *final(self), old(deps)@, final(deps)@, res,
                store_spec::store_array(old(self).custom(), old(self).data.model(), crate::data::keys_v(old(deps)@), opt, e@, *sel, value.deep())),
        decreases sel.height(), 1nat, 0int,
    {
        let empty: Vec<FieldSelector> = Vec::new();
        let (typename, inner) = match self.selection_for(e, sel, &empty) {
            Some(p) => p,
            None => {
                return Err(WriteFault::Stopped);
            },
        };
        let items = match value {
            Json::Array(items) => items,
            _ => {
                return Err(WriteFault::Stopped);
            },
        };
        let ghost iv = crate::json::deep_items(items@);
        let ghost start = store_spec::store_items(old(self).custom(), old(self).data.model(), crate::data::keys_v(old(deps)@), opt, e@, *sel, typename@, iv, 0, Seq::empty());
        let mut keys: Vec<String> = Vec::new();
        proof {
            crate::json::lemma_deep_items_index(items@, 0);
            assert(crate::data::keys_v(keys@) =~= Seq::<Seq<char>>::empty());
        }
        let mut res: Result<(), WriteFault> = Ok(());
        let mut i: usize = 0;
        while i < items.len()
            invariant_except_break
                i <= items@.len(),
                res is Ok,
                start == store_spec::store_items(self.custom(), self.data.model(), crate::data::keys_v(deps@), opt, e@, *sel, typename@, iv, i as int, crate::data::keys_v(keys@)),
            invariant
                self.wf(),
                self.custom_keys == old(self).custom_keys,
                iv == crate::json::deep_items(items@),
                iv.len() == items@.len(),
                !(sel is Scalar),
                inner@ == crate::selection::inner_of(*sel, typename@),
            ensures
                res is Err ==> Store::write_done(*old(self), *self, old(deps)@, deps@, res, start),
                res is Ok ==> i == items@.len() && start == store_spec::store_items(self.custom(), self.data.model(), crate::data::keys_v(deps@), opt, e@, *sel, typename@, iv, i as int, crate::data::keys_v(keys@)),
            decreases items@.len() - i,
        {
            proof {
                crate::json::lemma_deep_items_index(items@, i as int);
            }
            match &items[i] {
                Json::Object(fields) => match self.key_of_entity(&typename, fields) {
                    None => {
                        let f = field_key(sel);
                        res = Err(WriteFault::Refused(StoreError::InvalidMetadata(array_error_message(e, &f))));
                        break;
                    },
                    Some(k) => {
                        proof {
                            lemma_keys_push(deps@, k);
                            lemma_keys_push(keys@, k);
                            crate::selection::lemma_inner_height(*sel, typename@);
                        }
                        deps.push(k.clone());
                        let ghost m_i = self.data.model();
                        let ghost d_i = crate::data::keys_v(deps@);
                        match self.store_fields(opt, &k, inner, fields, deps) {
                            Err(x) => {
                                proof {
                                    let r = store_spec::store_fields(old(self).custom(), m_i, d_i, opt, k@, inner@, crate::json::deep_fields(fields@), 0);
                                    assert(!(r.out is Done));
                                    assert(start == r);
                                }
                                res = Err(x);
                                break;
                            },
                            Ok(()) => {},
                        }
                        keys.push(k);
                    },
                },
                _ => {
                    res = Err(WriteFault::Stopped);
                    break;
                },
            }
            i = i + 1;
        }
        if res.is_err() {
            return res;
        }
        self.put_link(opt, e.clone(), field_key(sel), Some(Link::List(keys)));
        Ok(())
    }

    /// Read the field `sel` of entity `e`, following links; each entity reached through a
    /// link is added to `deps`.
    pub fn read_field(&self, e: &String, sel: &FieldSelector, deps: &mut Vec<String>) -> (r: Result<Json, ReadError>)
        requires
            self.wf(),
        ensures
            crate::data::keys_v(final(deps)@) == store_spec::read_field(self.data.model(), crate::data::keys_v(old(deps)@), e@, *sel).deps,
            read_matches(r, store_spec::read_field(self.data.model(), crate::data::keys_v(old(deps)@), e@, *sel).out),
        decreases sel.height(), 2nat, 0int,
    {
        let fk = field_key(sel);
        proof {
            self.data.lemma_reads_model();
        }
        match sel {
            FieldSelector::Scalar(_, _) => match self.data.read_record(e, &fk) {
                None => Err(ReadError::Missing),
                Some(v) => Ok(copy_json(v)),
            },
            _ => match self.data.read_link(e, &fk) {
                None => Err(ReadError::Missing),
                Some(Link::Null) => Ok(Json::Null),
                Some(Link::Single(k)) => {
                    let empty: Vec<FieldSelector> = Vec::new();
                    let ghost t: Seq<char>;
                    let inner: &Vec<FieldSelector> = match sel {
                        FieldSelector::Union(_, _, vs) => {
                            let tk = typename_field();
                            match self.data.read_record(k, &tk) {
                                None => {
                                    return Err(ReadError::Missing);
                                },
                                Some(Json::Str(name)) => {
                                    proof {
                                        t = name@;
                                    }
                                    match pick_selection(vs, name) {
                                        Some(v) => v,
                                        None => &empty,
                                    }
                                },
                                Some(_) => {
                                    return Err(ReadError::Invalid(String::from_str("typename isn't a string")));
                                },
                            }
                        },
                        FieldSelector::Object(_, _, _, inner) => {
                            proof {
                                t = Seq::empty();
                            }
                            inner
                        },
                        FieldSelector::Scalar(_, _) => {
                            proof {
                                t = Seq::empty();
                            }
                            &empty
                        },
                    };
                    proof {
                        crate::selection::lemma_inner_height(*sel, t);
                        assert(inner@ == crate::selection::inner_of(*sel, t));
                        lemma_keys_push(deps@, *k);
                    }
                    deps.push(k.clone());
                    match self.read_entity(k, inner, deps) {
                        Ok(fields) => Ok(Json::Object(fields)),
                        Err(x) => Err(x),
                    }
                },
                Some(Link::List(ks)) => match self.read_list(sel, ks, deps) {
                    Ok(items) => Ok(Json::Array(items)),
                    Err(x) => Err(x),
                },
            },
        }
    }

    /// Read the field `sel` of entity `e` as an optional value: null gives `None`; a link to
    /// one entity gives its selected fields without adding the entity to `deps` (a union's
    /// typename must then be there, as a string); a list link is read as `read_field` reads
    /// it, each entity added to `deps`.
    pub fn read_optional(&self, e: &String, sel: &FieldSelector, deps: &mut Vec<String>) -> (r: Result<Option<Json>, ReadError>)
        requires
            self.wf(),
        ensures
            ({
                let s = store_spec::read_optional(self.data.model(), crate::data::keys_v(old(deps)@), e@, *sel);
                &&& crate::data::keys_v(final(deps)@) == s.deps
                &&& match r {
                    Ok(Some(j)) => s.out == Ok::<Option<crate::json::JsonV>, store_spec::ReadFault>(Some(j.deep())),
                    Ok(None) => s.out == Ok::<Option<crate::json::JsonV>, store_spec::ReadFault>(None),
                    Err(x) => s.out is Err && fault_matches(x, s.out->Err_0),
                }
            }),
    {
        let fk = field_key(sel);
        proof {
            self.data.lemma_reads_model();
        }
        match sel {
            FieldSelector::Scalar(_, _) => match self.data.read_record(e, &fk) {
                None => Err(ReadError::Missing),
                Some(Json::Null) => Ok(None),
                Some(v) => Ok(Some(copy_json(v))),
            },
            _ => match self.data.read_link(e, &fk) {
                None => Err(ReadError::Missing),
                Some(Link::Null) => Ok(None),
                Some(Link::Single(k)) => {
                    let empty: Vec<FieldSelector> = Vec::new();
                    let ghost t: Seq<char>;
                    let inner: &Vec<FieldSelector> = match sel {
                        FieldSelector::Union(_, _, vs) => {
                            let tk = typename_field();
                            match self.data.read_record(k, &tk) {
                                None => {
                                    return Err(ReadError::Invalid(String::from_str("typename missing")));
                                },
                                Some(Json::Str(name)) => {
                                    proof {
                                        t = name@;
                                    }
                                    match pick_selection(vs, name) {
                                        Some(v) => v,
                                        None => &empty,
                                    }
                                },
                                Some(_) => {
                                    return Err(ReadError::Invalid(String::from_str("typename not a string")));
                                },
                            }
                        },
                        FieldSelector::Object(_, _, _, inner) => {
                            proof {
                                t = Seq::empty();
                            }
                            inner
                        },
                        FieldSelector::Scalar(_, _) => {
                            proof {
                                t = Seq::empty();
                            }
                            &empty
                        },
                    };
                    proof {
                        assert(inner@ == crate::selection::inner_of(*sel, t));
                    }
                    match self.read_entity(k, inner, deps) {
                        Ok(fields) => Ok(Some(Json::Object(fields))),
                        Err(x) => Err(x),
                    }
                },
                Some(Link::List(ks)) => match self.read_list(sel, ks, deps) {
                    Ok(items) => Ok(Some(Json::Array(items))),
                    Err(x) => Err(x),
                },
            },
        }
    }

    /// Read the field `sel` of entity `e` as a value of an enum: a scalar gives its stored
    /// value; a union gives the typename of the entity it links to, which names the variant,
    /// with the fields that this typename selects. An object field, and a union field that
    /// holds null or a list, are not enums.
    pub fn read_variant(&self, e: &String, sel: &FieldSelector, deps: &mut Vec<String>) -> (r: Result<(Option<String>, Json), ReadError>)
        requires
            self.wf(),
            !(sel is Object),
            sel is Union ==> !(self.data.model().link(e@, sel.key_v()) matches Some(crate::data::LinkV::Null)),
            sel is Union ==> !(self.data.model().link(e@, sel.key_v()) matches Some(crate::data::LinkV::List(_))),
        ensures
            ({
                let s = store_spec::read_variant(self.data.model(), crate::data::keys_v(old(deps)@), e@, *sel);
                &&& crate::data::keys_v(final(deps)@) == s.deps
                &&& match r {
                    Ok((t, j)) => s.out matches Ok((tv, jv)) && jv == j.deep() && match t {
                        Some(name) => tv == Some(name@),
                        None => tv is None,
                    },
                    Err(x) => s.out is Err && fault_matches(x, s.out->Err_0),
                }
            }),
    {
        let fk = field_key(sel);
        proof {
            self.data.lemma_reads_model();
        }
        match sel {
            FieldSelector::Scalar(_, _) => match self.data.read_record(e, &fk) {
                None => Err(ReadError::Missing),
                Some(v) => Ok((None, copy_json(v))),
            },
            FieldSelector::Union(_, _, vs) => match self.data.read_link(e, &fk) {
                Some(Link::Single(k)) => {
                    let tk = typename_field();
                    match self.data.read_record(k, &tk) {
                        None => Err(ReadError::Invalid(String::from_str("missing typename"))),
                        Some(Json::Str(name)) => {
                            let empty: Vec<FieldSelector> = Vec::new();
                            let inner: &Vec<FieldSelector> = match pick_selection(vs, name) {
                                Some(v) => v,
                                None => &empty,
                            };
                            proof {
                                assert(inner@ == crate::selection::inner_of(*sel, name@));
                            }
                            match self.read_entity(k, inner, deps) {
                                Ok(fields) => Ok((Some(name.clone()), Json::Object(fields))),
                                Err(x) => Err(x),
                            }
                        },
                        Some(_) => Err(ReadError::Invalid(String::from_str("typename not a string"))),
                    }
                },
                _ => Err(ReadError::Missing),
            },
            FieldSelector::Object(_, _, _, _) => Err(ReadError::Missing),
        }
    }

    /// Read the entities of a list link in order.
    fn read_list(&self, sel: &FieldSelector, ks: &Vec<String>, deps: &mut Vec<String>) -> (r: Result<Vec<Json>, ReadError>)
        requires
            self.wf(),
        ensures
            ({
                let s = store_spec::read_list(self.data.model(), crate::data::keys_v(old(deps)@), *sel, crate::data::keys_v(ks@), 0, Seq::empty());
                &&& crate::data::keys_v(final(deps)@) == s.deps
                &&& match r {
                    Ok(items) => s.out == Ok::<Seq<crate::json::JsonV>, store_spec::ReadFault>(crate::json::deep_items(items@)),
                    Err(x) => s.out is Err && fault_matches(x, s.out->Err_0),
                }
            }),
        decreases sel.height(), 1nat, 0int,
    {
        let ghost m = self.data.model();
        let ghost kv = crate::data::keys_v(ks@);
        let ghost start = store_spec::read_list(m, crate::data::keys_v(old(deps)@), *sel, kv, 0, Seq::empty());
        let mut out: Vec<Json> = Vec::new();
        if let FieldSelector::Scalar(_, _) = sel {
            assert(crate::json::deep_items(out@) =~= Seq::<crate::json::JsonV>::empty());
            return Ok(out);
        }
        let mut err: Option<ReadError> = None;
        proof {
            self.data.lemma_reads_model();
            assert(crate::json::deep_items(out@) =~= Seq::<crate::json::JsonV>::empty());
        }
        let mut i: usize = 0;
        while i < ks.len()
            invariant_except_break
                i <= ks@.len(),
                err is None,
                start == store_spec::read_list(m, crate::data::keys_v(deps@), *sel, kv, i as int, crate::json::deep_items(out@)),
            invariant
                self.wf(),
                m == self.data.model(),
                kv == crate::data::keys_v(ks@),
                !(sel is Scalar),
                forall|e: Seq<char>, f: (Seq<char>, Seq<char>)| #[trigger] self.data.record(e, f)
                    == self.data.record(e, f) && crate::data::opt_json_v(self.data.record(e, f)) == m.record(e, f),
            ensures
                match err {
                    Some(x) => crate::data::keys_v(deps@) == start.deps && start.out is Err && fault_matches(x, start.out->Err_0),
                    None => crate::data::keys_v(deps@) == start.deps && start.out == Ok::<Seq<crate::json::JsonV>, store_spec::ReadFault>(crate::json::deep_items(out@)),
                },
            decreases ks@.len() - i,
        {
            let k = &ks[i];
            let empty: Vec<FieldSelector> = Vec::new();
            let ghost t: Seq<char>;
            let inner: &Vec<FieldSelector> = match sel {
                FieldSelector::Union(_, _, vs) => {
                    let tk = typename_field();
                    match self.data.read_record(k, &tk) {
                        None => {
                            err = Some(ReadError::Invalid(String::from_str("missing typename")));
                            break;
                        },
                        Some(Json::Str(name)) => {
                            proof {
                                t = name@;
                            }
                            match pick_selection(vs, name) {
                                Some(v) => v,
                                None => &empty,
                            }
                        },
                        Some(_) => {
                            err = Some(ReadError::Invalid(String::from_str("typename isn't a string")));
                            break;
                        },
                    }
                },
                FieldSelector::Object(_, _, _, inner) => {
                    proof {
                        t = Seq::empty();
                    }
                    inner
                },
                FieldSelector::Scalar(_, _) => {
                    proof {
                        t = Seq::empty();
                    }
                    &empty
                },
            };
            proof {
                crate::selection::lemma_inner_height(*sel, t);
                assert(store_spec::member_typename(m, *sel, kv[i as int]) == Ok::<Seq<char>, store_spec::ReadFault>(t));
                assert(inner@ == crate::selection::inner_of(*sel, t));
                lemma_keys_push(deps@, *k);
            }
            deps.push(k.clone());
            match self.read_entity(k, inner, deps) {
                Ok(fields) => {
                    let ghost prev = out@;
                    let ghost fd = crate::json::deep_fields(fields@);
                    let obj = Json::Object(fields);
                    assert(obj.deep() == crate::json::JsonV::Object(fd));
                    out.push(obj);
                    proof {
                        assert(out@.drop_last() =~= prev);
                        assert(crate::json::deep_items(out@) == crate::json::deep_items(prev).push(crate::json::JsonV::Object(fd)));
                    }
                },
                Err(x) => {
                    err = Some(x);
                    break;
                },
            }
            i = i + 1;
        }
        match err {
            Some(x) => Err(x),
            None => Ok(out),
        }
    }

    /// Read the selected fields of entity `e`, in the order of the selection.
    fn read_entity(&self, e: &String, sels: &Vec<FieldSelector>, deps: &mut Vec<String>) -> (r: Result<Vec<(String, Json)>, ReadError>)
        requires
            self.wf(),
        ensures
            ({
                let s = store_spec::read_entity(self.data.model(), crate::data::keys_v(old(deps)@), e@, sels@, 0, Seq::empty());
                &&& crate::data::keys_v(final(deps)@) == s.deps
                &&& match r {
                    Ok(fields) => s.out == Ok::<Seq<(Seq<char>, crate::json::JsonV)>, store_spec::ReadFault>(crate::json::deep_fields(fields@)),
                    Err(x) => s.out is Err && fault_matches(x, s.out->Err_0),
                }
            }),
        decreases crate::selection::seq_height(sels@), 0nat, 0int,
    {
        let ghost m = self.data.model();
        let ghost start = store_spec::read_entity(m, crate::data::keys_v(old(deps)@), e@, sels@, 0, Seq::empty());
        let mut out: Vec<(String, Json)> = Vec::new();
        let mut err: Option<ReadError> = None;
        proof {
            assert(crate::json::deep_fields(out@) =~= Seq::<(Seq<char>, crate::json::JsonV)>::empty());
        }
        let mut i: usize = 0;
        while i < sels.len()
            invariant_except_break
                i <= sels@.len(),
                err is None,
                start == store_spec::read_entity(m, crate::data::keys_v(deps@), e@, sels@, i as int, crate::json::deep_fields(out@)),
            invariant
                self.wf(),
                m == self.data.model(),
            ensures
                match err {
                    Some(x) => crate::data::keys_v(deps@) == start.deps && start.out is Err && fault_matches(x, start.out->Err_0),
                    None => crate::data::keys_v(deps@) == start.deps && start.out == Ok::<Seq<(Seq<char>, crate::json::JsonV)>, store_spec::ReadFault>(crate::json::deep_fields(out@)),
                },
            decreases sels@.len() - i,
        {
            proof {
                crate::selection::lemma_seq_height(sels@, i as int);
            }
            match self.read_field(e, &sels[i], deps) {
                Ok(v) => {
                    let name = selector_field_name(&sels[i]).clone();
                    let ghost prev = out@;
                    out.push((name, v));
                    proof {
                        assert(out@.drop_last() =~= prev);
                    }
                },
                Err(x) => {
                    err = Some(x);
                    break;
                },
            }
            i = i + 1;
        }
        match err {
            Some(x) => Err(x),
            None => Ok(out),
        }
    }

    /// Read an operation's data from the store: the selected fields of the root entity of its
    /// operation type, as an object; or why it cannot be read.
    pub fn try_read_query(&self, operation_type: OperationType, selection: &Vec<FieldSelector>, dependencies: &mut Vec<String>) -> (r: Result<Json, ReadError>)
        requires
            self.wf(),
        ensures
            ({
                let s = store_spec::read_entity(self.data.model(), crate::data::keys_v(old(dependencies)@), operation_type.name_v(), selection@, 0, Seq::empty());
                &&& crate::data::keys_v(final(dependencies)@) == s.deps
                &&& match r {
                    Ok(j) => (s.out matches Ok(fields) && j.deep() == crate::json::JsonV::Object(fields)),
                    Err(x) => s.out is Err && fault_matches(x, s.out->Err_0),
                }
            }),
    {
        let root = operation_type.to_string();
        match self.read_entity(&root, selection, dependencies) {
            Ok(fields) => Ok(Json::Object(fields)),
            Err(x) => Err(x),
        }
    }

    /// Read an operation's data from the store: the selected fields of the root entity of its
    /// operation type, as an object. What is missing gives `None`.
    pub fn read_query(&self, operation_type: OperationType, selection: &Vec<FieldSelector>, dependencies: &mut Vec<String>) -> (r: Option<Json>)
        requires
            self.wf(),
            !(store_spec::read_entity(self.data.model(), crate::data::keys_v(old(dependencies)@), operation_type.name_v(), selection@, 0, Seq::empty()).out
                matches Err(store_spec::ReadFault::Invalid(_))),
        ensures
            ({
                let s = store_spec::read_entity(self.data.model(), crate::data::keys_v(old(dependencies)@), operation_type.name_v(), selection@, 0, Seq::empty());
                &&& crate::data::keys_v(final(dependencies)@) == s.deps
                &&& match s.out {
                    Ok(fields) => r matches Some(j) && j.deep() == crate::json::JsonV::Object(fields),
                    Err(_) => r is None,
                }
            }),
    {
        let root = operation_type.to_string();
        match self.read_entity(&root, selection, dependencies) {
            Ok(fields) => Some(Json::Object(fields)),
            Err(_) => None,
        }
    }

    /// What an invalidation leaves: the store well formed with its custom keys, and the data
    /// and the invalidated entities that the model of the invalidation gives.
    pub open spec fn invalidate_done(
        old: Store,
        new: Store,
        old_inv: Seq<String>,
        new_inv: Seq<String>,
        r: store_spec::InvalidateStep,
    ) -> bool {
        &&& new.wf()
        &&& new.custom_keys == old.custom_keys
        &&& new.data.model() == r.m
        &&& crate::data::keys_v(new_inv) == r.inv
    }

    fn invalidate_entity(&mut self, opt: Option<u64>, e: &String, sels: &Vec<FieldSelector>, inv: &mut Vec<String>) -> (done: bool)
        requires
            old(self).wf(),
        ensures
            Store::invalidate_done(*old(self), *final(self), old(inv)@, final(inv)@,
                store_spec::invalidate_entity(old(self).data.model(), crate::data::keys_v(old(inv)@), opt, e@, sels@)),
            done == !store_spec::invalidate_entity(old(self).data.model(), crate::data::keys_v(old(inv)@), opt, e@, sels@).stuck,
        decreases crate::selection::seq_height(sels@), 1nat, 0int,
    {
        if *e != String::from_str("Mutation") {
            proof {
                lemma_keys_push(inv@, *e);
            }
            inv.push(e.clone());
        }
        self.invalidate_fields(opt, e, sels, inv)
    }

    fn invalidate_fields(&mut self, opt: Option<u64>, e: &String, sels: &Vec<FieldSelector>, inv: &mut Vec<String>) -> (done: bool)
        requires
            old(self).wf(),
        ensures
            Store::invalidate_done(*old(self), *final(self), old(inv)@, final(inv)@,
                store_spec::invalidate_fields(old(self).data.model(), crate::data::keys_v(old(inv)@), opt, e@, sels@, 0)),
            done == !store_spec::invalidate_fields(old(self).data.model(), crate::data::keys_v(old(inv)@), opt, e@, sels@, 0).stuck,
        decreases crate::selection::seq_height(sels@), 0nat, 0int,
    {
        let ghost start = store_spec::invalidate_fields(old(self).data.model(), crate::data::keys_v(old(inv)@), opt, e@, sels@, 0);
        let mut done = true;
        let mut i: usize = 0;
        while i < sels.len()
            invariant_except_break
                i <= sels@.len(),
                done,
                start == store_spec::invalidate_fields(self.data.model(), crate::data::keys_v(inv@), opt, e@, sels@, i as int),
            invariant
                self.wf(),
                self.custom_keys == old(self).custom_keys,
            ensures
                Store::invalidate_done(*old(self), *self, old(inv)@, inv@, start),
                done == !start.stuck,
            decreases sels@.len() - i,
        {
            proof {
                crate::selection::lemma_seq_height(sels@, i as int);
            }
            let ghost m_i = self.data.model();
            let ghost v_i = crate::data::keys_v(inv@);
            if !self.invalidate_field(opt, e, &sels[i], inv) {
                proof {
                    assert(start == store_spec::invalidate_field(m_i, v_i, opt, e@, sels@[i as int]));
                }
                done = false;
                break;
            }
            i = i + 1;
        }
        done
    }

    fn invalidate_field(&mut self, opt: Option<u64>, e: &String, sel: &FieldSelector, inv: &mut Vec<String>) -> (done: bool)
        requires
            old(self).wf(),
        ensures
            Store::invalidate_done(*old(self), *final(self), old(inv)@, final(inv)@,
                store_spec::invalidate_field(old(self).data.model(), crate::data::keys_v(old(inv)@), opt, e@, *sel)),
            done == !store_spec::invalidate_field(old(self).data.model(), crate::data::keys_v(old(inv)@), opt, e@, *sel).stuck,
        decreases sel.height(), 2nat, 0int,
    {
        let fk = field_key(sel);
        match sel {
            FieldSelector::Scalar(_, _) => {
                proof {
                    self.data.lemma_reads_model();
                }
                if opt.is_none() && self.data.has_records(e) && self.data.has_base_link(e, &fk) && !self.data.ref_counts.contains_key(e) {
                    return false;
                }
                self.put_record(opt, e.clone(), fk, None);
                true
            },
            _ => {
                proof {
                    self.data.lemma_reads_model();
                }
                let link = match self.data.read_link(e, &fk) {
                    Some(l) => Some(copy_link(l)),
                    None => None,
                };
                match link {
                    Some(Link::Single(k)) => self.invalidate_target(opt, sel, &k, inv),
                    Some(Link::List(ks)) => {
                        assert(crate::data::keys_v(ks@) == crate::data::keys_v(ks@));
                        self.invalidate_list(opt, sel, &ks, inv)
                    },
                    _ => true,
                }
            },
        }
    }

    fn invalidate_target(&mut self, opt: Option<u64>, sel: &FieldSelector, k: &String, inv: &mut Vec<String>) -> (done: bool)
        requires
            old(self).wf(),
        ensures
            Store::invalidate_done(*old(self), *final(self), old(inv)@, final(inv)@,
                store_spec::invalidate_target(old(self).data.model(), crate::data::keys_v(old(inv)@), opt, *sel, k@)),
            done == !store_spec::invalidate_target(old(self).data.model(), crate::data::keys_v(old(inv)@), opt, *sel, k@).stuck,
        decreases sel.height(), 1nat, 0int,
    {
        match sel {
            FieldSelector::Scalar(_, _) => true,
            FieldSelector::Object(_, _, _, inner) => {
                proof {
                    crate::selection::lemma_inner_height(*sel, Seq::empty());
                }
                self.invalidate_entity(opt, k, inner, inv)
            },
            FieldSelector::Union(_, _, vs) => {
                let tk = typename_field();
                proof {
                    self.data.lemma_reads_model();
                }
                let t = match self.data.read_record(k, &tk) {
                    Some(Json::Str(t)) => t.clone(),
                    _ => {
                        return false;
                    },
                };
                let empty: Vec<FieldSelector> = Vec::new();
                let inner = match pick_selection(vs, &t) {
                    Some(v) => v,
                    None => &empty,
                };
                proof {
                    crate::selection::lemma_inner_height(*sel, t@);
                }
                self.invalidate_entity(opt, k, inner, inv)
            },
        }
    }

    fn invalidate_list(&mut self, opt: Option<u64>, sel: &FieldSelector, ks: &Vec<String>, inv: &mut Vec<String>) -> (done: bool)
        requires
            old(self).wf(),
        ensures
            Store::invalidate_done(*old(self), *final(self), old(inv)@, final(inv)@,
                store_spec::invalidate_list(old(self).data.model(), crate::data::keys_v(old(inv)@), opt, *sel, crate::data::keys_v(ks@), 0)),
            done == !store_spec::invalidate_list(old(self).data.model(), crate::data::keys_v(old(inv)@), opt, *sel, crate::data::keys_v(ks@), 0).stuck,
        decreases sel.height(), 1nat, 1int,
    {
        let ghost kv = crate::data::keys_v(ks@);
        let ghost start = store_spec::invalidate_list(old(self).data.model(), crate::data::keys_v(old(inv)@), opt, *sel, kv, 0);
        let mut done = true;
        let mut i: usize = 0;
        while i < ks.len()
            invariant_except_break
                i <= ks@.len(),
                done,
                start == store_spec::invalidate_list(self.data.model(), crate::data::keys_v(inv@), opt, *sel, kv, i as int),
            invariant
                self.wf(),
                self.custom_keys == old(self).custom_keys,
                kv == crate::data::keys_v(ks@),
            ensures
                Store::invalidate_done(*old(self), *self, old(inv)@, inv@, start),
                done == !start.stuck,
            decreases ks@.len() - i,
        {
            let ghost m_i = self.data.model();
            let ghost v_i = crate::data::keys_v(inv@);
            if !self.invalidate_target(opt, sel, &ks[i], inv) {
                proof {
                    assert(start == store_spec::invalidate_target(m_i, v_i, opt, *sel, kv[i as int]));
                }
                done = false;
                break;
            }
            i = i + 1;
        }
        done
    }

    /// Invalidate what an operation's selection reaches from the root entity of its operation
    /// type: scalars are deleted, links are followed. Each entity reached but the `Mutation`
    /// root is added to `invalidated`. A write that is not optimistic then drops the
    /// optimistic layer of the operation `key`. Nothing happens for a result without data.
    /// `false` says that the walk stopped where the store does not fit the selection.
    pub fn try_invalidate_query(
        &mut self,
        key: u64,
        operation_type: OperationType,
        has_data: bool,
        selection: &Vec<FieldSelector>,
        optimistic: bool,
        invalidated: &mut Vec<String>,
    ) -> (done: bool)
        requires
            old(self).wf(),
        ensures
            Store::invalidate_done(*old(self), *final(self), old(invalidated)@, final(invalidated)@,
                store_spec::invalidate_query_v(old(self).data.model(), crate::data::keys_v(old(invalidated)@), operation_type.name_v(),
                    has_data, selection@, key, optimistic)),
            done == !store_spec::invalidate_query_v(old(self).data.model(), crate::data::keys_v(old(invalidated)@), operation_type.name_v(),
                has_data, selection@, key, optimistic).stuck,
    {
        if !has_data {
            return true;
        }
        let root = operation_type.to_string();
        let opt = if optimistic { Some(key) } else { None };
        if !self.invalidate_entity(opt, &root, selection, invalidated) {
            return false;
        }
        if !optimistic {
            self.data.clear_optimistic_layer(key);
        }
        true
    }

    /// `try_invalidate_query` for a store that fits the selection.
    pub fn invalidate_query(
        &mut self,
        key: u64,
        operation_type: OperationType,
        has_data: bool,
        selection: &Vec<FieldSelector>,
        optimistic: bool,
        invalidated: &mut Vec<String>,
    )
        requires
            old(self).wf(),
            !store_spec::invalidate_query_v(old(self).data.model(), crate::data::keys_v(old(invalidated)@), operation_type.name_v(),
                has_data, selection@, key, optimistic).stuck,
        ensures
            Store::invalidate_done(*old(self), *final(self), old(invalidated)@, final(invalidated)@,
                store_spec::invalidate_query_v(old(self).data.model(), crate::data::keys_v(old(invalidated)@), operation_type.name_v(),
                    has_data, selection@, key, optimistic)),
    {
        self.try_invalidate_query(key, operation_type, has_data, selection, optimistic, invalidated);
    }

    /// Drop the optimistic layer of the operation `key`.
    pub fn clear_optimistic_layer(&mut self, key: u64)
        requires
            old(self).wf(),
        ensures
            final(self).wf(),
            final(self).custom_keys == old(self).custom_keys,
            final(self).data.model() == old(self).data.model().clear_optimistic_layer(key),
    {
        self.data.clear_optimistic_layer(key);
    }

    /// The queries to run again after the given entities changed: those that depend on one
    /// of them (the root `Query` entity counts for none), except the query that made the
    /// change; each once, in ascending order.
    #[verifier::spinoff_prover]
    pub fn rerun_queries(&self, entities: &Vec<String>, originating_query: u64) -> (r: Vec<u64>)
        requires
            self.wf(),
        ensures
            store_spec::ascending(r@),
            forall|q: u64| r@.contains(q) <==> store_spec::rerun_v(self.data.model(), crate::data::keys_v(entities@), originating_query, q),
    {
        let mut r: Vec<u64> = Vec::new();
        let root = String::from_str("Query");
        let mut i: usize = 0;
        proof {
            self.data.lemma_reads_model();
        }
        while i < entities.len()
            invariant
                i <= entities@.len(),
                self.wf(),
                root@ == "Query"@,
                store_spec::ascending(r@),
                forall|e: Seq<char>| #[trigger] self.data.dependents(e) == self.data.model().dependents(e),
                forall|q: u64| r@.contains(q) <==> store_spec::rerun_v(self.data.model(), crate::data::keys_v(entities@.take(i as int)), originating_query, q),
            decreases entities@.len() - i,
        {
            let e = &entities[i];
            let ghost before = r@;
            if *e != root {
                let deps = self.data.get_dependencies(e);
                let mut j: usize = 0;
                while j < deps.len()
                    invariant
                        j <= deps@.len(),
                        store_spec::ascending(r@),
                        forall|q: u64| r@.contains(q) <==> before.contains(q) || (q != originating_query && deps@.take(j as int).contains(q)),
                    decreases deps@.len() - j,
                {
                    let q = deps[j];
                    let ghost r0 = r@;
                    if q != originating_query {
                        r = insert_ascending(r, q);
                    }
                    proof {
                        let t0 = deps@.take(j as int);
                        let t1 = deps@.take(j + 1);
                        assert(t1 =~= t0.push(q));
                        assert forall|x: u64| r@.contains(x) <==> before.contains(x) || (x != originating_query && t1.contains(x)) by {
                            assert(r0.contains(x) <==> before.contains(x) || (x != originating_query && t0.contains(x)));
                            assert(r@.contains(x) <==> r0.contains(x) || (x == q && q != originating_query));
                            if t1.contains(x) && x != q {
                                let k = choose|k: int| 0 <= k < t1.len() && #[trigger] t1[k] == x;
                                assert(t0[k] == x);
                            }
                            if t0.contains(x) {
                                let k = choose|k: int| 0 <= k < t0.len() && #[trigger] t0[k] == x;
                                assert(t1[k] == x);
                            }
                            if x == q {
                                assert(t1[j as int] == x);
                            }
                        }
                    }
                    j = j + 1;
                }
                assert(deps@.take(deps@.len() as int) =~= deps@);
                assert forall|q: u64| r@.contains(q) <==> before.contains(q) || (q != originating_query && self.data.dependents(e@).contains(q)) by {
                    assert(r@.contains(q) <==> before.contains(q) || (q != originating_query && deps@.take(deps@.len() as int).contains(q)));
                    assert(self.data.dependents(e@) == deps@.to_set());
                    assert(deps@.to_set().contains(q) <==> deps@.contains(q));
                }
            }
            proof {
                let ev = crate::data::keys_v(entities@.take(i + 1));
                let ep = crate::data::keys_v(entities@.take(i as int));
                assert(ev =~= ep.push(e@));
                assert forall|q: u64| r@.contains(q) <==> store_spec::rerun_v(self.data.model(), ev, originating_query, q) by {
                    let m = self.data.model();
                    if store_spec::rerun_v(m, ev, originating_query, q) {
                        let k = choose|k: int| 0 <= k < ev.len() && ev[k] != "Query"@ && #[trigger] m.dependents(ev[k]).contains(q);
                        if k < ep.len() {
                            assert(ep[k] == ev[k]);
                            assert(store_spec::rerun_v(m, ep, originating_query, q));
                        } else {
                            assert(ev[k] == e@);
                            assert(self.data.dependents(e@).contains(q));
                        }
                    }
                    if before.contains(q) {
                        let k = choose|k: int| 0 <= k < ep.len() && ep[k] != "Query"@ && #[trigger] m.dependents(ep[k]).contains(q);
                        assert(ev[k] == ep[k]);
                    }
                    if r@.contains(q) && !before.contains(q) {
                        assert(ev[i as int] == e@);
                        assert(m.dependents(ev[i as int]).contains(q));
                    }
                }
            }
            i = i + 1;
        }
        assert(entities@.take(entities@.len() as int) =~= entities@);
        r
    }

    /// Normalize the data of an operation's result into the store, under the root entity of
    /// its operation type. Entities that the write stores are added to `dependencies`; a
    /// write that is not optimistic then records them as the dependencies of the query
    /// `key` and collects garbage. A write that the data does not fit stops where it does not.
    pub fn try_write_query(
        &mut self,
        key: u64,
        operation_type: OperationType,
        data: &Option<Json>,
        selection: &Vec<FieldSelector>,
        optimistic: bool,
        dependencies: &mut Vec<String>,
    ) -> (res: Result<(), WriteFault>)
        requires
            old(self).wf(),
        ensures
            Store::write_done(*old(self), *final(self), old(dependencies)@, final(dependencies)@, res,
                store_spec::write_query_v(old(self).custom(), old(self).data.model(), crate::data::keys_v(old(dependencies)@),
                    operation_type.name_v(), crate::data::opt_json_v(*data), selection@, key, optimistic)),
    {
        match data {
            Some(Json::Object(fields)) => {
                let root = operation_type.to_string();
                let opt = if optimistic { Some(key) } else { None };
                match self.store_fields(opt, &root, selection, fields, dependencies) {
                    Err(x) => {
                        return Err(x);
                    },
                    Ok(()) => {},
                }
                if !optimistic {
                    let deps = copy_strings(dependencies);
                    self.data.set_dependencies(key, deps);
                    self.data.collect_garbage();
                }
                Ok(())
            },
            _ => Ok(()),
        }
    }

    /// `try_write_query` for data that fits the selection: only a refusal can be returned.
    pub fn write_query(
        &mut self,
        key: u64,
        operation_type: OperationType,
        data: &Option<Json>,
        selection: &Vec<FieldSelector>,
        optimistic: bool,
        dependencies: &mut Vec<String>,
    ) -> (res: Result<(), StoreError>)
        requires
            old(self).wf(),
            !(store_spec::write_query_v(old(self).custom(), old(self).data.model(), crate::data::keys_v(old(dependencies)@),
                operation_type.name_v(), crate::data::opt_json_v(*data), selection@, key, optimistic).out is Stuck),
        ensures
            ({
                let r = store_spec::write_query_v(old(self).custom(), old(self).data.model(), crate::data::keys_v(old(dependencies)@),
                    operation_type.name_v(), crate::data::opt_json_v(*data), selection@, key, optimistic);
                &&& final(self).wf()
                &&& final(self).custom_keys == old(self).custom_keys
                &&& final(self).data.model() == r.m
                &&& crate::data::keys_v(final(dependencies)@) == r.deps
                &&& match res {
                    Ok(()) => r.out is Done,
                    Err(StoreError::InvalidMetadata(s)) => r.out == store_spec::Outcome::Failed(s@),
                }
            }),
    {
        match self.try_write_query(key, operation_type, data, selection, optimistic, dependencies) {
            Ok(()) => Ok(()),
            Err(WriteFault::Refused(e)) => Err(e),
            Err(WriteFault::Stopped) => Ok(()),
        }
    }

    /// Change what the store holds for a query by hand: read the data of the selection, hand
    /// it to `updater` (`None` where something is missing), and write what the updater
    /// returns as a result of the query `key`. `None` from the updater deletes the entry:
    /// each field that the selection names is taken out of the root entity in every layer,
    /// so that a later read of the selection misses. The entities read and written are added
    /// to `dependencies`.
    pub fn update_query<F: FnOnce(Option<Json>) -> Option<Json>>(
        &mut self,
        key: u64,
        operation_type: OperationType,
        selection: &Vec<FieldSelector>,
        updater: F,
        dependencies: &mut Vec<String>,
    ) -> (res: Result<(), WriteFault>)
        requires
            old(self).wf(),
            forall|d: Option<Json>| call_requires(updater, (d,)),
            !(store_spec::read_entity(old(self).data.model(), crate::data::keys_v(old(dependencies)@), operation_type.name_v(), selection@, 0, Seq::empty()).out
                matches Err(store_spec::ReadFault::Invalid(_))),
        ensures
            ({
                let s = store_spec::read_entity(old(self).data.model(), crate::data::keys_v(old(dependencies)@), operation_type.name_v(), selection@, 0, Seq::empty());
                exists|d: Option<Json>, u: Option<Json>| {
                    &&& #[trigger] call_ensures(updater, (d,), u)
                    &&& match s.out {
                        Ok(fields) => d matches Some(j) && j.deep() == crate::json::JsonV::Object(fields),
                        Err(_) => d is None,
                    }
                    &&& match u {
                        None => {
                            &&& res is Ok
                            &&& final(self).wf()
                            &&& final(self).custom_keys == old(self).custom_keys
                            &&& final(self).data.model() == store_spec::delete_entry_v(old(self).data.model(), operation_type.name_v(), selection@)
                            &&& crate::data::keys_v(final(dependencies)@) == s.deps
                            &&& (selection@.len() > 0 ==> forall|rd: Seq<Seq<char>>| #[trigger] store_spec::read_entity(final(self).data.model(), rd,
                                operation_type.name_v(), selection@, 0, Seq::empty()).out is Err)
                        },
                        Some(_) => Store::write_done(*old(self), *final(self), old(dependencies)@, final(dependencies)@, res,
                            store_spec::write_query_v(old(self).custom(), old(self).data.model(), s.deps, operation_type.name_v(),
                                crate::data::opt_json_v(u), selection@, key, false)),
                    }
                }
            }),
    {
        let data = self.read_query(operation_type, selection, dependencies);
        let updated = updater(data);
        match updated {
            None => {
                let ghost m = self.data.model();
                self.delete_entry(operation_type, selection);
                proof {
                    if selection@.len() > 0 {
                        assert forall|rd: Seq<Seq<char>>| #[trigger] store_spec::read_entity(self.data.model(), rd,
                            operation_type.name_v(), selection@, 0, Seq::empty()).out is Err by {
                            crate::store_laws::law_deleted_entry_misses(m, operation_type.name_v(), selection@, rd);
                        }
                    }
                }
                Ok(())
            },
            Some(_) => self.try_write_query(key, operation_type, &updated, selection, false, dependencies),
        }
    }

    /// Delete the entry of a query: take each field that the selection names out of the root
    /// entity of its operation type, in the base layers and in every optimistic layer.
    pub fn delete_entry(&mut self, operation_type: OperationType, selection: &Vec<FieldSelector>)
        requires
            old(self).wf(),
        ensures
            final(self).wf(),
            final(self).custom_keys == old(self).custom_keys,
            final(self).data.model() == store_spec::delete_entry_v(old(self).data.model(), operation_type.name_v(), selection@),
    {
        let root = operation_type.to_string();
        let mut i: usize = 0;
        while i < selection.len()
            invariant
                i <= selection@.len(),
                self.wf(),
                self.custom_keys == old(self).custom_keys,
                root@ == operation_type.name_v(),
                self.data.model() == store_spec::delete_entry_v(old(self).data.model(), root@, selection@.take(i as int)),
            decreases selection@.len() - i,
        {
            let fk = field_key(&selection[i]);
            self.data.delete_field(&root, &fk);
            proof {
                assert(selection@.take(i + 1).drop_last() =~= selection@.take(i as int));
                assert(selection@.take(i + 1).last() == selection@[i as int]);
            }
            i = i + 1;
        }
        proof {
            assert(selection@.take(selection@.len() as int) =~= selection@);
        }
    }

    fn put_record(&mut self, opt: Option<u64>, e: String, f: FieldKey, v: Option<Json>)
        requires
            old(self).wf(),
            opt is None && v is None ==> !store_spec::removal_stuck(old(self).data.model(), e@, f@),
        ensures
            final(self).wf(),
            final(self).custom_keys == old(self).custom_keys,
            final(self).data.model() == store_spec::put_record(old(self).data.model(), opt, e@, f@, crate::data::opt_json_v(v)),
    {
        proof {
            old(self).data.lemma_reads_model();
        }
        match opt {
            Some(k) => self.data.write_record_optimistic(k, e, f, v),
            None => self.data.write_record(e, f, v),
        }
    }

    /// Write a link into the optimistic layer `opt` when there is one, else into the base,
    /// which takes links only.
    fn put_link(&mut self, opt: Option<u64>, e: String, f: FieldKey, l: Option<Link>)
        requires
            old(self).wf(),
        ensures
            final(self).wf(),
            final(self).custom_keys == old(self).custom_keys,
            final(self).data.model() == store_spec::put_link(old(self).data.model(), opt, e@, f@, crate::data::opt_link_v(l)),
    {
        match opt {
            Some(k) => self.data.write_link_optimistic(k, e, f, l),
            None => match l {
                Some(l) => self.data.write_link(e, f, l),
                None => {},
            },
        }
    }
}

} // verus!
