use vstd::prelude::*;

verus! {

/// A JSON document as the cache holds it. Numbers are kept as their decimal text,
/// so that nothing is lost between what a server sent and what a reader gets back.
#[derive(PartialEq, Debug)]
pub enum Json {
    Null,
    Bool(bool),
    Number(String),
    Str(String),
    Array(Vec<Json>),
    Object(Vec<(String, Json)>),
}

#[verifier::ext_equal]
pub enum JsonV {
    Null,
    Bool(bool),
    Number(Seq<char>),
    Str(Seq<char>),
    Array(Seq<JsonV>),
    Object(Seq<(Seq<char>, JsonV)>),
}

impl Json {
    pub open spec fn deep(self) -> JsonV
        decreases self, 0nat,
    {
        match self {
            Json::Null => JsonV::Null,
            Json::Bool(b) => JsonV::Bool(b),
            Json::Number(n) => JsonV::Number(n@),
            Json::Str(s) => JsonV::Str(s@),
            Json::Array(items) => JsonV::Array(deep_items(items@)),
            Json::Object(fields) => JsonV::Object(deep_fields(fields@)),
        }
    }
}

pub open spec fn deep_items(items: Seq<Json>) -> Seq<JsonV>
    decreases items, items.len(),
{
    if items.len() == 0 {
        Seq::empty()
    } else {
        deep_items(items.drop_last()).push(items.last().deep())
    }
}

pub open spec fn deep_fields(fields: Seq<(String, Json)>) -> Seq<(Seq<char>, JsonV)>
    decreases fields, fields.len(),
{
    if fields.len() == 0 {
        Seq::empty()
    } else {
        deep_fields(fields.drop_last()).push((fields.last().0@, fields.last().1.deep()))
    }
}

pub fn copy_json(j: &Json) -> (r: Json)
    ensures
        r.deep() == j.deep(),
    decreases j.deep(),
{
    match j {
        Json::Null => Json::Null,
        Json::Bool(b) => Json::Bool(*b),
        Json::Number(n) => Json::Number(n.clone()),
        Json::Str(s) => Json::Str(s.clone()),
        Json::Array(items) => {
            let mut out: Vec<Json> = Vec::new();
            let mut i: usize = 0;
            while i < items.len()
                invariant
                    i <= items.len(),
                    *j == Json::Array(*items),
                    out@.len() == i,
                    deep_items(out@) == deep_items(items@.take(i as int)),
                decreases items.len() - i,
            {
                proof {
                    lemma_deep_items_index(items@, i as int);
                    let d = j.deep();
                    assert(d == JsonV::Array(deep_items(items@)));
                    assert(d->Array_0 == deep_items(items@));
                    assert(decreases_to!(d => d->Array_0));
                    assert(decreases_to!(d->Array_0 => deep_items(items@)[i as int]));
                }
                let c = copy_json(&items[i]);
                let ghost prev = out@;
                out.push(c);
                proof {
                    assert(out@.drop_last() =~= prev);
                    assert(items@.take(i + 1).drop_last() =~= items@.take(i as int));
                }
                i = i + 1;
            }
            assert(items@.take(items@.len() as int) == items@);
            Json::Array(out)
        },
        Json::Object(fields) => {
            let mut out: Vec<(String, Json)> = Vec::new();
            let mut i: usize = 0;
            while i < fields.len()
                invariant
                    i <= fields.len(),
                    *j == Json::Object(*fields),
                    out@.len() == i,
                    deep_fields(out@) == deep_fields(fields@.take(i as int)),
                decreases fields.len() - i,
            {
                proof {
                    lemma_deep_fields_index(fields@, i as int);
                    let d = j.deep();
                    assert(d == JsonV::Object(deep_fields(fields@)));
                    assert(decreases_to!(d => d->Object_0));
                    assert(decreases_to!(d->Object_0 => deep_fields(fields@)[i as int]));
                    assert(decreases_to!(deep_fields(fields@)[i as int] => deep_fields(fields@)[i as int].1));
                }
                let c = copy_json(&fields[i].1);
                let name = fields[i].0.clone();
                let ghost prev = out@;
                out.push((name, c));
                proof {
                    assert(out@.drop_last() =~= prev);
                    assert(fields@.take(i + 1).drop_last() =~= fields@.take(i as int));
                }
                i = i + 1;
            }
            assert(fields@.take(fields@.len() as int) == fields@);
            Json::Object(out)
        },
    }
}



pub proof fn lemma_deep_items_index(items: Seq<Json>, i: int)
    ensures
        deep_items(items).len() == items.len(),
        0 <= i < items.len() ==> deep_items(items)[i] == items[i].deep(),
    decreases items.len(),
{
    if items.len() > 0 {
        lemma_deep_items_index(items.drop_last(), i);
    }
}

pub proof fn lemma_deep_fields_index(fields: Seq<(String, Json)>, i: int)
    ensures
        deep_fields(fields).len() == fields.len(),
        0 <= i < fields.len() ==> deep_fields(fields)[i] == (fields[i].0@, fields[i].1.deep()),
    decreases fields.len(),
{
    if fields.len() > 0 {
        lemma_deep_fields_index(fields.drop_last(), i);
    }
}

} // verus!
