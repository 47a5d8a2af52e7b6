use vstd::prelude::*;
use crate::data::FieldKey;

verus! {

/// What a query selects for given variables; the code generated for each query provides it.
pub trait QueryInfo<TVars> {
    /// The selection of the query, with the variables filled into the arguments.
    fn selection(variables: &TVars) -> Vec<FieldSelector>;
}

/// What a query selects, field by field, as the cache walks it.
#[derive(Debug)]
pub enum FieldSelector {
    /// field name, arguments
    Scalar(String, String),
    /// field name, arguments, typename, inner selection
    Object(String, String, String, Vec<FieldSelector>),
    /// field name, arguments, inner selection for each possible typename
    Union(String, String, Vec<(String, Vec<FieldSelector>)>),
}

impl FieldSelector {
    /// The name of the selected field.
    pub open spec fn name_v(self) -> Seq<char> {
        match self {
            FieldSelector::Scalar(n, _) => n@,
            FieldSelector::Object(n, _, _, _) => n@,
            FieldSelector::Union(n, _, _) => n@,
        }
    }

    /// The key under which the field is stored: its name and its arguments.
    pub open spec fn key_v(self) -> (Seq<char>, Seq<char>) {
        match self {
            FieldSelector::Scalar(n, a) => (n@, a@),
            FieldSelector::Object(n, a, _, _) => (n@, a@),
            FieldSelector::Union(n, a, _) => (n@, a@),
        }
    }

    /// How deeply selections nest below this one.
    pub open spec fn height(self) -> nat
        decreases self, 0nat,
    {
        match self {
            FieldSelector::Scalar(_, _) => 0,
            FieldSelector::Object(_, _, _, inner) => 1 + seq_height(inner@),
            FieldSelector::Union(_, _, variants) => 1 + variants_height(variants@),
        }
    }
}

/// The heights of a selection, each counted one more, added up.
pub open spec fn seq_height(s: Seq<FieldSelector>) -> nat
    decreases s, s.len(),
{
    if s.len() == 0 {
        0
    } else {
        seq_height(s.drop_last()) + s.last().height() + 1
    }
}

pub open spec fn variants_height(vs: Seq<(String, Vec<FieldSelector>)>) -> nat
    decreases vs, vs.len(),
{
    if vs.len() == 0 {
        0
    } else {
        variants_height(vs.drop_last()) + seq_height(vs.last().1@)
    }
}

/// Some scalar selector of the selection, at any depth, selects the field key `f`.
pub open spec fn names_scalar(s: Seq<FieldSelector>, f: (Seq<char>, Seq<char>)) -> bool
    decreases s, s.len(),
{
    if s.len() == 0 {
        false
    } else {
        names_scalar(s.drop_last(), f) || sel_names_scalar(s.last(), f)
    }
}

/// The selector, or a selector inside it, is a scalar selector of the field key `f`.
pub open spec fn sel_names_scalar(sel: FieldSelector, f: (Seq<char>, Seq<char>)) -> bool
    decreases sel, 0nat,
{
    match sel {
        FieldSelector::Scalar(n, a) => (n@, a@) == f,
        FieldSelector::Object(_, _, _, inner) => names_scalar(inner@, f),
        FieldSelector::Union(_, _, vs) => variants_name_scalar(vs@, f),
    }
}

/// Some variant's selection names a scalar of the field key `f`.
pub open spec fn variants_name_scalar(vs: Seq<(String, Vec<FieldSelector>)>, f: (Seq<char>, Seq<char>)) -> bool
    decreases vs, vs.len(),
{
    if vs.len() == 0 {
        false
    } else {
        variants_name_scalar(vs.drop_last(), f) || names_scalar(vs.last().1@, f)
    }
}

pub proof fn lemma_names_index(s: Seq<FieldSelector>, f: (Seq<char>, Seq<char>), i: int)
    requires
        !names_scalar(s, f),
        0 <= i < s.len(),
    ensures
        !sel_names_scalar(s[i], f),
    decreases s.len(),
{
    if i < s.len() - 1 {
        assert(s.drop_last()[i] == s[i]);
        lemma_names_index(s.drop_last(), f, i);
    }
}

proof fn lemma_variants_index(vs: Seq<(String, Vec<FieldSelector>)>, f: (Seq<char>, Seq<char>), i: int)
    requires
        !variants_name_scalar(vs, f),
        0 <= i < vs.len(),
    ensures
        !names_scalar(vs[i].1@, f),
    decreases vs.len(),
{
    if i < vs.len() - 1 {
        assert(vs.drop_last()[i] == vs[i]);
        lemma_variants_index(vs.drop_last(), f, i);
    }
}

proof fn lemma_pick_is_variant(vs: Seq<(String, Vec<FieldSelector>)>, t: Seq<char>)
    ensures
        pick(vs, t).len() == 0 || exists|i: int| 0 <= i < vs.len() && #[trigger] vs[i].1@ == pick(vs, t),
    decreases vs.len(),
{
    if vs.len() > 0 && vs[0].0@ != t {
        lemma_pick_is_variant(vs.drop_first(), t);
        if pick(vs, t).len() != 0 {
            let i = choose|i: int| 0 <= i < vs.drop_first().len() && #[trigger] vs.drop_first()[i].1@ == pick(vs.drop_first(), t);
            assert(vs[i + 1] == vs.drop_first()[i]);
        }
    } else if vs.len() > 0 {
        assert(vs[0].1@ == pick(vs, t));
    }
}

pub proof fn lemma_names_pick(vs: Seq<(String, Vec<FieldSelector>)>, t: Seq<char>, f: (Seq<char>, Seq<char>))
    requires
        !variants_name_scalar(vs, f),
    ensures
        !names_scalar(pick(vs, t), f),
{
    lemma_pick_is_variant(vs, t);
    if pick(vs, t).len() != 0 {
        let i = choose|i: int| 0 <= i < vs.len() && #[trigger] vs[i].1@ == pick(vs, t);
        lemma_variants_index(vs, f, i);
    }
}

/// The selection for the typename `t`: that of the first variant for it, else none.
pub open spec fn pick(vs: Seq<(String, Vec<FieldSelector>)>, t: Seq<char>) -> Seq<FieldSelector>
    decreases vs.len(),
{
    if vs.len() == 0 {
        Seq::empty()
    } else if vs[0].0@ == t {
        vs[0].1@
    } else {
        pick(vs.drop_first(), t)
    }
}

pub proof fn lemma_seq_height(s: Seq<FieldSelector>, i: int)
    requires
        0 <= i < s.len(),
    ensures
        s[i].height() < seq_height(s),
    decreases s.len(),
{
    if i < s.len() - 1 {
        lemma_seq_height(s.drop_last(), i);
    }
}

proof fn lemma_variants_height(vs: Seq<(String, Vec<FieldSelector>)>, i: int)
    requires
        0 <= i < vs.len(),
    ensures
        seq_height(vs[i].1@) <= variants_height(vs),
    decreases vs.len(),
{
    if i < vs.len() - 1 {
        lemma_variants_height(vs.drop_last(), i);
    }
}

pub proof fn lemma_pick_height(vs: Seq<(String, Vec<FieldSelector>)>, t: Seq<char>)
    ensures
        seq_height(pick(vs, t)) <= variants_height(vs),
    decreases vs.len(),
{
    if vs.len() > 0 {
        if vs[0].0@ == t {
            lemma_variants_height(vs, 0);
        } else {
            lemma_pick_height(vs.drop_first(), t);
            lemma_variants_drop_first(vs);
        }
    }
}

proof fn lemma_variants_drop_first(vs: Seq<(String, Vec<FieldSelector>)>)
    requires
        vs.len() > 0,
    ensures
        variants_height(vs.drop_first()) <= variants_height(vs),
    decreases vs.len(),
{
    if vs.len() > 1 {
        lemma_variants_drop_first(vs.drop_last());
        assert(vs.drop_first().drop_last() =~= vs.drop_last().drop_first());
    } else {
        assert(vs.drop_first().len() == 0);
    }
}

/// The selector's inner selection for the typename `t`; a scalar has none.
pub open spec fn inner_of(sel: FieldSelector, t: Seq<char>) -> Seq<FieldSelector> {
    match sel {
        FieldSelector::Scalar(_, _) => Seq::empty(),
        FieldSelector::Object(_, _, _, inner) => inner@,
        FieldSelector::Union(_, _, vs) => pick(vs@, t),
    }
}

pub proof fn lemma_inner_height(sel: FieldSelector, t: Seq<char>)
    requires
        !(sel is Scalar),
    ensures
        seq_height(inner_of(sel, t)) < sel.height(),
{
    match sel {
        FieldSelector::Union(_, _, vs) => {
            lemma_pick_height(vs@, t);
        },
        _ => {},
    }
}

impl FieldSelector {
    /// The one-line description of a selector: its kind, field name and arguments, and for
    /// an object its typename; inner selections are left out.
    pub open spec fn description(self) -> Seq<char> {
        match self {
            FieldSelector::Scalar(n, a) => "Scalar(field name: "@ + n@ + ", args: "@ + a@ + ")"@,
            FieldSelector::Object(n, a, t, _) => "Object(field name: "@ + n@ + ", args: "@ + a@ + ", typename: "@ + t@ + ")"@,
            FieldSelector::Union(n, a, _) => "Union(field name: "@ + n@ + ", args: "@ + a@ + ")"@,
        }
    }

    /// The selector described in one line, as it appears in diagnostics.
    pub fn describe(&self) -> (s: String)
        ensures
            s@ == self.description(),
    {
        let mut s = String::new();
        match self {
            FieldSelector::Scalar(n, a) => {
                s.append("Scalar(field name: ");
                s.append(n.as_str());
                s.append(", args: ");
                s.append(a.as_str());
            },
            FieldSelector::Object(n, a, t, _) => {
                s.append("Object(field name: ");
                s.append(n.as_str());
                s.append(", args: ");
                s.append(a.as_str());
                s.append(", typename: ");
                s.append(t.as_str());
            },
            FieldSelector::Union(n, a, _) => {
                s.append("Union(field name: ");
                s.append(n.as_str());
                s.append(", args: ");
                s.append(a.as_str());
            },
        }
        s.append(")");
        s
    }
}

/// The name of the field that a selector selects.
pub fn selector_field_name(selector: &FieldSelector) -> (r: &String)
    ensures
        r@ == selector.name_v(),
{
    match selector {
        FieldSelector::Scalar(n, _) => n,
        FieldSelector::Object(n, _, _, _) => n,
        FieldSelector::Union(n, _, _) => n,
    }
}

/// The key under which the selected field is stored.
pub fn field_key(selector: &FieldSelector) -> (k: FieldKey)
    ensures
        k@ == selector.key_v(),
{
    match selector {
        FieldSelector::Scalar(n, a) => FieldKey { name: n.clone(), args: a.clone() },
        FieldSelector::Object(n, a, _, _) => FieldKey { name: n.clone(), args: a.clone() },
        FieldSelector::Union(n, a, _) => FieldKey { name: n.clone(), args: a.clone() },
    }
}

/// The inner selection of a union for the typename `t`.
pub fn pick_selection<'a>(variants: &'a Vec<(String, Vec<FieldSelector>)>, t: &String) -> (r: Option<&'a Vec<FieldSelector>>)
    ensures
        match r {
            Some(v) => v@ == pick(variants@, t@),
            None => pick(variants@, t@) == Seq::<FieldSelector>::empty(),
        },
{
    assert(variants@.skip(0) =~= variants@);
    let mut i: usize = 0;
    while i < variants.len()
        invariant
            i <= variants@.len(),
            pick(variants@, t@) == pick(variants@.skip(i as int), t@),
        decreases variants@.len() - i,
    {
        proof {
            assert(variants@.skip(i as int)[0] == variants@[i as int]);
            assert(variants@.skip(i as int).drop_first() =~= variants@.skip(i + 1));
        }
        if variants[i].0 == *t {
            return Some(&variants[i].1);
        }
        i = i + 1;
    }
    assert(variants@.skip(i as int) =~= Seq::<(String, Vec<FieldSelector>)>::empty());
    None
}

} // verus!
