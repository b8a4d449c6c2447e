//! The values a key can hold: a string, a list, a set or a hash of fields.
use crate::text::{str_equal, strings_view};
use vstd::prelude::*;

verus! {

/// A stored value. `SetOf` holds no member twice and `Hash` no field twice (see `wf`).
#[derive(Clone, Debug)]
pub enum DbValue {
    Empty,
    String(String),
    List(Vec<String>),
    SetOf(Vec<String>),
    Hash(Vec<(String, String)>),
}

/// The mathematical content of a value.
pub enum ValueView {
    Empty,
    Str(Seq<char>),
    List(Seq<Seq<char>>),
    Members(Set<Seq<char>>),
    Fields(Map<Seq<char>, Seq<char>>),
}

/// The fields of a hash: each field maps to the value stored beside it.
pub open spec fn fields_map(e: Seq<(String, String)>) -> Map<Seq<char>, Seq<char>> {
    Map::new(
        |k: Seq<char>| exists|i: int| 0 <= i < e.len() && (#[trigger] e[i]).0@ == k,
        |k: Seq<char>| e[choose|i: int| 0 <= i < e.len() && (#[trigger] e[i]).0@ == k].1@,
    )
}

/// No field name occurs twice.
pub open spec fn fields_distinct(e: Seq<(String, String)>) -> bool {
    forall|i: int, j: int|
        0 <= i < e.len() && 0 <= j < e.len() && i != j ==> (#[trigger] e[i]).0@ != (#[trigger] e[j]).0@
}

impl View for DbValue {
    type V = ValueView;

    open spec fn view(&self) -> ValueView {
        match self {
            DbValue::Empty => ValueView::Empty,
            DbValue::String(s) => ValueView::Str(s@),
            DbValue::List(l) => ValueView::List(strings_view(l@)),
            DbValue::SetOf(m) => ValueView::Members(strings_view(m@).to_set()),
            DbValue::Hash(h) => ValueView::Fields(fields_map(h@)),
        }
    }
}

impl DbValue {
    /// Sets hold distinct members and hashes distinct fields.
    pub open spec fn wf(&self) -> bool {
        match self {
            DbValue::SetOf(m) => strings_view(m@).no_duplicates(),
            DbValue::Hash(h) => fields_distinct(h@),
            _ => true,
        }
    }

    /// Whether this is the `Empty` value.
    pub fn is_empty(&self) -> (b: bool)
        ensures
            b == (self is Empty),
            b == (self@ is Empty),
    {
        match self {
            DbValue::Empty => true,
            _ => false,
        }
    }

    /// A copy of the value, element for element.
    pub fn duplicate(&self) -> (r: DbValue)
        ensures
            r@ == self@,
            r.wf() == self.wf(),
            r is Empty <==> self is Empty,
    {
        match self {
            DbValue::Empty => DbValue::Empty,
            DbValue::String(s) => DbValue::String(s.clone()),
            DbValue::List(l) => DbValue::List(copy_strings(l)),
            DbValue::SetOf(m) => {
                let c = copy_strings(m);
                DbValue::SetOf(c)
            },
            DbValue::Hash(h) => {
                let c = copy_fields(h);
                proof {
                    lemma_fields_map_ext(h@, c@);
                }
                DbValue::Hash(c)
            },
        }
    }
}

/// A copy of a list of strings.
pub fn copy_strings(v: &Vec<String>) -> (r: Vec<String>)
    ensures
        r@ == v@,
        strings_view(r@) == strings_view(v@),
{
    let mut r: Vec<String> = Vec::new();
    let mut i: usize = 0;
    while i < v.len()
        invariant
            i <= v.len(),
            r@ == v@.take(i as int),
        decreases v.len() - i,
    {
        r.push(v[i].clone());
        i += 1;
        assert(r@ =~= v@.take(i as int));
    }
    assert(v@.take(v.len() as int) =~= v@);
    r
}

/// A copy of the fields of a hash.
pub fn copy_fields(v: &Vec<(String, String)>) -> (r: Vec<(String, String)>)
    ensures
        r@ == v@,
{
    let mut r: Vec<(String, String)> = Vec::new();
    let mut i: usize = 0;
    while i < v.len()
        invariant
            i <= v.len(),
            r@ == v@.take(i as int),
        decreases v.len() - i,
    {
        let f = v[i].0.clone();
        let x = v[i].1.clone();
        r.push((f, x));
        i += 1;
        assert(r@ =~= v@.take(i as int));
    }
    assert(v@.take(v.len() as int) =~= v@);
    r
}

proof fn lemma_fields_map_ext(a: Seq<(String, String)>, b: Seq<(String, String)>)
    requires
        a == b,
    ensures
        fields_map(a) == fields_map(b),
{
}

/// With distinct fields, the field at position `i` maps to the value beside it.
pub proof fn lemma_fields_map_at(e: Seq<(String, String)>, i: int)
    requires
        fields_distinct(e),
        0 <= i < e.len(),
    ensures
        fields_map(e).contains_key(e[i].0@),
        fields_map(e)[e[i].0@] == e[i].1@,
{
    let k = e[i].0@;
    assert(exists|j: int| 0 <= j < e.len() && (#[trigger] e[j]).0@ == k);
    let j = choose|j: int| 0 <= j < e.len() && (#[trigger] e[j]).0@ == k;
    assert(j == i);
}

/// The position of `field` among the fields, if present.
pub fn find_field(h: &Vec<(String, String)>, field: &str) -> (r: Option<usize>)
    ensures
        r matches Some(i) ==> i < h.len() && h@[i as int].0@ == field@,
        r is None ==> forall|i: int| 0 <= i < h.len() ==> (#[trigger] h@[i]).0@ != field@,
        r is None <==> !fields_map(h@).contains_key(field@),
{
    let mut i: usize = 0;
    while i < h.len()
        invariant
            i <= h.len(),
            forall|j: int| 0 <= j < i ==> (#[trigger] h@[j]).0@ != field@,
        decreases h.len() - i,
    {
        if str_equal(h[i].0.as_str(), field) {
            assert(fields_map(h@).contains_key(field@)) by {
                assert(h@[i as int].0@ == field@);
            }
            return Some(i);
        }
        i += 1;
    }
    None
}

/// The value stored under `field`, if any.
pub fn hash_get(h: &Vec<(String, String)>, field: &str) -> (r: Option<String>)
    requires
        fields_distinct(h@),
    ensures
        r is None <==> !fields_map(h@).contains_key(field@),
        r matches Some(v) ==> v@ == fields_map(h@)[field@],
{
    match find_field(h, field) {
        Some(i) => {
            proof {
                lemma_fields_map_at(h@, i as int);
            }
            Some(h[i].1.clone())
        },
        None => None,
    }
}

/// Stores `value` under `field`, replacing what was there; answers whether the field is new.
pub fn hash_insert(h: &mut Vec<(String, String)>, field: String, value: String) -> (is_new: bool)
    requires
        fields_distinct(old(h)@),
    ensures
        fields_distinct(final(h)@),
        fields_map(final(h)@) == fields_map(old(h)@).insert(field@, value@),
        is_new == !fields_map(old(h)@).contains_key(field@),
{
    match find_field(h, field.as_str()) {
        Some(i) => {
            let ghost f = field@;
            let ghost v = value@;
            h.set(i, (field, value));
            proof {
                assert forall|a: int, b: int|
                    0 <= a < h@.len() && 0 <= b < h@.len() && a != b implies (#[trigger] h@[a]).0@
                    != (#[trigger] h@[b]).0@ by {
                    assert(old(h)@[a].0@ != old(h)@[b].0@);
                }
                lemma_fields_map_at(h@, i as int);
                assert forall|k: Seq<char>|
                    #![auto]
                    fields_map(h@).contains_key(k) <==> fields_map(old(h)@).insert(f, v).contains_key(k) by {
                    if fields_map(old(h)@).insert(f, v).contains_key(k) && k != f {
                        let j = choose|j: int| 0 <= j < old(h)@.len() && (#[trigger] old(h)@[j]).0@ == k;
                        assert(h@[j].0@ == k);
                    }
                }
                assert forall|k: Seq<char>| #[trigger] fields_map(h@).contains_key(k) implies fields_map(h@)[k]
                    == fields_map(old(h)@).insert(f, v)[k] by {
                    if k != f {
                        let j = choose|j: int| 0 <= j < h@.len() && (#[trigger] h@[j]).0@ == k;
                        lemma_fields_map_at(h@, j);
                        lemma_fields_map_at(old(h)@, j);
                    }
                }
                assert(fields_map(h@) =~= fields_map(old(h)@).insert(f, v));
            }
            false
        },
        None => {
            let ghost f = field@;
            let ghost v = value@;
            h.push((field, value));
            proof {
                let n = h@.len() - 1;
                assert forall|a: int, b: int|
                    0 <= a < h@.len() && 0 <= b < h@.len() && a != b implies (#[trigger] h@[a]).0@
                    != (#[trigger] h@[b]).0@ by {
                    if a != n && b != n {
                        assert(old(h)@[a].0@ != old(h)@[b].0@);
                    }
                }
                lemma_fields_map_at(h@, n);
                assert forall|k: Seq<char>|
                    #![auto]
                    fields_map(h@).contains_key(k) <==> fields_map(old(h)@).insert(f, v).contains_key(k) by {
                    if fields_map(old(h)@).insert(f, v).contains_key(k) && k != f {
                        let j = choose|j: int| 0 <= j < old(h)@.len() && (#[trigger] old(h)@[j]).0@ == k;
                        assert(h@[j].0@ == k);
                    }
                    if fields_map(h@).contains_key(k) && k != f {
                        let j = choose|j: int| 0 <= j < h@.len() && (#[trigger] h@[j]).0@ == k;
                        assert(j != n);
                        assert(old(h)@[j].0@ == k);
                    }
                }
                assert forall|k: Seq<char>| #[trigger] fields_map(h@).contains_key(k) implies fields_map(h@)[k]
                    == fields_map(old(h)@).insert(f, v)[k] by {
                    if k != f {
                        let j = choose|j: int| 0 <= j < h@.len() && (#[trigger] h@[j]).0@ == k;
                        assert(j != n);
                        lemma_fields_map_at(h@, j);
                        lemma_fields_map_at(old(h)@, j);
                    }
                }
                assert(fields_map(h@) =~= fields_map(old(h)@).insert(f, v));
            }
            true
        },
    }
}

/// A hash holding exactly one field.
pub fn single_field_hash(field: String, value: String) -> (r: DbValue)
    ensures
        r.wf(),
        r@ == ValueView::Fields(Map::<Seq<char>, Seq<char>>::empty().insert(field@, value@)),
{
    let mut h: Vec<(String, String)> = Vec::new();
    proof {
        assert(fields_map(h@) =~= Map::<Seq<char>, Seq<char>>::empty());
    }
    hash_insert(&mut h, field, value);
    DbValue::Hash(h)
}

} // verus!
