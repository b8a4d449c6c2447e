//! The web dashboard's logic: values typed in as JSON, command requests, result text and
//! key filtering.
use crate::text::{
    chars_of, contains_str, occurs_in, slice_chars, str_equal, string_from_chars, strings_view,
    strip_quotes, strip_quotes_str, to_lower, trim, trim_chars, unicode_lower,
};
use crate::value::{fields_distinct, fields_map, hash_insert, DbValue, ValueView};
use vstd::prelude::*;

verus! {

/// What the dashboard reads of an item of a JSON array or a member value of a JSON object:
/// its JSON text, and the string it holds if it is a string.
#[derive(Clone, Debug)]
pub struct JsonItem {
    pub text: String,
    pub as_str: Option<String>,
}

/// What the dashboard reads of a JSON value: its JSON text, the string it holds (if it is a
/// string), its items (if it is an array), and its members (if it is an object).
#[derive(Clone, Debug)]
pub struct JsonInput {
    pub text: String,
    pub as_str: Option<String>,
    pub array_items: Option<Vec<JsonItem>>,
    pub object_fields: Option<Vec<(String, JsonItem)>>,
}

/// The text stored for an item: a string's own content, otherwise its JSON text (with any
/// quotes at its ends taken off, which JSON text other than a string never has).
pub open spec fn item_text(i: JsonItem) -> Seq<char> {
    match i.as_str {
        Some(s) => s@,
        None => strip_quotes(i.text@),
    }
}

/// The texts stored for a run of items.
pub open spec fn item_texts(items: Seq<JsonItem>) -> Seq<Seq<char>> {
    items.map_values(|i: JsonItem| item_text(i))
}

/// The fields a run of (field, item) pairs gives: each field maps to its item's text, a later
/// field replacing an earlier one of the same name.
pub open spec fn fields_from_pairs(p: Seq<(String, JsonItem)>) -> Map<Seq<char>, Seq<char>>
    decreases p.len(),
{
    if p.len() == 0 {
        Map::empty()
    } else {
        fields_from_pairs(p.drop_last()).insert(p.last().0@, item_text(p.last().1))
    }
}

/// The value the dashboard stores for a data type and a JSON value: a list or set of the
/// texts of the array's items, a hash of the object's members likewise, and otherwise the
/// string itself or else the JSON text. A missing array or object gives an empty list, set
/// or hash.
pub open spec fn json_value(data_type: Seq<char>, v: JsonInput) -> ValueView {
    if data_type == "list"@ {
        ValueView::List(
            match v.array_items {
                Some(a) => item_texts(a@),
                None => Seq::empty(),
            },
        )
    } else if data_type == "hash"@ {
        ValueView::Fields(
            match v.object_fields {
                Some(o) => fields_from_pairs(o@),
                None => Map::empty(),
            },
        )
    } else if data_type == "set"@ {
        ValueView::Members(
            match v.array_items {
                Some(a) => item_texts(a@).to_set(),
                None => Set::empty(),
            },
        )
    } else {
        ValueView::Str(
            match v.as_str {
                Some(s) => s@,
                None => v.text@,
            },
        )
    }
}

/// The text stored for one item.
pub fn item_string(i: &JsonItem) -> (r: String)
    ensures
        r@ == item_text(*i),
{
    match &i.as_str {
        Some(s) => s.clone(),
        None => strip_quotes_str(i.text.as_str()),
    }
}

fn stored_items(items: &Vec<JsonItem>) -> (r: Vec<String>)
    ensures
        strings_view(r@) == item_texts(items@),
{
    let mut r: Vec<String> = Vec::new();
    let mut i: usize = 0;
    while i < items.len()
        invariant
            i <= items.len(),
            strings_view(r@) == item_texts(items@.take(i as int)),
        decreases items.len() - i,
    {
        let s = item_string(&items[i]);
        let ghost before = strings_view(r@);
        assert(item_texts(items@.take(i + 1)) =~= item_texts(items@.take(i as int)).push(
            item_text(items@[i as int]),
        ));
        r.push(s);
        assert(strings_view(r@) =~= before.push(s@));
        i += 1;
    }
    assert(items@.take(items.len() as int) =~= items@);
    r
}

/// Whether `s` occurs in `v`.
pub fn contains_string(v: &Vec<String>, s: &str) -> (b: bool)
    ensures
        b == strings_view(v@).contains(s@),
{
    let mut i: usize = 0;
    while i < v.len()
        invariant
            i <= v.len(),
            forall|j: int| 0 <= j < i ==> v@[j]@ != s@,
        decreases v.len() - i,
    {
        if str_equal(v[i].as_str(), s) {
            assert(strings_view(v@)[i as int] == s@);
            return true;
        }
        i += 1;
    }
    proof {
        if strings_view(v@).contains(s@) {
            let j = choose|j: int| 0 <= j < strings_view(v@).len() && strings_view(v@)[j] == s@;
            assert(v@[j]@ == s@);
        }
    }
    false
}

proof fn lemma_push_to_set(s: Seq<Seq<char>>, x: Seq<char>)
    ensures
        s.push(x).to_set() == s.to_set().insert(x),
{
    assert forall|y: Seq<char>| #![auto] s.push(x).to_set().contains(y) <==> s.to_set().insert(x).contains(y) by {
        if s.contains(y) {
            let k = choose|k: int| 0 <= k < s.len() && s[k] == y;
            assert(s.push(x)[k] == y);
        }
        if y == x {
            assert(s.push(x)[s.len() as int] == y);
        }
        if s.push(x).contains(y) {
            let k = choose|k: int| 0 <= k < s.len() + 1 && s.push(x)[k] == y;
            if k < s.len() {
                assert(s[k] == y);
            }
        }
    }
    assert(s.push(x).to_set() =~= s.to_set().insert(x));
}

fn distinct_strings(items: Vec<String>) -> (r: Vec<String>)
    ensures
        strings_view(r@).no_duplicates(),
        strings_view(r@).to_set() == strings_view(items@).to_set(),
{
    let mut r: Vec<String> = Vec::new();
    let mut i: usize = 0;
    while i < items.len()
        invariant
            i <= items.len(),
            strings_view(r@).no_duplicates(),
            strings_view(r@).to_set() == strings_view(items@.take(i as int)).to_set(),
        decreases items.len() - i,
    {
        let ghost before = strings_view(r@);
        let ghost t = strings_view(items@.take(i + 1));
        assert(t =~= strings_view(items@.take(i as int)).push(items@[i as int]@));
        proof {
            lemma_push_to_set(strings_view(items@.take(i as int)), items@[i as int]@);
        }
        if !contains_string(&r, items[i].as_str()) {
            r.push(items[i].clone());
            assert(strings_view(r@) =~= before.push(items@[i as int]@));
            proof {
                lemma_push_to_set(before, items@[i as int]@);
            }
        } else {
            assert(before.to_set().contains(items@[i as int]@));
            assert(before.to_set().insert(items@[i as int]@) =~= before.to_set());
        }
        i += 1;
    }
    assert(items@.take(items.len() as int) =~= items@);
    r
}

/// The value the dashboard stores for a data type and a JSON value.
pub fn json_to_db_value(data_type: &str, value: &JsonInput) -> (r: DbValue)
    ensures
        r.wf(),
        r@ == json_value(data_type@, *value),
{
    if str_equal(data_type, "list") {
        let items = match &value.array_items {
            Some(a) => stored_items(a),
            None => {
                let e: Vec<String> = Vec::new();
                assert(strings_view(e@) =~= Seq::<Seq<char>>::empty());
                e
            },
        };
        DbValue::List(items)
    } else if str_equal(data_type, "hash") {
        let mut h: Vec<(String, String)> = Vec::new();
        assert(fields_map(h@) =~= Map::<Seq<char>, Seq<char>>::empty());
        match &value.object_fields {
            Some(o) => {
                let mut i: usize = 0;
                assert(o@.take(0) =~= Seq::<(String, JsonItem)>::empty());
                while i < o.len()
                    invariant
                        i <= o.len(),
                        fields_distinct(h@),
                        fields_map(h@) == fields_from_pairs(o@.take(i as int)),
                    decreases o.len() - i,
                {
                    let f = o[i].0.clone();
                    let v = item_string(&o[i].1);
                    hash_insert(&mut h, f, v);
                    let ghost t = o@.take(i + 1);
                    assert(t.drop_last() =~= o@.take(i as int));
                    i += 1;
                }
                assert(o@.take(o.len() as int) =~= o@);
            },
            None => {},
        }
        DbValue::Hash(h)
    } else if str_equal(data_type, "set") {
        let items = match &value.array_items {
            Some(a) => stored_items(a),
            None => {
                let e: Vec<String> = Vec::new();
                assert(strings_view(e@) =~= Seq::<Seq<char>>::empty());
                e
            },
        };
        let ghost iv = strings_view(items@);
        let d = distinct_strings(items);
        proof {
            if value.array_items is None {
                assert(iv.to_set() =~= Set::<Seq<char>>::empty());
            }
        }
        DbValue::SetOf(d)
    } else {
        match &value.as_str {
            Some(s) => DbValue::String(s.clone()),
            None => DbValue::String(value.text.clone()),
        }
    }
}

/// The name the dashboard shows for the kind of a value.
pub open spec fn type_label(v: ValueView) -> Seq<char> {
    match v {
        ValueView::Str(_) => "String"@,
        ValueView::List(_) => "List"@,
        ValueView::Members(_) => "Set"@,
        ValueView::Fields(_) => "Hash"@,
        ValueView::Empty => "Empty"@,
    }
}

/// The kind of a value, as the dashboard names it.
pub fn kind_label(v: &DbValue) -> (r: String)
    ensures
        r@ == type_label(v@),
{
    match v {
        DbValue::String(_) => "String".to_owned(),
        DbValue::List(_) => "List".to_owned(),
        DbValue::SetOf(_) => "Set".to_owned(),
        DbValue::Hash(_) => "Hash".to_owned(),
        DbValue::Empty => "Empty".to_owned(),
    }
}

/// One key as the dashboard lists it.
#[derive(Clone, Debug)]
pub struct WebValue {
    pub value: String,
    pub data_type: String,
    pub expiry: Option<u64>,
    pub has_embedding: bool,
    pub embedding_preview: String,
}

/// The dashboard's key filter.
#[derive(Clone, Debug)]
pub struct DataQuery {
    pub q: Option<String>,
}

impl DataQuery {
    /// The lower-cased keyword (empty when none is given).
    pub fn keyword(&self) -> (r: String)
        ensures
            r@ == match self.q {
                Some(q) => unicode_lower(q@),
                None => unicode_lower(Seq::<char>::empty()),
            },
            self.q is None ==> r@.len() == 0,
            self.q is None ==> forall|key: Seq<char>| key_passes(r@, key),
    {
        match &self.q {
            Some(q) => to_lower(q.as_str()),
            None => {
                let e = String::new();
                let r = to_lower(e.as_str());
                proof {
                    assert(vstd::utf8::is_ascii_chars(e@));
                    assert(r@ =~= Seq::<char>::empty());
                }
                r
            },
        }
    }
}

/// A key passes the filter when the keyword is empty or occurs in the lower-cased key.
pub open spec fn key_passes(keyword: Seq<char>, key: Seq<char>) -> bool {
    keyword.len() == 0 || occurs_in(keyword, unicode_lower(key))
}

/// A non-empty keyword passes a key exactly when it occurs as a contiguous run anywhere in the
/// lower-cased key (not only at its start); an empty keyword passes every key.
pub proof fn law_keyword_found_anywhere(keyword: Seq<char>, key: Seq<char>)
    ensures
        keyword.len() == 0 ==> key_passes(keyword, key),
        keyword.len() > 0 ==> (key_passes(keyword, key) <==> exists|i: int, j: int|
            0 <= i <= j <= unicode_lower(key).len() && #[trigger] unicode_lower(key).subrange(i, j)
                == keyword),
{
    let lk = unicode_lower(key);
    if keyword.len() > 0 {
        if key_passes(keyword, key) {
            let i = choose|i: int|
                0 <= i && i + keyword.len() <= lk.len() && #[trigger] lk.subrange(i, i + keyword.len())
                    == keyword;
            assert(lk.subrange(i, i + keyword.len()) == keyword);
        }
        if exists|i: int, j: int| 0 <= i <= j <= lk.len() && #[trigger] lk.subrange(i, j) == keyword {
            let (i, j) = choose|i: int, j: int|
                0 <= i <= j <= lk.len() && #[trigger] lk.subrange(i, j) == keyword;
            assert(j - i == keyword.len());
            assert(lk.subrange(i, i + keyword.len()) == keyword);
            assert(occurs_in(keyword, lk));
        }
    }
}

/// Applies the key filter.
pub fn key_matches(keyword: &str, key: &str) -> (b: bool)
    ensures
        b == key_passes(keyword@, key@),
        keyword@.len() > 0 ==> (b <==> exists|i: int, j: int|
            0 <= i <= j <= unicode_lower(key@).len() && #[trigger] unicode_lower(key@).subrange(i, j)
                == keyword@),
{
    proof {
        law_keyword_found_anywhere(keyword@, key@);
    }
    let kw = chars_of(keyword);
    if kw.len() == 0 {
        return true;
    }
    let lk = to_lower(key);
    contains_str(lk.as_str(), keyword)
}

/// The arguments the dashboard passes to a command: its name, then the query for SEARCH and
/// SGET, or the key for GET, VGET, DEL and EXPIRE, when given.
pub open spec fn web_args_spec(name: Seq<char>, query: Option<Seq<char>>, key: Option<Seq<char>>) -> Seq<Seq<char>> {
    if name == "SEARCH"@ || name == "SGET"@ {
        match query {
            Some(q) => seq![name, q],
            None => seq![name],
        }
    } else if name == "GET"@ || name == "VGET"@ || name == "DEL"@ || name == "EXPIRE"@ {
        match key {
            Some(k) => seq![name, k],
            None => seq![name],
        }
    } else {
        seq![name]
    }
}

/// Builds the arguments for a command run from the dashboard.
pub fn web_args(name: &str, query: &Option<String>, key: &Option<String>) -> (r: Vec<String>)
    ensures
        strings_view(r@) == web_args_spec(
            name@,
            match query {
                Some(q) => Some(q@),
                None => None,
            },
            match key {
                Some(k) => Some(k@),
                None => None,
            },
        ),
{
    let mut r: Vec<String> = Vec::new();
    r.push(name.to_owned());
    if str_equal(name, "SEARCH") || str_equal(name, "SGET") {
        match query {
            Some(q) => r.push(q.clone()),
            None => {},
        }
    } else if str_equal(name, "GET") || str_equal(name, "VGET") || str_equal(name, "DEL")
        || str_equal(name, "EXPIRE") {
        match key {
            Some(k) => r.push(k.clone()),
            None => {},
        }
    }
    assert(strings_view(r@) =~= web_args_spec(
        name@,
        match query {
            Some(q) => Some(q@),
            None => None,
        },
        match key {
            Some(k) => Some(k@),
            None => None,
        },
    ));
    r
}

/// A reply marker the dashboard hides: `+`, `:` or `$`.
pub open spec fn is_marker(c: char) -> bool {
    c == '+' || c == ':' || c == '$'
}

/// `s` without its leading markers.
pub open spec fn strip_markers(s: Seq<char>) -> Seq<char>
    decreases s.len(),
{
    if s.len() > 0 && is_marker(s[0]) {
        strip_markers(s.drop_first())
    } else {
        s
    }
}

/// `s` with each CRLF (left to right, not overlapping) turned into LF.
pub open spec fn crlf_to_lf(s: Seq<char>) -> Seq<char>
    decreases s.len(),
{
    if s.len() >= 2 && s[0] == '\r' && s[1] == '\n' {
        seq!['\n'] + crlf_to_lf(s.skip(2))
    } else if s.len() > 0 {
        seq![s[0]] + crlf_to_lf(s.drop_first())
    } else {
        s
    }
}

/// The text the dashboard shows for a command's reply: leading markers removed, line ends
/// made LF, white space trimmed; `OK` when nothing is left.
pub open spec fn shown_reply(res: Seq<char>) -> Seq<char> {
    let t = trim(crlf_to_lf(strip_markers(res)));
    if t.len() == 0 {
        "OK"@
    } else {
        t
    }
}

proof fn lemma_strip_markers_skip(s: Seq<char>, i: int)
    requires
        0 <= i <= s.len(),
        forall|j: int| 0 <= j < i ==> is_marker(#[trigger] s[j]),
    ensures
        strip_markers(s) == strip_markers(s.skip(i)),
    decreases i,
{
    if i > 0 {
        assert(s.skip(1) =~= s.drop_first());
        lemma_strip_markers_skip(s.drop_first(), i - 1);
        assert(s.drop_first().skip(i - 1) =~= s.skip(i));
    } else {
        assert(s.skip(0) =~= s);
    }
}

proof fn lemma_crlf_suffix(s: Seq<char>, i: int)
    requires
        0 <= i <= s.len(),
    ensures
        i + 2 <= s.len() && s[i] == '\r' && s[i + 1] == '\n' ==> crlf_to_lf(s.skip(i)) == seq!['\n']
            + crlf_to_lf(s.skip(i + 2)),
        i < s.len() && !(i + 2 <= s.len() && s[i] == '\r' && s[i + 1] == '\n') ==> crlf_to_lf(s.skip(i))
            == seq![s[i]] + crlf_to_lf(s.skip(i + 1)),
{
    let t = s.skip(i);
    if t.len() >= 2 && t[0] == '\r' && t[1] == '\n' {
        assert(t.skip(2) =~= s.skip(i + 2));
    } else if t.len() > 0 {
        assert(t.drop_first() =~= s.skip(i + 1));
    }
}

/// Makes a command's reply readable on the dashboard.
pub fn clean_reply(res: &str) -> (r: String)
    ensures
        r@ == shown_reply(res@),
{
    let cs = chars_of(res);
    let mut a: usize = 0;
    while a < cs.len() && (cs[a] == '+' || cs[a] == ':' || cs[a] == '$')
        invariant
            a <= cs.len(),
            forall|j: int| 0 <= j < a ==> is_marker(#[trigger] cs@[j]),
        decreases cs.len() - a,
    {
        a += 1;
    }
    proof {
        lemma_strip_markers_skip(cs@, a as int);
    }
    let body = slice_chars(&cs, a, cs.len());
    assert(body@ =~= cs@.skip(a as int));
    assert(strip_markers(res@) == body@);
    // turn CRLF into LF
    let mut out: Vec<char> = Vec::new();
    let mut i: usize = 0;
    assert(body@.skip(0) =~= body@);
    while i < body.len()
        invariant
            i <= body.len(),
            out@ + crlf_to_lf(body@.skip(i as int)) == crlf_to_lf(body@),
        decreases body.len() - i,
    {
        proof {
            lemma_crlf_suffix(body@, i as int);
        }
        if i + 1 < body.len() && body[i] == '\r' && body[i + 1] == '\n' {
            out.push('\n');
            assert(out@ + crlf_to_lf(body@.skip(i + 2)) =~= crlf_to_lf(body@));
            i += 2;
        } else {
            out.push(body[i]);
            assert(out@ + crlf_to_lf(body@.skip(i + 1)) =~= crlf_to_lf(body@));
            i += 1;
        }
    }
    assert(body@.skip(body.len() as int) =~= Seq::<char>::empty());
    assert(crlf_to_lf(Seq::<char>::empty()) == Seq::<char>::empty());
    assert(out@ =~= crlf_to_lf(body@));
    let t = trim_chars(&out);
    if t.len() == 0 {
        "OK".to_owned()
    } else {
        string_from_chars(&t)
    }
}

} // verus!
