use vstd::prelude::*;

verus! {

/// A decoded JSON value. A number keeps its literal text; an object keeps its members in
/// the order their keys first appeared, each key once. Two values are equal when they
/// have the same shape and content, whatever the order of their objects' members.
#[derive(Debug)]
pub enum JSON {
    JSONNum(String),
    JSONString(String),
    JSONNull,
    JSONBool(bool),
    JSONArray(Vec<JSON>),
    JSONObject(Vec<(String, JSON)>),
}

/// A JSON value as a mathematical object.
pub enum SpecJson {
    Num(Seq<char>),
    Str(Seq<char>),
    Null,
    Bool(bool),
    Array(Seq<SpecJson>),
    Object(Seq<(Seq<char>, SpecJson)>),
}

pub open spec fn json_view(j: JSON) -> SpecJson
    decreases j,
{
    match j {
        JSON::JSONNum(x) => SpecJson::Num(x@),
        JSON::JSONString(x) => SpecJson::Str(x@),
        JSON::JSONNull => SpecJson::Null,
        JSON::JSONBool(b) => SpecJson::Bool(b),
        JSON::JSONArray(v) => SpecJson::Array(
            Seq::new(
                v@.len(),
                |i: int|
                    if 0 <= i < v.len() {
                        json_view(v[i])
                    } else {
                        SpecJson::Null
                    },
            ),
        ),
        JSON::JSONObject(v) => SpecJson::Object(
            Seq::new(
                v@.len(),
                |i: int|
                    if 0 <= i < v.len() {
                        (v[i].0@, json_view(v[i].1))
                    } else {
                        (Seq::empty(), SpecJson::Null)
                    },
            ),
        ),
    }
}

/// No two members share a key.
pub open spec fn keys_distinct(m: Seq<(Seq<char>, SpecJson)>) -> bool {
    forall|i: int, j: int| 0 <= i < j < m.len() ==> m[i].0 != m[j].0
}

/// Every object in `v`, at any depth, has distinct keys.
pub open spec fn json_wf(v: SpecJson) -> bool
    decreases v, 0int,
{
    match v {
        SpecJson::Array(items) => items_wf(items, 0),
        SpecJson::Object(m) => keys_distinct(m) && members_wf(m, 0),
        _ => true,
    }
}

/// The items from index `i` on are well formed.
pub open spec fn items_wf(items: Seq<SpecJson>, i: int) -> bool
    decreases items, items.len() - i,
{
    if 0 <= i < items.len() {
        json_wf(items[i]) && items_wf(items, i + 1)
    } else {
        true
    }
}

/// The values of the members from index `i` on are well formed.
pub open spec fn members_wf(m: Seq<(Seq<char>, SpecJson)>, i: int) -> bool
    decreases m, m.len() - i,
{
    if 0 <= i < m.len() {
        json_wf(m[i].1) && members_wf(m, i + 1)
    } else {
        true
    }
}

pub proof fn lemma_items_wf(items: Seq<SpecJson>, i: int)
    requires
        0 <= i <= items.len(),
    ensures
        items_wf(items, i) <==> forall|j: int| i <= j < items.len() ==> json_wf(#[trigger] items[j]),
    decreases items.len() - i,
{
    if i < items.len() {
        lemma_items_wf(items, i + 1);
    }
}

pub proof fn lemma_members_wf(m: Seq<(Seq<char>, SpecJson)>, i: int)
    requires
        0 <= i <= m.len(),
    ensures
        members_wf(m, i) <==> forall|j: int| i <= j < m.len() ==> json_wf(#[trigger] m[j].1),
    decreases m.len() - i,
{
    if i < m.len() {
        lemma_members_wf(m, i + 1);
    }
}

/// The members of an object, viewed.
pub open spec fn members_view(v: Seq<(String, JSON)>) -> Seq<(Seq<char>, SpecJson)> {
    v.map_values(|p: (String, JSON)| (p.0@, json_view(p.1)))
}

/// The elements of an array, viewed.
pub open spec fn items_view(v: Seq<JSON>) -> Seq<SpecJson> {
    v.map_values(|j: JSON| json_view(j))
}

pub proof fn lemma_array_view(v: Vec<JSON>)
    ensures
        json_view(JSON::JSONArray(v)) == SpecJson::Array(items_view(v@)),
{
    if let SpecJson::Array(x) = json_view(JSON::JSONArray(v)) {
        assert(x =~= items_view(v@));
    }
}

pub proof fn lemma_object_view(v: Vec<(String, JSON)>)
    ensures
        json_view(JSON::JSONObject(v)) == SpecJson::Object(members_view(v@)),
{
    if let SpecJson::Object(x) = json_view(JSON::JSONObject(v)) {
        assert(x =~= members_view(v@));
    }
}

/// The index of the member with key `k` at or after `i`, or -1.
pub open spec fn find_key(m: Seq<(Seq<char>, SpecJson)>, k: Seq<char>, i: int) -> int
    decreases m.len() - i,
{
    if !(0 <= i < m.len()) {
        -1
    } else if m[i].0 == k {
        i
    } else {
        find_key(m, k, i + 1)
    }
}

/// Adds the member `k: v`; a member with key `k` already present takes the new value.
pub open spec fn obj_insert(m: Seq<(Seq<char>, SpecJson)>, k: Seq<char>, v: SpecJson) -> Seq<
    (Seq<char>, SpecJson),
> {
    let i = find_key(m, k, 0);
    if i >= 0 {
        m.update(i, (k, v))
    } else {
        m.push((k, v))
    }
}

/// Adds `key: val` to `obj`, replacing the value of a member with the same key.
pub fn insert_member(obj: &mut Vec<(String, JSON)>, key: String, val: JSON)
    ensures
        members_view(final(obj)@) == obj_insert(members_view(old(obj)@), key@, json_view(val)),
        json_wf(SpecJson::Object(members_view(old(obj)@))) && json_wf(json_view(val)) ==> json_wf(
            SpecJson::Object(members_view(final(obj)@)),
        ),
{
    let ghost m = members_view(obj@);
    let mut i: usize = 0;
    while i < obj.len()
        invariant
            obj@ == old(obj)@,
            m == members_view(obj@),
            i <= obj.len(),
            find_key(m, key@, 0) == find_key(m, key@, i as int),
            forall|j: int| 0 <= j < i ==> m[j].0 != key@,
        decreases obj.len() - i,
    {
        if obj[i].0 == key {
            let ghost kv = key@;
            let ghost jv = json_view(val);
            obj.set(i, (key, val));
            assert(members_view(obj@) =~= m.update(i as int, (kv, jv)));
            proof {
                lemma_members_wf(m, 0);
                lemma_members_wf(m.update(i as int, (kv, jv)), 0);
                assert(m[i as int].0 == kv);
            }
            return;
        }
        i = i + 1;
    }
    let ghost kv = key@;
    let ghost jv = json_view(val);
    obj.push((key, val));
    assert(members_view(obj@) =~= m.push((kv, jv)));
    proof {
        lemma_members_wf(m, 0);
        lemma_members_wf(m.push((kv, jv)), 0);
    }
}

/// Equality of values: arrays item by item, objects member by member in either order.
pub open spec fn json_equiv(a: SpecJson, b: SpecJson) -> bool
    decreases a, 0int, 0int,
{
    match a {
        SpecJson::Array(x) => match b {
            SpecJson::Array(y) => x.len() == y.len() && items_equiv(x, y, 0),
            _ => false,
        },
        SpecJson::Object(m) => match b {
            SpecJson::Object(n) => m.len() == n.len() && members_fwd(m, n, 0) && members_rev(
                m,
                n,
                0,
            ),
            _ => false,
        },
        _ => a == b,
    }
}

/// The items from index `i` on are equal pairwise.
pub open spec fn items_equiv(x: Seq<SpecJson>, y: Seq<SpecJson>, i: int) -> bool
    decreases x, 0int, x.len() - i,
{
    if 0 <= i < x.len() {
        i < y.len() && json_equiv(x[i], y[i]) && items_equiv(x, y, i + 1)
    } else {
        true
    }
}

/// Every member of `m` from index `i` on has an equal member in `n`.
pub open spec fn members_fwd(
    m: Seq<(Seq<char>, SpecJson)>,
    n: Seq<(Seq<char>, SpecJson)>,
    i: int,
) -> bool
    decreases m, 0int, m.len() - i,
{
    if 0 <= i < m.len() {
        member_in(m[i], n, 0) && members_fwd(m, n, i + 1)
    } else {
        true
    }
}

/// `n` holds, at index `j` or later, a member with the key of `kv` and a value equal to it.
pub open spec fn member_in(kv: (Seq<char>, SpecJson), n: Seq<(Seq<char>, SpecJson)>, j: int) -> bool
    decreases kv, 0int, n.len() - j,
{
    if 0 <= j < n.len() {
        (kv.0 == n[j].0 && json_equiv(kv.1, n[j].1)) || member_in(kv, n, j + 1)
    } else {
        false
    }
}

/// Every member of `n` from index `i` on has an equal member in `m`.
pub open spec fn members_rev(
    m: Seq<(Seq<char>, SpecJson)>,
    n: Seq<(Seq<char>, SpecJson)>,
    i: int,
) -> bool
    decreases m, 1int, n.len() - i,
{
    if 0 <= i < n.len() {
        member_back(n[i], m, 0) && members_rev(m, n, i + 1)
    } else {
        true
    }
}

/// `m` holds, at index `j` or later, a member with the key of `kv` and a value that
/// `kv`'s value equals.
pub open spec fn member_back(kv: (Seq<char>, SpecJson), m: Seq<(Seq<char>, SpecJson)>, j: int) -> bool
    decreases m, 0int, m.len() - j,
{
    if 0 <= j < m.len() {
        (m[j].0 == kv.0 && json_equiv(m[j].1, kv.1)) || member_back(kv, m, j + 1)
    } else {
        false
    }
}

/// Compares two values as `json_equiv` does.
pub fn json_eq(a: &JSON, b: &JSON) -> (r: bool)
    ensures
        r == json_equiv(json_view(*a), json_view(*b)),
    decreases *a, 0int, 0int,
{
    match a {
        JSON::JSONNum(x) => match b {
            JSON::JSONNum(y) => *x == *y,
            _ => false,
        },
        JSON::JSONString(x) => match b {
            JSON::JSONString(y) => *x == *y,
            _ => false,
        },
        JSON::JSONNull => match b {
            JSON::JSONNull => true,
            _ => false,
        },
        JSON::JSONBool(x) => match b {
            JSON::JSONBool(y) => *x == *y,
            _ => false,
        },
        JSON::JSONArray(x) => match b {
            JSON::JSONArray(y) => {
                proof {
                    lemma_array_view(*x);
                    lemma_array_view(*y);
                }
                x.len() == y.len() && items_eq(x, y)
            },
            _ => false,
        },
        JSON::JSONObject(m) => match b {
            JSON::JSONObject(n) => {
                proof {
                    lemma_object_view(*m);
                    lemma_object_view(*n);
                }
                m.len() == n.len() && members_fwd_eq(m, n) && members_rev_eq(m, n)
            },
            _ => false,
        },
    }
}

fn items_eq(x: &Vec<JSON>, y: &Vec<JSON>) -> (r: bool)
    ensures
        r == items_equiv(items_view(x@), items_view(y@), 0),
    decreases *x, 0int, 1int,
{
    let ghost xv = items_view(x@);
    let ghost yv = items_view(y@);
    let mut i: usize = 0;
    while i < x.len()
        invariant
            i <= x.len(),
            xv == items_view(x@),
            yv == items_view(y@),
            items_equiv(xv, yv, 0) == items_equiv(xv, yv, i as int),
        decreases x.len() - i,
    {
        if i >= y.len() {
            return false;
        }
        assert(xv[i as int] == json_view(x@[i as int]));
        assert(yv[i as int] == json_view(y@[i as int]));
        if !json_eq(&x[i], &y[i]) {
            return false;
        }
        i = i + 1;
    }
    true
}

fn members_fwd_eq(m: &Vec<(String, JSON)>, n: &Vec<(String, JSON)>) -> (r: bool)
    ensures
        r == members_fwd(members_view(m@), members_view(n@), 0),
    decreases *m, 0int, 1int,
{
    let ghost mv = members_view(m@);
    let mut i: usize = 0;
    while i < m.len()
        invariant
            i <= m.len(),
            mv == members_view(m@),
            members_fwd(mv, members_view(n@), 0) == members_fwd(mv, members_view(n@), i as int),
        decreases m.len() - i,
    {
        if !member_in_eq(&m[i], n) {
            return false;
        }
        i = i + 1;
    }
    true
}

fn member_in_eq(kv: &(String, JSON), n: &Vec<(String, JSON)>) -> (r: bool)
    ensures
        r == member_in((kv.0@, json_view(kv.1)), members_view(n@), 0),
    decreases *kv, 0int, 1int,
{
    let ghost k = (kv.0@, json_view(kv.1));
    let ghost nv = members_view(n@);
    let mut j: usize = 0;
    while j < n.len()
        invariant
            j <= n.len(),
            nv == members_view(n@),
            k == (kv.0@, json_view(kv.1)),
            member_in(k, nv, 0) == member_in(k, nv, j as int),
        decreases n.len() - j,
    {
        assert(nv[j as int] == (n@[j as int].0@, json_view(n@[j as int].1)));
        if kv.0 == n[j].0 && json_eq(&kv.1, &n[j].1) {
            return true;
        }
        j = j + 1;
    }
    false
}

fn members_rev_eq(m: &Vec<(String, JSON)>, n: &Vec<(String, JSON)>) -> (r: bool)
    ensures
        r == members_rev(members_view(m@), members_view(n@), 0),
    decreases *m, 1int, 1int,
{
    let ghost nv = members_view(n@);
    let mut i: usize = 0;
    while i < n.len()
        invariant
            i <= n.len(),
            nv == members_view(n@),
            members_rev(members_view(m@), nv, 0) == members_rev(members_view(m@), nv, i as int),
        decreases n.len() - i,
    {
        if !member_back_eq(&n[i], m) {
            return false;
        }
        i = i + 1;
    }
    true
}

fn member_back_eq(kv: &(String, JSON), m: &Vec<(String, JSON)>) -> (r: bool)
    ensures
        r == member_back((kv.0@, json_view(kv.1)), members_view(m@), 0),
    decreases *m, 0int, 1int,
{
    let ghost k = (kv.0@, json_view(kv.1));
    let ghost mv = members_view(m@);
    let mut j: usize = 0;
    while j < m.len()
        invariant
            j <= m.len(),
            mv == members_view(m@),
            k == (kv.0@, json_view(kv.1)),
            member_back(k, mv, 0) == member_back(k, mv, j as int),
        decreases m.len() - j,
    {
        assert(mv[j as int] == (m@[j as int].0@, json_view(m@[j as int].1)));
        if m[j].0 == kv.0 && json_eq(&m[j].1, &kv.1) {
            return true;
        }
        j = j + 1;
    }
    false
}

impl PartialEq for JSON {
    fn eq(&self, other: &JSON) -> (r: bool) {
        json_eq(self, other)
    }
}

impl vstd::std_specs::cmp::PartialEqSpecImpl for JSON {
    open spec fn obeys_eq_spec() -> bool {
        true
    }

    open spec fn eq_spec(&self, other: &JSON) -> bool {
        json_equiv(json_view(*self), json_view(*other))
    }
}

} // verus!
