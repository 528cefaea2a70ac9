//! JSON values, as the Forge API, the install manifests and the metadata cache use them.
//!
//! Text is read and written by `serde_json`; what the rest of the library looks at is a [`Json`]
//! tree.
use crate::text;
use vstd::prelude::*;

verus! {

/// `serde_json::Value`, a JSON tree of the outside crate.
#[verifier::external_type_specification]
#[verifier::external_body]
pub struct ExValue(serde_json::Value);

/// `serde_json::Number`, a JSON number of the outside crate.
#[verifier::external_type_specification]
#[verifier::external_body]
pub struct ExNumber(serde_json::Number);

/// A number that is not a whole number from 0 to `u64::MAX`, carried along as it was read.
pub struct OtherNumber {
    number: serde_json::Number,
}

/// A JSON value.
pub enum Json {
    Null,
    Bool(bool),
    /// A whole number from 0 to `u64::MAX`.
    Unsigned(u64),
    /// Any other number.
    Other(OtherNumber),
    Str(String),
    Array(Vec<Json>),
    /// The members of an object. Where a name occurs twice the first member counts.
    Object(Vec<(String, Json)>),
}

/// The mathematical content of a JSON value.
pub enum JsonView {
    Null,
    Bool(bool),
    Unsigned(u64),
    Other(OtherNumber),
    Str(Seq<char>),
    Array(Seq<JsonView>),
    Object(Map<Seq<char>, JsonView>),
}

/// The index of the first member called `key`; the number of members where there is none.
pub open spec fn member_index(members: Seq<(String, Json)>, key: Seq<char>) -> int
    decreases members.len(),
{
    if members.len() == 0 {
        0
    } else if members[0].0@ == key {
        0
    } else {
        1 + member_index(members.drop_first(), key)
    }
}

/// The tree that a JSON value is.
pub open spec fn tree(j: Json) -> JsonView
    decreases j,
{
    match j {
        Json::Null => JsonView::Null,
        Json::Bool(b) => JsonView::Bool(b),
        Json::Unsigned(n) => JsonView::Unsigned(n),
        Json::Other(n) => JsonView::Other(n),
        Json::Str(s) => JsonView::Str(s@),
        Json::Array(v) => JsonView::Array(
            Seq::new(
                v@.len(),
                |i: int|
                    if 0 <= i < v@.len() {
                        tree(v@[i])
                    } else {
                        JsonView::Null
                    },
            ),
        ),
        Json::Object(v) => JsonView::Object(
            Map::new(
                |k: Seq<char>| 0 <= member_index(v@, k) < v@.len(),
                |k: Seq<char>|
                    if 0 <= member_index(v@, k) < v@.len() {
                        tree(v@[member_index(v@, k)].1)
                    } else {
                        JsonView::Null
                    },
            ),
        ),
    }
}

impl View for Json {
    type V = JsonView;

    open spec fn view(&self) -> JsonView {
        tree(*self)
    }
}

/// The member of an object called `key`.
pub open spec fn get(j: JsonView, key: Seq<char>) -> Option<JsonView> {
    match j {
        JsonView::Object(m) => if m.dom().contains(key) {
            Some(m[key])
        } else {
            None
        },
        _ => None,
    }
}

pub open spec fn as_str(j: JsonView) -> Option<Seq<char>> {
    match j {
        JsonView::Str(s) => Some(s),
        _ => None,
    }
}

pub open spec fn as_u64(j: JsonView) -> Option<u64> {
    match j {
        JsonView::Unsigned(n) => Some(n),
        _ => None,
    }
}

pub open spec fn as_bool(j: JsonView) -> Option<bool> {
    match j {
        JsonView::Bool(b) => Some(b),
        _ => None,
    }
}

pub open spec fn as_array(j: JsonView) -> Option<Seq<JsonView>> {
    match j {
        JsonView::Array(s) => Some(s),
        _ => None,
    }
}

/// The string member called `key`.
pub open spec fn str_member(j: JsonView, key: Seq<char>) -> Option<Seq<char>> {
    match get(j, key) {
        Some(x) => as_str(x),
        None => None,
    }
}

/// The string member called `key`; the empty string where there is none.
pub open spec fn str_or_empty(j: JsonView, key: Seq<char>) -> Seq<char> {
    match str_member(j, key) {
        Some(s) => s,
        None => Seq::empty(),
    }
}

pub open spec fn u64_member(j: JsonView, key: Seq<char>) -> Option<u64> {
    match get(j, key) {
        Some(x) => as_u64(x),
        None => None,
    }
}

pub open spec fn u64_or_zero(j: JsonView, key: Seq<char>) -> u64 {
    match u64_member(j, key) {
        Some(n) => n,
        None => 0,
    }
}

pub open spec fn bool_or_false(j: JsonView, key: Seq<char>) -> bool {
    match get(j, key) {
        Some(x) => as_bool(x) == Some(true),
        None => false,
    }
}

pub open spec fn array_member(j: JsonView, key: Seq<char>) -> Option<Seq<JsonView>> {
    match get(j, key) {
        Some(x) => as_array(x),
        None => None,
    }
}

/// Arrays and objects are nested at most `n` deep.
pub open spec fn nested_within(j: JsonView, n: nat) -> bool
    decreases n,
{
    match j {
        JsonView::Array(s) => n > 0 && forall|i: int|
            0 <= i < s.len() ==> nested_within(#[trigger] s[i], (n - 1) as nat),
        JsonView::Object(m) => n > 0 && forall|k: Seq<char>|
            m.dom().contains(k) ==> nested_within(#[trigger] m[k], (n - 1) as nat),
        _ => true,
    }
}

/// Arrays and objects are nested at most `n` deep, those in members that do not count included.
pub open spec fn depth_within(j: Json, n: nat) -> bool
    decreases n,
{
    match j {
        Json::Array(v) => n > 0 && forall|i: int|
            0 <= i < v@.len() ==> depth_within(#[trigger] v@[i], (n - 1) as nat),
        Json::Object(v) => n > 0 && forall|i: int|
            0 <= i < v@.len() ==> depth_within((#[trigger] v@[i]).1, (n - 1) as nat),
        _ => true,
    }
}

/// The values are nested at most `n` deep.
pub open spec fn items_within(items: Seq<Json>, n: nat) -> bool {
    forall|i: int| 0 <= i < items.len() ==> depth_within(#[trigger] items[i], n)
}

/// The values of the members are nested at most `n` deep.
pub open spec fn members_within(members: Seq<(String, Json)>, n: nat) -> bool {
    forall|i: int| 0 <= i < members.len() ==> depth_within((#[trigger] members[i]).1, n)
}

/// Arrays and objects are nested at most `n` deep, and all numbers are whole and not negative.
pub open spec fn plain_within(j: JsonView, n: nat) -> bool
    decreases n,
{
    match j {
        JsonView::Array(s) => n > 0 && forall|i: int|
            0 <= i < s.len() ==> plain_within(#[trigger] s[i], (n - 1) as nat),
        JsonView::Object(m) => n > 0 && forall|k: Seq<char>|
            m.dom().contains(k) ==> plain_within(#[trigger] m[k], (n - 1) as nat),
        JsonView::Other(_) => false,
        _ => true,
    }
}

/// The tree that a `serde_json::Value` holds.
pub uninterp spec fn value_tree(v: serde_json::Value) -> JsonView;

/// What `serde_json::from_str` makes of a text: a tree, or the text of its error.
pub uninterp spec fn parsed(source: Seq<char>) -> Result<JsonView, Seq<char>>;

/// What `serde_json::to_string_pretty` writes for a tree.
pub uninterp spec fn pretty(j: JsonView) -> Seq<char>;

/// What `serde_json::to_string` writes for a tree.
pub uninterp spec fn compact(j: JsonView) -> Seq<char>;

/// The text reads as the tree `j`.
pub open spec fn reads_as(source: Seq<char>, j: JsonView) -> bool {
    parsed(source) == Ok::<JsonView, Seq<char>>(j)
}

/// `serde_json::from_str` into a `Value`: a function of the text. It gives up on text in which
/// arrays and objects are nested 128 deep or more.
#[verifier::external_body]
fn read_value(source: &str) -> (r: Result<serde_json::Value, String>)
    ensures
        match r {
            Ok(v) => reads_as(source@, value_tree(v)) && nested_within(value_tree(v), 127),
            Err(e) => parsed(source@) == Err::<JsonView, Seq<char>>(e@),
        },
{
    serde_json::from_str::<serde_json::Value>(source).map_err(|e| e.to_string())
}

/// Takes a `serde_json::Value` apart, one variant for another. A number becomes
/// [`Json::Unsigned`] where `Number::as_u64` has a value for it. A `serde_json::Map` holds one
/// member of each name, so that nothing is nested deeper than the tree tells.
#[verifier::external_body]
fn tree_of_value(v: serde_json::Value) -> (r: Json)
    requires
        nested_within(value_tree(v), 127),
    ensures
        r@ == value_tree(v),
        depth_within(r, 127),
{
    match v {
        serde_json::Value::Null => Json::Null,
        serde_json::Value::Bool(b) => Json::Bool(b),
        serde_json::Value::Number(n) => match n.as_u64() {
            Some(u) => Json::Unsigned(u),
            None => Json::Other(OtherNumber { number: n }),
        },
        serde_json::Value::String(s) => Json::Str(s),
        serde_json::Value::Array(a) => Json::Array(a.into_iter().map(tree_of_value).collect()),
        serde_json::Value::Object(o) =>
            Json::Object(o.into_iter().map(|(k, x)| (k, tree_of_value(x))).collect()),
    }
}

/// Puts a `serde_json::Value` together, one variant for another. A `serde_json::Map` keeps the
/// last of two members of one name, so the members go in from the back.
#[verifier::external_body]
fn value_of_tree(j: &Json) -> (r: serde_json::Value)
    requires
        depth_within(*j, 128),
    ensures
        value_tree(r) == j@,
{
    match j {
        Json::Null => serde_json::Value::Null,
        Json::Bool(b) => serde_json::Value::Bool(*b),
        Json::Unsigned(n) => serde_json::Value::Number((*n).into()),
        Json::Other(n) => serde_json::Value::Number(n.number.clone()),
        Json::Str(s) => serde_json::Value::String(s.clone()),
        Json::Array(a) => serde_json::Value::Array(a.iter().map(value_of_tree).collect()),
        Json::Object(o) => serde_json::Value::Object(
            o.iter().rev().map(|(k, x)| (k.clone(), value_of_tree(x))).collect()),
    }
}

/// `serde_json::to_string_pretty` of a `Value`: a function of the tree, which does not fail. Read
/// again, the text gives the tree back where it is not nested too deep for reading and holds
/// whole, non-negative numbers only.
#[verifier::external_body]
fn write_pretty(v: &serde_json::Value) -> (r: String)
    requires
        nested_within(value_tree(*v), 128),
    ensures
        r@ == pretty(value_tree(*v)),
        plain_within(value_tree(*v), 127) ==> reads_as(r@, value_tree(*v)),
{
    serde_json::to_string_pretty(v).unwrap_or_default()
}

/// `serde_json::to_string` of a `Value`: a function of the tree, which does not fail. Read again,
/// the text gives the tree back where it is not nested too deep for reading and holds whole,
/// non-negative numbers only.
#[verifier::external_body]
fn write_compact(v: &serde_json::Value) -> (r: String)
    requires
        nested_within(value_tree(*v), 128),
    ensures
        r@ == compact(value_tree(*v)),
        plain_within(value_tree(*v), 127) ==> reads_as(r@, value_tree(*v)),
{
    serde_json::to_string(v).unwrap_or_default()
}

/// The view of what reading a text gives.
pub open spec fn read_view(r: Result<Json, String>) -> Result<JsonView, Seq<char>> {
    match r {
        Ok(j) => Ok(j@),
        Err(e) => Err(e@),
    }
}

/// Reads a JSON text.
pub fn parse(source: &str) -> (r: Result<Json, String>)
    ensures
        read_view(r) == parsed(source@),
        r matches Ok(j) ==> depth_within(j, 127),
{
    match read_value(source) {
        Ok(v) => Ok(tree_of_value(v)),
        Err(e) => Err(e),
    }
}

/// Writes a JSON text with line breaks and indentation.
pub fn to_pretty(j: &Json) -> (r: String)
    requires
        depth_within(*j, 128),
    ensures
        r@ == pretty(j@),
        plain_within(j@, 127) ==> reads_as(r@, j@),
{
    let v = value_of_tree(j);
    proof {
        lemma_depth_nested(*j, 128);
    }
    write_pretty(&v)
}

/// Writes a JSON text without line breaks.
pub fn to_compact(j: &Json) -> (r: String)
    requires
        depth_within(*j, 128),
    ensures
        r@ == compact(j@),
        plain_within(j@, 127) ==> reads_as(r@, j@),
{
    let v = value_of_tree(j);
    proof {
        lemma_depth_nested(*j, 128);
    }
    write_compact(&v)
}

proof fn lemma_member_index(members: Seq<(String, Json)>, key: Seq<char>, i: int)
    requires
        0 <= i <= members.len(),
        i < members.len() ==> members[i].0@ == key,
        forall|j: int| 0 <= j < i ==> (#[trigger] members[j]).0@ != key,
    ensures
        member_index(members, key) == i,
    decreases members.len(),
{
    if members.len() > 0 && i > 0 {
        assert(members[0].0@ != key);
        let rest = members.drop_first();
        assert forall|j: int| 0 <= j < i - 1 implies (#[trigger] rest[j]).0@ != key by {
            assert(rest[j] == members[j + 1]);
        }
        lemma_member_index(rest, key, i - 1);
    }
}

/// The index of the first member called `key`; the number of members where there is none.
fn find_member(members: &[(String, Json)], key: &str) -> (r: usize)
    ensures
        r == member_index(members@, key@),
{
    for i in 0..members.len()
        invariant
            forall|j: int| 0 <= j < i ==> (#[trigger] members@[j]).0@ != key@,
    {
        if text::same(members[i].0.as_str(), key) {
            proof {
                lemma_member_index(members@, key@, i as int);
            }
            return i;
        }
    }
    proof {
        lemma_member_index(members@, key@, members@.len() as int);
    }
    members.len()
}

/// The first member called `key`.
pub fn find<'a>(members: &'a [(String, Json)], key: &str) -> (r: Option<&'a Json>)
    ensures
        match r {
            Some(x) => object(members@).dom().contains(key@) && x@ == object(members@)[key@],
            None => !object(members@).dom().contains(key@),
        },
{
    let at: usize = find_member(members, key);
    if at < members.len() {
        Some(&members[at].1)
    } else {
        None
    }
}

impl Json {
    /// The member of an object called `key`.
    pub fn get(&self, key: &str) -> (r: Option<&Json>)
        ensures
            match r {
                Some(x) => get(self@, key@) == Some(x@),
                None => get(self@, key@) is None,
            },
    {
        match self {
            Json::Object(members) => find(members.as_slice(), key),
            _ => None,
        }
    }

    pub fn as_str(&self) -> (r: Option<&str>)
        ensures
            match r {
                Some(s) => as_str(self@) == Some(s@),
                None => as_str(self@) is None,
            },
    {
        match self {
            Json::Str(s) => Some(s.as_str()),
            _ => None,
        }
    }

    pub fn as_u64(&self) -> (r: Option<u64>)
        ensures
            r == as_u64(self@),
    {
        match self {
            Json::Unsigned(n) => Some(*n),
            _ => None,
        }
    }

    pub fn as_bool(&self) -> (r: Option<bool>)
        ensures
            r == as_bool(self@),
    {
        match self {
            Json::Bool(b) => Some(*b),
            _ => None,
        }
    }

    pub fn as_array(&self) -> (r: Option<&Vec<Json>>)
        ensures
            match r {
                Some(v) => as_array(self@) == Some(views(v@)),
                None => as_array(self@) is None,
            },
    {
        match self {
            Json::Array(v) => {
                proof {
                    assert(self@->Array_0 =~= views(v@));
                }
                Some(v)
            },
            _ => None,
        }
    }

    /// The string member called `key`.
    pub fn str_member(&self, key: &str) -> (r: Option<String>)
        ensures
            text::text_opt(r) == str_member(self@, key@),
    {
        match self.get(key) {
            Some(x) => match x.as_str() {
                Some(s) => Some(text::owned(s)),
                None => None,
            },
            None => None,
        }
    }

    /// The string member called `key`; the empty string where there is none.
    pub fn str_or_empty(&self, key: &str) -> (r: String)
        ensures
            r@ == str_or_empty(self@, key@),
    {
        match self.str_member(key) {
            Some(s) => s,
            None => String::new(),
        }
    }

    pub fn u64_member(&self, key: &str) -> (r: Option<u64>)
        ensures
            r == u64_member(self@, key@),
    {
        match self.get(key) {
            Some(x) => x.as_u64(),
            None => None,
        }
    }

    pub fn u64_or_zero(&self, key: &str) -> (r: u64)
        ensures
            r == u64_or_zero(self@, key@),
    {
        match self.u64_member(key) {
            Some(n) => n,
            None => 0,
        }
    }

    pub fn bool_or_false(&self, key: &str) -> (r: bool)
        ensures
            r == bool_or_false(self@, key@),
    {
        match self.get(key) {
            Some(x) => match x.as_bool() {
                Some(b) => b,
                None => false,
            },
            None => false,
        }
    }

    pub fn array_member(&self, key: &str) -> (r: Option<&Vec<Json>>)
        ensures
            match r {
                Some(v) => array_member(self@, key@) == Some(views(v@)),
                None => array_member(self@, key@) is None,
            },
    {
        match self.get(key) {
            Some(x) => x.as_array(),
            None => None,
        }
    }
}

/// The content of an object with the given members.
pub open spec fn object(members: Seq<(String, Json)>) -> Map<Seq<char>, JsonView> {
    Map::new(
        |k: Seq<char>| 0 <= member_index(members, k) < members.len(),
        |k: Seq<char>| members[member_index(members, k)].1@,
    )
}

pub proof fn lemma_object_tree(members: Vec<(String, Json)>)
    ensures
        Json::Object(members)@ == JsonView::Object(object(members@)),
{
    let m = Json::Object(members)@->Object_0;
    assert(m =~= object(members@));
}

proof fn lemma_member_index_found(members: Seq<(String, Json)>, key: Seq<char>)
    ensures
        0 <= member_index(members, key) <= members.len(),
        member_index(members, key) < members.len() ==> members[member_index(members, key)].0@
            == key,
        forall|j: int|
            0 <= j < member_index(members, key) ==> (#[trigger] members[j]).0@ != key,
    decreases members.len(),
{
    if members.len() > 0 && members[0].0@ != key {
        let rest = members.drop_first();
        lemma_member_index_found(rest, key);
        let i = member_index(members, key);
        assert forall|j: int| 0 <= j < i implies (#[trigger] members[j]).0@ != key by {
            if j > 0 {
                assert(members[j] == rest[j - 1]);
            }
        }
    }
}

/// Sets the member called `key`, in place of the one that has this name already.
pub fn put(members: &mut Vec<(String, Json)>, key: &str, value: Json)
    ensures
        object(final(members)@) == object(old(members)@).insert(key@, value@),
        forall|n: nat|
            members_within(old(members)@, n) && depth_within(value, n) ==> #[trigger] members_within(
                final(members)@,
                n,
            ),
{
    let ghost was = members@;
    let at: usize = find_member(members.as_slice(), key);
    proof {
        lemma_member_index_found(was, key@);
    }
    let ghost content = value@;
    if at < members.len() {
        members[at] = (text::owned(key), value);
    } else {
        members.push((text::owned(key), value));
    }
    proof {
        let now = members@;
        lemma_member_index(now, key@, at as int);
        let want = object(was).insert(key@, content);
        assert forall|k: Seq<char>| #![trigger object(now).dom().contains(k)]
            object(now).dom().contains(k) == want.dom().contains(k) && (want.dom().contains(k)
                ==> object(now)[k] == want[k]) by {
            if k != key@ {
                lemma_member_index_found(was, k);
                let i = member_index(was, k);
                if i < was.len() {
                    assert forall|j: int| 0 <= j < i implies (#[trigger] now[j]).0@ != k by {
                        if j != at {
                            assert(now[j] == was[j]);
                        }
                    }
                    lemma_member_index(now, k, i);
                } else {
                    assert forall|j: int| 0 <= j < now.len() implies (#[trigger] now[j]).0@
                        != k by {
                        if j != at {
                            assert(now[j] == was[j]);
                        }
                    }
                    lemma_member_index(now, k, now.len() as int);
                }
            }
        }
        assert(object(now) =~= want);
    }
}

/// An object with the given members.
pub fn object_with(members: Vec<(String, Json)>) -> (r: Json)
    ensures
        r@ == JsonView::Object(object(members@)),
        forall|n: nat| #[trigger]
            members_within(members@, n) ==> depth_within(r, (n + 1) as nat),
{
    proof {
        lemma_object_tree(members);
    }
    Json::Object(members)
}

/// No members at all.
pub fn no_members() -> (r: Vec<(String, Json)>)
    ensures
        object(r@) == Map::<Seq<char>, JsonView>::empty(),
        forall|n: nat| members_within(r@, n),
{
    let r: Vec<(String, Json)> = Vec::new();
    assert(object(r@) =~= Map::<Seq<char>, JsonView>::empty());
    r
}

/// An array of the given values.
pub fn array_of(items: Vec<Json>) -> (r: Json)
    ensures
        r@ == JsonView::Array(views(items@)),
        forall|n: nat| #[trigger] items_within(items@, n) ==> depth_within(r, (n + 1) as nat),
{
    let r = Json::Array(items);
    assert(r@->Array_0 =~= views(items@));
    r
}

/// A string value.
pub fn string(s: &str) -> (r: Json)
    ensures
        r@ == JsonView::Str(s@),
        forall|n: nat| depth_within(r, n),
{
    Json::Str(text::owned(s))
}

/// The views of a sequence of JSON values.
pub open spec fn views(v: Seq<Json>) -> Seq<JsonView> {
    v.map_values(|j: Json| j@)
}

/// What is nested at most `n` deep is nested at most `m` deep where `m` is not less.
pub proof fn lemma_depth_more(j: Json, n: nat, m: nat)
    requires
        depth_within(j, n),
        n <= m,
    ensures
        depth_within(j, m),
    decreases n,
{
    match j {
        Json::Array(v) => {
            assert forall|i: int| 0 <= i < v@.len() implies depth_within(
                #[trigger] v@[i],
                (m - 1) as nat,
            ) by {
                lemma_depth_more(v@[i], (n - 1) as nat, (m - 1) as nat);
            }
        },
        Json::Object(v) => {
            assert forall|i: int| 0 <= i < v@.len() implies depth_within(
                (#[trigger] v@[i]).1,
                (m - 1) as nat,
            ) by {
                lemma_depth_more(v@[i].1, (n - 1) as nat, (m - 1) as nat);
            }
        },
        _ => {},
    }
}

/// The tree that a value is, is nested no deeper than the value.
proof fn lemma_depth_nested(j: Json, n: nat)
    requires
        depth_within(j, n),
    ensures
        nested_within(j@, n),
    decreases n,
{
    match j {
        Json::Array(v) => {
            let s = j@->Array_0;
            assert forall|i: int| 0 <= i < s.len() implies nested_within(
                #[trigger] s[i],
                (n - 1) as nat,
            ) by {
                lemma_depth_nested(v@[i], (n - 1) as nat);
            }
        },
        Json::Object(v) => {
            let m = j@->Object_0;
            assert forall|k: Seq<char>| m.dom().contains(k) implies nested_within(
                #[trigger] m[k],
                (n - 1) as nat,
            ) by {
                let i = member_index(v@, k);
                lemma_depth_nested(v@[i].1, (n - 1) as nat);
                assert(m[k] == v@[i].1@);
            }
        },
        _ => {},
    }
}

/// The string member called `key` of a value that may not be there.
pub open spec fn str_within(j: Option<JsonView>, key: Seq<char>) -> Option<Seq<char>> {
    match j {
        Some(x) => str_member(x, key),
        None => None,
    }
}

/// The number member called `key` of a value that may not be there.
pub open spec fn u64_within(j: Option<JsonView>, key: Seq<char>) -> Option<u64> {
    match j {
        Some(x) => u64_member(x, key),
        None => None,
    }
}

} // verus!
