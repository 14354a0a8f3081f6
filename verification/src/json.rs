//! JSON documents. `serde_json` reads and prints them; the engine looks at them as values of
//! [`Json`], whose meaning is a [`Tree`].

use serde_json::Value;
use vstd::hash_map::*;
use vstd::prelude::*;
use vstd::utf8::*;

use crate::text::same;

verus! {

/// `serde_json::Value`, carried between the trusted functions of this file.
#[verifier::external_type_specification]
#[verifier::external_body]
pub struct ExValue(Value);

/// `serde_json::Number`, carried as it is.
#[verifier::external_type_specification]
#[verifier::external_body]
pub struct ExNumber(serde_json::Number);

/// What a JSON document means. The members of an object have no order, and no name occurs twice.
pub ghost enum Tree {
    Null,
    Bool(bool),
    UInt(u64),
    Num(serde_json::Number),
    Str(Seq<char>),
    Array(Seq<Tree>),
    Object(Map<Seq<char>, Tree>),
}

/// A JSON document. Where an object holds a name twice, the later member counts.
pub enum Json {
    Null,
    Bool(bool),
    UInt(u64),
    Num(serde_json::Number),
    Str(String),
    Array(Vec<Json>),
    Object(Vec<(String, Json)>),
}

/// One level of a `serde_json` value that is being read.
enum Open<'a> {
    Null,
    Bool(bool),
    Num(&'a serde_json::Number),
    Str(&'a String),
    Array(&'a Vec<Value>),
    Object(Vec<(&'a String, &'a Value)>),
}

/// One level of a `serde_json` value that is being built.
enum Node {
    Null,
    Bool(bool),
    UInt(u64),
    Num(serde_json::Number),
    Str(String),
    Array(Vec<Value>),
    Object(Vec<(String, Value)>),
}

/// What `serde_json::Number::as_u64` makes of a number: the non-negative integer that it is.
pub uninterp spec fn number_uint(n: serde_json::Number) -> Option<u64>;

/// What a number means: a non-negative integer by its value, another number as it is.
pub open spec fn number_tree(n: serde_json::Number) -> Tree {
    match number_uint(n) {
        Some(u) => Tree::UInt(u),
        None => Tree::Num(n),
    }
}

/// What a `serde_json` value holds.
pub uninterp spec fn value_tree(v: Value) -> Tree;

/// What `serde_json::from_slice` makes of `bytes`: a document, or the text of an error.
pub uninterp spec fn json_read(bytes: Seq<u8>) -> Result<Tree, Seq<char>>;

/// The bytes are read as the document `t`.
pub open spec fn reads_as(bytes: Seq<u8>, t: Tree) -> bool {
    json_read(bytes) == Ok::<Tree, Seq<char>>(t)
}

/// The text that `serde_json` prints for a document.
pub uninterp spec fn json_print(t: Tree) -> Seq<char>;

/// The members `s`, the later ones in place of earlier ones with their names.
spec fn value_members(s: Seq<(String, Value)>) -> Map<Seq<char>, Tree>
    decreases s.len(),
{
    if s.len() == 0 {
        Map::empty()
    } else {
        value_members(s.drop_last()).insert(s.last().0@, value_tree(s.last().1))
    }
}

/// The members `s` with the last one of each name.
spec fn open_members(s: Seq<(&String, &Value)>) -> Map<Seq<char>, Tree>
    decreases s.len(),
{
    if s.len() == 0 {
        Map::empty()
    } else {
        open_members(s.drop_last()).insert(s.last().0@, value_tree(*s.last().1))
    }
}

/// No name occurs twice.
spec fn unlike_names(s: Seq<(String, Value)>) -> bool {
    forall|i: int, j: int| 0 <= i < j < s.len() ==> #[trigger] s[i].0@ != #[trigger] s[j].0@
}

/// No name occurs twice.
spec fn distinct_names(s: Seq<(&String, &Value)>) -> bool {
    forall|i: int, j: int| 0 <= i < j < s.len() ==> #[trigger] s[i].0@ != #[trigger] s[j].0@
}

/// What one level of a value that is being read means.
spec fn open_tree(n: Open) -> Tree {
    match n {
        Open::Null => Tree::Null,
        Open::Bool(b) => Tree::Bool(b),
        Open::Num(x) => number_tree(*x),
        Open::Str(s) => Tree::Str(s@),
        Open::Array(a) => Tree::Array(a@.map_values(|v: Value| value_tree(v))),
        Open::Object(o) => Tree::Object(open_members(o@)),
    }
}

/// What one level of a value that is being built means.
spec fn node_tree(n: Node) -> Tree {
    match n {
        Node::Null => Tree::Null,
        Node::Bool(b) => Tree::Bool(b),
        Node::UInt(u) => Tree::UInt(u),
        Node::Num(x) => number_tree(x),
        Node::Str(s) => Tree::Str(s@),
        Node::Array(a) => Tree::Array(a@.map_values(|v: Value| value_tree(v))),
        Node::Object(o) => Tree::Object(value_members(o@)),
    }
}

/// `serde_json::from_slice` into a `serde_json::Value`: what comes back depends on the bytes
/// alone. An error is handed on as the text that it displays.
#[verifier::external_body]
fn read_value(bytes: &[u8]) -> (r: Result<Value, String>)
    ensures
        match r {
            Ok(v) => json_read(bytes@) == Ok::<Tree, Seq<char>>(value_tree(v)),
            Err(e) => json_read(bytes@) == Err::<Tree, Seq<char>>(e@),
        },
{
    serde_json::from_slice(bytes).map_err(|e| e.to_string())
}

/// Takes a `serde_json::Value` apart, variant by variant. `Map::iter` hands out each member once,
/// and a `serde_json::Map` holds no name twice.
#[verifier::external_body]
fn open_value<'a>(v: &'a Value) -> (n: Open<'a>)
    ensures
        open_tree(n) == value_tree(*v),
        n matches Open::Object(o) ==> distinct_names(o@),
{
    match v {
        Value::Null => Open::Null,
        Value::Bool(b) => Open::Bool(*b),
        Value::Number(x) => Open::Num(x),
        Value::String(s) => Open::Str(s),
        Value::Array(a) => Open::Array(a),
        Value::Object(o) => Open::Object(o.iter().collect()),
    }
}

/// Puts a `serde_json::Value` together, variant by variant. `Value::from` of a `u64` makes the
/// number whose `as_u64` it is, and a `serde_json::Map` that is collected from members of different
/// names holds each of them.
#[verifier::external_body]
fn close_value(n: Node) -> (v: Value)
    requires
        n matches Node::Object(o) ==> unlike_names(o@),
    ensures
        value_tree(v) == node_tree(n),
{
    match n {
        Node::Null => Value::Null,
        Node::Bool(b) => Value::Bool(b),
        Node::UInt(u) => Value::from(u),
        Node::Num(x) => Value::Number(x),
        Node::Str(s) => Value::String(s),
        Node::Array(a) => Value::Array(a),
        Node::Object(o) => Value::Object(o.into_iter().collect()),
    }
}

/// A document without numbers other than non-negative integers, nested at most `depth` deep.
pub open spec fn simple(t: Tree, depth: nat) -> bool
    decreases depth,
{
    match t {
        Tree::Num(_) => false,
        Tree::Array(a) => depth > 0 && forall|i: int|
            0 <= i < a.len() ==> simple(#[trigger] a[i], (depth - 1) as nat),
        Tree::Object(m) => depth > 0 && forall|k: Seq<char>| #[trigger]
            m.contains_key(k) ==> simple(m[k], (depth - 1) as nat),
        _ => true,
    }
}

/// Depth to which a printed document can be read again.
pub const DEPTH: usize = 100;

/// `serde_json::Value` printed by its `Display`: the text depends on what the value holds alone, and
/// `serde_json::from_slice` reads a document of integers and texts that is not nested too deep back
/// from its text.
#[verifier::external_body]
fn print_value(v: &Value) -> (r: String)
    ensures
        r@ == json_print(value_tree(*v)),
        simple(value_tree(*v), DEPTH as nat) ==> reads_as(encode_utf8(r@), value_tree(*v)),
{
    v.to_string()
}

/// What the documents `s` mean.
pub open spec fn trees(s: Seq<Json>) -> Seq<Tree>
    decreases s,
{
    if s.len() == 0 {
        seq![]
    } else {
        trees(s.drop_last()).push(s.last().tree())
    }
}

/// The members `s` with the last one of each name.
pub open spec fn members(s: Seq<(String, Json)>) -> Map<Seq<char>, Tree>
    decreases s,
{
    if s.len() == 0 {
        Map::empty()
    } else {
        members(s.drop_last()).insert(s.last().0@, s.last().1.tree())
    }
}

impl Json {
    /// What the document means.
    pub open spec fn tree(self) -> Tree
        decreases self,
    {
        match self {
            Json::Null => Tree::Null,
            Json::Bool(b) => Tree::Bool(b),
            Json::UInt(u) => Tree::UInt(u),
            Json::Num(x) => number_tree(x),
            Json::Str(s) => Tree::Str(s@),
            Json::Array(a) => Tree::Array(trees(a@)),
            Json::Object(o) => Tree::Object(members(o@)),
        }
    }
}

/// `serde_json::Number::as_u64`: the number where it is a non-negative integer, by the name of its
/// result.
pub assume_specification[ serde_json::Number::as_u64 ](n: &serde_json::Number) -> (r: Option<u64>)
    ensures
        r == number_uint(*n),
;

/// `Clone` of `serde_json::Number` keeps the number.
pub assume_specification[ <serde_json::Number as Clone>::clone ](n: &serde_json::Number) -> (
    r: serde_json::Number)
    ensures
        r == *n,
;

/// The member `name` of an object.
pub open spec fn member(t: Tree, name: Seq<char>) -> Option<Tree> {
    match t {
        Tree::Object(m) => if m.contains_key(name) {
            Some(m[name])
        } else {
            None
        },
        _ => None,
    }
}

/// The non-negative integer that a document is.
pub open spec fn uint_of(t: Option<Tree>) -> Option<u64> {
    match t {
        Some(Tree::UInt(u)) => Some(u),
        _ => None,
    }
}

/// The truth value that a document is.
pub open spec fn bool_of(t: Option<Tree>) -> Option<bool> {
    match t {
        Some(Tree::Bool(b)) => Some(b),
        _ => None,
    }
}

/// The text that a document is.
pub open spec fn str_of(t: Option<Tree>) -> Option<Seq<char>> {
    match t {
        Some(Tree::Str(s)) => Some(s),
        _ => None,
    }
}

/// The items of an array.
pub open spec fn items_of(t: Option<Tree>) -> Option<Seq<Tree>> {
    match t {
        Some(Tree::Array(s)) => Some(s),
        _ => None,
    }
}

/// The members of an object.
pub open spec fn members_of(t: Option<Tree>) -> Option<Map<Seq<char>, Tree>> {
    match t {
        Some(Tree::Object(m)) => Some(m),
        _ => None,
    }
}

/// `trees` and `members` keep what came before when one item is added.
pub proof fn trees_push(s: Seq<Json>, j: Json)
    ensures
        trees(s.push(j)) == trees(s).push(j.tree()),
{
    assert(s.push(j).drop_last() =~= s);
}

/// A further member takes the place of an earlier one with its name.
pub proof fn members_push(s: Seq<(String, Json)>, m: (String, Json))
    ensures
        members(s.push(m)) == members(s).insert(m.0@, m.1.tree()),
{
    assert(s.push(m).drop_last() =~= s);
}

/// A member's name stays a member's name.
pub proof fn lemma_member_stays(o: Seq<(String, Json)>, i: int)
    requires
        0 <= i < o.len(),
    ensures
        members(o).contains_key(o[i].0@),
    decreases o.len(),
{
    if i < o.len() - 1 {
        lemma_member_stays(o.drop_last(), i);
        assert(o.drop_last()[i] == o[i]);
    }
}

/// The meaning of an array, item by item.
pub proof fn trees_items(s: Seq<Json>)
    ensures
        trees(s).len() == s.len(),
        forall|i: int| 0 <= i < s.len() ==> #[trigger] trees(s)[i] == s[i].tree(),
    decreases s.len(),
{
    if s.len() > 0 {
        trees_items(s.drop_last());
        assert forall|i: int| 0 <= i < s.len() implies #[trigger] trees(s)[i] == s[i].tree() by {
            if i < s.len() - 1 {
                assert(s.drop_last()[i] == s[i]);
            }
        }
    }
}

/// The members of an object are finitely many, and each is found under its name.
proof fn open_members_items(s: Seq<(&String, &Value)>)
    requires
        distinct_names(s),
    ensures
        open_members(s).dom().finite(),
        forall|n: Seq<char>| #[trigger]
            open_members(s).contains_key(n) ==> exists|i: int|
                0 <= i < s.len() && #[trigger] s[i].0@ == n,
        forall|i: int|
            0 <= i < s.len() ==> #[trigger] open_members(s).contains_key(s[i].0@) && open_members(
                s,
            )[s[i].0@] == value_tree(*s[i].1),
    decreases s.len(),
{
    if s.len() > 0 {
        let p = s.drop_last();
        assert forall|i: int, j: int| 0 <= i < j < p.len() implies #[trigger] p[i].0@
            != #[trigger] p[j].0@ by {
            assert(p[i] == s[i] && p[j] == s[j]);
        }
        open_members_items(p);
        assert forall|n: Seq<char>| #[trigger] open_members(s).contains_key(n) implies exists|
            i: int,
        |
            0 <= i < s.len() && #[trigger] s[i].0@ == n by {
            if n == s.last().0@ {
                assert(s[s.len() - 1].0@ == n);
            } else {
                assert(open_members(p).contains_key(n));
                let i = choose|i: int| 0 <= i < p.len() && #[trigger] p[i].0@ == n;
                assert(s[i].0@ == n);
            }
        }
        assert forall|i: int| 0 <= i < s.len() implies #[trigger] open_members(s).contains_key(
            s[i].0@,
        ) && open_members(s)[s[i].0@] == value_tree(*s[i].1) by {
            if i < s.len() - 1 {
                assert(p[i] == s[i]);
                assert(s[i].0@ != s[s.len() - 1].0@);
                assert(open_members(p).contains_key(p[i].0@));
            }
        }
    }
}

/// The document that a `serde_json` value holds.
fn of_value(v: &Value) -> (j: Json)
    ensures
        j.tree() == value_tree(*v),
    decreases value_tree(*v),
{
    match open_value(v) {
        Open::Null => Json::Null,
        Open::Bool(b) => Json::Bool(b),
        Open::Num(x) => match x.as_u64() {
            Some(u) => Json::UInt(u),
            None => Json::Num(x.clone()),
        },
        Open::Str(s) => Json::Str(s.clone()),
        Open::Array(a) => {
            let mut out: Vec<Json> = Vec::new();
            let mut i: usize = 0;
            while i < a.len()
                invariant
                    i <= a.len(),
                    out.len() == i,
                    value_tree(*v) == Tree::Array(a@.map_values(|v: Value| value_tree(v))),
                    trees(out@) == a@.map_values(|v: Value| value_tree(v)).take(i as int),
                decreases a.len() - i,
            {
                let ghost all = a@.map_values(|v: Value| value_tree(v));
                assert(all[i as int] == value_tree(a[i as int]));
                assert(decreases_to!(value_tree(*v) => value_tree(*v)->Array_0));
                assert(decreases_to!(all => all[i as int]));
                let j = of_value(&a[i]);
                proof {
                    trees_push(out@, j);
                    assert(all.take(i as int).push(all[i as int]) =~= all.take(i + 1));
                }
                out.push(j);
                i += 1;
            }
            proof {
                let all = a@.map_values(|v: Value| value_tree(v));
                assert(all.take(i as int) =~= all);
            }
            Json::Array(out)
        },
        Open::Object(o) => {
            let mut out: Vec<(String, Json)> = Vec::new();
            let mut i: usize = 0;
            while i < o.len()
                invariant
                    i <= o.len(),
                    value_tree(*v) == Tree::Object(open_members(o@)),
                    distinct_names(o@),
                    members(out@) == open_members(o@.take(i as int)),
                decreases o.len() - i,
            {
                let (name, x) = o[i];
                proof {
                    let all = open_members(o@);
                    open_members_items(o@);
                    assert(all.contains_key(o@[i as int].0@));
                    vstd::map::axiom_map_index_decreases_finite(all, name@);
                    assert(decreases_to!(value_tree(*v) => value_tree(*v)->Object_0));
                }
                let j = of_value(x);
                let m = (name.clone(), j);
                proof {
                    members_push(out@, m);
                    assert(o@.take(i + 1).drop_last() =~= o@.take(i as int));
                }
                out.push(m);
                i += 1;
            }
            proof {
                assert(o@.take(i as int) =~= o@);
            }
            Json::Object(out)
        },
    }
}

/// A further member that is being built takes the place of an earlier one with its name.
proof fn value_members_push(s: Seq<(String, Value)>, m: (String, Value))
    ensures
        value_members(s.push(m)) == value_members(s).insert(m.0@, value_tree(m.1)),
{
    assert(s.push(m).drop_last() =~= s);
}

/// Every name of members that are being built stands for one of them.
proof fn value_members_names(s: Seq<(String, Value)>)
    ensures
        forall|i: int| 0 <= i < s.len() ==> value_members(s).contains_key(#[trigger] s[i].0@),
    decreases s.len(),
{
    if s.len() > 0 {
        let p = s.drop_last();
        value_members_names(p);
        assert forall|i: int| 0 <= i < s.len() implies value_members(s).contains_key(
            #[trigger] s[i].0@,
        ) by {
            if i < p.len() {
                assert(p[i].0@ == s[i].0@);
            }
        }
    }
}

/// Adds a member to an object.
pub fn push_member(o: &mut Vec<(String, Json)>, name: &str, value: Json)
    ensures
        members(final(o)@) == members(old(o)@).insert(name@, value.tree()),
        final(o)@.len() == old(o)@.len() + 1,
{
    let m: (String, Json) = (name.to_string(), value);
    proof {
        members_push(o@, m);
    }
    o.push(m);
}

/// Reads a JSON document from `bytes`. An error is the text that the reader gives for it.
pub fn read(bytes: &[u8]) -> (r: Result<Json, String>)
    ensures
        match r {
            Ok(j) => json_read(bytes@) == Ok::<Tree, Seq<char>>(j.tree()),
            Err(e) => json_read(bytes@) == Err::<Tree, Seq<char>>(e@),
        },
{
    match read_value(bytes) {
        Ok(v) => Ok(of_value(&v)),
        Err(e) => Err(e),
    }
}

impl Json {
    /// The `serde_json` value of a document.
    fn value(&self) -> (v: Value)
        ensures
            value_tree(v) == self.tree(),
        decreases self,
    {
        match self {
            Json::Null => close_value(Node::Null),
            Json::Bool(b) => close_value(Node::Bool(*b)),
            Json::UInt(u) => close_value(Node::UInt(*u)),
            Json::Num(x) => close_value(Node::Num(x.clone())),
            Json::Str(s) => close_value(Node::Str(s.clone())),
            Json::Array(a) => {
                let mut out: Vec<Value> = Vec::new();
                let mut i: usize = 0;
                while i < a.len()
                    invariant
                        i <= a.len(),
                        *self == Json::Array(*a),
                        out@.map_values(|v: Value| value_tree(v)) == trees(a@.take(i as int)),
                    decreases a.len() - i,
                {
                    assert(decreases_to!(*self => self->Array_0));
                    assert(decreases_to!(a => a@[i as int]));
                    let v = a[i].value();
                    proof {
                        assert(a@.take(i + 1) =~= a@.take(i as int).push(a@[i as int]));
                        trees_push(a@.take(i as int), a@[i as int]);
                        assert(out@.push(v).map_values(|v: Value| value_tree(v)) =~= out@.map_values(
                            |v: Value| value_tree(v),
                        ).push(value_tree(v)));
                    }
                    out.push(v);
                    i += 1;
                }
                assert(a@.take(i as int) =~= a@);
                close_value(Node::Array(out))
            },
            Json::Object(o) => {
                // From the end on, so that the last member of a name comes first.
                let mut out: Vec<(String, Value)> = Vec::new();
                let mut seen: StringHashMap<bool> = StringHashMap::new();
                let mut i: usize = o.len();
                proof {
                    assert(o@.take(i as int) =~= o@);
                    assert(members(o@).union_prefer_right(value_members(out@)) =~= members(o@));
                }
                while i > 0
                    invariant
                        i <= o.len(),
                        *self == Json::Object(*o),
                        members(o@.take(i as int)).union_prefer_right(value_members(out@))
                            == members(o@),
                        value_members(out@).dom() == seen@.dom(),
                        unlike_names(out@),
                    decreases i,
                {
                    i -= 1;
                    let ghost (name, done) = (o@[i as int].0@, value_members(out@));
                    proof {
                        assert(o@.take(i + 1) =~= o@.take(i as int).push(o@[i as int]));
                        members_push(o@.take(i as int), o@[i as int]);
                    }
                    if !seen.contains_key(o[i].0.as_str()) {
                        assert(decreases_to!(*self => self->Object_0));
                        assert(decreases_to!(o => o@[i as int]));
                        assert(decreases_to!(o@[i as int] => o@[i as int].1));
                        let v = o[i].1.value();
                        let m = (o[i].0.clone(), v);
                        proof {
                            value_members_push(out@, m);
                            value_members_names(out@);
                        }
                        out.push(m);
                        seen.insert(o[i].0.clone(), true);
                    }
                    assert(members(o@.take(i as int)).union_prefer_right(value_members(out@))
                        =~= members(o@.take(i + 1)).union_prefer_right(done));
                    assert(value_members(out@).dom() =~= seen@.dom());
                }
                assert(members(o@.take(0)).union_prefer_right(value_members(out@))
                    =~= value_members(out@));
                close_value(Node::Object(out))
            },
        }
    }

    /// The text of the document.
    pub fn print(&self) -> (r: String)
        ensures
            r@ == json_print(self.tree()),
            simple(self.tree(), DEPTH as nat) ==> reads_as(encode_utf8(r@), self.tree()),
    {
        print_value(&self.value())
    }

    /// The member `name` of an object.
    pub fn get(&self, name: &str) -> (r: Option<&Json>)
        ensures
            match r {
                Some(j) => member(self.tree(), name@) == Some(j.tree()),
                None => member(self.tree(), name@) is None,
            },
    {
        if let Json::Object(o) = self {
            let mut i: usize = o.len();
            assert(o@.take(i as int) =~= o@);
            while i > 0
                invariant
                    i <= o.len(),
                    self.tree() == Tree::Object(members(o@)),
                    members(o@).contains_key(name@) == members(o@.take(i as int)).contains_key(
                        name@,
                    ),
                    members(o@).contains_key(name@) ==> members(o@)[name@] == members(
                        o@.take(i as int),
                    )[name@],
                decreases i,
            {
                i -= 1;
                assert(o@.take(i + 1).drop_last() =~= o@.take(i as int));
                if same(o[i].0.as_str(), name) {
                    return Some(&o[i].1);
                }
            }
        }
        None
    }

    /// The non-negative integer that the document is.
    pub fn as_uint(&self) -> (r: Option<u64>)
        ensures
            r == uint_of(Some(self.tree())),
    {
        match self {
            Json::UInt(u) => Some(*u),
            Json::Num(n) => n.as_u64(),
            _ => None,
        }
    }

    /// The non-negative integer under `name`.
    pub fn uint(&self, name: &str) -> (r: Option<u64>)
        ensures
            r == uint_of(member(self.tree(), name@)),
    {
        match self.get(name) {
            Some(j) => j.as_uint(),
            None => None,
        }
    }

    /// The truth value under `name`.
    pub fn truth(&self, name: &str) -> (r: Option<bool>)
        ensures
            r == bool_of(member(self.tree(), name@)),
    {
        match self.get(name) {
            Some(Json::Bool(b)) => Some(*b),
            _ => None,
        }
    }

    /// The text under `name`.
    pub fn text(&self, name: &str) -> (r: Option<&String>)
        ensures
            match r {
                Some(s) => str_of(member(self.tree(), name@)) == Some(s@),
                None => str_of(member(self.tree(), name@)) is None,
            },
    {
        match self.get(name) {
            Some(Json::Str(s)) => Some(s),
            _ => None,
        }
    }

    /// The array under `name`.
    pub fn items(&self, name: &str) -> (r: Option<&Vec<Json>>)
        ensures
            match r {
                Some(a) => items_of(member(self.tree(), name@)) == Some(trees(a@)),
                None => items_of(member(self.tree(), name@)) is None,
            },
    {
        match self.get(name) {
            Some(Json::Array(a)) => Some(a),
            _ => None,
        }
    }

    /// The members of the object under `name`.
    pub fn fields(&self, name: &str) -> (r: Option<&Vec<(String, Json)>>)
        ensures
            match r {
                Some(o) => members_of(member(self.tree(), name@)) == Some(members(o@)),
                None => members_of(member(self.tree(), name@)) is None,
            },
    {
        match self.get(name) {
            Some(Json::Object(o)) => Some(o),
            _ => None,
        }
    }
}

} // verus!
