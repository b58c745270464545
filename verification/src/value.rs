//! The JSON value tree, its read-only accessors and its canonical text.

use vstd::prelude::*;
use vstd::std_specs::cmp::PartialEqSpecImpl;
use vstd::string::StringExecFns;
use crate::error::ErrorView;
use crate::number::{JsonNumber, NumberView};
use crate::parser::parse_text;
use crate::round_trip::lemma_render_parses;
use crate::text::{chars_of, push_char};

verus! {

broadcast use vstd::std_specs::vec::axiom_vec_index_decreases;

/// A JSON value. Two values are equal when they are of the same variant and
/// hold equal contents; two objects are equal when they give equal values to
/// the same keys, in whatever order.
#[derive(Debug)]
pub enum JsonValue {
    Null,
    Boolean(bool),
    Number(JsonNumber),
    String(String),
    Array(Vec<JsonValue>),
    Object(JsonObject),
}

/// The members of a JSON object: keys with their values, in the order in
/// which the keys were first inserted. No key occurs twice.
#[derive(Debug)]
pub struct JsonObject {
    entries: Vec<(String, JsonValue)>,
}

/// The mathematical content of a [`JsonValue`]. An object is the sequence of
/// its members, in insertion order.
pub ghost enum ValueView {
    Null,
    Boolean(bool),
    Number(NumberView),
    String(Seq<char>),
    Array(Seq<ValueView>),
    Object(Seq<(Seq<char>, ValueView)>),
}

/// The content of a value.
pub open spec fn value_view(v: JsonValue) -> ValueView
    decreases v,
{
    match v {
        JsonValue::Null => ValueView::Null,
        JsonValue::Boolean(b) => ValueView::Boolean(b),
        JsonValue::Number(n) => ValueView::Number(n@),
        JsonValue::String(s) => ValueView::String(s@),
        JsonValue::Array(items) => ValueView::Array(
            Seq::new(
                items@.len(),
                |i: int|
                    if 0 <= i < items@.len() {
                        value_view(items[i])
                    } else {
                        arbitrary()
                    },
            ),
        ),
        JsonValue::Object(members) => ValueView::Object(members_view(members)),
    }
}

/// The content of an object.
pub closed spec fn members_view(members: JsonObject) -> Seq<(Seq<char>, ValueView)>
    decreases members,
{
    Seq::new(
        members.entries@.len(),
        |i: int|
            if 0 <= i < members.entries@.len() {
                (members.entries[i].0@, value_view(members.entries[i].1))
            } else {
                arbitrary()
            },
    )
}

impl View for JsonValue {
    type V = ValueView;

    open spec fn view(&self) -> ValueView {
        value_view(*self)
    }
}

impl View for JsonObject {
    type V = Seq<(Seq<char>, ValueView)>;

    open spec fn view(&self) -> Seq<(Seq<char>, ValueView)> {
        members_view(*self)
    }
}

/// The contents of a sequence of values.
pub open spec fn value_views(items: Seq<JsonValue>) -> Seq<ValueView> {
    Seq::new(items.len(), |i: int| items[i]@)
}

/// The index of the member with the given key, if there is one: the first
/// such member at or after `from`.
pub open spec fn position_of(members: Seq<(Seq<char>, ValueView)>, key: Seq<char>, from: int) -> Option<
    int,
>
    decreases members.len() - from,
{
    if from < 0 || from >= members.len() {
        None
    } else if members[from].0 == key {
        Some(from)
    } else {
        position_of(members, key, from + 1)
    }
}

/// The value that the members give to `key`, if any.
pub open spec fn lookup(members: Seq<(Seq<char>, ValueView)>, key: Seq<char>) -> Option<ValueView> {
    match position_of(members, key, 0) {
        Some(i) => Some(members[i].1),
        None => None,
    }
}

/// The members after `key` has been given `value`: a member with that key
/// keeps its place and takes the new value; a new key goes to the end.
pub open spec fn with_member(
    members: Seq<(Seq<char>, ValueView)>,
    key: Seq<char>,
    value: ValueView,
) -> Seq<(Seq<char>, ValueView)> {
    match position_of(members, key, 0) {
        Some(i) => members.update(i, (key, value)),
        None => members.push((key, value)),
    }
}

/// Whether no key occurs twice among the members.
pub open spec fn distinct_keys(members: Seq<(Seq<char>, ValueView)>) -> bool {
    forall|i: int, j: int|
        0 <= i < j < members.len() ==> (#[trigger] members[i]).0 != (#[trigger] members[j]).0
}

/// Whether every number in the value is in canonical form and no object
/// in it has a key twice.
pub open spec fn well_formed(v: ValueView) -> bool
    decreases v,
{
    match v {
        ValueView::Number(n) => n.wf(),
        ValueView::Array(items) => forall|i: int|
            0 <= i < items.len() ==> well_formed(#[trigger] items[i]),
        ValueView::Object(members) => {
            &&& distinct_keys(members)
            &&& forall|i: int| 0 <= i < members.len() ==> well_formed((#[trigger] members[i]).1)
        },
        _ => true,
    }
}

/// Whether every value of the sequence is well-formed.
pub open spec fn all_well_formed(items: Seq<ValueView>) -> bool {
    forall|i: int| 0 <= i < items.len() ==> well_formed(#[trigger] items[i])
}

/// Whether the members have distinct keys and well-formed values.
pub open spec fn members_well_formed(members: Seq<(Seq<char>, ValueView)>) -> bool {
    &&& distinct_keys(members)
    &&& forall|i: int| 0 <= i < members.len() ==> well_formed((#[trigger] members[i]).1)
}

/// What `position_of` finds: the first member at or after `from` with the
/// key, and `None` exactly when there is none.
pub proof fn lemma_position_of(members: Seq<(Seq<char>, ValueView)>, key: Seq<char>, from: int)
    requires
        0 <= from,
    ensures
        match position_of(members, key, from) {
            Some(i) => {
                &&& from <= i < members.len()
                &&& members[i].0 == key
                &&& forall|j: int| from <= j < i ==> (#[trigger] members[j]).0 != key
            },
            None => forall|j: int| from <= j < members.len() ==> (#[trigger] members[j]).0 != key,
        },
    decreases members.len() - from,
{
    if from < members.len() && members[from].0 != key {
        lemma_position_of(members, key, from + 1);
    }
}

/// Giving a key a value keeps the keys distinct, and the key then has that
/// value while every other key has the value it had.
pub proof fn lemma_with_member(
    members: Seq<(Seq<char>, ValueView)>,
    key: Seq<char>,
    value: ValueView,
    other: Seq<char>,
)
    requires
        distinct_keys(members),
    ensures
        distinct_keys(with_member(members, key, value)),
        lookup(with_member(members, key, value), key) == Some(value),
        other != key ==> lookup(with_member(members, key, value), other) == lookup(members, other),
{
    let after = with_member(members, key, value);
    lemma_position_of(members, key, 0);
    lemma_position_of(after, key, 0);
    lemma_position_of(members, other, 0);
    lemma_position_of(after, other, 0);
    match position_of(members, key, 0) {
        Some(i) => {
            assert forall|a: int, b: int| 0 <= a < b < after.len() implies (#[trigger] after[a]).0 != (
            #[trigger] after[b]).0 by {
                assert(members[a].0 != members[b].0);
            }
            assert(after[i].0 == key);
            if other != key {
                match position_of(members, other, 0) {
                    Some(k) => {
                        assert(after[k].0 == other);
                    },
                    None => {
                        if position_of(after, other, 0) is Some {
                            let k = position_of(after, other, 0)->0;
                            assert(members[k].0 != other);
                        }
                    },
                }
                if position_of(after, other, 0) is Some {
                    let k = position_of(after, other, 0)->0;
                    assert(members[k].0 == other);
                }
            }
        },
        None => {
            assert forall|a: int, b: int| 0 <= a < b < after.len() implies (#[trigger] after[a]).0 != (
            #[trigger] after[b]).0 by {
                if b < members.len() {
                    assert(members[a].0 != members[b].0);
                } else {
                    assert(members[a].0 != key);
                }
            }
            assert(after[members.len() as int].0 == key);
            if other != key {
                match position_of(members, other, 0) {
                    Some(k) => {
                        assert(after[k].0 == other);
                    },
                    None => {
                        if position_of(after, other, 0) is Some {
                            let k = position_of(after, other, 0)->0;
                            if k < members.len() {
                                assert(members[k].0 != other);
                            }
                        }
                    },
                }
                if position_of(after, other, 0) is Some {
                    let k = position_of(after, other, 0)->0;
                    assert(members[k].0 == other);
                }
            }
        },
    }
}

/// The content of an array is the sequence of the contents of its elements.
pub proof fn lemma_array_view(items: Vec<JsonValue>)
    ensures
        JsonValue::Array(items)@ == ValueView::Array(value_views(items@)),
{
    let v = JsonValue::Array(items);
    assert(v@ is Array);
    assert(v@->Array_0.len() == items@.len());
    assert forall|i: int| 0 <= i < items@.len() implies v@->Array_0[i] == value_views(items@)[i] by {
        assert(0 <= i < items@.len());
        assert(v@->Array_0[i] == value_view(items[i]));
    }
    assert(v@->Array_0 =~= value_views(items@));
}

impl JsonObject {
    /// No key occurs twice.
    #[verifier::type_invariant]
    closed spec fn keys_differ(&self) -> bool {
        forall|i: int, j: int|
            0 <= i < j < self.entries@.len() ==> (#[trigger] self.entries@[i]).0@ != (
            #[trigger] self.entries@[j]).0@
    }

    /// Entries whose keys differ are members with distinct keys.
    proof fn lemma_distinct_keys(&self)
        requires
            self.keys_differ(),
        ensures
            distinct_keys(self@),
    {
        assert forall|i: int, j: int| 0 <= i < j < self@.len() implies (#[trigger] self@[i]).0 != (
        #[trigger] self@[j]).0 by {
            assert(self@[i].0 == self.entries@[i].0@);
            assert(self@[j].0 == self.entries@[j].0@);
        }
    }

    /// An object without members.
    pub fn new() -> (o: JsonObject)
        ensures
            o@ == Seq::<(Seq<char>, ValueView)>::empty(),
    {
        let o = JsonObject { entries: Vec::new() };
        assert(o@ =~= Seq::empty());
        o
    }

    /// The number of members. No two of them have the same key.
    pub fn len(&self) -> (n: usize)
        ensures
            n == self@.len(),
            distinct_keys(self@),
    {
        proof {
            use_type_invariant(self);
            self.lemma_distinct_keys();
        }
        self.entries.len()
    }

    /// The index of the member with the given key, if there is one.
    fn find(&self, key: &String) -> (r: Option<usize>)
        ensures
            match r {
                Some(i) => position_of(self@, key@, 0) == Some(i as int) && i < self.entries@.len(),
                None => position_of(self@, key@, 0) is None,
            },
    {
        let mut i: usize = 0;
        while i < self.entries.len()
            invariant
                0 <= i <= self.entries@.len(),
                self@.len() == self.entries@.len(),
                position_of(self@, key@, 0) == position_of(self@, key@, i as int),
            decreases self.entries@.len() - i,
        {
            if self.entries[i].0 == *key {
                return Some(i);
            }
            i += 1;
        }
        None
    }

    /// The value of the member with the given key, if there is one.
    pub fn get(&self, key: &str) -> (r: Option<&JsonValue>)
        ensures
            match r {
                Some(v) => lookup(self@, key@) == Some(v@),
                None => lookup(self@, key@) is None,
            },
    {
        let owned = String::from_str(key);
        match self.find(&owned) {
            Some(i) => Some(&self.entries[i].1),
            None => None,
        }
    }

    /// Gives `key` the value `value`. A member with that key keeps its place
    /// and takes the new value; a new key is added after the others.
    pub fn insert(&mut self, key: String, value: JsonValue)
        ensures
            final(self)@ == with_member(old(self)@, key@, value@),
            distinct_keys(final(self)@),
    {
        proof {
            use_type_invariant(&*self);
            self.lemma_distinct_keys();
            lemma_with_member(self@, key@, value@, key@);
            lemma_position_of(self@, key@, 0);
        }
        let found = self.find(&key);
        let mut entries: Vec<(String, JsonValue)> = Vec::new();
        core::mem::swap(&mut self.entries, &mut entries);
        let ghost before = entries@;
        match found {
            Some(i) => {
                entries.set(i, (key, value));
            },
            None => {
                entries.push((key, value));
            },
        }
        let ghost after = JsonObject { entries };
        proof {
            assert(after@ =~= with_member(old(self)@, key@, value@));
            assert forall|i: int, j: int| 0 <= i < j < entries@.len() implies (
            #[trigger] entries@[i]).0@ != (#[trigger] entries@[j]).0@ by {
                assert(after@[i].0 == entries@[i].0@);
                assert(after@[j].0 == entries@[j].0@);
            }
        }
        self.entries = entries;
    }
}

/// Whether two values are equal: they are of the same variant and hold
/// equal contents, where the members of an object count without their
/// order.
pub open spec fn equivalent(a: ValueView, b: ValueView) -> bool
    decreases a,
{
    match (a, b) {
        (ValueView::Null, ValueView::Null) => true,
        (ValueView::Boolean(x), ValueView::Boolean(y)) => x == y,
        (ValueView::Number(x), ValueView::Number(y)) => x == y,
        (ValueView::String(x), ValueView::String(y)) => x == y,
        (ValueView::Array(x), ValueView::Array(y)) => {
            &&& x.len() == y.len()
            &&& forall|i: int| 0 <= i < x.len() ==> equivalent(#[trigger] x[i], y[i])
        },
        (ValueView::Object(x), ValueView::Object(y)) => same_members(x, y),
        _ => false,
    }
}

/// Whether two objects are equal: they have as many members, and every key
/// of the first has an equal value in the second.
pub open spec fn same_members(
    x: Seq<(Seq<char>, ValueView)>,
    y: Seq<(Seq<char>, ValueView)>,
) -> bool
    decreases x,
{
    &&& x.len() == y.len()
    &&& forall|i: int| 0 <= i < x.len() ==> has_member(y, #[trigger] x[i])
}

/// Whether the members give the key of `member` a value equal to its
/// value.
pub open spec fn has_member(y: Seq<(Seq<char>, ValueView)>, member: (Seq<char>, ValueView)) -> bool
    decreases member,
{
    match lookup(y, member.0) {
        Some(w) => equivalent(member.1, w),
        None => false,
    }
}

/// A well-formed value is equal to itself.
pub proof fn lemma_equivalent_reflexive(v: ValueView)
    requires
        well_formed(v),
    ensures
        equivalent(v, v),
    decreases v,
{
    match v {
        ValueView::Array(items) => {
            assert forall|i: int| 0 <= i < items.len() implies equivalent(
                #[trigger] items[i],
                items[i],
            ) by {
                lemma_equivalent_reflexive(items[i]);
            }
        },
        ValueView::Object(members) => {
            assert forall|i: int| 0 <= i < members.len() implies has_member(
                members,
                #[trigger] members[i],
            ) by {
                lemma_position_of(members, members[i].0, 0);
                let j = position_of(members, members[i].0, 0)->0;
                if j < i {
                    assert(members[j].0 != members[i].0);
                }
                lemma_equivalent_reflexive(members[i].1);
            }
            assert(same_members(members, members));
        },
        _ => {},
    }
}

/// The keys of the members, in their order.
pub open spec fn keys_of(members: Seq<(Seq<char>, ValueView)>) -> Seq<Seq<char>> {
    Seq::new(members.len(), |i: int| members[i].0)
}

/// Where two objects have as many members, each with distinct keys, and
/// every key of the first is a key of the second, every key of the second
/// is a key of the first.
pub proof fn lemma_same_keys(x: Seq<(Seq<char>, ValueView)>, y: Seq<(Seq<char>, ValueView)>)
    requires
        distinct_keys(x),
        distinct_keys(y),
        x.len() == y.len(),
        forall|i: int| 0 <= i < x.len() ==> position_of(y, (#[trigger] x[i]).0, 0) is Some,
    ensures
        forall|j: int| 0 <= j < y.len() ==> position_of(x, (#[trigger] y[j]).0, 0) is Some,
{
    let kx = keys_of(x);
    let ky = keys_of(y);
    assert(kx.no_duplicates()) by {
        assert forall|i: int, j: int| 0 <= i < kx.len() && 0 <= j < kx.len() && i != j implies kx[i]
            != kx[j] by {
            if i < j {
                assert(x[i].0 != x[j].0);
            } else {
                assert(x[j].0 != x[i].0);
            }
        }
    }
    assert(ky.no_duplicates()) by {
        assert forall|i: int, j: int| 0 <= i < ky.len() && 0 <= j < ky.len() && i != j implies ky[i]
            != ky[j] by {
            if i < j {
                assert(y[i].0 != y[j].0);
            } else {
                assert(y[j].0 != y[i].0);
            }
        }
    }
    kx.unique_seq_to_set();
    ky.unique_seq_to_set();
    vstd::seq_lib::seq_to_set_is_finite(kx);
    vstd::seq_lib::seq_to_set_is_finite(ky);
    assert forall|k: Seq<char>| kx.to_set().contains(k) implies ky.to_set().contains(k) by {
        let i = choose|i: int| 0 <= i < kx.len() && kx[i] == k;
        assert(x[i].0 == k);
        lemma_position_of(y, x[i].0, 0);
        let p = position_of(y, x[i].0, 0)->0;
        assert(ky[p] == k);
    }
    vstd::set_lib::lemma_subset_equality(kx.to_set(), ky.to_set());
    assert forall|j: int| 0 <= j < y.len() implies position_of(x, (#[trigger] y[j]).0, 0) is Some by {
        assert(ky[j] == y[j].0);
        assert(ky.to_set().contains(ky[j]));
        assert(kx.to_set().contains(y[j].0));
        let i = choose|i: int| 0 <= i < kx.len() && kx[i] == y[j].0;
        assert(x[i].0 == y[j].0);
        lemma_position_of(x, y[j].0, 0);
    }
}

/// Equality of well-formed values is symmetric.
pub proof fn lemma_equivalent_symmetric(a: ValueView, b: ValueView)
    requires
        well_formed(a),
        well_formed(b),
        equivalent(a, b),
    ensures
        equivalent(b, a),
    decreases a,
{
    match (a, b) {
        (ValueView::Array(x), ValueView::Array(y)) => {
            assert forall|i: int| 0 <= i < y.len() implies equivalent(#[trigger] y[i], x[i]) by {
                assert(equivalent(x[i], y[i]));
                lemma_equivalent_symmetric(x[i], y[i]);
            }
        },
        (ValueView::Object(x), ValueView::Object(y)) => {
            assert(same_members(x, y));
            assert forall|i: int| 0 <= i < x.len() implies position_of(
                y,
                (#[trigger] x[i]).0,
                0,
            ) is Some by {
                assert(has_member(y, x[i]));
            }
            lemma_same_keys(x, y);
            assert forall|j: int| 0 <= j < y.len() implies has_member(x, #[trigger] y[j]) by {
                lemma_position_of(x, y[j].0, 0);
                let i = position_of(x, y[j].0, 0)->0;
                assert(has_member(y, x[i]));
                lemma_position_of(y, x[i].0, 0);
                let p = position_of(y, x[i].0, 0)->0;
                if p < j {
                    assert(y[p].0 != y[j].0);
                } else if j < p {
                    assert(y[j].0 != y[p].0);
                }
                lemma_equivalent_symmetric(x[i].1, y[j].1);
            }
            assert(same_members(y, x));
        },
        _ => {},
    }
}

/// Equality of values is transitive.
pub proof fn lemma_equivalent_transitive(a: ValueView, b: ValueView, c: ValueView)
    requires
        equivalent(a, b),
        equivalent(b, c),
    ensures
        equivalent(a, c),
    decreases a,
{
    match (a, b, c) {
        (ValueView::Array(x), ValueView::Array(y), ValueView::Array(z)) => {
            assert forall|i: int| 0 <= i < x.len() implies equivalent(#[trigger] x[i], z[i]) by {
                assert(equivalent(x[i], y[i]));
                assert(equivalent(y[i], z[i]));
                lemma_equivalent_transitive(x[i], y[i], z[i]);
            }
        },
        (ValueView::Object(x), ValueView::Object(y), ValueView::Object(z)) => {
            assert(same_members(x, y));
            assert(same_members(y, z));
            assert forall|i: int| 0 <= i < x.len() implies has_member(z, #[trigger] x[i]) by {
                assert(has_member(y, x[i]));
                lemma_position_of(y, x[i].0, 0);
                let p = position_of(y, x[i].0, 0)->0;
                assert(has_member(z, y[p]));
                lemma_equivalent_transitive(x[i].1, y[p].1, lookup(z, y[p].0)->0);
            }
            assert(same_members(x, z));
        },
        _ => {},
    }
}

impl PartialEq for JsonValue {
    /// Whether the two values are equal.
    fn eq(&self, other: &JsonValue) -> (r: bool)
        decreases self,
    {
        match (self, other) {
            (JsonValue::Null, JsonValue::Null) => true,
            (JsonValue::Boolean(x), JsonValue::Boolean(y)) => *x == *y,
            (JsonValue::Number(x), JsonValue::Number(y)) => *x == *y,
            (JsonValue::String(x), JsonValue::String(y)) => *x == *y,
            (JsonValue::Array(x), JsonValue::Array(y)) => {
                proof {
                    lemma_array_view(*x);
                    lemma_array_view(*y);
                }
                if x.len() != y.len() {
                    return false;
                }
                let mut i: usize = 0;
                while i < x.len()
                    invariant
                        0 <= i <= x@.len(),
                        x@.len() == y@.len(),
                        *self == JsonValue::Array(*x),
                        self@ == ValueView::Array(value_views(x@)),
                        other@ == ValueView::Array(value_views(y@)),
                        forall|j: int| 0 <= j < i ==> equivalent(#[trigger] x@[j]@, y@[j]@),
                    decreases x@.len() - i,
                {
                    proof {
                        assert(self->Array_0 == *x);
                    }
                    if !(x[i] == y[i]) {
                        proof {
                            assert(value_views(x@)[i as int] == x@[i as int]@);
                            assert(!equivalent(value_views(x@)[i as int], value_views(y@)[i as int]));
                        }
                        return false;
                    }
                    i += 1;
                }
                proof {
                    assert forall|j: int| 0 <= j < x@.len() implies equivalent(
                        #[trigger] value_views(x@)[j],
                        value_views(y@)[j],
                    ) by {
                        assert(equivalent(x@[j]@, y@[j]@));
                    }
                }
                true
            },
            (JsonValue::Object(x), JsonValue::Object(y)) => *x == *y,
            _ => false,
        }
    }
}

impl PartialEqSpecImpl for JsonValue {
    open spec fn obeys_eq_spec() -> bool {
        true
    }

    open spec fn eq_spec(&self, other: &JsonValue) -> bool {
        equivalent(self@, other@)
    }
}

impl PartialEq for JsonObject {
    /// Whether the two objects give equal values to the same keys.
    fn eq(&self, other: &JsonObject) -> (r: bool)
        decreases self,
    {
        if self.entries.len() != other.entries.len() {
            return false;
        }
        let mut i: usize = 0;
        while i < self.entries.len()
            invariant
                0 <= i <= self.entries@.len(),
                self@.len() == self.entries@.len(),
                other@.len() == other.entries@.len(),
                self.entries@.len() == other.entries@.len(),
                forall|j: int| 0 <= j < i ==> has_member(other@, #[trigger] self@[j]),
            decreases self.entries@.len() - i,
        {
            let found = match other.find(&self.entries[i].0) {
                Some(k) => self.entries[i].1 == other.entries[k].1,
                None => false,
            };
            proof {
                assert(self@[i as int] == (self.entries@[i as int].0@, self.entries@[i as int].1@));
                assert(found == has_member(other@, self@[i as int]));
            }
            if !found {
                return false;
            }
            i += 1;
        }
        true
    }
}

impl PartialEqSpecImpl for JsonObject {
    open spec fn obeys_eq_spec() -> bool {
        true
    }

    open spec fn eq_spec(&self, other: &JsonObject) -> bool {
        same_members(self@, other@)
    }
}

impl Clone for JsonValue {
    /// A copy of the value and of everything in it.
    fn clone(&self) -> (out: JsonValue)
        ensures
            out@ == self@,
        decreases self,
    {
        match self {
            JsonValue::Null => JsonValue::Null,
            JsonValue::Boolean(b) => JsonValue::Boolean(*b),
            JsonValue::Number(n) => JsonValue::Number(n.clone()),
            JsonValue::String(s) => JsonValue::String(s.clone()),
            JsonValue::Array(items) => {
                let mut copy: Vec<JsonValue> = Vec::new();
                let mut i: usize = 0;
                while i < items.len()
                    invariant
                        0 <= i <= items@.len(),
                        *self == JsonValue::Array(*items),
                        copy@.len() == i,
                        forall|j: int| 0 <= j < i ==> (#[trigger] copy@[j])@ == items@[j]@,
                    decreases items@.len() - i,
                {
                    proof {
                        assert(self->Array_0 == *items);
                    }
                    copy.push(items[i].clone());
                    i += 1;
                }
                proof {
                    lemma_array_view(*items);
                    lemma_array_view(copy);
                    assert(value_views(copy@) =~= value_views(items@));
                }
                JsonValue::Array(copy)
            },
            JsonValue::Object(members) => JsonValue::Object(members.clone()),
        }
    }
}

impl Clone for JsonObject {
    /// A copy of the members and of everything in them.
    fn clone(&self) -> (out: JsonObject)
        ensures
            out@ == self@,
        decreases self,
    {
        let mut entries: Vec<(String, JsonValue)> = Vec::new();
        let mut i: usize = 0;
        while i < self.entries.len()
            invariant
                0 <= i <= self.entries@.len(),
                entries@.len() == i,
                forall|j: int|
                    0 <= j < i ==> (#[trigger] entries@[j]).0@ == self.entries@[j].0@ && entries@[j].1@
                        == self.entries@[j].1@,
            decreases self.entries@.len() - i,
        {
            entries.push((self.entries[i].0.clone(), self.entries[i].1.clone()));
            i += 1;
        }
        proof {
            use_type_invariant(self);
        }
        let out = JsonObject { entries };
        assert(out@ =~= self@);
        out
    }
}

impl JsonValue {
    /// Whether the value is `null`.
    pub fn is_null(&self) -> (b: bool)
        ensures
            b == (self@ is Null),
    {
        match self {
            JsonValue::Null => true,
            _ => false,
        }
    }

    /// The text of a string value; `None` for every other value.
    pub fn as_str(&self) -> (r: Option<&str>)
        ensures
            match r {
                Some(s) => self@ == ValueView::String(s@),
                None => !(self@ is String),
            },
    {
        match self {
            JsonValue::String(s) => Some(s.as_str()),
            _ => None,
        }
    }

    /// The number of a number value; `None` for every other value.
    pub fn as_f64(&self) -> (r: Option<&JsonNumber>)
        ensures
            match r {
                Some(n) => self@ == ValueView::Number(n@),
                None => !(self@ is Number),
            },
    {
        match self {
            JsonValue::Number(n) => Some(n),
            _ => None,
        }
    }

    /// The truth value of a boolean value; `None` for every other value.
    pub fn as_bool(&self) -> (r: Option<bool>)
        ensures
            match r {
                Some(b) => self@ == ValueView::Boolean(b),
                None => !(self@ is Boolean),
            },
    {
        match self {
            JsonValue::Boolean(b) => Some(*b),
            _ => None,
        }
    }

    /// The elements of an array; `None` for every other value.
    pub fn as_array(&self) -> (r: Option<&Vec<JsonValue>>)
        ensures
            match r {
                Some(items) => self@ == ValueView::Array(value_views(items@)),
                None => !(self@ is Array),
            },
    {
        match self {
            JsonValue::Array(items) => {
                assert(self@->Array_0 =~= value_views(items@));
                Some(items)
            },
            _ => None,
        }
    }

    /// The members of an object; `None` for every other value.
    pub fn as_object(&self) -> (r: Option<&JsonObject>)
        ensures
            match r {
                Some(members) => self@ == ValueView::Object(members@) && distinct_keys(members@),
                None => !(self@ is Object),
            },
    {
        match self {
            JsonValue::Object(members) => {
                proof {
                    use_type_invariant(members);
                    members.lemma_distinct_keys();
                }
                Some(members)
            },
            _ => None,
        }
    }

    /// The value that an object gives to `key`; `None` if the object has no
    /// such key, and for every value that is no object.
    pub fn get(&self, key: &str) -> (r: Option<&JsonValue>)
        ensures
            match r {
                Some(v) => self@ is Object && lookup(self@->Object_0, key@) == Some(v@),
                None => !(self@ is Object) || lookup(self@->Object_0, key@) is None,
            },
    {
        match self {
            JsonValue::Object(members) => members.get(key),
            _ => None,
        }
    }

    /// The element of an array at `index`; `None` if the index is out of
    /// bounds, and for every value that is no array.
    pub fn get_index(&self, index: usize) -> (r: Option<&JsonValue>)
        ensures
            match r {
                Some(v) => self@ is Array && index < self@->Array_0.len()
                    && self@->Array_0[index as int] == v@,
                None => !(self@ is Array) || index >= self@->Array_0.len(),
            },
    {
        match self {
            JsonValue::Array(items) => {
                if index < items.len() {
                    Some(&items[index])
                } else {
                    None
                }
            },
            _ => None,
        }
    }
}

/// How one character of a string is written in JSON text: `"`, `\`, line
/// feed, carriage return and tab are escaped, and every other character
/// stands for itself.
pub open spec fn escape_char(c: char) -> Seq<char> {
    if c == '"' {
        seq!['\\', '"']
    } else if c == '\\' {
        seq!['\\', '\\']
    } else if c == '\n' {
        seq!['\\', 'n']
    } else if c == '\r' {
        seq!['\\', 'r']
    } else if c == '\t' {
        seq!['\\', 't']
    } else {
        seq![c]
    }
}

/// The characters of `s`, each written as [`escape_char`] says.
pub open spec fn escaped(s: Seq<char>) -> Seq<char>
    decreases s.len(),
{
    if s.len() == 0 {
        Seq::empty()
    } else {
        escaped(s.drop_last()) + escape_char(s.last())
    }
}

/// A string as a JSON string literal: escaped, between double quotes.
pub open spec fn quoted(s: Seq<char>) -> Seq<char> {
    seq!['"'] + escaped(s) + seq!['"']
}

/// The canonical text of a value.
pub open spec fn render(v: ValueView) -> Seq<char>
    decreases v, 0int,
{
    match v {
        ValueView::Null => "null"@,
        ValueView::Boolean(b) => if b {
            "true"@
        } else {
            "false"@
        },
        ValueView::Number(n) => n.text(),
        ValueView::String(s) => quoted(s),
        ValueView::Array(items) => seq!['['] + render_items(items, items.len() as int) + seq![']'],
        ValueView::Object(members) => seq!['{'] + render_members(members, members.len() as int)
            + seq!['}'],
    }
}

/// The canonical texts of the first `n` items, with a comma between each
/// two.
pub open spec fn render_items(items: Seq<ValueView>, n: int) -> Seq<char>
    decreases items, n,
{
    if n <= 0 || n > items.len() {
        Seq::empty()
    } else if n == 1 {
        render(items[0])
    } else {
        render_items(items, n - 1) + seq![','] + render(items[n - 1])
    }
}

/// The first `n` members, each as its quoted key, a colon and the canonical
/// text of its value, with a comma between each two.
pub open spec fn render_members(members: Seq<(Seq<char>, ValueView)>, n: int) -> Seq<char>
    decreases members, n,
{
    if n <= 0 || n > members.len() {
        Seq::empty()
    } else if n == 1 {
        quoted(members[0].0) + seq![':'] + render(members[0].1)
    } else {
        render_members(members, n - 1) + seq![','] + quoted(members[n - 1].0) + seq![':'] + render(
            members[n - 1].1,
        )
    }
}

/// Appends the escaped form of `s` to `out`.
fn push_escaped(out: &mut String, s: &str)
    ensures
        final(out)@ == old(out)@ + escaped(s@),
{
    let chars = chars_of(s);
    let mut i: usize = 0;
    assert(chars@.take(0) =~= Seq::empty());
    while i < chars.len()
        invariant
            0 <= i <= chars@.len(),
            chars@ == s@,
            out@ == old(out)@ + escaped(chars@.take(i as int)),
        decreases chars@.len() - i,
    {
        let c = chars[i];
        proof {
            assert(chars@.take(i + 1).drop_last() =~= chars@.take(i as int));
            assert(chars@.take(i + 1).last() == c);
        }
        let ghost before = out@;
        if c == '"' {
            out.append("\\\"");
            proof {
                reveal_strlit("\\\"");
            }
            assert("\\\""@ =~= escape_char(c));
        } else if c == '\\' {
            out.append("\\\\");
            proof {
                reveal_strlit("\\\\");
            }
            assert("\\\\"@ =~= escape_char(c));
        } else if c == '\n' {
            out.append("\\n");
            proof {
                reveal_strlit("\\n");
            }
            assert("\\n"@ =~= escape_char(c));
        } else if c == '\r' {
            out.append("\\r");
            proof {
                reveal_strlit("\\r");
            }
            assert("\\r"@ =~= escape_char(c));
        } else if c == '\t' {
            out.append("\\t");
            proof {
                reveal_strlit("\\t");
            }
            assert("\\t"@ =~= escape_char(c));
        } else {
            push_char(out, c);
            assert(before.push(c) =~= before + escape_char(c));
        }
        assert(out@ == before + escape_char(c));
        i += 1;
        assert(out@ =~= old(out)@ + escaped(chars@.take(i as int)));
    }
    assert(chars@.take(i as int) =~= s@);
}

/// Escapes the characters of `s` that JSON text cannot hold as they are:
/// `"`, `\`, line feed, carriage return and tab.
pub fn escape_string(s: &str) -> (out: String)
    ensures
        out@ == escaped(s@),
{
    let mut out = String::new();
    push_escaped(&mut out, s);
    assert(out@ =~= escaped(s@));
    out
}

/// Appends `s` as a JSON string literal to `out`.
fn push_quoted(out: &mut String, s: &str)
    ensures
        final(out)@ == old(out)@ + quoted(s@),
{
    push_char(out, '"');
    push_escaped(out, s);
    push_char(out, '"');
    assert(final(out)@ =~= old(out)@ + quoted(s@));
}

impl JsonObject {
    /// Appends the members of the object, as they stand between the braces
    /// of its canonical text, to `out`.
    fn write_members(&self, out: &mut String)
        ensures
            final(out)@ == old(out)@ + render_members(self@, self@.len() as int),
            members_well_formed(self@),
        decreases self, 0int,
    {
        proof {
            use_type_invariant(self);
            self.lemma_distinct_keys();
        }
        let mut i: usize = 0;
        while i < self.entries.len()
            invariant
                0 <= i <= self.entries@.len(),
                self@.len() == self.entries@.len(),
                out@ == old(out)@ + render_members(self@, i as int),
                forall|j: int| 0 <= j < i ==> well_formed((#[trigger] self@[j]).1),
            decreases self.entries@.len() - i,
        {
            let ghost before = out@;
            if i > 0 {
                push_char(out, ',');
            }
            push_quoted(out, self.entries[i].0.as_str());
            push_char(out, ':');
            self.entries[i].1.write_to(out);
            proof {
                assert(self@[i as int] == (self.entries[i as int].0@, self.entries[i as int].1@));
                assert(out@ =~= old(out)@ + render_members(self@, i + 1));
            }
            i += 1;
        }
    }
}

impl JsonValue {
    /// Appends the canonical text of the value to `out`.
    pub fn write_to(&self, out: &mut String)
        ensures
            final(out)@ == old(out)@ + render(self@),
            well_formed(self@),
        decreases self, 1int,
    {
        match self {
            JsonValue::Null => {
                out.append("null");
            },
            JsonValue::Boolean(b) => {
                if *b {
                    out.append("true");
                } else {
                    out.append("false");
                }
            },
            JsonValue::Number(n) => {
                let text = n.to_text();
                out.append(text.as_str());
            },
            JsonValue::String(s) => {
                push_quoted(out, s.as_str());
            },
            JsonValue::Array(items) => {
                proof {
                    lemma_array_view(*items);
                }
                push_char(out, '[');
                let ghost start = out@;
                let mut i: usize = 0;
                while i < items.len()
                    invariant
                        0 <= i <= items@.len(),
                        *self == JsonValue::Array(*items),
                        out@ == start + render_items(value_views(items@), i as int),
                        forall|j: int| 0 <= j < i ==> well_formed(#[trigger] value_views(items@)[j]),
                    decreases items@.len() - i,
                {
                    if i > 0 {
                        push_char(out, ',');
                    }
                    proof {
                        vstd::std_specs::vec::axiom_vec_index_decreases(*items, i as int);
                        assert(self->Array_0 == *items);
                        assert(decreases_to!(*self => self->Array_0));
                    }
                    items[i].write_to(out);
                    proof {
                        assert(out@ =~= start + render_items(value_views(items@), i + 1));
                    }
                    i += 1;
                }
                push_char(out, ']');
                assert(final(out)@ =~= old(out)@ + render(self@));
            },
            JsonValue::Object(members) => {
                push_char(out, '{');
                members.write_members(out);
                push_char(out, '}');
                assert(final(out)@ =~= old(out)@ + render(self@));
            },
        }
    }

    /// The canonical text of the value. It parses, and parses to this
    /// value.
    pub fn to_string(&self) -> (out: String)
        ensures
            out@ == render(self@),
            well_formed(self@),
            parse_text(out@) == Ok::<ValueView, ErrorView>(self@),
    {
        let mut out = String::new();
        self.write_to(&mut out);
        proof {
            assert(out@ =~= render(self@));
            lemma_render_parses(self@);
        }
        out
    }
}

} // verus!
