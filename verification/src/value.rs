//! The values that the reader produces, and the failures it reports.

use vstd::prelude::*;
use crate::text::same_text;

verus! {

/// Why a recognizer did not accept the text.
#[derive(Debug, Clone, Copy, PartialEq, Eq, Structural)]
pub enum ErrorKind {
    /// A required delimiter is absent: a quote of a string, the opening
    /// bracket or brace, the colon behind a key, the point of a float.
    DelimiterMissing,
    /// A number was expected and no digit was found.
    DigitsMissing,
    /// None of `true`, `false` or `null` stands where one was required.
    LiteralMissing,
    /// No kind of value starts at this text.
    NoAlternativeMatched,
    /// The closing bracket or brace of an array or object is absent.
    StructureUnterminated,
    /// The digits of an integer stand for more than `i32::MAX`.
    NumericOverflow,
}

/// A failure as mathematics: the view of a [`ParseError`].
pub struct Failure {
    pub kind: ErrorKind,
    /// The text that was left when the recognizer gave up.
    pub input: Seq<char>,
}

/// A failure to recognize: what went wrong, and the text at which it did.
#[derive(Debug, Clone, Copy, PartialEq, Eq)]
pub struct ParseError<'a> {
    pub kind: ErrorKind,
    /// The text that was left when the recognizer gave up.
    pub input: &'a str,
}

impl<'a> View for ParseError<'a> {
    type V = Failure;

    open spec fn view(&self) -> Failure {
        Failure { kind: self.kind, input: self.input@ }
    }
}

/// A number, classified when it is read: a literal with a decimal point
/// and digits on both sides is a float, one without a point an integer.
#[derive(Debug, Clone, Copy, PartialEq, Eq, Structural)]
pub enum NumberType {
    /// A signed 32-bit integer.
    Integer(i32),
    /// A 32-bit IEEE-754 number, held as its bit pattern.
    Float(u32),
}

/// What a value is, as mathematics: the view of a [`JsonValue`].
pub enum JsonModel {
    Boolean(bool),
    Number(NumberType),
    String(Seq<char>),
    Array(Seq<JsonModel>),
    Object(Map<Seq<char>, JsonModel>),
    Null,
}

/// The mapping that a sequence of members stands for: each key is mapped
/// to the value of its last occurrence.
pub open spec fn members_map(members: Seq<(Seq<char>, JsonModel)>) -> Map<Seq<char>, JsonModel>
    decreases members.len(),
{
    if members.len() == 0 {
        Map::empty()
    } else {
        members_map(members.drop_last()).insert(members.last().0, members.last().1)
    }
}

/// Whether no two members have the same key.
pub open spec fn keys_distinct(members: Seq<(Seq<char>, JsonModel)>) -> bool {
    forall|i: int, j: int| 0 <= i < j < members.len() ==> members[i].0 != members[j].0
}

/// Adding a member at the end maps its key to its value.
pub proof fn lemma_members_map_push(
    members: Seq<(Seq<char>, JsonModel)>,
    key: Seq<char>,
    value: JsonModel,
)
    ensures
        members_map(members.push((key, value))) == members_map(members).insert(key, value),
{
    assert(members.push((key, value)).drop_last() =~= members);
}

/// The keys of the mapping are the keys of the members.
pub proof fn lemma_members_map_keys(members: Seq<(Seq<char>, JsonModel)>, key: Seq<char>)
    ensures
        members_map(members).contains_key(key) <==> exists|i: int|
            0 <= i < members.len() && #[trigger] members[i].0 == key,
    decreases members.len(),
{
    if members.len() > 0 {
        let front = members.drop_last();
        lemma_members_map_keys(front, key);
        if members_map(members).contains_key(key) {
            if members.last().0 == key {
                assert(members[members.len() - 1].0 == key);
            } else {
                let i = choose|i: int| 0 <= i < front.len() && #[trigger] front[i].0 == key;
                assert(members[i].0 == key);
            }
        }
        if exists|i: int| 0 <= i < members.len() && #[trigger] members[i].0 == key {
            let i = choose|i: int| 0 <= i < members.len() && #[trigger] members[i].0 == key;
            if i < members.len() - 1 {
                assert(front[i].0 == key);
            }
        }
    }
}

/// Of the members with one key the last one wins: a member whose key no
/// later member has gives the key its value.
pub proof fn lemma_last_member_wins(members: Seq<(Seq<char>, JsonModel)>, i: int)
    requires
        0 <= i < members.len(),
        forall|j: int| i < j < members.len() ==> members[j].0 != members[i].0,
    ensures
        members_map(members).contains_key(members[i].0),
        members_map(members)[members[i].0] == members[i].1,
    decreases members.len(),
{
    let front = members.drop_last();
    if i < members.len() - 1 {
        assert(members[members.len() - 1].0 != members[i].0);
        assert forall|j: int| i < j < front.len() implies front[j].0 != front[i].0 by {
            assert(members[j].0 != members[i].0);
        }
        lemma_last_member_wins(front, i);
    }
}

/// Where no key occurs twice, each key is mapped to the value of its
/// member.
pub proof fn lemma_members_map_value(members: Seq<(Seq<char>, JsonModel)>, i: int)
    requires
        keys_distinct(members),
        0 <= i < members.len(),
    ensures
        members_map(members).contains_key(members[i].0),
        members_map(members)[members[i].0] == members[i].1,
{
    lemma_last_member_wins(members, i);
}

/// Where no key occurs twice, putting a new value in the place of a
/// member's value is inserting it under the member's key.
pub proof fn lemma_members_map_update(
    members: Seq<(Seq<char>, JsonModel)>,
    i: int,
    value: JsonModel,
)
    requires
        keys_distinct(members),
        0 <= i < members.len(),
    ensures
        keys_distinct(members.update(i, (members[i].0, value))),
        members_map(members.update(i, (members[i].0, value))) == members_map(members).insert(
            members[i].0,
            value,
        ),
{
    let key = members[i].0;
    let updated = members.update(i, (key, value));
    assert(keys_distinct(updated)) by {
        assert forall|a: int, b: int| 0 <= a < b < updated.len() implies updated[a].0
            != updated[b].0 by {
            assert(members[a].0 != members[b].0);
        }
    }
    let left = members_map(updated);
    let right = members_map(members).insert(key, value);
    assert forall|k: Seq<char>| left.contains_key(k) <==> right.contains_key(k) by {
        lemma_members_map_keys(updated, k);
        lemma_members_map_keys(members, k);
        if left.contains_key(k) {
            let j = choose|j: int| 0 <= j < updated.len() && #[trigger] updated[j].0 == k;
            assert(members[j].0 == k);
        }
        if right.contains_key(k) && k != key {
            let j = choose|j: int| 0 <= j < members.len() && #[trigger] members[j].0 == k;
            assert(updated[j].0 == k);
        }
        if k == key {
            assert(updated[i].0 == k);
        }
    }
    assert forall|k: Seq<char>| left.contains_key(k) implies left[k] == right[k] by {
        lemma_members_map_keys(updated, k);
        let j = choose|j: int| 0 <= j < updated.len() && #[trigger] updated[j].0 == k;
        lemma_members_map_value(updated, j);
        if j != i {
            lemma_members_map_value(members, j);
        }
    }
    assert(left =~= right);
}

/// Where no key occurs twice, the mapping has as many keys as there are
/// members.
pub proof fn lemma_members_map_len(members: Seq<(Seq<char>, JsonModel)>)
    requires
        keys_distinct(members),
    ensures
        members_map(members).dom().finite(),
        members_map(members).dom().len() == members.len(),
    decreases members.len(),
{
    if members.len() > 0 {
        let front = members.drop_last();
        assert(keys_distinct(front)) by {
            assert forall|a: int, b: int| 0 <= a < b < front.len() implies front[a].0
                != front[b].0 by {
                assert(members[a].0 != members[b].0);
            }
        }
        lemma_members_map_len(front);
        lemma_members_map_keys(front, members.last().0);
        if members_map(front).contains_key(members.last().0) {
            let j = choose|j: int| 0 <= j < front.len() && #[trigger] front[j].0 == members.last().0;
            assert(members[j].0 != members[members.len() - 1].0);
        }
        assert(members_map(members).dom() =~= members_map(front).dom().insert(members.last().0));
    } else {
        assert(members_map(members).dom() =~= Set::<Seq<char>>::empty());
    }
}

/// The views of the values of a sequence, in its order.
pub open spec fn array_models(items: Seq<JsonValue>) -> Seq<JsonModel>
    decreases items, 0int,
{
    if items.len() == 0 {
        Seq::empty()
    } else {
        array_models(items.drop_last()).push(items.last().model())
    }
}

/// The keys and the views of the values of a sequence of members, in its
/// order.
pub open spec fn member_models(entries: Seq<(String, JsonValue)>) -> Seq<(Seq<char>, JsonModel)>
    decreases entries, 0int,
{
    if entries.len() == 0 {
        Seq::empty()
    } else {
        member_models(entries.drop_last()).push((entries.last().0@, entries.last().1.model()))
    }
}

/// There is one view for each item, at the item's place.
pub proof fn lemma_array_models(items: Seq<JsonValue>)
    ensures
        array_models(items).len() == items.len(),
        forall|i: int| 0 <= i < items.len() ==> #[trigger] array_models(items)[i] == items[i]@,
    decreases items.len(),
{
    if items.len() > 0 {
        lemma_array_models(items.drop_last());
    }
}

/// The views of a sequence with one more item are the views of the
/// sequence and the view of that item.
pub proof fn lemma_array_models_push(items: Seq<JsonValue>, item: JsonValue)
    ensures
        array_models(items.push(item)) == array_models(items).push(item@),
{
    assert(items.push(item).drop_last() =~= items);
}

/// There is one pair for each member, at the member's place.
pub proof fn lemma_member_models(entries: Seq<(String, JsonValue)>)
    ensures
        member_models(entries).len() == entries.len(),
        forall|i: int|
            0 <= i < entries.len() ==> #[trigger] member_models(entries)[i] == (
                entries[i].0@,
                entries[i].1@,
            ),
    decreases entries.len(),
{
    if entries.len() > 0 {
        lemma_member_models(entries.drop_last());
    }
}

/// A parsed value. A value owns its children; arrays keep the order of
/// the text, objects map each key to one value.
///
/// Two values are equal (`==`) when they are the same value
/// ([`JsonValue::same_as`]); floats are compared by their bits.
#[derive(Debug)]
pub enum JsonValue {
    Boolean(bool),
    Number(NumberType),
    String(String),
    Array(Vec<JsonValue>),
    Object(JsonObject),
    Null,
}

/// The members of an object. No key occurs twice: inserting under a key
/// that is present replaces the value and keeps the member's place.
///
/// The members are kept in a vector, in the order in which their keys
/// were first inserted; looking a key up takes time in proportion to the
/// number of members. Two objects are equal (`==`) when they map the same
/// keys to the same values, in whatever order ([`JsonObject::same_as`]).
#[derive(Debug)]
pub struct JsonObject {
    entries: Vec<(String, JsonValue)>,
}

impl JsonValue {
    /// What the value is, as mathematics.
    pub open spec fn model(&self) -> JsonModel
        decreases self, 0int,
    {
        match self {
            JsonValue::Boolean(b) => JsonModel::Boolean(*b),
            JsonValue::Number(n) => JsonModel::Number(*n),
            JsonValue::String(s) => JsonModel::String(s@),
            JsonValue::Array(items) => JsonModel::Array(array_models(items@)),
            JsonValue::Object(object) => JsonModel::Object(members_map(object.members())),
            JsonValue::Null => JsonModel::Null,
        }
    }
}

impl JsonValue {
    /// Whether two values are the same value: the same booleans, numbers
    /// or strings, arrays of the same values in the same order, objects
    /// that map the same keys to the same values.
    #[verifier::loop_isolation(false)]
    pub fn same_as(&self, other: &JsonValue) -> (same: bool)
        ensures
            same == (self@ == other@),
        decreases self, 0int,
    {
        match self {
            JsonValue::Boolean(a) => match other {
                JsonValue::Boolean(b) => *a == *b,
                _ => false,
            },
            JsonValue::Number(a) => match other {
                JsonValue::Number(b) => *a == *b,
                _ => false,
            },
            JsonValue::String(a) => match other {
                JsonValue::String(b) => same_text(a.as_str(), b.as_str()),
                _ => false,
            },
            JsonValue::Array(a) => match other {
                JsonValue::Array(b) => {
                    proof {
                        lemma_array_models(a@);
                        lemma_array_models(b@);
                    }
                    if a.len() != b.len() {
                        return false;
                    }
                    let mut i: usize = 0;
                    while i < a.len()
                        invariant
                            i <= a@.len(),
                            forall|j: int| 0 <= j < i ==> a@[j]@ == b@[j]@,
                        decreases a@.len() - i,
                    {
                        if !a[i].same_as(&b[i]) {
                            assert(array_models(a@)[i as int] != array_models(b@)[i as int]);
                            return false;
                        }
                        i += 1;
                    }
                    proof {
                        assert(array_models(a@) =~= array_models(b@));
                    }
                    true
                },
                _ => false,
            },
            JsonValue::Object(a) => match other {
                JsonValue::Object(b) => a.same_as(b),
                _ => false,
            },
            JsonValue::Null => match other {
                JsonValue::Null => true,
                _ => false,
            },
        }
    }
}

impl PartialEq for JsonValue {
    fn eq(&self, other: &JsonValue) -> (same: bool) {
        self.same_as(other)
    }
}

impl vstd::std_specs::cmp::PartialEqSpecImpl for JsonValue {
    open spec fn obeys_eq_spec() -> bool {
        true
    }

    open spec fn eq_spec(&self, other: &JsonValue) -> bool {
        self@ == other@
    }
}

impl PartialEq for JsonObject {
    fn eq(&self, other: &JsonObject) -> (same: bool) {
        self.same_as(other)
    }
}

impl vstd::std_specs::cmp::PartialEqSpecImpl for JsonObject {
    open spec fn obeys_eq_spec() -> bool {
        true
    }

    open spec fn eq_spec(&self, other: &JsonObject) -> bool {
        self@ == other@
    }
}

impl View for JsonValue {
    type V = JsonModel;

    open spec fn view(&self) -> JsonModel {
        self.model()
    }
}

impl JsonObject {
    /// The members as pairs of key and value, in the order in which they
    /// are stored.
    pub closed spec fn members(&self) -> Seq<(Seq<char>, JsonModel)>
        decreases self, 0int,
    {
        member_models(self.entries@)
    }
}

impl JsonObject {
    #[verifier::type_invariant]
    spec fn no_key_twice(self) -> bool {
        keys_distinct(self.members())
    }

    /// An object without members.
    pub fn new() -> (object: JsonObject)
        ensures
            object@ == Map::<Seq<char>, JsonModel>::empty(),
    {
        JsonObject { entries: Vec::new() }
    }

    /// Where the member with the given key stands, if there is one.
    fn position(&self, key: &str) -> (r: Option<usize>)
        ensures
            match r {
                Some(i) => i < self.members().len() && self.members()[i as int].0 == key@,
                None => !self@.contains_key(key@),
            },
    {
        proof {
            lemma_member_models(self.entries@);
        }
        let mut i: usize = 0;
        while i < self.entries.len()
            invariant
                i <= self.entries@.len(),
                self.members().len() == self.entries@.len(),
                forall|j: int|
                    0 <= j < self.entries@.len() ==> #[trigger] self.members()[j] == (
                        self.entries@[j].0@,
                        self.entries@[j].1@,
                    ),
                forall|j: int| 0 <= j < i ==> self.members()[j].0 != key@,
            decreases self.entries@.len() - i,
        {
            if same_text(self.entries[i].0.as_str(), key) {
                return Some(i);
            }
            i += 1;
        }
        proof {
            lemma_members_map_keys(self.members(), key@);
        }
        None
    }

    /// Maps `key` to `value`. A member with that key keeps its place and
    /// gets the new value; otherwise the new member comes last.
    pub fn insert(&mut self, key: String, value: JsonValue)
        ensures
            final(self)@ == old(self)@.insert(key@, value@),
    {
        proof {
            use_type_invariant(&*self);
        }
        let ghost before = self.members();
        let place = self.position(key.as_str());
        let mut entries: Vec<(String, JsonValue)> = Vec::new();
        core::mem::swap(&mut self.entries, &mut entries);
        match place {
            Some(i) => {
                proof {
                    lemma_members_map_update(before, i as int, value@);
                }
                proof {
                    lemma_member_models(entries@);
                }
                entries.set(i, (key, value));
                proof {
                    lemma_member_models(entries@);
                    assert(member_models(entries@) =~= before.update(i as int, (key@, value@)));
                }
            },
            None => {
                proof {
                    lemma_members_map_push(before, key@, value@);
                    lemma_members_map_keys(before, key@);
                }
                proof {
                    assert(entries@.push((key, value)).drop_last() =~= entries@);
                }
                entries.push((key, value));
            },
        }
        self.entries = entries;
    }

    /// The value that `key` is mapped to, if any.
    pub fn get(&self, key: &str) -> (r: Option<&JsonValue>)
        ensures
            match r {
                Some(value) => self@.contains_key(key@) && self@[key@] == value@,
                None => !self@.contains_key(key@),
            },
    {
        match self.position(key) {
            Some(i) => {
                proof {
                    use_type_invariant(self);
                    lemma_member_models(self.entries@);
                    lemma_members_map_value(self.members(), i as int);
                }
                Some(&self.entries[i].1)
            },
            None => None,
        }
    }

    /// Whether two objects map the same keys to the same values, in
    /// whatever order their members are stored.
    #[verifier::loop_isolation(false)]
    pub fn same_as(&self, other: &JsonObject) -> (same: bool)
        ensures
            same == (self@ == other@),
        decreases self, 1int,
    {
        proof {
            use_type_invariant(self);
            use_type_invariant(other);
            lemma_member_models(self.entries@);
            lemma_member_models(other.entries@);
            lemma_members_map_len(self.members());
            lemma_members_map_len(other.members());
        }
        if self.entries.len() != other.entries.len() {
            return false;
        }
        let mut i: usize = 0;
        while i < self.entries.len()
            invariant
                i <= self.entries@.len(),
                forall|j: int|
                    0 <= j < i ==> other@.contains_key(#[trigger] self.members()[j].0)
                        && other@[self.members()[j].0] == self.members()[j].1,
            decreases self.entries@.len() - i,
        {
            proof {
                lemma_members_map_value(self.members(), i as int);
            }
            match other.position(self.entries[i].0.as_str()) {
                None => {
                    return false;
                },
                Some(j) => {
                    proof {
                        lemma_members_map_value(other.members(), j as int);
                    }
                    if !self.entries[i].1.same_as(&other.entries[j].1) {
                        return false;
                    }
                },
            }
            i += 1;
        }
        proof {
            assert forall|key: Seq<char>| #[trigger]
                self@.dom().contains(key) implies other@.dom().contains(key) && self@[key]
                == other@[key] by {
                lemma_members_map_keys(self.members(), key);
                let j = choose|j: int|
                    0 <= j < self.members().len() && #[trigger] self.members()[j].0 == key;
                lemma_members_map_value(self.members(), j);
            }
            vstd::set_lib::lemma_subset_equality(self@.dom(), other@.dom());
            assert(self@ =~= other@);
        }
        true
    }

    /// The members in the order in which they are stored. No two of them
    /// have the same key.
    pub fn entries(&self) -> (entries: &Vec<(String, JsonValue)>)
        ensures
            member_models(entries@) == self.members(),
            keys_distinct(self.members()),
    {
        proof {
            use_type_invariant(self);
        }
        &self.entries
    }

    /// The number of members, which is the number of keys.
    pub fn len(&self) -> (n: usize)
        ensures
            self@.dom().finite(),
            n == self@.dom().len(),
    {
        proof {
            use_type_invariant(self);
            lemma_member_models(self.entries@);
            lemma_members_map_len(self.members());
        }
        self.entries.len()
    }
}

impl View for JsonObject {
    type V = Map<Seq<char>, JsonModel>;

    open spec fn view(&self) -> Map<Seq<char>, JsonModel> {
        members_map(self.members())
    }
}

} // verus!
