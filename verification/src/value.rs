//! The value tree that variables are expanded against: string leaves and
//! objects of named properties.

use vstd::prelude::*;

use crate::decimal::i128_to_string;
use crate::decimal::int_dec_str;
use crate::decimal::u128_to_string;

verus! {

broadcast use vstd::std_specs::vec::group_vec_axioms;

/// Relies on `char::to_string`: the one-character string of `c`.
#[verifier::external_body]
fn char_to_string(c: char) -> (r: String)
    ensures
        r@ == seq![c],
{
    c.to_string()
}

/// Object value with 0 or more named properties.
///
/// Properties are stored as a list of name/value pairs with pairwise
/// distinct names; the list order is unobservable through the public
/// operations, which treat it as a mapping.
#[derive(Debug, PartialEq, Eq, Hash)]
pub struct Object {
    /// The property list; names are pairwise distinct.
    pub entries: Vec<(String, Value)>,
}

/// Value that variables can be expanded to.
#[derive(Debug, PartialEq, Eq, Hash)]
pub enum Value {
    /// Simple string substitution.
    Text(String),
    /// Object with an additional level of path.
    Object(Object),
}

/// The mathematical model of a value: a string leaf, or a finite map
/// from property names to further values.
pub enum ValueModel {
    /// A string leaf.
    Leaf(Seq<char>),
    /// An object, as the mapping it stands for.
    Object(Map<Seq<char>, ValueModel>),
}

/// The model of a value.
pub open spec fn value_model(v: Value) -> ValueModel
    decreases v, 1int, 0int,
{
    match v {
        Value::Text(s) => ValueModel::Leaf(s@),
        Value::Object(o) => ValueModel::Object(object_model(o)),
    }
}

/// The mapping an object stands for.
pub open spec fn object_model(o: Object) -> Map<Seq<char>, ValueModel>
    decreases o, 0int, 0int,
{
    entries_model(o.entries@, o.entries@.len() as int)
}

/// The mapping the first `i` entries of a property list stand for;
/// later entries for the same name win.
pub open spec fn entries_model(s: Seq<(String, Value)>, i: int) -> Map<Seq<char>, ValueModel>
    decreases s, 2int, i,
    when 0 <= i <= s.len()
{
    if i <= 0 {
        Map::empty()
    } else {
        entries_model(s, i - 1).insert(s[i - 1].0@, value_model(s[i - 1].1))
    }
}

/// A property name is non-empty and holds no `.` separator.
pub open spec fn prop_name_ok(n: Seq<char>) -> bool {
    n.len() > 0 && !n.contains('.')
}

/// Well-formedness of a property list: names pairwise distinct and each
/// one acceptable.
pub open spec fn entries_wf(s: Seq<(String, Value)>) -> bool {
    &&& forall|i: int, j: int| 0 <= i < j < s.len() ==> #[trigger] s[i].0@ != #[trigger] s[j].0@
    &&& forall|i: int| 0 <= i < s.len() ==> prop_name_ok(#[trigger] s[i].0@)
}

/// Well-formedness of an object: its own entry list and every value
/// below it.
pub open spec fn object_wf(o: Object) -> bool
    decreases o, 0int, 0int,
{
    &&& entries_wf(o.entries@)
    &&& forall|i: int| 0 <= i < o.entries@.len() ==> value_wf(#[trigger] o.entries@[i].1)
}

/// Well-formedness of a value.
pub open spec fn value_wf(v: Value) -> bool
    decreases v, 1int, 0int,
{
    match v {
        Value::Text(_) => true,
        Value::Object(o) => object_wf(o),
    }
}

/// A name is in the model of the first `i` entries exactly when one of
/// those entries carries it.
pub proof fn lemma_entries_model_contains(s: Seq<(String, Value)>, i: int)
    requires
        0 <= i <= s.len(),
    ensures
        forall|k: Seq<char>|
            #[trigger] entries_model(s, i).contains_key(k) <==> exists|j: int|
                0 <= j < i && #[trigger] s[j].0@ == k,
    decreases i,
{
    if i > 0 {
        lemma_entries_model_contains(s, i - 1);
        assert forall|k: Seq<char>| #[trigger] entries_model(s, i).contains_key(k) implies exists|
            j: int,
        | 0 <= j < i && #[trigger] s[j].0@ == k by {
            if s[i - 1].0@ == k {
                assert(0 <= i - 1 < i && s[i - 1].0@ == k);
            } else {
                assert(entries_model(s, i - 1).contains_key(k));
                let j = choose|j: int| 0 <= j < i - 1 && #[trigger] s[j].0@ == k;
                assert(0 <= j < i && s[j].0@ == k);
            }
        }
        assert forall|k: Seq<char>|
            (exists|j: int| 0 <= j < i && #[trigger] s[j].0@ == k) implies #[trigger] entries_model(
            s,
            i,
        ).contains_key(k) by {
            let j = choose|j: int| 0 <= j < i && #[trigger] s[j].0@ == k;
            if j < i - 1 {
                assert(entries_model(s, i - 1).contains_key(k));
            }
        }
    }
}

/// Where an entry's name occurs in no later entry (up to `i`), the model
/// maps that name to that entry's value.
pub proof fn lemma_entries_model_index(s: Seq<(String, Value)>, i: int, j: int)
    requires
        0 <= j < i <= s.len(),
        forall|j2: int| j < j2 < i ==> #[trigger] s[j2].0@ != s[j].0@,
    ensures
        entries_model(s, i).contains_key(s[j].0@),
        entries_model(s, i)[s[j].0@] == value_model(s[j].1),
    decreases i,
{
    if i - 1 > j {
        lemma_entries_model_index(s, i - 1, j);
    }
}

/// The model of the first `i` entries depends only on those entries.
pub proof fn lemma_entries_model_prefix(s1: Seq<(String, Value)>, s2: Seq<(String, Value)>, i: int)
    requires
        0 <= i <= s1.len(),
        i <= s2.len(),
        forall|j: int| 0 <= j < i ==> #[trigger] s1[j] == s2[j],
    ensures
        entries_model(s1, i) == entries_model(s2, i),
    decreases i,
{
    if i > 0 {
        lemma_entries_model_prefix(s1, s2, i - 1);
    }
}

/// Overwriting the entry that carries a name, with the name unique in
/// the list, updates the model at that name.
pub proof fn lemma_entries_model_update(
    s: Seq<(String, Value)>,
    i: int,
    idx: int,
    p: (String, Value),
)
    requires
        0 <= idx < i <= s.len(),
        p.0@ == s[idx].0@,
        forall|j1: int, j2: int| 0 <= j1 < j2 < s.len() ==> #[trigger] s[j1].0@ != #[trigger] s[j2].0@,
    ensures
        entries_model(s.update(idx, p), i) == entries_model(s, i).insert(p.0@, value_model(p.1)),
    decreases i,
{
    let s2 = s.update(idx, p);
    if i - 1 == idx {
        lemma_entries_model_prefix(s2, s, idx);
        assert(entries_model(s2, i) =~= entries_model(s, i).insert(p.0@, value_model(p.1)));
    } else {
        lemma_entries_model_update(s, i - 1, idx, p);
        assert(s2[i - 1] == s[i - 1]);
        assert(s[i - 1].0@ != p.0@);
        assert(entries_model(s2, i) =~= entries_model(s, i).insert(p.0@, value_model(p.1)));
    }
}

/// Removing the entry that carries a name, with the name unique in the
/// list, removes that name from the model.
pub proof fn lemma_entries_model_remove(s: Seq<(String, Value)>, idx: int)
    requires
        0 <= idx < s.len(),
        forall|j1: int, j2: int| 0 <= j1 < j2 < s.len() ==> #[trigger] s[j1].0@ != #[trigger] s[j2].0@,
    ensures
        entries_model(s.remove(idx), s.len() - 1) == entries_model(s, s.len() as int).remove(
            s[idx].0@,
        ),
    decreases s.len() - idx,
{
    let n = s.len() as int;
    let s2 = s.remove(idx);
    if idx == n - 1 {
        lemma_entries_model_prefix(s2, s, n - 1);
        lemma_entries_model_contains(s, n - 1);
        assert(entries_model(s2, n - 1) =~= entries_model(s, n).remove(s[idx].0@));
    } else {
        assert(s.subrange(0, n - 1).remove(idx) =~= s2.subrange(0, n - 2));
        lemma_entries_model_remove(s.subrange(0, n - 1), idx);
        lemma_entries_model_prefix(s.subrange(0, n - 1), s, n - 1);
        lemma_entries_model_prefix(s2.subrange(0, n - 2), s2, n - 2);
        assert(s2[n - 2] == s[n - 1]);
        lemma_entries_model_contains(s, n);
        assert(entries_model(s2, n - 1) =~= entries_model(s, n).remove(s[idx].0@));
    }
}

/// Character-for-character string equality.
pub fn str_eq(a: &str, b: &str) -> (r: bool)
    ensures
        r == (a@ == b@),
{
    let n = a.unicode_len();
    let m = b.unicode_len();
    if n != m {
        return false;
    }
    let mut i: usize = 0;
    while i < n
        invariant
            n == a@.len(),
            n == b@.len(),
            0 <= i <= n,
            forall|j: int| 0 <= j < i ==> a@[j] == b@[j],
        decreases n - i,
    {
        if a.get_char(i) != b.get_char(i) {
            return false;
        }
        i += 1;
    }
    proof {
        assert(a@ =~= b@);
    }
    true
}

impl Object {
    /// Construct a new object with no properties.
    pub fn new() -> (r: Object)
        ensures
            object_model(r) == Map::<Seq<char>, ValueModel>::empty(),
            object_wf(r),
    {
        Object { entries: Vec::new() }
    }

    /// The position of the property with the given name, if any.
    fn find_index(&self, name: &str) -> (r: Option<usize>)
        ensures
            match r {
                Some(i) => i < self.entries@.len() && self.entries@[i as int].0@ == name@,
                None => forall|j: int|
                    0 <= j < self.entries@.len() ==> #[trigger] self.entries@[j].0@ != name@,
            },
    {
        let n = self.entries.len();
        let mut i: usize = 0;
        while i < n
            invariant
                n == self.entries@.len(),
                0 <= i <= n,
                forall|j: int| 0 <= j < i ==> #[trigger] self.entries@[j].0@ != name@,
            decreases n - i,
        {
            if str_eq(self.entries[i].0.as_str(), name) {
                return Some(i);
            }
            i += 1;
        }
        None
    }

    /// Add a property to the object, replacing any previous value under
    /// the same name.
    ///
    /// The name must be non-empty and must not contain a `.` separator.
    pub fn add_property(&mut self, name: String, value: Value)
        requires
            object_wf(*old(self)),
            prop_name_ok(name@),
            value_wf(value),
        ensures
            object_wf(*final(self)),
            object_model(*final(self)) == object_model(*old(self)).insert(
                name@,
                value_model(value),
            ),
    {
        let ghost s0 = self.entries@;
        match self.find_index(name.as_str()) {
            Some(i) => {
                self.entries.remove(i);
                self.entries.insert(i, (name, value));
                proof {
                    let p = self.entries@[i as int];
                    assert(self.entries@ =~= s0.update(i as int, p));
                    lemma_entries_model_update(s0, s0.len() as int, i as int, p);
                    assert forall|j1: int, j2: int|
                        0 <= j1 < j2 < self.entries@.len() implies #[trigger] self.entries@[j1].0@
                        != #[trigger] self.entries@[j2].0@ by {
                        assert(self.entries@[j1].0@ == s0[j1].0@);
                        assert(self.entries@[j2].0@ == s0[j2].0@);
                    }
                }
            },
            None => {
                self.entries.push((name, value));
                proof {
                    let p = self.entries@[s0.len() as int];
                    assert(self.entries@ =~= s0.push(p));
                    lemma_entries_model_prefix(self.entries@, s0, s0.len() as int);
                }
            },
        }
    }

    /// Add a property with builder syntax.
    pub fn with_property(self, name: String, value: Value) -> (r: Object)
        requires
            object_wf(self),
            prop_name_ok(name@),
            value_wf(value),
        ensures
            object_wf(r),
            object_model(r) == object_model(self).insert(name@, value_model(value)),
    {
        let mut this = self;
        this.add_property(name, value);
        this
    }

    /// Get a previously set property.
    pub fn property(&self, name: &str) -> (r: Option<&Value>)
        requires
            object_wf(*self),
        ensures
            match r {
                Some(v) => {
                    &&& object_model(*self).contains_key(name@)
                    &&& object_model(*self)[name@] == value_model(*v)
                    &&& value_wf(*v)
                },
                None => !object_model(*self).contains_key(name@),
            },
    {
        match self.find_index(name) {
            Some(i) => {
                proof {
                    lemma_entries_model_index(self.entries@, self.entries@.len() as int, i as int);
                }
                Some(&self.entries[i].1)
            },
            None => {
                proof {
                    lemma_entries_model_contains(self.entries@, self.entries@.len() as int);
                    assert(!entries_model(self.entries@, self.entries@.len() as int).contains_key(
                        name@,
                    ));
                }
                None
            },
        }
    }

    /// Take a property out of the object, removing it.
    pub fn take(&mut self, name: &str) -> (r: Option<Value>)
        requires
            object_wf(*old(self)),
        ensures
            object_wf(*final(self)),
            match r {
                Some(v) => {
                    &&& object_model(*old(self)).contains_key(name@)
                    &&& value_model(v) == object_model(*old(self))[name@]
                    &&& value_wf(v)
                    &&& object_model(*final(self)) == object_model(*old(self)).remove(name@)
                },
                None => {
                    &&& !object_model(*old(self)).contains_key(name@)
                    &&& *final(self) == *old(self)
                },
            },
    {
        let ghost s0 = self.entries@;
        match self.find_index(name) {
            Some(i) => {
                proof {
                    lemma_entries_model_index(s0, s0.len() as int, i as int);
                    lemma_entries_model_remove(s0, i as int);
                }
                let pair = self.entries.remove(i);
                proof {
                    assert forall|j1: int, j2: int|
                        0 <= j1 < j2 < self.entries@.len() implies #[trigger] self.entries@[j1].0@
                        != #[trigger] self.entries@[j2].0@ by {
                        if j1 < i {
                            assert(self.entries@[j1] == s0[j1]);
                        } else {
                            assert(self.entries@[j1] == s0[j1 + 1]);
                        }
                        if j2 < i {
                            assert(self.entries@[j2] == s0[j2]);
                        } else {
                            assert(self.entries@[j2] == s0[j2 + 1]);
                        }
                    }
                    assert forall|j: int| 0 <= j < self.entries@.len() implies prop_name_ok(
                        #[trigger] self.entries@[j].0@,
                    ) && value_wf(self.entries@[j].1) by {
                        if j < i {
                            assert(self.entries@[j] == s0[j]);
                        } else {
                            assert(self.entries@[j] == s0[j + 1]);
                        }
                    }
                }
                Some(pair.1)
            },
            None => {
                proof {
                    lemma_entries_model_contains(s0, s0.len() as int);
                    assert(!entries_model(s0, s0.len() as int).contains_key(name@));
                }
                None
            },
        }
    }
}

impl Value {
    /// A string leaf holding the given text.
    pub fn text(s: &str) -> (r: Value)
        ensures
            value_model(r) == ValueModel::Leaf(s@),
            value_wf(r),
    {
        Value::Text(s.to_owned())
    }

    /// The inner object, if the value is one.
    pub fn as_object(&self) -> (r: Option<&Object>)
        ensures
            match r {
                Some(o) => self is Object && value_model(*self) == ValueModel::Object(
                    object_model(*o),
                ),
                None => self is Text,
            },
    {
        if let Value::Object(v) = self {
            Some(v)
        } else {
            None
        }
    }

    /// The inner object, mutably, if the value is one.
    pub fn as_object_mut(&mut self) -> (r: Option<&mut Object>)
        ensures
            match r {
                Some(o) => {
                    &&& *old(self) is Object
                    &&& *o == old(self)->Object_0
                    &&& *final(self) == Value::Object(*final(o))
                },
                None => {
                    &&& *old(self) is Text
                    &&& *final(self) == *old(self)
                },
            },
    {
        if let Value::Object(v) = self {
            Some(v)
        } else {
            None
        }
    }

    /// The inner text, if the value is a string leaf.
    pub fn as_string(&self) -> (r: Option<&String>)
        ensures
            match r {
                Some(s) => self is Text && value_model(*self) == ValueModel::Leaf(s@),
                None => self is Object,
            },
    {
        if let Value::Text(v) = self {
            Some(v)
        } else {
            None
        }
    }

    /// Returns `true` if the value is an object.
    pub fn is_object(&self) -> (r: bool)
        ensures
            r == (self is Object),
    {
        match self {
            Value::Object(_) => true,
            Value::Text(_) => false,
        }
    }

    /// Returns `true` if the value is a string leaf.
    pub fn is_string(&self) -> (r: bool)
        ensures
            r == (self is Text),
    {
        match self {
            Value::Text(_) => true,
            Value::Object(_) => false,
        }
    }

    /// The value displaying the given integer in decimal.
    pub fn from_u8(v: u8) -> (r: Value)
        ensures
            value_model(r) == ValueModel::Leaf(int_dec_str(v as int)),
            value_wf(r),
    {
        Value::Text(u128_to_string(v as u128))
    }

    /// The value displaying the given integer in decimal.
    pub fn from_u16(v: u16) -> (r: Value)
        ensures
            value_model(r) == ValueModel::Leaf(int_dec_str(v as int)),
            value_wf(r),
    {
        Value::Text(u128_to_string(v as u128))
    }

    /// The value displaying the given integer in decimal.
    pub fn from_u32(v: u32) -> (r: Value)
        ensures
            value_model(r) == ValueModel::Leaf(int_dec_str(v as int)),
            value_wf(r),
    {
        Value::Text(u128_to_string(v as u128))
    }

    /// The value displaying the given integer in decimal.
    pub fn from_u64(v: u64) -> (r: Value)
        ensures
            value_model(r) == ValueModel::Leaf(int_dec_str(v as int)),
            value_wf(r),
    {
        Value::Text(u128_to_string(v as u128))
    }

    /// The value displaying the given integer in decimal.
    pub fn from_u128(v: u128) -> (r: Value)
        ensures
            value_model(r) == ValueModel::Leaf(int_dec_str(v as int)),
            value_wf(r),
    {
        Value::Text(u128_to_string(v))
    }

    /// The value displaying the given integer in decimal.
    pub fn from_usize(v: usize) -> (r: Value)
        ensures
            value_model(r) == ValueModel::Leaf(int_dec_str(v as int)),
            value_wf(r),
    {
        Value::Text(u128_to_string(v as u128))
    }

    /// The value displaying the given integer in decimal.
    pub fn from_i8(v: i8) -> (r: Value)
        ensures
            value_model(r) == ValueModel::Leaf(int_dec_str(v as int)),
            value_wf(r),
    {
        Value::Text(i128_to_string(v as i128))
    }

    /// The value displaying the given integer in decimal.
    pub fn from_i16(v: i16) -> (r: Value)
        ensures
            value_model(r) == ValueModel::Leaf(int_dec_str(v as int)),
            value_wf(r),
    {
        Value::Text(i128_to_string(v as i128))
    }

    /// The value displaying the given integer in decimal.
    pub fn from_i32(v: i32) -> (r: Value)
        ensures
            value_model(r) == ValueModel::Leaf(int_dec_str(v as int)),
            value_wf(r),
    {
        Value::Text(i128_to_string(v as i128))
    }

    /// The value displaying the given integer in decimal.
    pub fn from_i64(v: i64) -> (r: Value)
        ensures
            value_model(r) == ValueModel::Leaf(int_dec_str(v as int)),
            value_wf(r),
    {
        Value::Text(i128_to_string(v as i128))
    }

    /// The value displaying the given integer in decimal.
    pub fn from_i128(v: i128) -> (r: Value)
        ensures
            value_model(r) == ValueModel::Leaf(int_dec_str(v as int)),
            value_wf(r),
    {
        Value::Text(i128_to_string(v))
    }

    /// The value displaying the given integer in decimal.
    pub fn from_isize(v: isize) -> (r: Value)
        ensures
            value_model(r) == ValueModel::Leaf(int_dec_str(v as int)),
            value_wf(r),
    {
        Value::Text(i128_to_string(v as i128))
    }

    /// The value displaying the given truth value.
    pub fn from_bool(v: bool) -> (r: Value)
        ensures
            value_model(r) == ValueModel::Leaf(if v {
                "true"@
            } else {
                "false"@
            }),
            value_wf(r),
    {
        if v {
            Value::text("true")
        } else {
            Value::text("false")
        }
    }

    /// The value holding the given character as a one-character string.
    pub fn from_char(v: char) -> (r: Value)
        ensures
            value_model(r) == ValueModel::Leaf(seq![v]),
            value_wf(r),
    {
        Value::Text(char_to_string(v))
    }

    /// The value an optional value stands for: the value itself, or the
    /// empty string for `None`.
    pub fn from_opt(v: Option<Value>) -> (r: Value)
        requires
            v is Some ==> value_wf(v->0),
        ensures
            match v {
                Some(inner) => r == inner,
                None => value_model(r) == ValueModel::Leaf(Seq::<char>::empty()),
            },
            value_wf(r),
    {
        match v {
            Some(inner) => inner,
            None => Value::Text(String::new()),
        }
    }
}

} // verus!
