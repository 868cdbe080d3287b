//! The value tree: a closed tagged union representing any parsed JSON
//! value, together with its mathematical model.
//!
//! A number is held as its validated literal text: the grammar
//! guarantees the text is a well-formed JSON number, and a caller that
//! wants machine floating point converts the text outside the library.
//! An object is held as a sequence of key-value pairs in insertion
//! order with unique keys; a key met twice keeps its place and takes
//! the later value.

use vstd::prelude::*;
use vstd::string::StrSliceExecFns;

use crate::text::str_eq;

verus! {

broadcast use vstd::std_specs::vec::group_vec_axioms, vstd::seq::group_seq_axioms;

/// Represents a JSON value according to the JSON specification.
#[derive(Debug, PartialEq)]
pub enum JsonValue {
    /// The JSON null value.
    Null,
    /// A JSON boolean value (true or false).
    Boolean(bool),
    /// A JSON number, held as its literal text from the input.
    Number(String),
    /// A JSON string.
    String(String),
    /// A JSON array containing a list of values.
    Array(Vec<JsonValue>),
    /// A JSON object containing key-value pairs in insertion order.
    Object(Vec<(String, JsonValue)>),
}

/// The mathematical model of a JSON value tree.
pub enum SpecValue {
    /// The null value.
    Null,
    /// A boolean value.
    Bool(bool),
    /// A number, as its literal text.
    Num(Seq<char>),
    /// A string, as its decoded characters.
    Str(Seq<char>),
    /// An array of values.
    Arr(Seq<SpecValue>),
    /// An object: key-value pairs in insertion order, keys unique.
    Obj(Seq<(Seq<char>, SpecValue)>),
}

impl View for JsonValue {
    type V = SpecValue;

    open spec fn view(&self) -> SpecValue {
        value_model(*self)
    }
}

/// The model of an executable value tree.
pub open spec fn value_model(v: JsonValue) -> SpecValue
    decreases v, 0int, 0int,
{
    match v {
        JsonValue::Null => SpecValue::Null,
        JsonValue::Boolean(b) => SpecValue::Bool(b),
        JsonValue::Number(t) => SpecValue::Num(t@),
        JsonValue::String(t) => SpecValue::Str(t@),
        JsonValue::Array(a) => SpecValue::Arr(array_model(a@, 0)),
        JsonValue::Object(m) => SpecValue::Obj(pairs_model(m@, 0)),
    }
}

/// The models of the elements of an array, from index `i` on.
pub open spec fn array_model(s: Seq<JsonValue>, i: int) -> Seq<SpecValue>
    decreases s, s.len() - i, 1int,
{
    if 0 <= i < s.len() {
        seq![value_model(s[i])] + array_model(s, i + 1)
    } else {
        Seq::empty()
    }
}

/// The models of the key-value pairs of an object, from index `i` on.
pub open spec fn pairs_model(s: Seq<(String, JsonValue)>, i: int) -> Seq<(Seq<char>, SpecValue)>
    decreases s, s.len() - i, 1int,
{
    if 0 <= i < s.len() {
        seq![(s[i].0@, value_model(s[i].1))] + pairs_model(s, i + 1)
    } else {
        Seq::empty()
    }
}

/// The position of a key in a pair sequence, scanning from index `i`;
/// `-1` where the key does not occur.
pub open spec fn key_index_from(m: Seq<(Seq<char>, SpecValue)>, k: Seq<char>, i: int) -> int
    decreases m.len() - i,
{
    if !(0 <= i < m.len()) {
        -1
    } else if m[i].0 == k {
        i
    } else {
        key_index_from(m, k, i + 1)
    }
}

/// Inserts a key-value pair into an object model: a key already
/// present keeps its place and takes the new value, a new key goes to
/// the end.
pub open spec fn obj_insert(
    m: Seq<(Seq<char>, SpecValue)>,
    k: Seq<char>,
    v: SpecValue,
) -> Seq<(Seq<char>, SpecValue)> {
    let j = key_index_from(m, k, 0);
    if j == -1 {
        m.push((k, v))
    } else {
        m.update(j, (k, v))
    }
}

/// The object model built by inserting each pair of a sequence in
/// turn, later values overwriting earlier ones with an equal key.
pub open spec fn obj_from_pairs(pairs: Seq<(Seq<char>, SpecValue)>) -> Seq<
    (Seq<char>, SpecValue),
>
    decreases pairs.len(),
{
    if pairs.len() == 0 {
        Seq::empty()
    } else {
        obj_insert(obj_from_pairs(pairs.drop_last()), pairs.last().0, pairs.last().1)
    }
}

/// The length and elements of an array model, read off from the
/// element sequence.
pub proof fn lemma_array_model(s: Seq<JsonValue>, i: int)
    requires
        0 <= i <= s.len(),
    ensures
        array_model(s, i).len() == s.len() - i,
        forall|j: int| 0 <= j < s.len() - i ==> array_model(s, i)[j] == value_model(s[i + j]),
    decreases s.len() - i,
{
    if i < s.len() {
        lemma_array_model(s, i + 1);
    }
}

/// The length and elements of an object model, read off from the pair
/// sequence.
pub proof fn lemma_pairs_model(s: Seq<(String, JsonValue)>, i: int)
    requires
        0 <= i <= s.len(),
    ensures
        pairs_model(s, i).len() == s.len() - i,
        forall|j: int| 0 <= j < s.len() - i ==> pairs_model(s, i)[j] == (
            s[i + j].0@,
            value_model(s[i + j].1),
        ),
    decreases s.len() - i,
{
    if i < s.len() {
        lemma_pairs_model(s, i + 1);
    }
}

/// The position a key scan returns: either the key is absent, or the
/// position is an index holding the key.
pub proof fn lemma_key_index_from(m: Seq<(Seq<char>, SpecValue)>, k: Seq<char>, i: int)
    requires
        0 <= i,
    ensures
        key_index_from(m, k, i) == -1 || (i <= key_index_from(m, k, i) < m.len() && m[
            key_index_from(m, k, i)
        ].0 == k),
    decreases m.len() - i,
{
    if 0 <= i < m.len() && m[i].0 != k {
        lemma_key_index_from(m, k, i + 1);
    }
}

/// Folding one more pair into an object model is one insertion.
pub proof fn lemma_obj_from_pairs_snoc(ps: Seq<(Seq<char>, SpecValue)>, k: Seq<char>, v: SpecValue)
    ensures
        obj_from_pairs(ps.push((k, v))) == obj_insert(obj_from_pairs(ps), k, v),
{
    assert(ps.push((k, v)).drop_last() =~= ps);
}

/// The value under a key in an object model.
pub open spec fn obj_lookup(m: Seq<(Seq<char>, SpecValue)>, k: Seq<char>) -> Option<SpecValue> {
    let j = key_index_from(m, k, 0);
    if j == -1 {
        None
    } else {
        Some(m[j].1)
    }
}

/// Inserts a key-value pair into an object's pair vector: an equal
/// key keeps its place and takes the new value, a new key goes to the
/// end.
pub fn object_insert(pairs: &mut Vec<(String, JsonValue)>, key: String, value: JsonValue)
    ensures
        pairs_model(final(pairs)@, 0) == obj_insert(pairs_model(old(pairs)@, 0), key@, value@),
{
    proof {
        lemma_pairs_model(pairs@, 0);
    }
    let ghost m0 = pairs_model(pairs@, 0);
    let n = pairs.len();
    let mut i: usize = 0;
    while i < n
        invariant
            n == pairs@.len(),
            i <= n,
            pairs@ == old(pairs)@,
            m0 == pairs_model(pairs@, 0),
            m0.len() == n,
            forall|j: int| 0 <= j < n ==> m0[j] == (pairs@[j].0@, value_model(pairs@[j].1)),
            key_index_from(m0, key@, 0) == key_index_from(m0, key@, i as int),
        decreases n - i,
    {
        if str_eq(pairs[i].0.as_str(), key.as_str()) {
            proof {
                assert(m0[i as int].0 == key@);
                assert(key_index_from(m0, key@, i as int) == i as int);
            }
            pairs.set(i, (key, value));
            proof {
                lemma_pairs_model(pairs@, 0);
                assert(pairs_model(pairs@, 0) =~= m0.update(i as int, (key@, value@)));
            }
            return;
        }
        proof {
            assert(m0[i as int].0 != key@);
            assert(key_index_from(m0, key@, i as int) == key_index_from(m0, key@, i as int + 1));
        }
        i = i + 1;
    }
    proof {
        assert(key_index_from(m0, key@, n as int) == -1);
    }
    pairs.push((key, value));
    proof {
        lemma_pairs_model(pairs@, 0);
        assert(pairs_model(pairs@, 0) =~= m0.push((key@, value@)));
    }
}

impl JsonValue {
    /// Looks a key up in an object value: the value stored under the
    /// key, or `None` where the key is absent or the value is no
    /// object.
    pub fn get<'a>(&'a self, key: &str) -> (r: Option<&'a JsonValue>)
        ensures
            (match *self {
                JsonValue::Object(_) => (match obj_lookup(self@->Obj_0, key@) {
                    Some(v) => r matches Some(jv) && jv@ == v,
                    None => r is None,
                }),
                _ => r is None,
            }),
    {
        match self {
            JsonValue::Object(pairs) => {
                let ghost m = self@->Obj_0;
                proof {
                    lemma_pairs_model(pairs@, 0);
                }
                let n = pairs.len();
                let mut i: usize = 0;
                while i < n
                    invariant
                        n == pairs@.len(),
                        i <= n,
                        m == pairs_model(pairs@, 0),
                        self@ == SpecValue::Obj(m),
                        m.len() == n,
                        forall|j: int| 0 <= j < n ==> m[j] == (pairs@[j].0@, value_model(
                            pairs@[j].1,
                        )),
                        key_index_from(m, key@, 0) == key_index_from(m, key@, i as int),
                    decreases n - i,
                {
                    let pair = &pairs[i];
                    if str_eq(pair.0.as_str(), key) {
                        proof {
                            assert(m[i as int].0 == key@);
                            assert(key_index_from(m, key@, i as int) == i as int);
                            assert(pair.1@ == m[i as int].1);
                            assert(self@ == SpecValue::Obj(m));
                            assert(obj_lookup(m, key@) == Some(m[i as int].1));
                        }
                        return Some(&pair.1);
                    }
                    proof {
                        assert(m[i as int].0 != key@);
                        assert(key_index_from(m, key@, i as int) == key_index_from(
                            m,
                            key@,
                            i as int + 1,
                        ));
                    }
                    i += 1;
                }
                None
            },
            _ => None,
        }
    }
}

} // verus!
