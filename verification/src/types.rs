//! The value model: the tagged union `MalData` that the reader produces and
//! the evaluator consumes, its restricted hash-map key type, and the ghost
//! mirror `SpecVal` that contracts speak about.

use vstd::prelude::*;

verus! {

/// The built-in operations that `load_builtins` installs in the root
/// environment. These are the only callable values at this stage; there are
/// no user-defined functions.
#[derive(Clone, Copy, PartialEq, Eq, Structural, Debug)]
pub enum MalNativeFunction {
    Add,
    Sub,
    Mul,
    Div,
}

/// One datum: an atom, a sequence, a hash-map, or a built-in function.
///
/// A hash-map is held as a vector of key/value pairs with unique keys; a
/// later `insert` of an existing key overwrites the earlier value in place.
#[derive(Debug)]
pub enum MalData {
    List(Vec<MalData>),
    Vector(Vec<MalData>),
    HashMap(Vec<(MalHashMapKey, MalData)>),
    Integer(i64),
    Symbol(String),
    Nil,
    True,
    False,
    String(String),
    Keyword(String),
    MalNativeFunction(MalNativeFunction),
}

/// The restricted key type of a hash-map: exactly a string or a keyword.
#[derive(Debug)]
pub enum MalHashMapKey {
    String(String),
    Keyword(String),
}

/// Ghost mirror of `MalHashMapKey`: text as a sequence of characters.
pub enum SpecKey {
    String(Seq<char>),
    Keyword(Seq<char>),
}

/// Ghost mirror of `MalData`: the mathematical value of a datum, with text
/// as `Seq<char>`, integers as `int`, and children as `Seq`.
pub enum SpecVal {
    List(Seq<SpecVal>),
    Vector(Seq<SpecVal>),
    HashMap(Seq<(SpecKey, SpecVal)>),
    Integer(int),
    Symbol(Seq<char>),
    Nil,
    True,
    False,
    String(Seq<char>),
    Keyword(Seq<char>),
    NativeFunction(MalNativeFunction),
}

impl View for MalHashMapKey {
    type V = SpecKey;

    open spec fn view(&self) -> SpecKey {
        match self {
            MalHashMapKey::String(s) => SpecKey::String(s@),
            MalHashMapKey::Keyword(s) => SpecKey::Keyword(s@),
        }
    }
}

impl View for MalData {
    type V = SpecVal;

    open spec fn view(&self) -> SpecVal
        decreases self, 1int,
    {
        match self {
            MalData::List(items) => {
                proof {
                    assert(decreases_to!(*self => *items));
                    assert(decreases_to!(*items => items@));
                }
                SpecVal::List(items_view(items@))
            },
            MalData::Vector(items) => {
                proof {
                    assert(decreases_to!(*self => *items));
                    assert(decreases_to!(*items => items@));
                }
                SpecVal::Vector(items_view(items@))
            },
            MalData::HashMap(pairs) => {
                proof {
                    assert(decreases_to!(*self => *pairs));
                    assert(decreases_to!(*pairs => pairs@));
                }
                SpecVal::HashMap(pairs_view(pairs@))
            },
            MalData::Integer(n) => SpecVal::Integer(*n as int),
            MalData::Symbol(s) => SpecVal::Symbol(s@),
            MalData::Nil => SpecVal::Nil,
            MalData::True => SpecVal::True,
            MalData::False => SpecVal::False,
            MalData::String(s) => SpecVal::String(s@),
            MalData::Keyword(s) => SpecVal::Keyword(s@),
            MalData::MalNativeFunction(f) => SpecVal::NativeFunction(*f),
        }
    }
}

/// Element-wise ghost view of a sequence of data.
pub open spec fn items_view(items: Seq<MalData>) -> Seq<SpecVal>
    decreases items, 0int,
{
    if items.len() == 0 {
        Seq::empty()
    } else {
        items_view(items.drop_last()).push(items.last()@)
    }
}

/// Element-wise ghost view of a sequence of hash-map entries.
pub open spec fn pairs_view(pairs: Seq<(MalHashMapKey, MalData)>) -> Seq<(SpecKey, SpecVal)>
    decreases pairs, 0int,
{
    if pairs.len() == 0 {
        Seq::empty()
    } else {
        pairs_view(pairs.drop_last()).push((pairs.last().0@, pairs.last().1@))
    }
}

/// `items_view` is the element-wise image of its argument.
pub broadcast proof fn lemma_items_view(items: Seq<MalData>)
    ensures
        #[trigger] items_view(items).len() == items.len(),
        forall|i: int| 0 <= i < items.len() ==> items_view(items)[i] == items[i]@,
    decreases items.len(),
{
    if items.len() > 0 {
        lemma_items_view(items.drop_last());
        assert(items_view(items) == items_view(items.drop_last()).push(items.last()@));
        assert forall|i: int| 0 <= i < items.len() implies items_view(items)[i] == items[i]@ by {
            if i < items.len() - 1 {
                assert(items_view(items)[i] == items_view(items.drop_last())[i]);
                assert(items.drop_last()[i] == items[i]);
            } else {
                assert(items[i] == items.last());
            }
        }
    }
}

impl MalHashMapKey {
    /// Restricts a value to a hash-map key: only strings and keywords
    /// convert; anything else is `InvalidHashMapKey`.
    pub fn try_from(value: MalData) -> (r: Result<MalHashMapKey, crate::error::MalError>)
        ensures
            match r {
                Ok(k) => crate::reader::key_of(value@) == Some(k@),
                Err(e) => crate::reader::key_of(value@) is None && e@
                    == crate::error::SpecErr::InvalidHashMapKey,
            },
    {
        match value {
            MalData::String(string) => Ok(MalHashMapKey::String(string)),
            MalData::Keyword(keyword) => Ok(MalHashMapKey::Keyword(keyword)),
            _ => Err(crate::error::MalError::InvalidHashMapKey),
        }
    }
}

impl From<MalHashMapKey> for MalData {
    /// A hash-map key, as the string or keyword value it stands for.
    fn from(value: MalHashMapKey) -> (r: MalData) {
        match value {
            MalHashMapKey::String(string) => MalData::String(string),
            MalHashMapKey::Keyword(keyword) => MalData::Keyword(keyword),
        }
    }
}

impl vstd::std_specs::convert::FromSpecImpl<MalHashMapKey> for MalData {
    open spec fn obeys_from_spec() -> bool {
        true
    }

    open spec fn from_spec(value: MalHashMapKey) -> MalData {
        match value {
            MalHashMapKey::String(string) => MalData::String(string),
            MalHashMapKey::Keyword(keyword) => MalData::Keyword(keyword),
        }
    }
}

/// Character-wise string comparison.
pub fn str_eq(a: &str, b: &str) -> (r: bool)
    ensures
        r == (a@ == b@),
{
    let n = a.unicode_len();
    if n != b.unicode_len() {
        return false;
    }
    for j in 0..n
        invariant
            n == a@.len(),
            n == b@.len(),
            forall|i: int| 0 <= i < j ==> a@[i] == b@[i],
    {
        if a.get_char(j) != b.get_char(j) {
            return false;
        }
    }
    proof {
        assert(a@ =~= b@);
    }
    true
}

/// The characters of a string slice, as a vector.
pub fn str_to_chars(s: &str) -> (r: Vec<char>)
    ensures
        r@ == s@,
{
    let n = s.unicode_len();
    let mut r: Vec<char> = Vec::new();
    for j in 0..n
        invariant
            n == s@.len(),
            r@ == s@.take(j as int),
    {
        r.push(s.get_char(j));
        proof {
            assert(s@.take(j + 1) =~= s@.take(j as int).push(s@[j as int]));
        }
    }
    proof {
        assert(s@.take(n as int) =~= s@);
    }
    r
}

/// Relies on `core::iter::Iterator::collect` for `String`: it builds the
/// string holding exactly the iterated characters, in order.
#[verifier::external_body]
pub(crate) fn chars_to_string(chars: &Vec<char>) -> (r: String)
    ensures
        r@ == chars@,
{
    chars.iter().collect()
}

impl Clone for MalHashMapKey {
    fn clone(&self) -> (res: Self)
        ensures
            res@ == self@,
    {
        match self {
            MalHashMapKey::String(s) => MalHashMapKey::String(s.clone()),
            MalHashMapKey::Keyword(s) => MalHashMapKey::Keyword(s.clone()),
        }
    }
}

impl Clone for MalData {
    /// A deep copy: the clone has the same ghost value as the original.
    fn clone(&self) -> (res: Self)
        ensures
            res@ == self@,
        decreases self, 1int,
    {
        match self {
            MalData::List(items) => {
                let cloned = clone_items(items);
                proof {
                    lemma_items_view(cloned@);
                    lemma_items_view(items@);
                    assert(items_view(cloned@) =~= items_view(items@));
                }
                MalData::List(cloned)
            },
            MalData::Vector(items) => {
                let cloned = clone_items(items);
                proof {
                    lemma_items_view(cloned@);
                    lemma_items_view(items@);
                    assert(items_view(cloned@) =~= items_view(items@));
                }
                MalData::Vector(cloned)
            },
            MalData::HashMap(pairs) => {
                let cloned = clone_pairs(pairs);
                proof {
                    lemma_pairs_view(cloned@);
                    lemma_pairs_view(pairs@);
                    assert(pairs_view(cloned@) =~= pairs_view(pairs@));
                }
                MalData::HashMap(cloned)
            },
            MalData::Integer(n) => MalData::Integer(*n),
            MalData::Symbol(s) => MalData::Symbol(s.clone()),
            MalData::Nil => MalData::Nil,
            MalData::True => MalData::True,
            MalData::False => MalData::False,
            MalData::String(s) => MalData::String(s.clone()),
            MalData::Keyword(s) => MalData::Keyword(s.clone()),
            MalData::MalNativeFunction(f) => MalData::MalNativeFunction(*f),
        }
    }
}

fn clone_items(items: &Vec<MalData>) -> (res: Vec<MalData>)
    ensures
        res@.len() == items@.len(),
        forall|i: int| 0 <= i < items@.len() ==> res@[i]@ == items@[i]@,
    decreases *items, 0int,
{
    let mut res: Vec<MalData> = Vec::new();
    let n = items.len();
    for k in 0..n
        invariant
            n == items@.len(),
            res@.len() == k,
            forall|i: int| 0 <= i < k ==> res@[i]@ == items@[i]@,
    {
        proof {
            assert(decreases_to!(*items => items@));
            assert(decreases_to!(items@ => items@[k as int]));
        }
        res.push(items[k].clone());
    }
    res
}

fn clone_pairs(pairs: &Vec<(MalHashMapKey, MalData)>) -> (res: Vec<(MalHashMapKey, MalData)>)
    ensures
        res@.len() == pairs@.len(),
        forall|i: int| 0 <= i < pairs@.len() ==> res@[i].0@ == pairs@[i].0@ && res@[i].1@
            == pairs@[i].1@,
    decreases *pairs, 0int,
{
    let mut res: Vec<(MalHashMapKey, MalData)> = Vec::new();
    let n = pairs.len();
    for k in 0..n
        invariant
            n == pairs@.len(),
            res@.len() == k,
            forall|i: int| 0 <= i < k ==> res@[i].0@ == pairs@[i].0@ && res@[i].1@ == pairs@[i].1@,
    {
        proof {
            assert(decreases_to!(*pairs => pairs@));
            assert(decreases_to!(pairs@ => pairs@[k as int]));
            assert(decreases_to!(pairs@[k as int] => pairs@[k as int].1));
        }
        let key = pairs[k].0.clone();
        let value = pairs[k].1.clone();
        res.push((key, value));
    }
    res
}

/// `pairs_view` is the element-wise image of its argument.
pub broadcast proof fn lemma_pairs_view(pairs: Seq<(MalHashMapKey, MalData)>)
    ensures
        #[trigger] pairs_view(pairs).len() == pairs.len(),
        forall|i: int| 0 <= i < pairs.len() ==> pairs_view(pairs)[i] == (pairs[i].0@, pairs[i].1@),
    decreases pairs.len(),
{
    if pairs.len() > 0 {
        lemma_pairs_view(pairs.drop_last());
        assert(pairs_view(pairs) == pairs_view(pairs.drop_last()).push(
            (pairs.last().0@, pairs.last().1@),
        ));
        assert forall|i: int| 0 <= i < pairs.len() implies pairs_view(pairs)[i] == (
        pairs[i].0@,
        pairs[i].1@,
        ) by {
            if i < pairs.len() - 1 {
                assert(pairs_view(pairs)[i] == pairs_view(pairs.drop_last())[i]);
                assert(pairs.drop_last()[i] == pairs[i]);
            } else {
                assert(pairs[i] == pairs.last());
            }
        }
    }
}

} // verus!
