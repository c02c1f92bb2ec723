//! The claim attribute value map and its builder.
//!
//! A value map binds each attribute name to a decimal value: a non-empty string of
//! decimal digits of any length. Like the attribute set it is made by a builder that
//! every step consumes. Lookup goes by name; enumeration goes by the order in which the
//! names were added.

use vstd::prelude::*;
use vstd::std_specs::iter::IteratorSpec;
use crate::errors::Error;
use crate::names::{all_nonempty, find_name, texts};

verus! {

/// `c` is one of the ten decimal digits.
pub open spec fn is_decimal_digit(c: char) -> bool {
    '0' <= c <= '9'
}

/// Every character of `text` is a decimal digit.
pub open spec fn all_decimal_digits(text: Seq<char>) -> bool {
    forall|i: int| 0 <= i < text.len() ==> is_decimal_digit(#[trigger] text[i])
}

/// `text` is a well-formed decimal value: at least one character, decimal digits only.
/// No sign, no blank, no separator; leading zeros are digits like any other.
pub open spec fn is_decimal(text: Seq<char>) -> bool {
    text.len() > 0 && all_decimal_digits(text)
}

/// Every text of `values` is a well-formed decimal value.
pub open spec fn all_decimal(values: Seq<Seq<char>>) -> bool {
    forall|i: int| 0 <= i < values.len() ==> is_decimal(#[trigger] values[i])
}

/// The map that binds each of the distinct `names` to the value at the same place of
/// `values`.
spec fn bindings(names: Seq<Seq<char>>, values: Seq<Seq<char>>) -> Map<
    Seq<char>,
    Seq<char>,
> {
    Map::new(|name: Seq<char>| names.contains(name), |name: Seq<char>| values[names.index_of(name)])
}

/// What holds of every value map, `map` being what it binds and `order` the names in
/// the order in which they were added: the names are the keys, each once and none
/// empty, and every value is a well-formed decimal value.
pub open spec fn is_value_map(map: Map<Seq<char>, Seq<char>>, order: Seq<Seq<char>>) -> bool {
    &&& order.no_duplicates()
    &&& order.to_set() == map.dom()
    &&& all_nonempty(order)
    &&& forall|name: Seq<char>| map.contains_key(name) ==> is_decimal(#[trigger] map[name])
}

/// What adding the pair of `name` and `decimal` to the accumulated `map` gives: the
/// error of the first rule that refuses it, or the map with the pair bound.
pub open spec fn add_attr_value_outcome(
    map: Map<Seq<char>, Seq<char>>,
    name: Seq<char>,
    decimal: Seq<char>,
) -> Result<Map<Seq<char>, Seq<char>>, Error> {
    if name.len() == 0 {
        Err(Error::InvalidArgument)
    } else if !is_decimal(decimal) {
        Err(Error::InvalidNumericFormat)
    } else if map.contains_key(name) {
        Err(Error::DuplicateAttribute)
    } else {
        Ok(map.insert(name, decimal))
    }
}

/// A text is all digits exactly when its first character is a digit and the rest is
/// all digits.
proof fn lemma_digits_step(text: Seq<char>)
    requires
        text.len() > 0,
    ensures
        all_decimal_digits(text) == (is_decimal_digit(text[0]) && all_decimal_digits(
            text.drop_first(),
        )),
{
    let rest = text.drop_first();
    if is_decimal_digit(text[0]) && all_decimal_digits(rest) {
        assert forall|i: int| 0 <= i < text.len() implies is_decimal_digit(#[trigger] text[i]) by {
            if i > 0 {
                assert(text[i] == rest[i - 1]);
            }
        }
    }
    if all_decimal_digits(text) {
        assert forall|i: int| 0 <= i < rest.len() implies is_decimal_digit(#[trigger] rest[i]) by {
            assert(rest[i] == text[i + 1]);
        }
    }
}

/// Whether `text` is a well-formed decimal value.
pub fn is_decimal_text(text: &str) -> (ok: bool)
    ensures
        ok == is_decimal(text@),
{
    if text.is_empty() {
        return false;
    }
    let mut rest = text.chars();
    loop
        invariant
            text@.len() > 0,
            all_decimal_digits(text@) == all_decimal_digits(rest.remaining()),
            rest.decrease() is Some,
        decreases rest.decrease()->0,
    {
        let ghost before = rest.remaining();
        match rest.next() {
            None => {
                return true;
            },
            Some(c) => {
                proof {
                    lemma_digits_step(before);
                }
                if !('0' <= c && c <= '9') {
                    return false;
                }
            },
        }
    }
}

/// In a sequence without duplicates each name is found at its own place only.
proof fn lemma_index_of_place(names: Seq<Seq<char>>, i: int)
    requires
        names.no_duplicates(),
        0 <= i < names.len(),
    ensures
        names.contains(names[i]),
        names.index_of(names[i]) == i,
{
}

/// Binding one more pair extends the map by that pair.
proof fn lemma_bindings_push(
    names: Seq<Seq<char>>,
    values: Seq<Seq<char>>,
    name: Seq<char>,
    value: Seq<char>,
)
    requires
        names.no_duplicates(),
        names.len() == values.len(),
        !names.contains(name),
    ensures
        names.push(name).no_duplicates(),
        bindings(names.push(name), values.push(value)) == bindings(names, values).insert(
            name,
            value,
        ),
{
    let grown_names = names.push(name);
    let grown_values = values.push(value);
    assert(grown_names.no_duplicates()) by {
        assert forall|i: int, j: int|
            0 <= i < grown_names.len() && 0 <= j < grown_names.len() && i != j implies grown_names[i]
            != grown_names[j] by {
            if i < names.len() {
                assert(names.contains(names[i]));
            }
            if j < names.len() {
                assert(names.contains(names[j]));
            }
        }
    }
    let old_map = bindings(names, values);
    let new_map = bindings(grown_names, grown_values);
    assert forall|key: Seq<char>| new_map.contains_key(key) <==> old_map.insert(
        name,
        value,
    ).contains_key(key) by {
        if grown_names.contains(key) {
            let k = choose|k: int| 0 <= k < grown_names.len() && grown_names[k] == key;
            if k < names.len() {
                assert(names[k] == key);
            }
        }
        if names.contains(key) {
            let k = choose|k: int| 0 <= k < names.len() && names[k] == key;
            assert(grown_names[k] == key);
        }
        if key == name {
            assert(grown_names[names.len() as int] == key);
        }
    }
    assert forall|key: Seq<char>| new_map.contains_key(key) implies new_map[key] == old_map.insert(
        name,
        value,
    )[key] by {
        let k = grown_names.index_of(key);
        if key == name {
            lemma_index_of_place(grown_names, names.len() as int);
        } else {
            assert(names[k] == key);
            lemma_index_of_place(names, k);
        }
    }
    assert(new_map =~= old_map.insert(name, value));
}

/// The map bound from distinct, non-empty names and as many decimal values is a value
/// map with as many pairs.
proof fn lemma_bindings_valid(names: Seq<Seq<char>>, values: Seq<Seq<char>>)
    requires
        names.no_duplicates(),
        names.len() == values.len(),
        all_nonempty(names),
        all_decimal(values),
    ensures
        is_value_map(bindings(names, values), names),
        bindings(names, values).dom().finite(),
        bindings(names, values).len() == names.len(),
{
    let map = bindings(names, values);
    assert(map.dom() =~= names.to_set());
    names.unique_seq_to_set();
    assert forall|name: Seq<char>| map.contains_key(name) implies is_decimal(
        #[trigger] map[name],
    ) by {
        let k = names.index_of(name);
        assert(is_decimal(values[k]));
    }
}

/// Accumulates the pairs of a claim attribute value map.
///
/// The builder is a single-owner value: each step takes it by value, so a builder that
/// went into a step, successful or not, cannot be used again.
#[derive(Debug)]
pub struct AttributeValueMapBuilder {
    names: Vec<String>,
    values: Vec<String>,
}

impl View for AttributeValueMapBuilder {
    type V = Map<Seq<char>, Seq<char>>;

    /// The decimal value bound to each name added so far.
    closed spec fn view(&self) -> Map<Seq<char>, Seq<char>> {
        bindings(texts(self.names@), texts(self.values@))
    }
}

impl AttributeValueMapBuilder {
    #[verifier::type_invariant]
    spec fn well_formed(self) -> bool {
        &&& self.names@.len() == self.values@.len()
        &&& texts(self.names@).no_duplicates()
        &&& all_nonempty(texts(self.names@))
        &&& all_decimal(texts(self.values@))
    }

    /// The names added so far, in the order in which they were added.
    pub closed spec fn order(&self) -> Seq<Seq<char>> {
        texts(self.names@)
    }

    /// An empty builder.
    pub fn new() -> (builder: Self)
        ensures
            builder@ == Map::<Seq<char>, Seq<char>>::empty(),
            builder.order() == Seq::<Seq<char>>::empty(),
    {
        let builder = AttributeValueMapBuilder { names: Vec::new(), values: Vec::new() };
        assert(builder@ =~= Map::<Seq<char>, Seq<char>>::empty());
        assert(builder.order() =~= Seq::<Seq<char>>::empty());
        builder
    }

    /// The number of pairs added so far. As every builder, this one holds a value map
    /// in the making.
    pub fn len(&self) -> (n: usize)
        ensures
            self@.dom().finite(),
            n == self@.len(),
            is_value_map(self@, self.order()),
    {
        proof {
            use_type_invariant(self);
            lemma_bindings_valid(texts(self.names@), texts(self.values@));
        }
        self.names.len()
    }

    /// Whether a value was bound to `name` already.
    pub fn contains_key(&self, name: &str) -> (found: bool)
        ensures
            found == self@.contains_key(name@),
    {
        find_name(&self.names, name).is_some()
    }

    /// Binds `decimal` to `name`, consuming the builder.
    ///
    /// An empty name is refused with `InvalidArgument`; then a `decimal` that is not a
    /// non-empty string of decimal digits with `InvalidNumericFormat`; then a name that
    /// was bound before with `DuplicateAttribute`. Any other pair is added.
    pub fn add_attr_value(self, name: &str, decimal: &str) -> (res: Result<Self, Error>)
        ensures
            res matches Ok(builder) ==> add_attr_value_outcome(self@, name@, decimal@) == Ok::<
                Map<Seq<char>, Seq<char>>,
                Error,
            >(builder@) && builder.order() == self.order().push(name@),
            res matches Err(e) ==> add_attr_value_outcome(self@, name@, decimal@) == Err::<
                Map<Seq<char>, Seq<char>>,
                Error,
            >(e),
    {
        if name.is_empty() {
            return Err(Error::InvalidArgument);
        }
        if !is_decimal_text(decimal) {
            return Err(Error::InvalidNumericFormat);
        }
        if self.contains_key(name) {
            return Err(Error::DuplicateAttribute);
        }
        proof {
            use_type_invariant(&self);
        }
        let ghost names_before = texts(self.names@);
        let ghost values_before = texts(self.values@);
        let mut names = self.names;
        let mut values = self.values;
        names.push(name.to_owned());
        values.push(decimal.to_owned());
        proof {
            assert(texts(names@) =~= names_before.push(name@));
            assert(texts(values@) =~= values_before.push(decimal@));
            lemma_bindings_push(names_before, values_before, name@, decimal@);
        }
        Ok(AttributeValueMapBuilder { names, values })
    }

    /// Freezes the accumulated pairs into an `AttributeValueMap`, consuming the builder.
    ///
    /// The map binds the same values to the same names and enumerates them in the order
    /// in which they were added.
    pub fn finalize(self) -> (map: AttributeValueMap)
        ensures
            map@ == self@,
            map.order() == self.order(),
    {
        proof {
            use_type_invariant(&self);
        }
        AttributeValueMap { names: self.names, values: self.values }
    }
}

/// The frozen binding of decimal values to attribute names.
///
/// Nothing changes a map once `AttributeValueMapBuilder::finalize` has made it.
#[derive(Debug)]
pub struct AttributeValueMap {
    names: Vec<String>,
    values: Vec<String>,
}

impl View for AttributeValueMap {
    type V = Map<Seq<char>, Seq<char>>;

    /// The decimal value bound to each name.
    closed spec fn view(&self) -> Map<Seq<char>, Seq<char>> {
        bindings(texts(self.names@), texts(self.values@))
    }
}

impl AttributeValueMap {
    #[verifier::type_invariant]
    spec fn well_formed(self) -> bool {
        &&& self.names@.len() == self.values@.len()
        &&& texts(self.names@).no_duplicates()
        &&& all_nonempty(texts(self.names@))
        &&& all_decimal(texts(self.values@))
    }

    /// The names of the map, in the order in which they were added.
    pub closed spec fn order(&self) -> Seq<Seq<char>> {
        texts(self.names@)
    }

    /// The number of pairs in the map. As every map, this one binds a well-formed
    /// decimal value to each of its names.
    pub fn len(&self) -> (n: usize)
        ensures
            self@.dom().finite(),
            n == self@.len(),
            is_value_map(self@, self.order()),
    {
        proof {
            use_type_invariant(self);
            lemma_bindings_valid(texts(self.names@), texts(self.values@));
        }
        self.names.len()
    }

    /// Whether the map holds no pair.
    pub fn is_empty(&self) -> (empty: bool)
        ensures
            empty == (self.order().len() == 0),
            empty == (self@ == Map::<Seq<char>, Seq<char>>::empty()),
    {
        proof {
            use_type_invariant(self);
            if self.names@.len() == 0 {
                assert(self@ =~= Map::<Seq<char>, Seq<char>>::empty());
            } else {
                assert(texts(self.names@).contains(texts(self.names@)[0]));
                assert(self@.contains_key(texts(self.names@)[0]));
            }
        }
        self.names.len() == 0
    }

    /// Whether a value is bound to `name`.
    pub fn contains_key(&self, name: &str) -> (found: bool)
        ensures
            found == self@.contains_key(name@),
    {
        find_name(&self.names, name).is_some()
    }

    /// The decimal value bound to `name`, if there is one.
    pub fn get(&self, name: &str) -> (value: Option<&str>)
        ensures
            self@.contains_key(name@) ==> (value matches Some(text) && text@ == self@[name@]
                && is_decimal(text@)),
            !self@.contains_key(name@) ==> value is None,
    {
        proof {
            use_type_invariant(self);
        }
        match find_name(&self.names, name) {
            Some(i) => {
                proof {
                    lemma_index_of_place(texts(self.names@), i as int);
                    assert(is_decimal(texts(self.values@)[i as int]));
                }
                Some(self.values[i].as_str())
            },
            None => None,
        }
    }

    /// The pair at place `index` of the order in which the pairs were added, if the map
    /// has that many.
    pub fn entry(&self, index: usize) -> (pair: Option<(&str, &str)>)
        ensures
            index < self.order().len() ==> (pair matches Some((name, value)) && name@
                == self.order()[index as int] && self@.contains_key(name@) && value@
                == self@[name@]),
            index >= self.order().len() ==> pair is None,
    {
        proof {
            use_type_invariant(self);
        }
        if index < self.names.len() {
            proof {
                lemma_index_of_place(texts(self.names@), index as int);
            }
            Some((self.names[index].as_str(), self.values[index].as_str()))
        } else {
            None
        }
    }

    /// The names of the map, in the order in which they were added.
    pub fn names(&self) -> (list: Vec<String>)
        ensures
            texts(list@) == self.order(),
            is_value_map(self@, self.order()),
    {
        proof {
            use_type_invariant(self);
            lemma_bindings_valid(texts(self.names@), texts(self.values@));
        }
        let mut list: Vec<String> = Vec::new();
        let mut i: usize = 0;
        while i < self.names.len()
            invariant
                0 <= i <= self.names.len(),
                list.len() == i,
                forall|j: int| 0 <= j < i ==> list@[j]@ == self.names@[j]@,
            decreases self.names.len() - i,
        {
            list.push(self.names[i].clone());
            i = i + 1;
        }
        assert(texts(list@) =~= self.order());
        list
    }

    /// Gives the map up. A released map is gone: the value was moved in here.
    pub fn release(self) {
    }
}

} // verus!
