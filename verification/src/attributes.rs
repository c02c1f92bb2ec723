//! The claim attribute set and its builder.
//!
//! A builder accumulates attribute names one by one and is consumed by every step:
//! `add_attr` takes the builder and gives back a new one, or an error and nothing else;
//! `finalize` takes the builder and gives the frozen `AttributeSet`. The set lists its
//! names in canonical order, whatever order they were added in, so that two sets made
//! of the same names are the same list.

use vstd::prelude::*;
use crate::errors::Error;
use crate::names::{
    all_nonempty, ascending, compare_names, find_name, lemma_ascending_no_duplicates,
    lemma_ascending_unique, lemma_name_lt_irreflexive, lemma_name_lt_transitive,
    lemma_name_order_exact, lemma_names_of_drop_last, name_lt, texts, NameOrder,
};

verus! {

/// What adding `name` to the accumulated `names` gives: the error of the first rule
/// that refuses it, or the names with `name` among them.
pub open spec fn add_attr_outcome(names: Set<Seq<char>>, name: Seq<char>) -> Result<
    Set<Seq<char>>,
    Error,
> {
    if name.len() == 0 {
        Err(Error::InvalidArgument)
    } else if names.contains(name) {
        Err(Error::DuplicateAttribute)
    } else {
        Ok(names.insert(name))
    }
}

/// What adding the names of `list` one after the other to the accumulated `names`
/// gives: the error of the first step that is refused, after which nothing is left to go
/// on with, or the names accumulated by all the steps.
pub open spec fn add_all_outcome(names: Set<Seq<char>>, list: Seq<Seq<char>>) -> Result<
    Set<Seq<char>>,
    Error,
>
    decreases list.len(),
{
    if list.len() == 0 {
        Ok(names)
    } else {
        match add_attr_outcome(names, list.first()) {
            Ok(grown) => add_all_outcome(grown, list.drop_first()),
            Err(e) => Err(e),
        }
    }
}

/// What holds of the names of every attribute set: they stand in ascending order, so
/// none occurs twice, and none is the empty text.
pub open spec fn is_attribute_set(order: Seq<Seq<char>>) -> bool {
    &&& ascending(order)
    &&& all_nonempty(order)
}

/// `order` is the frozen form of the accumulated `names`: it holds exactly those names,
/// in ascending order.
pub open spec fn is_canonical_order_of(order: Seq<Seq<char>>, names: Set<Seq<char>>) -> bool {
    &&& ascending(order)
    &&& order.to_set() == names
}

/// Accumulates the names of a claim attribute set.
///
/// The builder is a single-owner value: each step takes it by value, so a builder that
/// went into a step, successful or not, cannot be used again.
#[derive(Debug)]
pub struct AttributeSetBuilder {
    names: Vec<String>,
}

impl View for AttributeSetBuilder {
    type V = Set<Seq<char>>;

    /// The names added so far, without order.
    closed spec fn view(&self) -> Set<Seq<char>> {
        texts(self.names@).to_set()
    }
}

impl AttributeSetBuilder {
    #[verifier::type_invariant]
    spec fn well_formed(self) -> bool {
        &&& texts(self.names@).no_duplicates()
        &&& all_nonempty(texts(self.names@))
    }

    /// An empty builder.
    pub fn new() -> (builder: Self)
        ensures
            builder@ == Set::<Seq<char>>::empty(),
    {
        let builder = AttributeSetBuilder { names: Vec::new() };
        assert(builder@ =~= Set::<Seq<char>>::empty());
        builder
    }

    /// The number of names added so far. As in every builder, they are finitely many
    /// and none of them is empty.
    pub fn len(&self) -> (n: usize)
        ensures
            self@.finite(),
            n == self@.len(),
            forall|name: Seq<char>| self@.contains(name) ==> name.len() > 0,
    {
        proof {
            use_type_invariant(self);
            let names = texts(self.names@);
            names.unique_seq_to_set();
            assert forall|name: Seq<char>| self@.contains(name) implies name.len() > 0 by {
                let k = choose|k: int| 0 <= k < names.len() && names[k] == name;
                assert(names[k].len() > 0);
            }
        }
        self.names.len()
    }

    /// Whether `name` was added already.
    pub fn contains(&self, name: &str) -> (found: bool)
        ensures
            found == self@.contains(name@),
    {
        find_name(&self.names, name).is_some()
    }

    /// Adds `name`, consuming the builder.
    ///
    /// An empty name is refused with `InvalidArgument`, a name that was added before
    /// with `DuplicateAttribute`; any other name is added.
    pub fn add_attr(self, name: &str) -> (res: Result<Self, Error>)
        ensures
            res matches Ok(builder) ==> add_attr_outcome(self@, name@) == Ok::<
                Set<Seq<char>>,
                Error,
            >(builder@),
            res matches Err(e) ==> add_attr_outcome(self@, name@) == Err::<Set<Seq<char>>, Error>(
                e,
            ),
    {
        if name.is_empty() {
            return Err(Error::InvalidArgument);
        }
        if self.contains(name) {
            return Err(Error::DuplicateAttribute);
        }
        proof {
            use_type_invariant(&self);
        }
        let ghost before = texts(self.names@);
        let mut names = self.names;
        names.push(name.to_owned());
        proof {
            assert(texts(names@) =~= before.push(name@));
            before.lemma_push_to_set_commute(name@);
        }
        Ok(AttributeSetBuilder { names })
    }

    /// Freezes the accumulated names into an `AttributeSet`, consuming the builder.
    ///
    /// The set holds exactly the names that were added, in ascending order.
    pub fn finalize(self) -> (set: AttributeSet)
        ensures
            is_canonical_order_of(set@, self@),
            is_attribute_set(set@),
            set@.len() == self@.len(),
    {
        proof {
            use_type_invariant(&self);
            texts(self.names@).unique_seq_to_set();
        }
        let ghost all = texts(self.names@);
        let mut pending = self.names;
        let mut sorted: Vec<String> = Vec::new();
        assert(texts(sorted@).to_set().union(texts(pending@).to_set()) =~= all.to_set());
        while pending.len() > 0
            invariant
                is_attribute_set(texts(sorted@)),
                texts(pending@).no_duplicates(),
                all_nonempty(texts(pending@)),
                texts(sorted@).to_set().disjoint(texts(pending@).to_set()),
                texts(sorted@).to_set().union(texts(pending@).to_set()) == all.to_set(),
                sorted.len() + pending.len() == all.len(),
            decreases pending.len(),
        {
            let ghost pending_before = texts(pending@);
            let ghost sorted_before = texts(sorted@);
            let name = pending.pop().unwrap();
            let ghost rest = texts(pending@);
            proof {
                assert(rest =~= pending_before.drop_last());
                assert(name@ == pending_before.last());
                lemma_names_of_drop_last(pending_before);
                assert(pending_before.to_set().contains(name@));
                assert(!rest.contains(name@)) by {
                    if rest.contains(name@) {
                        let k = choose|k: int| 0 <= k < rest.len() && rest[k] == name@;
                        assert(pending_before[k] == pending_before[pending_before.len() - 1]);
                    }
                }
            }
            let place = search(&sorted, name.as_str());
            proof {
                // the name is still pending, so it is not among the sorted ones
                lemma_position_decides_membership(place, sorted_before, name@);
                assert(place is Err);
            }
            let at = match place {
                Ok(at) => at,
                Err(at) => at,
            };
            sorted.insert(at, name);
            proof {
                let grown = texts(sorted@);
                assert(grown =~= sorted_before.insert(at as int, name@));
                lemma_insert_keeps_ascending(sorted_before, at, name@);
                assert(all_nonempty(grown)) by {
                    assert forall|i: int| 0 <= i < grown.len() implies (#[trigger] grown[i]).len()
                        > 0 by {
                        if i < at {
                            assert(grown[i] == sorted_before[i]);
                        } else if i > at {
                            assert(grown[i] == sorted_before[i - 1]);
                        }
                    }
                }
                assert(grown.to_set().disjoint(rest.to_set()));
                assert(grown.to_set().union(rest.to_set()) =~= all.to_set());
            }
        }
        proof {
            assert(texts(pending@).to_set() =~= Set::<Seq<char>>::empty());
            assert(texts(sorted@).to_set() =~= all.to_set());
        }
        AttributeSet { names: sorted }
    }
}

/// The frozen names of a claim attribute set, in canonical order.
///
/// Nothing changes a set once `AttributeSetBuilder::finalize` has made it.
#[derive(Debug)]
pub struct AttributeSet {
    names: Vec<String>,
}

impl View for AttributeSet {
    type V = Seq<Seq<char>>;

    /// The names of the set in the order in which it lists them.
    closed spec fn view(&self) -> Seq<Seq<char>> {
        texts(self.names@)
    }
}

impl AttributeSet {
    #[verifier::type_invariant]
    spec fn well_formed(self) -> bool {
        is_attribute_set(texts(self.names@))
    }

    /// The number of names in the set. As in every set, they stand in canonical order
    /// and none of them is empty.
    pub fn len(&self) -> (n: usize)
        ensures
            n == self@.len(),
            is_attribute_set(self@),
    {
        proof {
            use_type_invariant(self);
        }
        self.names.len()
    }

    /// Whether the set holds no name.
    pub fn is_empty(&self) -> (empty: bool)
        ensures
            empty == (self@.len() == 0),
    {
        self.names.len() == 0
    }

    /// The name at place `index` of the canonical order, if the set has that many.
    pub fn get(&self, index: usize) -> (name: Option<&str>)
        ensures
            index < self@.len() ==> (name matches Some(text) && text@ == self@[index as int]),
            index >= self@.len() ==> name is None,
    {
        if index < self.names.len() {
            Some(self.names[index].as_str())
        } else {
            None
        }
    }

    /// Whether `name` is one of the names of the set.
    pub fn contains(&self, name: &str) -> (found: bool)
        ensures
            found == self@.contains(name@),
    {
        proof {
            use_type_invariant(self);
        }
        let place = search(&self.names, name);
        proof {
            lemma_position_decides_membership(place, self@, name@);
        }
        place.is_ok()
    }

    /// The names of the set, in canonical order.
    pub fn names(&self) -> (list: Vec<String>)
        ensures
            texts(list@) == self@,
            is_attribute_set(self@),
    {
        proof {
            use_type_invariant(self);
        }
        let mut list: Vec<String> = Vec::new();
        let mut i: usize = 0;
        while i < self.names.len()
            invariant
                0 <= i <= self.names.len(),
                list.len() == i,
                forall|j: int| 0 <= j < i ==> list@[j]@ == self.names@[j]@,
            decreases self.names.len() - i,
        {
            list.push(self.names[i].clone());
            i = i + 1;
        }
        assert(texts(list@) =~= self@);
        list
    }

    /// Gives the set up. A released set is gone: the value was moved in here.
    pub fn release(self) {
    }
}

/// Where `name` stands in the ascending sequence `order`: `Ok` with its index if it is
/// there, `Err` with the index at which it would have to be inserted if it is not.
spec fn is_position_of(r: Result<usize, usize>, order: Seq<Seq<char>>, name: Seq<char>) -> bool {
    match r {
        Ok(i) => 0 <= i < order.len() && order[i as int] == name,
        Err(i) => {
            &&& 0 <= i <= order.len()
            &&& forall|j: int| 0 <= j < i ==> name_lt(#[trigger] order[j], name)
            &&& forall|j: int| i <= j < order.len() ==> name_lt(name, #[trigger] order[j])
        },
    }
}

/// Looks `name` up in an ascending sequence of names by bisection.
fn search(order: &Vec<String>, name: &str) -> (r: Result<usize, usize>)
    requires
        ascending(texts(order@)),
    ensures
        is_position_of(r, texts(order@), name@),
{
    let ghost names = texts(order@);
    let mut low: usize = 0;
    let mut high: usize = order.len();
    while low < high
        invariant
            names == texts(order@),
            ascending(names),
            0 <= low <= high <= order.len(),
            forall|j: int| 0 <= j < low ==> name_lt(#[trigger] names[j], name@),
            forall|j: int| high <= j < names.len() ==> name_lt(name@, #[trigger] names[j]),
        decreases high - low,
    {
        let mid: usize = low + (high - low) / 2;
        proof {
            lemma_name_order_exact(name@, names[mid as int]);
        }
        match compare_names(name, order[mid].as_str()) {
            NameOrder::Same => {
                return Ok(mid);
            },
            NameOrder::Before => {
                assert forall|j: int| mid <= j < names.len() implies name_lt(
                    name@,
                    #[trigger] names[j],
                ) by {
                    if mid < j {
                        lemma_name_lt_transitive(name@, names[mid as int], names[j]);
                    }
                }
                high = mid;
            },
            NameOrder::After => {
                assert forall|j: int| 0 <= j < mid + 1 implies name_lt(
                    #[trigger] names[j],
                    name@,
                ) by {
                    if j < mid {
                        lemma_name_lt_transitive(names[j], names[mid as int], name@);
                    }
                }
                low = mid + 1;
            },
        }
    }
    Err(low)
}

/// A name is in an ascending sequence exactly when `is_position_of` finds it there.
proof fn lemma_position_decides_membership(
    r: Result<usize, usize>,
    order: Seq<Seq<char>>,
    name: Seq<char>,
)
    requires
        is_position_of(r, order, name),
    ensures
        r is Ok <==> order.contains(name),
{
    if r is Err && order.contains(name) {
        let k = choose|k: int| 0 <= k < order.len() && order[k] == name;
        lemma_name_lt_irreflexive(name);
    }
}

/// Inserting a new name at the place `is_position_of` gives keeps the sequence
/// ascending and adds just that name.
proof fn lemma_insert_keeps_ascending(order: Seq<Seq<char>>, at: usize, name: Seq<char>)
    requires
        ascending(order),
        is_position_of(Err(at), order, name),
    ensures
        ascending(order.insert(at as int, name)),
        order.insert(at as int, name).to_set() == order.to_set().insert(name),
{
    let grown = order.insert(at as int, name);
    order.insert_ensures(at as int, name);
    assert forall|i: int, j: int| 0 <= i < j < grown.len() implies name_lt(grown[i], grown[j]) by {
        if j < at {
            assert(grown[i] == order[i] && grown[j] == order[j]);
        } else if j == at {
            assert(grown[i] == order[i]);
        } else if i < at {
            assert(grown[i] == order[i] && grown[j] == order[j - 1]);
        } else if i == at {
            assert(grown[j] == order[j - 1]);
        } else {
            assert(grown[i] == order[i - 1] && grown[j] == order[j - 1]);
        }
    }
    assert forall|x: Seq<char>| grown.contains(x) <==> (order.contains(x) || x == name) by {
        if grown.contains(x) {
            let k = choose|k: int| 0 <= k < grown.len() && grown[k] == x;
            if k < at {
                assert(order[k] == x);
            } else if k > at {
                assert(order[k - 1] == x);
            }
        }
        if order.contains(x) {
            let k = choose|k: int| 0 <= k < order.len() && order[k] == x;
            if k < at {
                assert(grown[k] == x);
            } else {
                assert(grown[k + 1] == x);
            }
        }
        if x == name {
            assert(grown[at as int] == x);
        }
    }
    assert(grown.to_set() =~= order.to_set().insert(name));
}

/// Adding names that are not empty, differ from one another and are new to the
/// accumulated `names` never fails, and accumulates exactly those names.
pub proof fn lemma_new_names_accumulate(names: Set<Seq<char>>, list: Seq<Seq<char>>)
    requires
        list.no_duplicates(),
        all_nonempty(list),
        forall|i: int| 0 <= i < list.len() ==> !names.contains(#[trigger] list[i]),
    ensures
        add_all_outcome(names, list) == Ok::<Set<Seq<char>>, Error>(names.union(list.to_set())),
    decreases list.len(),
{
    if list.len() == 0 {
        assert(names.union(list.to_set()) =~= names);
    } else {
        let head = list.first();
        let rest = list.drop_first();
        let grown = names.insert(head);
        assert(head.len() > 0);
        assert forall|i: int| 0 <= i < rest.len() implies !grown.contains(#[trigger] rest[i]) by {
            assert(rest[i] == list[i + 1]);
        }
        assert(all_nonempty(rest)) by {
            assert forall|i: int| 0 <= i < rest.len() implies (#[trigger] rest[i]).len() > 0 by {
                assert(rest[i] == list[i + 1]);
            }
        }
        lemma_new_names_accumulate(grown, rest);
        assert(grown.union(rest.to_set()) =~= names.union(list.to_set())) by {
            assert forall|x: Seq<char>| list.contains(x) <==> (x == head || rest.contains(x)) by {
                if list.contains(x) {
                    let k = choose|k: int| 0 <= k < list.len() && list[k] == x;
                    if k > 0 {
                        assert(rest[k - 1] == x);
                    }
                }
                if rest.contains(x) {
                    let k = choose|k: int| 0 <= k < rest.len() && rest[k] == x;
                    assert(list[k + 1] == x);
                }
                if x == head {
                    assert(list[0] == x);
                }
            }
        }
    }
}

/// Finalizing after distinct, non-empty names were added to an empty builder gives
/// exactly those names, each once, in ascending order.
pub proof fn lemma_finalize_after_adding(list: Seq<Seq<char>>, frozen: Seq<Seq<char>>)
    requires
        list.no_duplicates(),
        all_nonempty(list),
        add_all_outcome(Set::empty(), list) matches Ok(names) && is_canonical_order_of(
            frozen,
            names,
        ),
    ensures
        ascending(frozen),
        frozen.to_set() == list.to_set(),
        frozen.no_duplicates(),
        frozen.len() == list.len(),
{
    let empty = Set::<Seq<char>>::empty();
    lemma_new_names_accumulate(empty, list);
    assert(empty.union(list.to_set()) =~= list.to_set());
    lemma_ascending_no_duplicates(frozen);
    frozen.unique_seq_to_set();
    list.unique_seq_to_set();
}

/// However the same distinct, non-empty names are ordered when they are added to an
/// empty builder, finalizing gives one and the same set.
pub proof fn lemma_finalize_ignores_insertion_order(
    first: Seq<Seq<char>>,
    second: Seq<Seq<char>>,
    first_frozen: Seq<Seq<char>>,
    second_frozen: Seq<Seq<char>>,
)
    requires
        first.no_duplicates(),
        second.no_duplicates(),
        all_nonempty(first),
        all_nonempty(second),
        first.to_set() == second.to_set(),
        add_all_outcome(Set::empty(), first) matches Ok(names) && is_canonical_order_of(
            first_frozen,
            names,
        ),
        add_all_outcome(Set::empty(), second) matches Ok(names) && is_canonical_order_of(
            second_frozen,
            names,
        ),
    ensures
        first_frozen == second_frozen,
{
    lemma_finalize_after_adding(first, first_frozen);
    lemma_finalize_after_adding(second, second_frozen);
    lemma_ascending_unique(first_frozen, second_frozen);
}

/// A builder to which nothing was added finalizes to the set without names.
pub proof fn lemma_empty_finalizes_to_empty(frozen: Seq<Seq<char>>)
    requires
        is_canonical_order_of(frozen, Set::empty()),
    ensures
        frozen == Seq::<Seq<char>>::empty(),
{
    if frozen.len() > 0 {
        assert(frozen.contains(frozen[0]));
        assert(frozen.to_set().contains(frozen[0]));
    }
    assert(frozen =~= Seq::<Seq<char>>::empty());
}

} // verus!
