//! Attribute names and their canonical order.
//!
//! A name is a piece of text, modelled as the sequence of its characters. Two names are
//! the same name exactly when they are the same sequence: no case folding, no trimming,
//! no normalisation. Names are ordered lexicographically by the code points of their
//! characters, which is also the order of their UTF-8 encodings.

use vstd::prelude::*;
use vstd::std_specs::iter::IteratorSpec;

verus! {

/// `a` comes strictly before `b` in lexicographic order: at the first position where
/// the two differ `a` holds the smaller character, or `a` ends there and `b` goes on.
pub open spec fn name_lt(a: Seq<char>, b: Seq<char>) -> bool
    decreases a.len(),
{
    if b.len() == 0 {
        false
    } else if a.len() == 0 {
        true
    } else if a[0] != b[0] {
        a[0] < b[0]
    } else {
        name_lt(a.drop_first(), b.drop_first())
    }
}

/// The two names agree before place `k`, and at place `k` the first one ends while the
/// second goes on, or holds the smaller character.
pub open spec fn comes_first_at(a: Seq<char>, b: Seq<char>, k: int) -> bool {
    &&& 0 <= k <= a.len()
    &&& k < b.len()
    &&& forall|i: int| 0 <= i < k ==> a[i] == b[i]
    &&& (k == a.len() || a[k] < b[k])
}

/// Every name of `s` comes strictly before every later one.
pub open spec fn ascending(s: Seq<Seq<char>>) -> bool {
    forall|i: int, j: int| 0 <= i < j < s.len() ==> name_lt(s[i], s[j])
}

/// No name of `s` is the empty text.
pub open spec fn all_nonempty(s: Seq<Seq<char>>) -> bool {
    forall|i: int| 0 <= i < s.len() ==> (#[trigger] s[i]).len() > 0
}

/// The texts held by a sequence of strings, in the same order.
pub open spec fn texts(v: Seq<String>) -> Seq<Seq<char>> {
    Seq::new(v.len(), |i: int| v[i]@)
}

/// How one name stands to another in the canonical order.
#[derive(Clone, Copy, Debug, PartialEq, Eq, Structural)]
pub enum NameOrder {
    /// The first name comes strictly before the second.
    Before,
    /// Both are the same name.
    Same,
    /// The first name comes strictly after the second.
    After,
}

/// What `compare_names` returns for two given names.
pub open spec fn name_order(a: Seq<char>, b: Seq<char>) -> NameOrder {
    if a == b {
        NameOrder::Same
    } else if name_lt(a, b) {
        NameOrder::Before
    } else {
        NameOrder::After
    }
}

/// One name comes before another exactly when there is a place before which they
/// agree and at which the first one ends or holds the smaller character.
pub proof fn lemma_name_lt_first_difference(a: Seq<char>, b: Seq<char>)
    ensures
        name_lt(a, b) <==> exists|k: int| comes_first_at(a, b, k),
    decreases a.len(),
{
    let a1 = a.drop_first();
    let b1 = b.drop_first();
    if a.len() > 0 && b.len() > 0 {
        lemma_name_lt_first_difference(a1, b1);
    }
    if name_lt(a, b) {
        if a.len() == 0 || a[0] != b[0] {
            assert(comes_first_at(a, b, 0));
        } else {
            let k = choose|k: int| comes_first_at(a1, b1, k);
            assert forall|i: int| 0 <= i < k + 1 implies a[i] == b[i] by {
                if i > 0 {
                    assert(a1[i - 1] == b1[i - 1]);
                }
            }
            if k < a1.len() {
                assert(a1[k] == a[k + 1] && b1[k] == b[k + 1]);
            }
            assert(comes_first_at(a, b, k + 1));
        }
    }
    if exists|k: int| comes_first_at(a, b, k) {
        let k = choose|k: int| comes_first_at(a, b, k);
        if a.len() > 0 {
            if k == 0 {
                assert(a[0] < b[0]);
            } else {
                assert(a[0] == b[0]);
                assert forall|i: int| 0 <= i < k - 1 implies a1[i] == b1[i] by {
                    assert(a[i + 1] == b[i + 1]);
                }
                if k - 1 < a1.len() {
                    assert(a1[k - 1] == a[k] && b1[k - 1] == b[k]);
                }
                assert(comes_first_at(a1, b1, k - 1));
            }
        }
    }
}

/// No name comes before itself.
pub proof fn lemma_name_lt_irreflexive(a: Seq<char>)
    ensures
        !name_lt(a, a),
    decreases a.len(),
{
    if a.len() > 0 {
        lemma_name_lt_irreflexive(a.drop_first());
    }
}

/// The order is transitive.
pub proof fn lemma_name_lt_transitive(a: Seq<char>, b: Seq<char>, c: Seq<char>)
    requires
        name_lt(a, b),
        name_lt(b, c),
    ensures
        name_lt(a, c),
    decreases a.len(),
{
    if a.len() > 0 && a[0] == b[0] && b[0] == c[0] {
        lemma_name_lt_transitive(a.drop_first(), b.drop_first(), c.drop_first());
    }
}

/// Of two different names one comes before the other.
pub proof fn lemma_name_lt_connected(a: Seq<char>, b: Seq<char>)
    requires
        a != b,
    ensures
        name_lt(a, b) || name_lt(b, a),
    decreases a.len(),
{
    if a.len() > 0 && b.len() > 0 && a[0] == b[0] {
        if a.drop_first() == b.drop_first() {
            assert(a =~= seq![a[0]] + a.drop_first());
            assert(b =~= seq![b[0]] + b.drop_first());
        }
        lemma_name_lt_connected(a.drop_first(), b.drop_first());
    } else if a.len() == 0 && b.len() == 0 {
        assert(a =~= b);
    }
}

/// Two names never come before each other.
pub proof fn lemma_name_lt_asymmetric(a: Seq<char>, b: Seq<char>)
    requires
        name_lt(a, b),
    ensures
        !name_lt(b, a),
{
    if name_lt(b, a) {
        lemma_name_lt_transitive(a, b, a);
        lemma_name_lt_irreflexive(a);
    }
}

/// Exactly one of "before", "same" and "after" holds of any two names.
pub proof fn lemma_name_order_exact(a: Seq<char>, b: Seq<char>)
    ensures
        name_order(a, b) is Before <==> name_lt(a, b),
        name_order(a, b) is Same <==> a == b,
        name_order(a, b) is After <==> name_lt(b, a),
{
    lemma_name_lt_irreflexive(a);
    if a != b {
        lemma_name_lt_connected(a, b);
        if name_lt(a, b) {
            lemma_name_lt_asymmetric(a, b);
        }
    }
}

/// An ascending sequence holds no name twice.
pub proof fn lemma_ascending_no_duplicates(s: Seq<Seq<char>>)
    requires
        ascending(s),
    ensures
        s.no_duplicates(),
{
    assert forall|i: int, j: int| 0 <= i < s.len() && 0 <= j < s.len() && i != j implies s[i]
        != s[j] by {
        if i < j {
            lemma_name_lt_irreflexive(s[i]);
        } else {
            lemma_name_lt_irreflexive(s[j]);
        }
    }
}

/// A set of names has at most one ascending enumeration: two ascending sequences that
/// hold the same names are the same sequence.
pub proof fn lemma_ascending_unique(s: Seq<Seq<char>>, t: Seq<Seq<char>>)
    requires
        ascending(s),
        ascending(t),
        s.to_set() == t.to_set(),
    ensures
        s == t,
    decreases s.len(),
{
    assert forall|x: Seq<char>| s.contains(x) <==> t.contains(x) by {
        assert(s.to_set().contains(x) == s.contains(x));
        assert(t.to_set().contains(x) == t.contains(x));
    }
    if s.len() == 0 {
        if t.len() > 0 {
            assert(t.contains(t[0]));
        }
        assert(s =~= t);
    } else {
        assert(s.contains(s[0]));
        let j = choose|j: int| 0 <= j < t.len() && t[j] == s[0];
        assert(t.contains(t[0]));
        let i = choose|i: int| 0 <= i < s.len() && s[i] == t[0];
        if j > 0 {
            // t[0] < t[j] == s[0], and t[0] == s[i] is no smaller than s[0]
            if i > 0 {
                lemma_name_lt_asymmetric(s[0], s[i]);
            } else {
                lemma_name_lt_irreflexive(s[0]);
            }
        }
        assert(s[0] == t[0]);
        let s1 = s.drop_first();
        let t1 = t.drop_first();
        assert forall|x: Seq<char>| s1.contains(x) <==> t1.contains(x) by {
            if s1.contains(x) {
                let k = choose|k: int| 0 <= k < s1.len() && s1[k] == x;
                assert(s[k + 1] == x);
                assert(s.contains(x));
                let m = choose|m: int| 0 <= m < t.len() && t[m] == x;
                if m == 0 {
                    lemma_name_lt_irreflexive(s[0]);
                }
                assert(t1[m - 1] == x);
            }
            if t1.contains(x) {
                let k = choose|k: int| 0 <= k < t1.len() && t1[k] == x;
                assert(t[k + 1] == x);
                assert(t.contains(x));
                let m = choose|m: int| 0 <= m < s.len() && s[m] == x;
                if m == 0 {
                    lemma_name_lt_irreflexive(t[0]);
                }
                assert(s1[m - 1] == x);
            }
        }
        assert(s1.to_set() =~= t1.to_set());
        assert(ascending(s1)) by {
            assert forall|a: int, b: int| 0 <= a < b < s1.len() implies name_lt(s1[a], s1[b]) by {
                assert(name_lt(s[a + 1], s[b + 1]));
            }
        }
        assert(ascending(t1)) by {
            assert forall|a: int, b: int| 0 <= a < b < t1.len() implies name_lt(t1[a], t1[b]) by {
                assert(name_lt(t[a + 1], t[b + 1]));
            }
        }
        lemma_ascending_unique(s1, t1);
        assert(s =~= seq![s[0]] + s1);
        assert(t =~= seq![t[0]] + t1);
    }
}

/// The names of a sequence are those of all but its last place, and the last.
pub(crate) proof fn lemma_names_of_drop_last(s: Seq<Seq<char>>)
    requires
        s.len() > 0,
    ensures
        s.to_set() == s.drop_last().to_set().insert(s.last()),
{
    assert(s =~= s.drop_last().push(s.last()));
    s.drop_last().lemma_push_to_set_commute(s.last());
}

/// Compares two names in the canonical order.
pub fn compare_names(a: &str, b: &str) -> (r: NameOrder)
    ensures
        r == name_order(a@, b@),
{
    let mut rest_a = a.chars();
    let mut rest_b = b.chars();
    loop
        invariant
            name_order(a@, b@) == name_order(rest_a.remaining(), rest_b.remaining()),
            rest_a.decrease() is Some,
        decreases rest_a.decrease()->0,
    {
        let ghost before_a = rest_a.remaining();
        let ghost before_b = rest_b.remaining();
        let next_a = rest_a.next();
        let next_b = rest_b.next();
        match (next_a, next_b) {
            (None, None) => {
                assert(before_a =~= before_b);
                return NameOrder::Same;
            },
            (None, Some(_)) => {
                return NameOrder::Before;
            },
            (Some(_), None) => {
                return NameOrder::After;
            },
            (Some(x), Some(y)) => {
                if x < y {
                    return NameOrder::Before;
                }
                if y < x {
                    return NameOrder::After;
                }
                proof {
                    assert(before_a =~= seq![x] + before_a.drop_first());
                    assert(before_b =~= seq![y] + before_b.drop_first());
                }
            },
        }
    }
}

/// The first place at which `name` stands among `names`, if it is one of them.
pub(crate) fn find_name(names: &Vec<String>, name: &str) -> (place: Option<usize>)
    ensures
        place matches Some(i) ==> i < names.len() && texts(names@)[i as int] == name@,
        place is Some <==> texts(names@).contains(name@),
{
    let ghost all = texts(names@);
    let mut i: usize = 0;
    while i < names.len()
        invariant
            all == texts(names@),
            0 <= i <= names.len(),
            forall|j: int| 0 <= j < i ==> all[j] != name@,
        decreases names.len() - i,
    {
        match compare_names(names[i].as_str(), name) {
            NameOrder::Same => {
                assert(all[i as int] == name@);
                return Some(i);
            },
            _ => {},
        }
        i = i + 1;
    }
    None
}

} // verus!
