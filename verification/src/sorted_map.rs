//! Maps from texts to values, in the order of the texts.

use crate::text::{compare_text, lemma_text_order, text_less, TextOrder};
use vstd::prelude::*;

verus! {

/// Whether keys stand in strictly ascending order.
pub open spec fn is_ascending<V>(pairs: Seq<(Seq<char>, V)>) -> bool {
    forall|i: int, j: int|
        0 <= i < j < pairs.len() ==> text_less(#[trigger] pairs[i].0, #[trigger] pairs[j].0)
}

/// Whether there is a pair with a given key.
pub open spec fn has_key<V>(pairs: Seq<(Seq<char>, V)>, key: Seq<char>) -> bool {
    exists|i: int| 0 <= i < pairs.len() && #[trigger] pairs[i].0 == key
}

/// The place of a key: how many of the ascending keys come before it.
pub open spec fn rank<V>(pairs: Seq<(Seq<char>, V)>, key: Seq<char>) -> int
    decreases pairs.len(),
{
    if pairs.len() == 0 {
        0
    } else if text_less(pairs.last().0, key) {
        pairs.len() as int
    } else {
        rank(pairs.drop_last(), key)
    }
}

/// The value stored under a key that is there.
pub open spec fn value_at<V>(pairs: Seq<(Seq<char>, V)>, key: Seq<char>) -> V {
    pairs[rank(pairs, key)].1
}

/// The pairs with a value stored under a key, in place of the one that was there, if any.
pub open spec fn with_value<V>(pairs: Seq<(Seq<char>, V)>, key: Seq<char>, value: V) -> Seq<
    (Seq<char>, V),
> {
    if has_key(pairs, key) {
        pairs.update(rank(pairs, key), (key, value))
    } else {
        pairs.insert(rank(pairs, key), (key, value))
    }
}

/// In ascending pairs a key's place parts smaller keys from the others, and the key, if it is
/// there, stands at its place.
pub proof fn lemma_rank_parts<V>(pairs: Seq<(Seq<char>, V)>, key: Seq<char>)
    requires
        is_ascending(pairs),
    ensures
        0 <= rank(pairs, key) <= pairs.len(),
        forall|i: int| 0 <= i < rank(pairs, key) ==> text_less(#[trigger] pairs[i].0, key),
        forall|i: int|
            rank(pairs, key) <= i < pairs.len() ==> !text_less(#[trigger] pairs[i].0, key),
        has_key(pairs, key) <==> rank(pairs, key) < pairs.len() && pairs[rank(pairs, key)].0 == key,
        forall|i: int|
            0 <= i < pairs.len() && #[trigger] pairs[i].0 == key ==> i == rank(pairs, key),
    decreases pairs.len(),
{
    if pairs.len() > 0 {
        let last = pairs.len() - 1;
        let rest = pairs.drop_last();
        assert(is_ascending(rest)) by {
            assert forall|i: int, j: int| 0 <= i < j < rest.len() implies text_less(
                #[trigger] rest[i].0,
                #[trigger] rest[j].0,
            ) by {
                assert(rest[i] == pairs[i] && rest[j] == pairs[j]);
            }
        }
        lemma_rank_parts(rest, key);
        let r = rank(pairs, key);
        assert forall|i: int| 0 <= i < r implies text_less(#[trigger] pairs[i].0, key) by {
            if text_less(pairs.last().0, key) {
                if i < last {
                    assert(text_less(pairs[i].0, pairs[last].0));
                    lemma_text_order(pairs[i].0, pairs[last].0, key);
                }
            } else {
                assert(rest[i] == pairs[i]);
            }
        }
        assert forall|i: int| r <= i < pairs.len() implies !text_less(#[trigger] pairs[i].0, key) by {
            if i < last {
                assert(rest[i] == pairs[i]);
            }
        }
        assert forall|i: int| 0 <= i < pairs.len() && #[trigger] pairs[i].0 == key implies i == r by {
            lemma_text_order(key, key, key);
            if i > r {
                assert(text_less(pairs[r].0, pairs[i].0));
            }
        }
    }
}

/// Storing a value keeps the order and changes what is found under that key alone.
pub proof fn lemma_with_value<V>(pairs: Seq<(Seq<char>, V)>, key: Seq<char>, value: V)
    requires
        is_ascending(pairs),
    ensures
        is_ascending(with_value(pairs, key, value)),
        has_key(with_value(pairs, key, value), key),
        value_at(with_value(pairs, key, value), key) == value,
        forall|k: Seq<char>|
            k != key ==> #[trigger] has_key(with_value(pairs, key, value), k) == has_key(pairs, k),
        forall|k: Seq<char>|
            k != key && has_key(pairs, k) ==> #[trigger] value_at(
                with_value(pairs, key, value),
                k,
            ) == value_at(pairs, k),
{
    let r = rank(pairs, key);
    let new = with_value(pairs, key, value);
    let shift: int = if has_key(pairs, key) {
        0
    } else {
        1
    };
    lemma_rank_parts(pairs, key);
    assert(new[r] == (key, value));
    assert forall|i: int, j: int| 0 <= i < j < new.len() implies text_less(
        #[trigger] new[i].0,
        #[trigger] new[j].0,
    ) by {
        if i != r && j != r {
            let oi = if i < r { i } else { i - shift };
            let oj = if j < r { j } else { j - shift };
            assert(new[i] == pairs[oi] && new[j] == pairs[oj]);
        } else if j == r {
            assert(new[i] == pairs[i]);
        } else {
            let oj = j - shift;
            assert(new[j] == pairs[oj]);
            lemma_text_order(key, pairs[oj].0, key);
            if shift == 0 {
                assert(pairs[r].0 == key);
            }
        }
    }
    lemma_rank_parts(new, key);
    assert(0 <= r < new.len() && new[r].0 == key);
    assert(has_key(new, key));
    assert forall|k: Seq<char>| k != key implies #[trigger] has_key(new, k) == has_key(pairs, k) by {
        if has_key(pairs, k) {
            let i = choose|i: int| 0 <= i < pairs.len() && #[trigger] pairs[i].0 == k;
            let ni = if i < r { i } else { i + shift };
            assert(new[ni] == pairs[i]);
        }
        if has_key(new, k) {
            let i = choose|i: int| 0 <= i < new.len() && #[trigger] new[i].0 == k;
            let oi = if i < r { i } else { i - shift };
            assert(new[i] == pairs[oi]);
        }
    }
    assert forall|k: Seq<char>| k != key && has_key(pairs, k) implies #[trigger] value_at(new, k)
        == value_at(pairs, k) by {
        lemma_rank_parts(pairs, k);
        let i = rank(pairs, k);
        let ni = if i < r { i } else { i + shift };
        assert(new[ni] == pairs[i]);
        lemma_rank_parts(new, k);
    }
}

/// A map from texts to values. The pairs stand in the order of their keys.
#[derive(Debug)]
pub struct SortedMap<V> {
    pairs: Vec<(String, V)>,
}

impl<V> View for SortedMap<V> {
    type V = Seq<(Seq<char>, V)>;

    closed spec fn view(&self) -> Seq<(Seq<char>, V)> {
        Seq::new(self.pairs@.len(), |i: int| (self.pairs@[i].0@, self.pairs@[i].1))
    }
}

impl<V> SortedMap<V> {
    #[verifier::type_invariant]
    spec fn well_formed(self) -> bool {
        is_ascending(self@)
    }

    /// A map without pairs.
    pub fn new() -> (r: SortedMap<V>)
        ensures
            r@ == Seq::<(Seq<char>, V)>::empty(),
    {
        let r = SortedMap { pairs: Vec::new() };
        assert(r@ =~= Seq::empty());
        r
    }

    /// The number of pairs.
    pub fn len(&self) -> (r: usize)
        ensures
            r == self@.len(),
            is_ascending(self@),
    {
        proof {
            use_type_invariant(self);
        }
        self.pairs.len()
    }

    /// Whether there are no pairs.
    pub fn is_empty(&self) -> (r: bool)
        ensures
            r == (self@.len() == 0),
    {
        self.pairs.len() == 0
    }

    /// The place of a key, by bisection, and whether the key is there.
    fn locate(pairs: &Vec<(String, V)>, key: &str, Ghost(model): Ghost<Seq<(Seq<char>, V)>>) -> (r: (
        usize,
        bool,
    ))
        requires
            model.len() == pairs@.len(),
            forall|i: int|
                0 <= i < pairs@.len() ==> (#[trigger] model[i]) == (pairs@[i].0@, pairs@[i].1),
            is_ascending(model),
        ensures
            r.0 == rank(model, key@),
            r.0 <= pairs@.len(),
            r.1 == has_key(model, key@),
    {
        let mut low: usize = 0;
        let mut high: usize = pairs.len();
        proof {
            lemma_rank_parts(model, key@);
        }
        while low < high
            invariant
                low <= rank(model, key@) <= high <= pairs@.len(),
                model.len() == pairs@.len(),
                forall|i: int|
                    0 <= i < pairs@.len() ==> (#[trigger] model[i]) == (pairs@[i].0@, pairs@[i].1),
                forall|i: int|
                    0 <= i < rank(model, key@) ==> text_less(#[trigger] model[i].0, key@),
                forall|i: int|
                    rank(model, key@) <= i < model.len() ==> !text_less(
                        #[trigger] model[i].0,
                        key@,
                    ),
            decreases high - low,
        {
            let middle: usize = low + (high - low) / 2;
            assert(model[middle as int].0 == pairs@[middle as int].0@);
            match compare_text(pairs[middle].0.as_str(), key) {
                TextOrder::Before => {
                    low = middle + 1;
                },
                _ => {
                    high = middle;
                },
            }
        }
        let found = if low < pairs.len() {
            assert(model[low as int].0 == pairs@[low as int].0@);
            compare_text(pairs[low].0.as_str(), key) == TextOrder::Same
        } else {
            false
        };
        (low, found)
    }

    /// Whether a key is there.
    pub fn contains_key(&self, key: &str) -> (r: bool)
        ensures
            r == has_key(self@, key@),
    {
        proof {
            use_type_invariant(self);
        }
        Self::locate(&self.pairs, key, Ghost(self@)).1
    }

    /// The value under a key.
    pub fn get(&self, key: &str) -> (r: Option<&V>)
        ensures
            is_ascending(self@),
            r is Some <==> has_key(self@, key@),
            r matches Some(v) ==> *v == value_at(self@, key@),
    {
        proof {
            use_type_invariant(self);
            lemma_rank_parts(self@, key@);
        }
        let (place, found) = Self::locate(&self.pairs, key, Ghost(self@));
        if found {
            Some(&self.pairs[place].1)
        } else {
            None
        }
    }

    /// Stores a value under a key.
    pub fn insert(&mut self, key: String, value: V)
        ensures
            final(self)@ == with_value(old(self)@, key@, value),
            is_ascending(old(self)@),
            is_ascending(final(self)@),
    {
        proof {
            use_type_invariant(&*self);
            lemma_rank_parts(self@, key@);
            lemma_with_value(self@, key@, value);
        }
        let ghost before = self@;
        let (place, found) = Self::locate(&self.pairs, key.as_str(), Ghost(self@));
        let mut pairs: Vec<(String, V)> = Vec::new();
        std::mem::swap(&mut pairs, &mut self.pairs);
        if found {
            pairs.set(place, (key, value));
        } else {
            pairs.insert(place, (key, value));
        }
        proof {
            let after = with_value(before, key@, value);
            assert(Seq::new(pairs@.len(), |i: int| (pairs@[i].0@, pairs@[i].1)) =~= after);
        }
        self.pairs = pairs;
    }

    /// The pairs in the order of their keys.
    pub fn into_pairs(self) -> (r: Vec<(String, V)>)
        ensures
            r@.len() == self@.len(),
            forall|i: int|
                0 <= i < r@.len() ==> self@[i] == (#[trigger] r@[i].0@, r@[i].1),
            is_ascending(self@),
    {
        proof {
            use_type_invariant(&self);
        }
        self.pairs
    }

    /// The pair at a place.
    pub fn pair(&self, i: usize) -> (r: (&String, &V))
        requires
            i < self@.len(),
        ensures
            self@[i as int] == (r.0@, *r.1),
    {
        (&self.pairs[i].0, &self.pairs[i].1)
    }
}

/// What is stored under a key, or nothing.
pub open spec fn items_at<T>(pairs: Seq<(Seq<char>, Vec<T>)>, key: Seq<char>) -> Seq<T> {
    if has_key(pairs, key) {
        value_at(pairs, key)@
    } else {
        Seq::empty()
    }
}

impl<T> SortedMap<Vec<T>> {
    /// Appends an item to the list under a key, which starts out empty.
    pub fn push_under(&mut self, key: String, item: T)
        ensures
            exists|list: Vec<T>| #[trigger]
                list@ == items_at(old(self)@, key@).push(item) && final(self)@ == with_value(
                    old(self)@,
                    key@,
                    list,
                ),
            is_ascending(old(self)@),
            is_ascending(final(self)@),
    {
        proof {
            use_type_invariant(&*self);
            lemma_rank_parts(self@, key@);
        }
        let ghost before = self@;
        let ghost key_text = key@;
        let (place, found) = Self::locate(&self.pairs, key.as_str(), Ghost(self@));
        let mut pairs: Vec<(String, Vec<T>)> = Vec::new();
        std::mem::swap(&mut pairs, &mut self.pairs);
        if found {
            pairs[place].1.push(item);
        } else {
            let mut list: Vec<T> = Vec::new();
            list.push(item);
            pairs.insert(place, (key, list));
        }
        proof {
            let list = pairs@[place as int].1;
            lemma_with_value(before, key_text, list);
            let after = with_value(before, key_text, list);
            assert(Seq::new(pairs@.len(), |i: int| (pairs@[i].0@, pairs@[i].1)) =~= after);
            assert(list@ =~= items_at(before, key_text).push(item));
        }
        self.pairs = pairs;
    }
}

/// The pairs with every value replaced by what a function makes of it.
pub open spec fn mapped<V, W>(pairs: Seq<(Seq<char>, V)>, f: spec_fn(V) -> W) -> Seq<
    (Seq<char>, W),
> {
    Seq::new(pairs.len(), |i: int| (pairs[i].0, f(pairs[i].1)))
}

/// Replacing values leaves keys and places alone.
pub proof fn lemma_mapped<V, W>(pairs: Seq<(Seq<char>, V)>, f: spec_fn(V) -> W, key: Seq<char>)
    ensures
        rank(mapped(pairs, f), key) == rank(pairs, key),
        has_key(mapped(pairs, f), key) == has_key(pairs, key),
        is_ascending(pairs) <==> is_ascending(mapped(pairs, f)),
        is_ascending(pairs) && has_key(pairs, key) ==> value_at(mapped(pairs, f), key) == f(
            value_at(pairs, key),
        ),
    decreases pairs.len(),
{
    let m = mapped(pairs, f);
    if pairs.len() > 0 {
        assert(m.drop_last() =~= mapped(pairs.drop_last(), f));
        lemma_mapped(pairs.drop_last(), f, key);
    }
    if has_key(pairs, key) {
        let i = choose|i: int| 0 <= i < pairs.len() && #[trigger] pairs[i].0 == key;
        assert(m[i].0 == key);
    }
    if has_key(m, key) {
        let i = choose|i: int| 0 <= i < m.len() && #[trigger] m[i].0 == key;
        assert(pairs[i].0 == key);
    }
    if is_ascending(m) {
        assert forall|i: int, j: int| 0 <= i < j < pairs.len() implies text_less(
            #[trigger] pairs[i].0,
            #[trigger] pairs[j].0,
        ) by {
            assert(text_less(m[i].0, m[j].0));
        }
    }
    if is_ascending(pairs) {
        lemma_rank_parts(pairs, key);
    }
}

/// Storing a value and replacing values commute.
pub proof fn lemma_mapped_with_value<V, W>(
    pairs: Seq<(Seq<char>, V)>,
    f: spec_fn(V) -> W,
    key: Seq<char>,
    value: V,
)
    requires
        is_ascending(pairs),
    ensures
        mapped(with_value(pairs, key, value), f) == with_value(mapped(pairs, f), key, f(value)),
{
    lemma_mapped(pairs, f, key);
    lemma_rank_parts(pairs, key);
    assert(mapped(with_value(pairs, key, value), f) =~= with_value(mapped(pairs, f), key, f(value)));
}

} // verus!
