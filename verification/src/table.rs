//! Tables from identifiers to values that add up, and the additive merge of
//! two tables.

use vstd::hash_map::StringHashMap;
use vstd::prelude::*;

verus! {

/// The texts of a list of strings.
pub open spec fn texts(strings: Seq<String>) -> Seq<Seq<char>> {
    strings.map_values(|s: String| s@)
}

/// A value that a table can hold: it stands for an amount, and amounts add up.
///
/// The amounts form a commutative monoid. Only some of them can be stored
/// (`representable`), and whenever a sum can be stored, so can its parts.
pub trait Additive: Copy {
    /// The mathematical quantity that a stored value stands for.
    type Amount;

    spec fn amount(self) -> Self::Amount;

    /// The amount of a key that a table does not hold.
    spec fn zero() -> Self::Amount;

    spec fn sum(a: Self::Amount, b: Self::Amount) -> Self::Amount;

    /// Whether some stored value stands for `a`.
    spec fn representable(a: Self::Amount) -> bool;

    proof fn lemma_amount_determines(a: Self, b: Self)
        requires
            a.amount() == b.amount(),
        ensures
            a == b,
    ;

    proof fn lemma_zero_is_neutral(a: Self::Amount)
        ensures
            Self::sum(a, Self::zero()) == a,
    ;

    proof fn lemma_sum_commutative(a: Self::Amount, b: Self::Amount)
        ensures
            Self::sum(a, b) == Self::sum(b, a),
    ;

    proof fn lemma_sum_associative(a: Self::Amount, b: Self::Amount, c: Self::Amount)
        ensures
            Self::sum(Self::sum(a, b), c) == Self::sum(a, Self::sum(b, c)),
    ;

    proof fn lemma_parts_representable(a: Self::Amount, b: Self::Amount)
        requires
            Self::representable(Self::sum(a, b)),
        ensures
            Self::representable(a),
            Self::representable(b),
    ;

    /// A stored value for the amount zero.
    fn zeroed() -> (r: Self)
        ensures
            r.amount() == Self::zero(),
    ;

    /// The stored value of the sum, where there is one.
    fn checked_sum(self, other: Self) -> (r: Option<Self>)
        ensures
            r is Some <==> Self::representable(Self::sum(self.amount(), other.amount())),
            r matches Some(v) ==> v.amount() == Self::sum(self.amount(), other.amount()),
    ;
}

impl Additive for u64 {
    type Amount = nat;

    open spec fn amount(self) -> nat {
        self as nat
    }

    open spec fn zero() -> nat {
        0
    }

    open spec fn sum(a: nat, b: nat) -> nat {
        a + b
    }

    open spec fn representable(a: nat) -> bool {
        a <= u64::MAX
    }

    proof fn lemma_amount_determines(a: u64, b: u64) {
    }

    proof fn lemma_zero_is_neutral(a: nat) {
    }

    proof fn lemma_sum_commutative(a: nat, b: nat) {
    }

    proof fn lemma_sum_associative(a: nat, b: nat, c: nat) {
    }

    proof fn lemma_parts_representable(a: nat, b: nat) {
    }

    fn zeroed() -> (r: u64) {
        0
    }

    fn checked_sum(self, other: u64) -> (r: Option<u64>) {
        self.checked_add(other)
    }
}

/// The amount that `table` gives for `key`: the one it holds, or zero.
pub open spec fn amount_at<T: Additive>(
    table: Map<Seq<char>, T::Amount>,
    key: Seq<char>,
) -> T::Amount {
    if table.contains_key(key) {
        table[key]
    } else {
        T::zero()
    }
}

/// The additive merge of two tables: the union of their keys, and under each
/// key the sum of what the two hold for it.
pub open spec fn merged<T: Additive>(
    a: Map<Seq<char>, T::Amount>,
    b: Map<Seq<char>, T::Amount>,
) -> Map<Seq<char>, T::Amount> {
    Map::new(
        |k: Seq<char>| a.contains_key(k) || b.contains_key(k),
        |k: Seq<char>| T::sum(amount_at::<T>(a, k), amount_at::<T>(b, k)),
    )
}

/// `table` after `amount` was added under `key`.
pub open spec fn recorded<T: Additive>(
    table: Map<Seq<char>, T::Amount>,
    key: Seq<char>,
    amount: T::Amount,
) -> Map<Seq<char>, T::Amount> {
    table.insert(key, T::sum(amount_at::<T>(table, key), amount))
}

/// Whether every sum that merging `b` into `a` forms can be stored.
pub open spec fn fits<T: Additive>(
    a: Map<Seq<char>, T::Amount>,
    b: Map<Seq<char>, T::Amount>,
) -> bool {
    forall|k: Seq<char>| #[trigger]
        b.contains_key(k) ==> T::representable(T::sum(amount_at::<T>(a, k), b[k]))
}

/// The table that a list of contributions adds up to: each contribution
/// is an identifier with an amount, and the table holds for each identifier
/// the sum of its amounts.
pub open spec fn tallied<T: Additive>(items: Seq<(Seq<char>, T::Amount)>) -> Map<
    Seq<char>,
    T::Amount,
>
    decreases items.len(),
{
    if items.len() == 0 {
        Map::empty()
    } else {
        recorded::<T>(tallied::<T>(items.drop_last()), items.last().0, items.last().1)
    }
}

/// The sum of the amounts that a list of contributions has for `key`.
pub open spec fn share<T: Additive>(items: Seq<(Seq<char>, T::Amount)>, key: Seq<char>) -> T::Amount
    decreases items.len(),
{
    if items.len() == 0 {
        T::zero()
    } else if items.last().0 == key {
        T::sum(share::<T>(items.drop_last(), key), items.last().1)
    } else {
        share::<T>(items.drop_last(), key)
    }
}

/// Whether a list of contributions has one for `key`.
pub open spec fn names<T: Additive>(items: Seq<(Seq<char>, T::Amount)>, key: Seq<char>) -> bool {
    exists|i: int| 0 <= i < items.len() && (#[trigger] items[i]).0 == key
}

/// A sum left the range of the type that holds it.
#[derive(Clone, Copy, Debug, PartialEq, Eq)]
pub struct Overflow;

/// A table from identifiers to additive values. Its view is the map from
/// each identifier to the amount held for it.
#[verifier::reject_recursive_types(T)]
pub struct Table<T: Additive> {
    keys: Vec<String>,
    values: StringHashMap<T>,
}

impl<T: Additive> View for Table<T> {
    type V = Map<Seq<char>, T::Amount>;

    closed spec fn view(&self) -> Self::V {
        Map::new(
            |k: Seq<char>| self.values@.contains_key(k),
            |k: Seq<char>| self.values@[k].amount(),
        )
    }
}

/// Whether `key` is among the first `count` of `keys`.
spec fn among(keys: Seq<String>, count: int, key: Seq<char>) -> bool {
    exists|j: int| 0 <= j < count && j < keys.len() && (#[trigger] keys[j])@ == key
}

impl<T: Additive> Table<T> {
    /// The invariant of the representation: the list of keys names each key
    /// that holds a value, once.
    pub closed spec fn wf(&self) -> bool {
        &&& forall|i: int, j: int|
            0 <= i < j < self.keys.len() ==> self.keys[i]@ != self.keys[j]@
        &&& forall|i: int|
            0 <= i < self.keys.len() ==> self.values@.contains_key(#[trigger] self.keys[i]@)
        &&& forall|k: Seq<char>| #[trigger]
            self.values@.contains_key(k) ==> exists|i: int|
                0 <= i < self.keys.len() && self.keys[i]@ == k
    }

    pub fn new() -> (r: Self)
        ensures
            r.wf(),
            r@ == Map::<Seq<char>, T::Amount>::empty(),
    {
        let r = Table { keys: Vec::new(), values: StringHashMap::new() };
        assert(r@ =~= Map::<Seq<char>, T::Amount>::empty());
        r
    }

    /// The value held for `key`, if there is one.
    pub fn get(&self, key: &str) -> (r: Option<T>)
        ensures
            r is Some <==> self@.contains_key(key@),
            r matches Some(v) ==> v.amount() == self@[key@],
    {
        match self.values.get(key) {
            Some(v) => Some(*v),
            None => None,
        }
    }

    /// The number of keys.
    pub fn len(&self) -> (r: usize)
        ensures
            r == self@.len(),
    {
        assert(self@.dom() =~= self.values@.dom());
        self.values.len()
    }

    /// The keys, each once.
    pub fn keys(&self) -> (r: &Vec<String>)
        requires
            self.wf(),
        ensures
            texts(r@).no_duplicates(),
            texts(r@).to_set() == self@.dom(),
    {
        proof {
            let names = texts(self.keys@);
            assert forall|k: Seq<char>| names.to_set().contains(k) <==> self@.dom().contains(
                k,
            ) by {
                if names.contains(k) {
                    let i = choose|i: int| 0 <= i < names.len() && names[i] == k;
                    assert(self.values@.contains_key(self.keys[i]@));
                }
                if self.values@.contains_key(k) {
                    let i = choose|i: int| 0 <= i < self.keys.len() && self.keys[i]@ == k;
                    assert(names[i] == k);
                }
            }
            assert(names.to_set() =~= self@.dom());
        }
        &self.keys
    }

    /// Adds `value` to what the table holds for `key`; a key that is new
    /// starts from zero. On overflow the table stays as it was.
    pub fn add(&mut self, key: String, value: T) -> (r: Result<(), Overflow>)
        requires
            old(self).wf(),
        ensures
            final(self).wf(),
            r is Ok <==> T::representable(
                T::sum(amount_at::<T>(old(self)@, key@), value.amount()),
            ),
            r is Ok ==> final(self)@ == recorded::<T>(old(self)@, key@, value.amount()),
            r is Err ==> final(self)@ == old(self)@,
    {
        let (held, known) = match self.values.get(key.as_str()) {
            Some(v) => (*v, true),
            None => (T::zeroed(), false),
        };
        match held.checked_sum(value) {
            Some(total) => {
                if !known {
                    self.keys.push(key.clone());
                }
                self.values.insert(key, total);
                proof {
                    let before = old(self).keys@;
                    assert forall|k: Seq<char>| #[trigger]
                        self.values@.contains_key(k) implies exists|i: int|
                        0 <= i < self.keys.len() && self.keys[i]@ == k by {
                        if k == key@ && !known {
                            assert(self.keys[before.len() as int]@ == k);
                        } else {
                            assert(old(self).values@.contains_key(k));
                            let i = choose|i: int| 0 <= i < before.len() && before[i]@ == k;
                            assert(self.keys[i]@ == k);
                        }
                    }
                    assert(self@ =~= recorded::<T>(old(self)@, key@, value.amount()));
                }
                Ok(())
            },
            None => Err(Overflow),
        }
    }

    /// Merges `other` into this table, adding up what the two hold under
    /// each key. On overflow the table stays as it was.
    pub fn merge(&mut self, other: &Table<T>) -> (r: Result<(), Overflow>)
        requires
            old(self).wf(),
            other.wf(),
        ensures
            final(self).wf(),
            r is Ok <==> fits::<T>(old(self)@, other@),
            r is Ok ==> final(self)@ == merged::<T>(old(self)@, other@),
            r is Err ==> final(self)@ == old(self)@,
    {
        let n = other.keys.len();
        let mut i: usize = 0;
        while i < n
            invariant
                self.wf(),
                other.wf(),
                *self == *old(self),
                n == other.keys.len(),
                i <= n,
                forall|k: Seq<char>|
                    among(other.keys@, i as int, k) ==> T::representable(
                        T::sum(amount_at::<T>(self@, k), #[trigger] other@[k]),
                    ),
            decreases n - i,
        {
            let key = other.keys[i].as_str();
            let theirs = match other.values.get(key) {
                Some(v) => *v,
                None => T::zeroed(),
            };
            let ours = match self.values.get(key) {
                Some(v) => *v,
                None => T::zeroed(),
            };
            assert(other@.contains_key(key@));
            if ours.checked_sum(theirs).is_none() {
                return Err(Overflow);
            }
            i += 1;
        }
        assert(fits::<T>(self@, other@)) by {
            assert forall|k: Seq<char>| #[trigger] other@.contains_key(k) implies among(
                other.keys@,
                n as int,
                k,
            ) by {}
        }
        let mut i: usize = 0;
        while i < n
            invariant
                self.wf(),
                other.wf(),
                n == other.keys.len(),
                i <= n,
                fits::<T>(old(self)@, other@),
                forall|k: Seq<char>|
                    self@.contains_key(k) <==> old(self)@.contains_key(k) || among(
                        other.keys@,
                        i as int,
                        k,
                    ),
                forall|k: Seq<char>| #[trigger]
                    self@.contains_key(k) ==> self@[k] == (if among(other.keys@, i as int, k) {
                        T::sum(amount_at::<T>(old(self)@, k), other@[k])
                    } else {
                        old(self)@[k]
                    }),
            decreases n - i,
        {
            let key = other.keys[i].clone();
            let theirs = match other.values.get(key.as_str()) {
                Some(v) => *v,
                None => T::zeroed(),
            };
            let ghost before = self@;
            assert(other@.contains_key(key@));
            assert(!among(other.keys@, i as int, key@));
            let done = self.add(key, theirs);
            assert(done is Ok);
            proof {
                assert forall|k: Seq<char>|
                    #![trigger among(other.keys@, i + 1, k)]
                    among(other.keys@, i + 1, k) <==> among(other.keys@, i as int, k) || k
                        == key@ by {
                    if among(other.keys@, i + 1, k) {
                        let j = choose|j: int|
                            0 <= j < i + 1 && j < other.keys@.len() && (
                            #[trigger] other.keys@[j])@ == k;
                        if j < i {
                            assert(among(other.keys@, i as int, k));
                        }
                    }
                    if k == key@ {
                        assert(other.keys@[i as int]@ == k);
                    }
                }
                assert forall|k: Seq<char>|
                    self@.contains_key(k) <==> old(self)@.contains_key(k) || among(
                        other.keys@,
                        i + 1,
                        k,
                    ) by {
                    assert(among(other.keys@, i + 1, k) <==> among(other.keys@, i as int, k) || k
                        == key@);
                    assert(self@.contains_key(k) <==> before.contains_key(k) || k == key@);
                }
            }
            i += 1;
        }
        proof {
            let goal = merged::<T>(old(self)@, other@);
            assert forall|k: Seq<char>| goal.contains_key(k) <==> self@.contains_key(k) by {
                assert(other@.contains_key(k) <==> among(other.keys@, n as int, k));
            }
            assert forall|k: Seq<char>| #[trigger] goal.contains_key(k) implies goal[k]
                == self@[k] by {
                assert(other@.contains_key(k) <==> among(other.keys@, n as int, k));
                if !other@.contains_key(k) {
                    T::lemma_zero_is_neutral(old(self)@[k]);
                }
            }
            assert(self@ =~= goal);
        }
        Ok(())
    }
}

} // verus!
