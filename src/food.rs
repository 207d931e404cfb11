use vstd::prelude::*;
use vstd::string::*;

use crate::names::{craving_listed, key_in, key_listed, lemma_folded_match, lower_of, name_key, name_keys};
use crate::planner::{is_variety_qualifying, variety_qualifying};
use crate::taste::{is_valid_tastiness, valid_tastiness, NEUTRAL_TASTINESS, UNKNOWN_TASTINESS};

verus! {

/// A catalog entry: a food with its cost in calories, its nutrient payload,
/// its tastiness rating, how many units are already eaten (`stomach`) and how
/// many can still be had (`available`).
///
/// Calories are whole kilocalories. The nutrient payload `A` is carried
/// through untouched; the scoring that reads it lives with the caller.
#[derive(Debug, Clone)]
pub struct Food<A> {
    pub name: String,
    pub calories: u32,
    pub nutrients: A,
    pub tastiness: i8,
    pub stomach: u32,
    pub available: u32,
}

/// The case-insensitive identity of a food.
pub open spec fn key_of<A>(f: Food<A>) -> Seq<char> {
    lower_of(f.name@)
}

/// One more unit of the food can be taken: some supply is left and the
/// eaten counter has room.
pub open spec fn consumable<A>(f: Food<A>) -> bool {
    f.available > 0 && f.stomach < u32::MAX
}

/// No two entries share a key.
pub open spec fn keys_distinct<A>(s: Seq<Food<A>>) -> bool {
    forall|i: int, j: int| 0 <= i < j < s.len() ==> key_of(#[trigger] s[i]) != key_of(#[trigger] s[j])
}

/// Entry `j` is the last one in `s` with its key.
pub open spec fn last_of_key<A>(s: Seq<Food<A>>, j: int) -> bool {
    forall|k: int| j < k < s.len() ==> key_of(#[trigger] s[k]) != key_of(s[j])
}

/// `f` is an entry of `foods` that no later entry shares its key with.
pub open spec fn kept_from<A>(foods: Seq<Food<A>>, f: Food<A>) -> bool {
    exists|j: int| 0 <= j < foods.len() && last_of_key(foods, j) && foods[j] == f
}

/// Some entry of `s` has key `key`.
pub open spec fn key_present<A>(s: Seq<Food<A>>, key: Seq<char>) -> bool {
    exists|i: int| has_key_at(s, key, i)
}

/// Entry `i` of `s` has key `key` (with distinct keys, at most one entry does).
pub open spec fn has_key_at<A>(s: Seq<Food<A>>, key: Seq<char>, i: int) -> bool {
    0 <= i < s.len() && key_of(s[i]) == key
}

/// `new` is `old` with one more unit of entry `i` taken.
pub open spec fn consumed_one<A>(old: Seq<Food<A>>, new: Seq<Food<A>>, i: int) -> bool {
    &&& 0 <= i < old.len()
    &&& new == old.update(
        i,
        Food {
            stomach: (old[i].stomach + 1) as u32,
            available: (old[i].available - 1) as u32,
            ..old[i]
        },
    )
}

impl<A> Food<A> {
    /// Build a food record.
    pub fn new(
        name: String,
        calories: u32,
        nutrients: A,
        tastiness: i8,
        stomach: u32,
        available: u32,
    ) -> (r: Self)
        ensures
            r == (Food { name, calories, nutrients, tastiness, stomach, available }),
    {
        Food { name, calories, nutrients, tastiness, stomach, available }
    }

    /// The canonical lookup key: the lower-case name.
    pub fn key(&self) -> (r: String)
        ensures
            r@ == key_of(*self),
    {
        name_key(self.name.as_str())
    }

    /// The integer parts of the record are in range: the tastiness is on
    /// the scale. Calories and counters are unsigned by type.
    pub fn is_valid(&self) -> (r: bool)
        ensures
            r == valid_tastiness(self.tastiness),
    {
        is_valid_tastiness(self.tastiness)
    }
}

/// Foods are the same food when their names match ignoring case.
impl<A> PartialEq for Food<A> {
    fn eq(&self, other: &Food<A>) -> (r: bool) {
        self.key() == other.key()
    }
}

impl<A> vstd::std_specs::cmp::PartialEqSpecImpl for Food<A> {
    open spec fn obeys_eq_spec() -> bool {
        true
    }

    open spec fn eq_spec(&self, other: &Food<A>) -> bool {
        key_of(*self) == key_of(*other)
    }
}

impl<A> Eq for Food<A> {
}

/// The errors of catalog operations.
#[derive(Debug, Clone, PartialEq, Eq)]
pub enum EcoError {
    FoodNotFound(String),
    InvalidInput(String),
    NoAvailableFoods,
}

/// The catalog: every food once, keyed case-insensitively by name.
pub struct FoodStateManager<A> {
    foods: Vec<Food<A>>,
}

impl<A> View for FoodStateManager<A> {
    type V = Seq<Food<A>>;

    closed spec fn view(&self) -> Seq<Food<A>> {
        self.foods@
    }
}

impl<A> FoodStateManager<A> {
    /// Well-formed: no two foods share a key.
    pub open spec fn wf(&self) -> bool {
        keys_distinct(self@)
    }

    /// The foods of `foods` that no later food shares a key with.
    fn keep_last(foods: Vec<Food<A>>) -> (kept: Vec<Food<A>>)
        ensures
            keys_distinct(kept@),
            forall|i: int| 0 <= i < kept@.len() ==> kept_from(foods@, #[trigger] kept@[i]),
            forall|j: int| 0 <= j < foods@.len() ==> key_present(kept@, key_of(#[trigger] foods@[j])),
    {
        let ghost all = foods@;
        let mut rest = foods;
        // The kept foods, from the last input position to the first.
        let mut picked: Vec<Food<A>> = Vec::new();
        let mut picked_keys: Vec<String> = Vec::new();
        let ghost mut src: Seq<int> = Seq::empty();
        while rest.len() > 0
            invariant
                rest@.len() <= all.len(),
                rest@ == all.take(rest@.len() as int),
                picked@.len() == picked_keys@.len(),
                picked@.len() == src.len(),
                forall|t: int| 0 <= t < picked@.len() ==> #[trigger] picked_keys@[t]@ == key_of(picked@[t]),
                forall|t: int|
                    #![trigger src[t]]
                    0 <= t < src.len() ==> rest@.len() <= src[t] < all.len() && last_of_key(all, src[t])
                        && picked@[t] == all[src[t]],
                keys_distinct(picked@),
                forall|j: int|
                    rest@.len() <= j < all.len() ==> exists|t: int|
                        0 <= t < picked@.len() && key_of(picked@[t]) == key_of(#[trigger] all[j]),
            decreases rest@.len(),
        {
            let ghost j = rest@.len() - 1;
            let f = rest.pop().unwrap();
            assert(rest@ =~= all.take(j));
            let k = name_key(f.name.as_str());
            if !key_in(k.as_str(), picked_keys.as_slice()) {
                proof {
                    assert forall|t: int| 0 <= t < picked@.len() implies key_of(#[trigger] picked@[t]) != key_of(f) by {
                        assert(picked_keys@[t]@ == key_of(picked@[t]));
                    }
                    assert forall|k2: int| j < k2 < all.len() implies key_of(#[trigger] all[k2]) != key_of(all[j]) by {
                        let t = choose|t: int| 0 <= t < picked@.len() && key_of(picked@[t]) == key_of(all[k2]);
                        assert(key_of(picked@[t]) != key_of(f));
                    }
                }
                let ghost prev = picked@;
                picked.push(f);
                picked_keys.push(k);
                proof {
                    src = src.push(j);
                    let n = prev.len() as int;
                    assert forall|j2: int| rest@.len() <= j2 < all.len() implies exists|t: int|
                        0 <= t < picked@.len() && key_of(picked@[t]) == key_of(#[trigger] all[j2]) by {
                        if j2 == j {
                            assert(key_of(picked@[n]) == key_of(all[j2]));
                        } else {
                            let t = choose|t: int| 0 <= t < n && key_of(prev[t]) == key_of(all[j2]);
                            assert(picked@[t] == prev[t]);
                        }
                    }
                }
            } else {
                proof {
                    let t = choose|t: int| 0 <= t < picked_keys@.len() && #[trigger] picked_keys@[t]@ == k@;
                    assert(key_of(picked@[t]) == key_of(all[j]));
                }
            }
        }
        // Restore input order.
        let ghost kept = picked@;
        let ghost m = kept.len() as int;
        let mut result: Vec<Food<A>> = Vec::new();
        while picked.len() > 0
            invariant
                m == kept.len(),
                picked@.len() + result@.len() == m,
                picked@ == kept.take(picked@.len() as int),
                forall|t: int| 0 <= t < result@.len() ==> #[trigger] result@[t] == kept[m - 1 - t],
            decreases picked@.len(),
        {
            let f = picked.pop().unwrap();
            result.push(f);
            assert(picked@ =~= kept.take(picked@.len() as int));
        }
        proof {
            assert forall|a: int, b: int| 0 <= a < b < result@.len() implies key_of(#[trigger] result@[a])
                != key_of(#[trigger] result@[b]) by {
                assert(result@[a] == kept[m - 1 - a]);
                assert(result@[b] == kept[m - 1 - b]);
            }
            assert forall|i: int| 0 <= i < result@.len() implies kept_from(all, #[trigger] result@[i]) by {
                assert(result@[i] == kept[m - 1 - i]);
                let w = src[m - 1 - i];
                assert(all[w] == kept[m - 1 - i]);
            }
            assert forall|j: int| 0 <= j < all.len() implies key_present(result@, key_of(#[trigger] all[j])) by {
                let t = choose|t: int| 0 <= t < m && key_of(kept[t]) == key_of(all[j]);
                assert(result@[m - 1 - t] == kept[t]);
                assert(has_key_at(result@, key_of(all[j]), m - 1 - t));
            }
        }
        result
    }

    /// Build a catalog from a list of foods. Where several foods share a key
    /// the last of them is kept.
    pub fn new(foods: Vec<Food<A>>) -> (catalog: Self)
        ensures
            catalog.wf(),
            forall|i: int| 0 <= i < catalog@.len() ==> kept_from(foods@, #[trigger] catalog@[i]),
            forall|j: int| 0 <= j < foods@.len() ==> key_present(catalog@, key_of(#[trigger] foods@[j])),
    {
        let catalog = FoodStateManager { foods: Self::keep_last(foods) };
        assert(catalog@ == catalog.foods@);
        catalog
    }

    /// Number of foods in the catalog.
    pub fn len(&self) -> (r: usize)
        ensures
            r == self@.len(),
    {
        self.foods.len()
    }

    /// Whether the catalog holds no food.
    pub fn is_empty(&self) -> (r: bool)
        ensures
            r == (self@.len() == 0),
    {
        self.foods.len() == 0
    }

    /// The food at position `i`.
    pub fn food_at(&self, i: usize) -> (r: &Food<A>)
        requires
            i < self@.len(),
        ensures
            *r == self@[i as int],
    {
        &self.foods[i]
    }

    /// Position of the food whose key is the lower-case form of `name`.
    pub fn index_of(&self, name: &str) -> (r: Option<usize>)
        requires
            self.wf(),
        ensures
            r matches Some(i) ==> has_key_at(self@, lower_of(name@), i as int),
            r is None ==> forall|i: int| 0 <= i < self@.len() ==> !has_key_at(self@, lower_of(name@), i),
    {
        let key = name_key(name);
        let mut i: usize = 0;
        while i < self.foods.len()
            invariant
                0 <= i <= self@.len(),
                key@ == lower_of(name@),
                forall|t: int| 0 <= t < i ==> !has_key_at(self@, lower_of(name@), t),
            decreases self@.len() - i,
        {
            let k = self.foods[i].key();
            if k == key {
                return Some(i);
            }
            i += 1;
        }
        None
    }

    /// The food named `name`, ignoring case.
    pub fn get_food(&self, name: &str) -> (r: Option<&Food<A>>)
        requires
            self.wf(),
        ensures
            r matches Some(f) ==> exists|i: int| has_key_at(self@, lower_of(name@), i) && *f == self@[i],
            r is None ==> forall|i: int| 0 <= i < self@.len() ==> !has_key_at(self@, lower_of(name@), i),
    {
        match self.index_of(name) {
            Some(i) => Some(&self.foods[i]),
            None => None,
        }
    }

    /// Whether one more unit of the food named `name` can be taken.
    pub fn can_consume(&self, name: &str) -> (r: bool)
        requires
            self.wf(),
        ensures
            r == exists|i: int| has_key_at(self@, lower_of(name@), i) && consumable(self@[i]),
    {
        match self.index_of(name) {
            Some(i) => {
                proof {
                    assert forall|j: int| has_key_at(self@, lower_of(name@), j) implies j == i by {
                        if j != i {
                            assert(key_of(self@[j]) != key_of(self@[i as int]));
                        }
                    }
                }
                self.foods[i].available > 0 && self.foods[i].stomach < u32::MAX
            },
            None => false,
        }
    }

    /// Take one unit of the food at position `i`.
    pub fn consume_at(&mut self, i: usize)
        requires
            i < old(self)@.len(),
            consumable(old(self)@[i as int]),
        ensures
            consumed_one(old(self)@, final(self)@, i as int),
            old(self).wf() ==> final(self).wf(),
    {
        let ghost before = self.foods@;
        self.foods[i].stomach = self.foods[i].stomach + 1;
        self.foods[i].available = self.foods[i].available - 1;
        proof {
            assert(self.foods@ =~= before.update(
                i as int,
                Food {
                    stomach: (before[i as int].stomach + 1) as u32,
                    available: (before[i as int].available - 1) as u32,
                    ..before[i as int]
                },
            ));
            assert forall|a: int| 0 <= a < self.foods@.len() implies key_of(#[trigger] self.foods@[a])
                == key_of(before[a]) by {
            }
        }
    }

    /// Take one unit of the food named `name`: its eaten count goes up by one
    /// and its supply down by one.
    pub fn consume_food(&mut self, name: &str) -> (r: Result<(), EcoError>)
        requires
            old(self).wf(),
        ensures
            final(self).wf(),
            r is Ok <==> exists|i: int| has_key_at(old(self)@, lower_of(name@), i) && consumable(old(self)@[i]),
            r is Ok ==> exists|i: int| has_key_at(old(self)@, lower_of(name@), i) && consumed_one(
                old(self)@,
                final(self)@,
                i,
            ),
            r matches Err(e) ==> final(self)@ == old(self)@,
            (r matches Err(EcoError::FoodNotFound(_))) <==> forall|i: int|
                0 <= i < old(self)@.len() ==> !has_key_at(old(self)@, lower_of(name@), i),
            r matches Err(EcoError::FoodNotFound(n)) ==> n@ == name@,
            (r matches Err(EcoError::InvalidInput(_))) <==> exists|i: int|
                has_key_at(old(self)@, lower_of(name@), i) && !consumable(old(self)@[i]),
            r matches Err(EcoError::InvalidInput(m)) ==> m@ == name@ + " has no available units"@,
            !(r matches Err(EcoError::NoAvailableFoods)),
    {
        match self.index_of(name) {
            None => Err(EcoError::FoodNotFound(name.to_owned())),
            Some(i) => {
                proof {
                    assert forall|j: int| has_key_at(self@, lower_of(name@), j) implies j == i by {
                        if j != i {
                            assert(key_of(self@[j]) != key_of(self@[i as int]));
                        }
                    }
                }
                if self.foods[i].available == 0 || self.foods[i].stomach == u32::MAX {
                    let mut message = name.to_owned();
                    message.append(" has no available units");
                    Err(EcoError::InvalidInput(message))
                } else {
                    self.consume_at(i);
                    Ok(())
                }
            },
        }
    }
}

/// The predicate `consumable`, as a value.
pub open spec fn consumable_food<A>() -> spec_fn(Food<A>) -> bool {
    |f: Food<A>| consumable(f)
}

/// The predicate `in_supply`, as a value.
pub open spec fn supplied_food<A>() -> spec_fn(Food<A>) -> bool {
    |f: Food<A>| in_supply(f)
}

/// The predicate `eaten`, as a value.
pub open spec fn eaten_food<A>() -> spec_fn(Food<A>) -> bool {
    |f: Food<A>| eaten(f)
}

/// A food that can be taken and whose key is one of `keys`.
pub open spec fn listed_food<A>(keys: Seq<String>) -> spec_fn(Food<A>) -> bool {
    |f: Food<A>| consumable(f) && key_listed(key_of(f), keys)
}

/// A food whose eaten calories reach the variety threshold.
pub open spec fn variety_food<A>() -> spec_fn(Food<A>) -> bool {
    |f: Food<A>| variety_qualifying(f.calories, f.stomach)
}

/// An eaten food that matches one of `cravings`, ignoring case.
pub open spec fn eaten_craving_food<A>(cravings: Seq<String>) -> spec_fn(Food<A>) -> bool {
    |f: Food<A>| eaten(f) && craving_listed(f.name@, cravings)
}

/// Positions of the entries of `s` that satisfy `p`, in increasing order.
pub open spec fn positions<A>(s: Seq<Food<A>>, p: spec_fn(Food<A>) -> bool) -> Seq<int>
    decreases s.len(),
{
    if s.len() == 0 {
        Seq::empty()
    } else if p(s.last()) {
        positions(s.drop_last(), p).push(s.len() - 1)
    } else {
        positions(s.drop_last(), p)
    }
}

/// Calories eaten: the sum over all foods of calories times eaten units.
pub open spec fn stomach_calories<A>(s: Seq<Food<A>>) -> int
    decreases s.len(),
{
    if s.len() == 0 {
        0
    } else {
        stomach_calories(s.drop_last()) + s.last().calories * s.last().stomach
    }
}

/// Some units of the food are still to be had.
pub open spec fn in_supply<A>(f: Food<A>) -> bool {
    f.available > 0
}

/// Some units of the food have been eaten.
pub open spec fn eaten<A>(f: Food<A>) -> bool {
    f.stomach > 0
}

proof fn lemma_take_last<A>(s: Seq<Food<A>>, i: int)
    requires
        0 <= i < s.len(),
    ensures
        s.take(i + 1).drop_last() == s.take(i),
        s.take(i + 1).last() == s[i],
{
    assert(s.take(i + 1).drop_last() =~= s.take(i));
}

/// Every index in `positions(s, p)` is in range, satisfies `p`, and the list increases.
pub proof fn lemma_positions<A>(s: Seq<Food<A>>, p: spec_fn(Food<A>) -> bool)
    ensures
        forall|k: int| 0 <= k < positions(s, p).len() ==> 0 <= #[trigger] positions(s, p)[k] < s.len()
            && p(s[positions(s, p)[k]]),
        forall|a: int, b: int| 0 <= a < b < positions(s, p).len() ==> positions(s, p)[a] < positions(s, p)[b],
        forall|i: int| 0 <= i < s.len() && p(#[trigger] s[i]) ==> positions(s, p).contains(i),
    decreases s.len(),
{
    if s.len() > 0 {
        let t = s.drop_last();
        lemma_positions(t, p);
        assert forall|i: int| 0 <= i < s.len() && p(#[trigger] s[i]) implies positions(s, p).contains(i) by {
            if i < s.len() - 1 {
                assert(t[i] == s[i]);
                let k = choose|k: int| 0 <= k < positions(t, p).len() && positions(t, p)[k] == i;
                assert(positions(s, p)[k] == i);
            } else {
                assert(positions(s, p)[positions(s, p).len() - 1] == i);
            }
        }
        assert forall|k: int| 0 <= k < positions(s, p).len() implies 0 <= #[trigger] positions(s, p)[k] < s.len()
            && p(s[positions(s, p)[k]]) by {
            if k < positions(t, p).len() {
                assert(t[positions(t, p)[k]] == s[positions(t, p)[k]]);
            }
        }
    }
}

impl<A> FoodStateManager<A> {
    /// Positions of the foods that satisfy `p`, in catalog order.
    fn positions_of(&self, Ghost(p): Ghost<spec_fn(Food<A>) -> bool>, want: impl Fn(&Food<A>) -> bool) -> (r: Vec<usize>)
        requires
            forall|f: &Food<A>| #[trigger] want.requires((f,)),
            forall|f: &Food<A>, b: bool| want.ensures((f,), b) ==> b == p(*f),
        ensures
            r@.len() == positions(self@, p).len(),
            forall|k: int| 0 <= k < r@.len() ==> r@[k] as int == #[trigger] positions(self@, p)[k],
    {
        let mut r: Vec<usize> = Vec::new();
        let mut i: usize = 0;
        while i < self.foods.len()
            invariant
                0 <= i <= self@.len(),
                r@.len() == positions(self@.take(i as int), p).len(),
                forall|k: int| 0 <= k < r@.len() ==> r@[k] as int == #[trigger] positions(self@.take(i as int), p)[k],
                forall|f: &Food<A>| #[trigger] want.requires((f,)),
                forall|f: &Food<A>, b: bool| want.ensures((f,), b) ==> b == p(*f),
            decreases self@.len() - i,
        {
            proof {
                lemma_take_last(self@, i as int);
            }
            if want(&self.foods[i]) {
                r.push(i);
            }
            i += 1;
        }
        assert(self@.take(self@.len() as int) =~= self@);
        r
    }

    /// Positions of the foods of which one more unit can be taken, in catalog order.
    pub fn consumable_indices(&self) -> (r: Vec<usize>)
        ensures
            r@.len() == positions(self@, consumable_food()).len(),
            forall|k: int|
                0 <= k < r@.len() ==> r@[k] as int == #[trigger] positions(self@, consumable_food())[k],
    {
        self.positions_of(Ghost(consumable_food()), |f: &Food<A>| -> (b: bool)
            ensures
                b == consumable(*f),
            { f.available > 0 && f.stomach < u32::MAX })
    }

    /// Positions of the foods that can be taken and whose key is one of
    /// `keys`, in catalog order.
    pub fn listed_indices(&self, keys: &[String]) -> (r: Vec<usize>)
        ensures
            r@.len() == positions(self@, listed_food(keys@)).len(),
            forall|k: int| 0 <= k < r@.len() ==> r@[k] as int == #[trigger] positions(self@, listed_food(keys@))[k],
    {
        self.positions_of(Ghost(listed_food(keys@)), |f: &Food<A>| -> (b: bool)
            ensures
                b == listed_food(keys@)(*f),
            {
                if f.available > 0 && f.stomach < u32::MAX {
                    let k = f.key();
                    key_in(k.as_str(), keys)
                } else {
                    false
                }
            })
    }

    /// The foods whose eaten calories reach the variety threshold, in catalog order.
    pub fn unique_variety_foods(&self) -> (r: Vec<&Food<A>>)
        ensures
            r@.len() == positions(self@, variety_food()).len(),
            forall|k: int|
                0 <= k < r@.len() ==> *r@[k] == self@[#[trigger] positions(self@, variety_food())[k]],
    {
        let idx = self.variety_indices();
        proof {
            lemma_positions(self@, variety_food());
            assert forall|k: int| 0 <= k < idx@.len() implies #[trigger] idx@[k] < self@.len() by {
                assert(idx@[k] as int == positions(self@, variety_food())[k]);
            }
        }
        self.foods_at(&idx)
    }

    /// Positions of the foods whose eaten calories reach the variety threshold.
    fn variety_indices(&self) -> (r: Vec<usize>)
        ensures
            r@.len() == positions(self@, variety_food()).len(),
            forall|k: int| 0 <= k < r@.len() ==> r@[k] as int == #[trigger] positions(self@, variety_food())[k],
    {
        self.positions_of(Ghost(variety_food()), |f: &Food<A>| -> (b: bool)
            ensures
                b == variety_food()(*f),
            { is_variety_qualifying(f.calories, f.stomach) })
    }

    /// How many foods count toward variety.
    pub fn count_variety_qualifying(&self) -> (r: usize)
        ensures
            r == positions(self@, variety_food()).len(),
    {
        self.variety_indices().len()
    }

    /// How many eaten foods match one of `cravings`, ignoring case.
    pub fn count_craving_matches(&self, cravings: &[String]) -> (r: usize)
        ensures
            r == positions(self@, eaten_craving_food(cravings@)).len(),
    {
        let keys = name_keys(cravings);
        let idx = self.positions_of(Ghost(eaten_craving_food(cravings@)), |f: &Food<A>| -> (b: bool)
            ensures
                b == eaten_craving_food(cravings@)(*f),
            {
                if f.stomach > 0 {
                    let k = f.key();
                    proof {
                        lemma_folded_match(keys@, cravings@, f.name@);
                    }
                    key_in(k.as_str(), keys.as_slice())
                } else {
                    false
                }
            });
        idx.len()
    }

    /// The foods with some supply left, in catalog order.
    pub fn all_available(&self) -> (r: Vec<&Food<A>>)
        ensures
            r@.len() == positions(self@, supplied_food()).len(),
            forall|k: int|
                0 <= k < r@.len() ==> *r@[k] == self@[#[trigger] positions(self@, supplied_food())[k]],
    {
        let idx = self.positions_of(Ghost(supplied_food()), |f: &Food<A>| -> (b: bool)
            ensures
                b == in_supply(*f),
            { f.available > 0 });
        proof {
            lemma_positions(self@, supplied_food());
            assert forall|k: int| 0 <= k < idx@.len() implies #[trigger] idx@[k] < self@.len() by {
                assert(idx@[k] as int == positions(self@, supplied_food())[k]);
            }
        }
        self.foods_at(&idx)
    }

    /// The foods at the given positions.
    fn foods_at(&self, idx: &Vec<usize>) -> (r: Vec<&Food<A>>)
        requires
            forall|k: int| 0 <= k < idx@.len() ==> #[trigger] idx@[k] < self@.len(),
        ensures
            r@.len() == idx@.len(),
            forall|k: int| 0 <= k < r@.len() ==> *r@[k] == self@[#[trigger] idx@[k] as int],
    {
        let mut r: Vec<&Food<A>> = Vec::new();
        let mut k: usize = 0;
        while k < idx.len()
            invariant
                0 <= k <= idx@.len(),
                r@.len() == k,
                forall|k: int| 0 <= k < idx@.len() ==> #[trigger] idx@[k] < self@.len(),
                forall|t: int| 0 <= t < k ==> *r@[t] == self@[#[trigger] idx@[t] as int],
            decreases idx@.len() - k,
        {
            r.push(&self.foods[idx[k]]);
            k += 1;
        }
        r
    }

    /// Every food of the catalog, in order.
    pub fn all_foods(&self) -> (r: Vec<&Food<A>>)
        ensures
            r@.len() == self@.len(),
            forall|k: int| 0 <= k < r@.len() ==> *r@[k] == #[trigger] self@[k],
    {
        let mut r: Vec<&Food<A>> = Vec::new();
        let mut k: usize = 0;
        while k < self.foods.len()
            invariant
                0 <= k <= self@.len(),
                r@.len() == k,
                forall|t: int| 0 <= t < k ==> *r@[t] == #[trigger] self@[t],
            decreases self@.len() - k,
        {
            r.push(&self.foods[k]);
            k += 1;
        }
        r
    }

    /// The foods with some units eaten, as (key, units eaten) in catalog order.
    pub fn stomach_contents(&self) -> (r: Vec<(String, u32)>)
        ensures
            r@.len() == positions(self@, eaten_food()).len(),
            forall|k: int|
                #![trigger r@[k]]
                0 <= k < r@.len() ==> r@[k].0@ == key_of(self@[positions(self@, eaten_food())[k]])
                    && r@[k].1 == self@[positions(self@, eaten_food())[k]].stomach,
    {
        let idx = self.positions_of(Ghost(eaten_food()), |f: &Food<A>| -> (b: bool)
            ensures
                b == eaten(*f),
            { f.stomach > 0 });
        proof {
            lemma_positions(self@, eaten_food());
            assert forall|k: int| 0 <= k < idx@.len() implies #[trigger] idx@[k] < self@.len() by {
                assert(idx@[k] as int == positions(self@, eaten_food())[k]);
            }
        }
        let mut r: Vec<(String, u32)> = Vec::new();
        let mut k: usize = 0;
        while k < idx.len()
            invariant
                0 <= k <= idx@.len(),
                r@.len() == k,
                idx@.len() == positions(self@, eaten_food()).len(),
                forall|t: int| 0 <= t < idx@.len() ==> idx@[t] as int == #[trigger] positions(self@, eaten_food())[t],
                forall|t: int| 0 <= t < idx@.len() ==> #[trigger] idx@[t] < self@.len(),
                forall|t: int|
                    #![trigger r@[t]]
                    0 <= t < k ==> r@[t].0@ == key_of(self@[idx@[t] as int]) && r@[t].1 == self@[idx@[t] as int].stomach,
            decreases idx@.len() - k,
        {
            let f = &self.foods[idx[k]];
            r.push((f.key(), f.stomach));
            k += 1;
        }
        r
    }

    /// The foods with some units eaten, each with its eaten count, in catalog order.
    pub fn stomach_food_map(&self) -> (r: Vec<(&Food<A>, u32)>)
        ensures
            r@.len() == positions(self@, eaten_food()).len(),
            forall|k: int|
                #![trigger r@[k]]
                0 <= k < r@.len() ==> *r@[k].0 == self@[positions(self@, eaten_food())[k]] && r@[k].1
                    == self@[positions(self@, eaten_food())[k]].stomach,
    {
        let idx = self.positions_of(Ghost(eaten_food()), |f: &Food<A>| -> (b: bool)
            ensures
                b == eaten(*f),
            { f.stomach > 0 });
        proof {
            lemma_positions(self@, eaten_food());
            assert forall|k: int| 0 <= k < idx@.len() implies #[trigger] idx@[k] < self@.len() by {
                assert(idx@[k] as int == positions(self@, eaten_food())[k]);
            }
        }
        let mut r: Vec<(&Food<A>, u32)> = Vec::new();
        let mut k: usize = 0;
        while k < idx.len()
            invariant
                0 <= k <= idx@.len(),
                r@.len() == k,
                idx@.len() == positions(self@, eaten_food()).len(),
                forall|t: int| 0 <= t < idx@.len() ==> idx@[t] as int == #[trigger] positions(self@, eaten_food())[t],
                forall|t: int| 0 <= t < idx@.len() ==> #[trigger] idx@[t] < self@.len(),
                forall|t: int|
                    #![trigger r@[t]]
                    0 <= t < k ==> *r@[t].0 == self@[idx@[t] as int] && r@[t].1 == self@[idx@[t] as int].stomach,
            decreases idx@.len() - k,
        {
            let f = &self.foods[idx[k]];
            r.push((f, f.stomach));
            k += 1;
        }
        r
    }

    /// Calories eaten so far: the sum of calories times eaten units.
    pub fn total_stomach_calories(&self) -> (r: u128)
        ensures
            r == stomach_calories(self@),
    {
        let mut total: u128 = 0;
        let mut i: usize = 0;
        while i < self.foods.len()
            invariant
                0 <= i <= self@.len(),
                total == stomach_calories(self@.take(i as int)),
                total <= i * 0xffff_ffff_ffff_ffffu128,
            decreases self@.len() - i,
        {
            proof {
                lemma_take_last(self@, i as int);
            }
            let c = self.foods[i].calories as u128;
            let st = self.foods[i].stomach as u128;
            assert(c * st <= 0xffff_ffff_ffff_ffffu128) by (nonlinear_arith)
                requires
                    c <= 0xffff_ffffu128,
                    st <= 0xffff_ffffu128,
            ;
            let term = c * st;
            assert((i + 1) * 0xffff_ffff_ffff_ffffu128 <= 0x1_0000_0000_0000_0000 * 0xffff_ffff_ffff_ffffu128) by (nonlinear_arith)
                requires
                    i < 0x1_0000_0000_0000_0000,
            ;
            total = total + term;
            i += 1;
        }
        assert(self@.take(self@.len() as int) =~= self@);
        total
    }

    /// Set every eaten count to zero.
    pub fn reset_stomach(&mut self)
        ensures
            final(self)@.len() == old(self)@.len(),
            forall|i: int|
                0 <= i < old(self)@.len() ==> #[trigger] final(self)@[i] == (Food { stomach: 0, ..old(self)@[i] }),
            old(self).wf() ==> final(self).wf(),
    {
        let ghost before = self.foods@;
        let mut i: usize = 0;
        while i < self.foods.len()
            invariant
                0 <= i <= self.foods@.len(),
                self.foods@.len() == before.len(),
                forall|t: int| 0 <= t < i ==> #[trigger] self.foods@[t] == (Food { stomach: 0, ..before[t] }),
                forall|t: int| i <= t < before.len() ==> #[trigger] self.foods@[t] == before[t],
            decreases before.len() - i,
        {
            self.foods[i].stomach = 0;
            i += 1;
        }
        assert forall|t: int| 0 <= t < self.foods@.len() implies key_of(#[trigger] self.foods@[t]) == key_of(before[t]) by {}
    }

    /// Set every food's supply to `new_available`.
    pub fn reset_availability(&mut self, new_available: u32)
        ensures
            final(self)@.len() == old(self)@.len(),
            forall|i: int|
                0 <= i < old(self)@.len() ==> #[trigger] final(self)@[i] == (Food {
                    available: new_available,
                    ..old(self)@[i]
                }),
            old(self).wf() ==> final(self).wf(),
    {
        let ghost before = self.foods@;
        let mut i: usize = 0;
        while i < self.foods.len()
            invariant
                0 <= i <= self.foods@.len(),
                self.foods@.len() == before.len(),
                forall|t: int| 0 <= t < i ==> #[trigger] self.foods@[t] == (Food { available: new_available, ..before[t] }),
                forall|t: int| i <= t < before.len() ==> #[trigger] self.foods@[t] == before[t],
            decreases before.len() - i,
        {
            self.foods[i].available = new_available;
            i += 1;
        }
        assert forall|t: int| 0 <= t < self.foods@.len() implies key_of(#[trigger] self.foods@[t]) == key_of(before[t]) by {}
    }

    /// Set every food's tastiness to unknown, or to neutral when `to_unknown` is false.
    pub fn reset_tastiness(&mut self, to_unknown: bool)
        ensures
            final(self)@.len() == old(self)@.len(),
            forall|i: int|
                0 <= i < old(self)@.len() ==> #[trigger] final(self)@[i] == (Food {
                    tastiness: if to_unknown { UNKNOWN_TASTINESS } else { NEUTRAL_TASTINESS },
                    ..old(self)@[i]
                }),
            old(self).wf() ==> final(self).wf(),
    {
        let value: i8 = if to_unknown { UNKNOWN_TASTINESS } else { NEUTRAL_TASTINESS };
        let ghost before = self.foods@;
        let mut i: usize = 0;
        while i < self.foods.len()
            invariant
                0 <= i <= self.foods@.len(),
                self.foods@.len() == before.len(),
                value == if to_unknown { UNKNOWN_TASTINESS } else { NEUTRAL_TASTINESS },
                forall|t: int| 0 <= t < i ==> #[trigger] self.foods@[t] == (Food { tastiness: value, ..before[t] }),
                forall|t: int| i <= t < before.len() ==> #[trigger] self.foods@[t] == before[t],
            decreases before.len() - i,
        {
            self.foods[i].tastiness = value;
            i += 1;
        }
        assert forall|t: int| 0 <= t < self.foods@.len() implies key_of(#[trigger] self.foods@[t]) == key_of(before[t]) by {}
    }

    /// Record the tastiness of the food named `name`; false when no food has that name.
    pub fn set_tastiness(&mut self, name: &str, rating: i8) -> (r: bool)
        requires
            old(self).wf(),
        ensures
            final(self).wf(),
            r == key_present(old(self)@, lower_of(name@)),
            r ==> exists|i: int| has_key_at(old(self)@, lower_of(name@), i) && final(self)@ == old(self)@.update(
                i,
                Food { tastiness: rating, ..old(self)@[i] },
            ),
            !r ==> final(self)@ == old(self)@,
    {
        match self.index_of(name) {
            Some(i) => {
                let ghost before = self.foods@;
                self.foods[i].tastiness = rating;
                proof {
                    assert(self.foods@ =~= before.update(i as int, Food { tastiness: rating, ..before[i as int] }));
                    assert forall|t: int| 0 <= t < self.foods@.len() implies key_of(#[trigger] self.foods@[t])
                        == key_of(before[t]) by {}
                }
                true
            },
            None => false,
        }
    }

    /// The foods of the catalog, handing them back.
    pub fn into_foods(self) -> (r: Vec<Food<A>>)
        ensures
            r@ == self@,
    {
        self.foods
    }
}

} // verus!
