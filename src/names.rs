use vstd::prelude::*;

verus! {

/// The lower-case form of a name, as `str::to_lowercase` gives it.
pub uninterp spec fn lower_of(s: Seq<char>) -> Seq<char>;

/// Relies on `str::to_lowercase`: the result depends on the characters alone.
#[verifier::external_body]
fn lowercase(s: &str) -> (r: String)
    ensures
        r@ == lower_of(s@),
{
    s.to_lowercase()
}

/// The canonical lookup key of a name: its lower-case form.
pub fn name_key(name: &str) -> (r: String)
    ensures
        r@ == lower_of(name@),
{
    lowercase(name)
}

/// Whether some entry of `keys` equals `key` exactly.
pub open spec fn key_listed(key: Seq<char>, keys: Seq<String>) -> bool {
    exists|i: int| 0 <= i < keys.len() && #[trigger] keys[i]@ == key
}

/// Whether `name` matches one of `cravings`, ignoring case.
pub open spec fn craving_listed(name: Seq<char>, cravings: Seq<String>) -> bool {
    exists|i: int| 0 <= i < cravings.len() && lower_of(#[trigger] cravings[i]@) == lower_of(name)
}

/// Whether the already-folded `key` is one of the already-folded `keys`.
pub fn key_in(key: &str, keys: &[String]) -> (r: bool)
    ensures
        r == key_listed(key@, keys@),
{
    let wanted = key.to_owned();
    let mut i: usize = 0;
    while i < keys.len()
        invariant
            0 <= i <= keys@.len(),
            wanted@ == key@,
            forall|t: int| 0 <= t < i ==> #[trigger] keys@[t]@ != key@,
        decreases keys@.len() - i,
    {
        if keys[i] == wanted {
            return true;
        }
        i += 1;
    }
    false
}

/// The lookup key of every entry of `names`, in order.
pub fn name_keys(names: &[String]) -> (r: Vec<String>)
    ensures
        r@.len() == names@.len(),
        forall|i: int| 0 <= i < names@.len() ==> #[trigger] r@[i]@ == lower_of(names@[i]@),
{
    let mut r: Vec<String> = Vec::new();
    let mut i: usize = 0;
    while i < names.len()
        invariant
            0 <= i <= names@.len(),
            r@.len() == i,
            forall|t: int| 0 <= t < i ==> #[trigger] r@[t]@ == lower_of(names@[t]@),
        decreases names@.len() - i,
    {
        r.push(name_key(names[i].as_str()));
        i += 1;
    }
    r
}

/// Whether `food_name` matches a craving, ignoring case.
pub fn is_craving_match(food_name: &str, cravings: &[String]) -> (r: bool)
    ensures
        r == craving_listed(food_name@, cravings@),
{
    let keys = name_keys(cravings);
    let key = name_key(food_name);
    let r = key_in(key.as_str(), keys.as_slice());
    proof {
        if r {
            let i = choose|i: int| 0 <= i < keys@.len() && #[trigger] keys@[i]@ == key@;
            assert(lower_of(cravings@[i]@) == lower_of(food_name@));
        } else {
            assert forall|i: int| 0 <= i < cravings@.len() implies lower_of(
                #[trigger] cravings@[i]@,
            ) != lower_of(food_name@) by {
                assert(keys@[i]@ == lower_of(cravings@[i]@));
            }
        }
    }
    r
}

/// Folding each craving and then comparing exactly is the same as matching
/// ignoring case.
pub proof fn lemma_folded_match(keys: Seq<String>, cravings: Seq<String>, name: Seq<char>)
    requires
        keys.len() == cravings.len(),
        forall|i: int| 0 <= i < cravings.len() ==> #[trigger] keys[i]@ == lower_of(cravings[i]@),
    ensures
        key_listed(lower_of(name), keys) == craving_listed(name, cravings),
{
    if key_listed(lower_of(name), keys) {
        let i = choose|i: int| 0 <= i < keys.len() && #[trigger] keys[i]@ == lower_of(name);
        assert(lower_of(cravings[i]@) == lower_of(name));
    }
    if craving_listed(name, cravings) {
        let i = choose|i: int| 0 <= i < cravings.len() && lower_of(#[trigger] cravings[i]@) == lower_of(name);
        assert(keys[i]@ == lower_of(name));
    }
}

} // verus!
