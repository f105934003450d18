//! A list of animals with a table from ages to names.
use vstd::prelude::*;
use std::collections::HashMap;

verus! {

broadcast use vstd::std_specs::hash::group_hash_axioms;

/// The animals as contracts see them.
pub struct AnimalsModel {
    pub names: Seq<Seq<char>>,
    pub age_lookup: Map<i32, Seq<char>>,
}

/// The names of some animals, and for each age the name of the animal of
/// that age that came last.
#[derive(Debug, PartialEq, Eq)]
pub struct Animals {
    names: Vec<String>,
    age_lookup: HashMap<i32, String>,
}

impl View for Animals {
    type V = AnimalsModel;

    closed spec fn view(&self) -> AnimalsModel {
        AnimalsModel {
            names: self.names@.map_values(|s: String| s@),
            age_lookup: self.age_lookup@.map_values(|s: String| s@),
        }
    }
}

/// The animals without any animal.
pub open spec fn no_animals() -> AnimalsModel {
    AnimalsModel { names: Seq::empty(), age_lookup: Map::empty() }
}

/// The animals with one more, which takes the place of an animal of the
/// same age in the table.
pub open spec fn with_animal(animals: AnimalsModel, name: Seq<char>, age: i32) -> AnimalsModel {
    AnimalsModel {
        names: animals.names.push(name),
        age_lookup: animals.age_lookup.insert(age, name),
    }
}

/// The animals with the given names and ages, taken in their order.
pub open spec fn animals_of(names: Seq<Seq<char>>, ages: Seq<i32>) -> AnimalsModel
    decreases names.len(),
{
    if names.len() == 0 || ages.len() != names.len() {
        no_animals()
    } else {
        with_animal(animals_of(names.drop_last(), ages.drop_last()), names.last(), ages.last())
    }
}

/// The names that are there, in order.
pub open spec fn present_names(animals: Seq<Option<String>>) -> Seq<Seq<char>> {
    Seq::new(animals.len(), |i: int| animals[i]->Some_0@)
}

/// The ages that are there, in order.
pub open spec fn present_ages(ages: Seq<Option<i32>>) -> Seq<i32> {
    Seq::new(ages.len(), |i: int| ages[i]->Some_0)
}

impl Animals {
    /// The names, in the order in which the animals came.
    pub fn names(&self) -> (r: &Vec<String>)
        ensures
            r@.map_values(|s: String| s@) == self@.names,
    {
        &self.names
    }

    /// The name of the animal of that age that came last.
    pub fn name_of_age(&self, age: i32) -> (r: Option<&String>)
        ensures
            match r {
                Some(name) => self@.age_lookup.contains_key(age) && self@.age_lookup[age] == name@,
                None => !self@.age_lookup.contains_key(age),
            },
    {
        self.age_lookup.get(&age)
    }

    /// The table from ages to names.
    pub fn age_lookup(&self) -> (r: &HashMap<i32, String>)
        ensures
            r@.map_values(|s: String| s@) == self@.age_lookup,
    {
        &self.age_lookup
    }

    /// The animals with these names and this table.
    pub fn from_parts(names: Vec<String>, age_lookup: HashMap<i32, String>) -> (r: Animals)
        ensures
            r@.names == names@.map_values(|s: String| s@),
            r@.age_lookup == age_lookup@.map_values(|s: String| s@),
    {
        Animals { names, age_lookup }
    }

    /// No animals.
    fn empty() -> (r: Animals)
        ensures
            r@ == no_animals(),
    {
        let r = Animals { names: Vec::new(), age_lookup: HashMap::new() };
        assert(r@.names =~= no_animals().names);
        assert(r@.age_lookup =~= no_animals().age_lookup);
        r
    }
}

/// Three animals that are always known: Sally, who is 5, Brandy, who is 4,
/// and anchovy, who is 3.
pub open spec fn the_known_animals() -> AnimalsModel {
    with_animal(
        with_animal(with_animal(no_animals(), "Sally"@, 5), "Brandy"@, 4),
        "anchovy"@,
        3,
    )
}

/// The animals that are always known.
pub fn known_animals() -> (r: Animals)
    ensures
        r@ == the_known_animals(),
{
    let r = Animals::empty();
    let r = add_animal(r, String::from_str("Sally"), 5);
    let r = add_animal(r, String::from_str("Brandy"), 4);
    add_animal(r, String::from_str("anchovy"), 3)
}

/// The animals with the given names and ages, name by name and age by age.
/// There are as many names as ages, and none is missing.
pub fn make_animals(animals: Vec<Option<String>>, ages: Vec<Option<i32>>) -> (r: Animals)
    requires
        animals.len() == ages.len(),
        forall|i: int| 0 <= i < animals.len() ==> animals@[i] is Some,
        forall|i: int| 0 <= i < ages.len() ==> ages@[i] is Some,
    ensures
        r@ == animals_of(present_names(animals@), present_ages(ages@)),
{
    let ghost all_names = present_names(animals@);
    let ghost all_ages = present_ages(ages@);
    let mut r = Animals::empty();
    let mut i: usize = 0;
    assert(all_names.take(0) =~= Seq::<Seq<char>>::empty());
    while i < animals.len()
        invariant
            i <= animals.len(),
            animals.len() == ages.len(),
            forall|j: int| 0 <= j < animals.len() ==> animals@[j] is Some,
            forall|j: int| 0 <= j < ages.len() ==> ages@[j] is Some,
            all_names == present_names(animals@),
            all_ages == present_ages(ages@),
            r@ == animals_of(all_names.take(i as int), all_ages.take(i as int)),
        decreases animals.len() - i,
    {
        let name = match &animals[i] {
            Some(name) => name.clone(),
            None => String::new(),
        };
        let age = match ages[i] {
            Some(age) => age,
            None => 0,
        };
        proof {
            let names_now = all_names.take(i + 1);
            let ages_now = all_ages.take(i + 1);
            assert(names_now.drop_last() =~= all_names.take(i as int));
            assert(ages_now.drop_last() =~= all_ages.take(i as int));
            assert(names_now.last() == name@);
            assert(ages_now.last() == age);
        }
        r = add_animal(r, name, age);
        i += 1;
    }
    assert(all_names.take(animals.len() as int) =~= all_names);
    assert(all_ages.take(animals.len() as int) =~= all_ages);
    r
}

/// The animals with one more.
pub fn add_animal(animals: Animals, name: String, age: i32) -> (r: Animals)
    ensures
        r@ == with_animal(animals@, name@, age),
{
    let mut animals = animals;
    let ghost before = animals@;
    animals.names.push(name.clone());
    animals.age_lookup.insert(age, name);
    proof {
        assert(animals@.names =~= before.names.push(name@));
        assert(animals@.age_lookup =~= before.age_lookup.insert(age, name@));
    }
    animals
}

} // verus!
