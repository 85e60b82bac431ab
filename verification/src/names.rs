//! Looking things up by name: the first one in the list that bears it.

use vstd::prelude::*;

verus! {

/// A thing with a name.
pub trait Named {
    /// The name.
    spec fn named(&self) -> Seq<char>;

    /// The name.
    fn get_name(&self) -> (r: &String)
        ensures
            r@ == self.named(),
    ;
}

/// The names of a list of things.
pub open spec fn names_of<T: Named>(things: Seq<T>) -> Seq<Seq<char>> {
    Seq::new(things.len(), |i: int| things[i].named())
}

/// The first index, from `from` on, at which `names` holds `name`.
pub open spec fn find_from(names: Seq<Seq<char>>, name: Seq<char>, from: int) -> Option<int>
    decreases names.len() - from,
{
    if from < 0 || from >= names.len() {
        None
    } else if names[from] == name {
        Some(from)
    } else {
        find_from(names, name, from + 1)
    }
}

/// The first index at which `names` holds `name`.
pub open spec fn find(names: Seq<Seq<char>>, name: Seq<char>) -> Option<int> {
    find_from(names, name, 0)
}

/// What finding means: the index found holds the name and no earlier one
/// does; nothing found means that none holds it.
pub proof fn lemma_find(names: Seq<Seq<char>>, name: Seq<char>, from: int)
    requires
        0 <= from,
    ensures
        match find_from(names, name, from) {
            Some(i) => from <= i < names.len() && names[i] == name && forall|j: int|
                from <= j < i ==> names[j] != name,
            None => forall|j: int| from <= j < names.len() ==> names[j] != name,
        },
    decreases names.len() - from,
{
    if from < names.len() && names[from] != name {
        lemma_find(names, name, from + 1);
    }
}

/// An optional index as an integer.
pub open spec fn index_view(i: Option<usize>) -> Option<int> {
    match i {
        Some(k) => Some(k as int),
        None => None,
    }
}

/// The first of `things` named `name`.
pub fn find_named<T: Named>(things: &Vec<T>, name: &str) -> (r: Option<usize>)
    ensures
        index_view(r) == find(names_of(things@), name@),
        r matches Some(i) ==> i < things.len() && things@[i as int].named() == name@,
        r is None ==> forall|i: int| 0 <= i < things@.len() ==> things@[i].named() != name@,
{
    let mut i: usize = 0;
    proof {
        lemma_find(names_of(things@), name@, 0);
    }
    while i < things.len()
        invariant
            i <= things.len(),
            find(names_of(things@), name@) == find_from(names_of(things@), name@, i as int),
            forall|j: int| 0 <= j < i ==> things@[j].named() != name@,
        decreases things.len() - i,
    {
        if same(things[i].get_name().as_str(), name) {
            assert(names_of(things@)[i as int] == name@);
            return Some(i);
        }
        assert(names_of(things@)[i as int] != name@);
        i = i + 1;
    }
    None
}

/// Whether two texts are the same.
pub fn same(a: &str, b: &str) -> (r: bool)
    ensures
        r == (a@ == b@),
{
    let x: String = String::from_str(a);
    let y: String = String::from_str(b);
    x == y
}

/// Whether `list` holds `name`.
pub open spec fn holds_name(list: Seq<String>, name: Seq<char>) -> bool {
    exists|i: int| 0 <= i < list.len() && #[trigger] list[i]@ == name
}

/// Whether `list` holds `name`.
pub fn contains_name(list: &Vec<String>, name: &str) -> (r: bool)
    ensures
        r == holds_name(list@, name@),
{
    let mut i: usize = 0;
    while i < list.len()
        invariant
            i <= list.len(),
            forall|j: int| 0 <= j < i ==> #[trigger] list@[j]@ != name@,
        decreases list.len() - i,
    {
        if same(list[i].as_str(), name) {
            return true;
        }
        i = i + 1;
    }
    false
}

/// A name stands for the first thing in a list that bears it, and for nothing where
/// none does.
pub proof fn law_a_name_stands_for_the_first<T: Named>(things: Seq<T>, name: Seq<char>, i: int)
    ensures
        0 <= i < things.len() && things[i].named() == name && (forall|j: int|
            0 <= j < i ==> (#[trigger] things[j]).named() != name) ==> find(names_of(things), name)
            == Some(i),
        (forall|j: int| 0 <= j < things.len() ==> (#[trigger] things[j]).named() != name) ==> find(
            names_of(things),
            name,
        ) is None,
{
    let names = names_of(things);
    lemma_find(names, name, 0);
    if 0 <= i < things.len() {
        assert(names[i] == things[i].named());
    }
    match find(names, name) {
        Some(k) => {
            assert(names[k] == things[k].named());
        },
        None => {},
    }
}

} // verus!
