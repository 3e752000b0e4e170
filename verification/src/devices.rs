//! Choosing an input device by its name.
use vstd::prelude::*;

verus! {

/// The text of an optional name.
pub open spec fn text(name: Option<String>) -> Option<Seq<char>> {
    match name {
        Some(s) => Some(s@),
        None => None,
    }
}

/// The texts of the names of devices, with `None` for a name that could not be read.
pub open spec fn texts(names: Seq<Option<String>>) -> Seq<Option<Seq<char>>> {
    names.map_values(|name: Option<String>| text(name))
}

/// The first device with a given name.
pub open spec fn first_named(names: Seq<Option<Seq<char>>>, name: Seq<char>) -> Option<usize>
    decreases names.len(),
{
    if names.len() == 0 {
        None
    } else {
        match first_named(names.drop_last(), name) {
            Some(i) => Some(i),
            None => if names.last() == Some(name) {
                Some((names.len() - 1) as usize)
            } else {
                None
            },
        }
    }
}

/// The names to offer for choice: those that could be read and are not empty.
pub open spec fn offered(names: Seq<Option<Seq<char>>>) -> Seq<Seq<char>>
    decreases names.len(),
{
    if names.len() == 0 {
        Seq::empty()
    } else {
        match names.last() {
            Some(name) if name.len() > 0 => offered(names.drop_last()).push(name),
            _ => offered(names.drop_last()),
        }
    }
}

/// The position of the first device with a given name.
pub fn find_device(names: &Vec<Option<String>>, name: &String) -> (r: Option<usize>)
    ensures
        r == first_named(texts(names@), name@),
{
    let mut i: usize = 0;
    let mut r: Option<usize> = None;
    proof {
        assert(texts(names@).take(0) =~= Seq::empty());
    }
    while i < names.len()
        invariant
            i <= names@.len(),
            r == first_named(texts(names@).take(i as int), name@),
        decreases names@.len() - i,
    {
        proof {
            assert(texts(names@).take(i + 1).drop_last() =~= texts(names@).take(i as int));
            assert(texts(names@).take(i + 1).last() == text(names@[i as int]));
        }
        if r.is_none() {
            match &names[i] {
                Some(candidate) => {
                    if *candidate == *name {
                        r = Some(i);
                    }
                },
                None => {},
            }
        }
        i = i + 1;
    }
    proof {
        assert(texts(names@).take(i as int) == texts(names@));
    }
    r
}

/// The names of the input devices to offer for choice, from the names that the
/// host gave, or `None` where it could not list its devices.
pub fn list_audio_devices(names: &Option<Vec<Option<String>>>) -> (r: Vec<String>)
    ensures
        r@.map_values(|s: String| s@) == (match names {
            Some(names) => offered(texts(names@)),
            None => Seq::empty(),
        }),
{
    let mut r: Vec<String> = Vec::new();
    match names {
        None => {},
        Some(names) => {
            let mut i: usize = 0;
            proof {
                assert(texts(names@).take(0) =~= Seq::empty());
                assert(r@.map_values(|s: String| s@) =~= Seq::empty());
            }
            while i < names.len()
                invariant
                    i <= names@.len(),
                    r@.map_values(|s: String| s@) == offered(texts(names@).take(i as int)),
                decreases names@.len() - i,
            {
                proof {
                    assert(texts(names@).take(i + 1).drop_last() =~= texts(names@).take(i as int));
                    assert(texts(names@).take(i + 1).last() == text(names@[i as int]));
                }
                let ghost before = r@;
                match &names[i] {
                    Some(name) => {
                        if !name.as_str().is_empty() {
                            r.push(name.clone());
                            proof {
                                assert(r@.map_values(|s: String| s@) =~= before.map_values(
                                    |s: String| s@,
                                ).push(name@));
                            }
                        }
                    },
                    None => {},
                }
                i = i + 1;
            }
            proof {
                assert(texts(names@).take(i as int) == texts(names@));
            }
        },
    }
    r
}

/// What the first device with a name is: a device has that name and none before
/// it does; and there is none exactly if no device has the name.
pub proof fn the_first_match_is_taken(names: Seq<Option<Seq<char>>>, name: Seq<char>)
    requires
        names.len() <= usize::MAX,
    ensures
        match first_named(names, name) {
            Some(i) => {
                &&& i < names.len()
                &&& names[i as int] == Some(name)
                &&& forall|j: int| 0 <= j < i ==> #[trigger] names[j] != Some(name)
            },
            None => !names.contains(Some(name)),
        },
    decreases names.len(),
{
    if names.len() > 0 {
        let rest = names.drop_last();
        the_first_match_is_taken(rest, name);
        match first_named(rest, name) {
            Some(i) => {
                assert(rest[i as int] == names[i as int]);
                assert forall|j: int| 0 <= j < i implies #[trigger] names[j] != Some(name) by {
                    assert(rest[j] == names[j]);
                }
            },
            None => {
                assert forall|j: int| 0 <= j < names.len() - 1 implies #[trigger] names[j] != Some(
                    name,
                ) by {
                    assert(rest[j] == names[j]);
                    assert(rest.contains(rest[j]));
                }
            },
        }
    }
}

/// What is offered: every name that could be read, except the empty one, which
/// stands for the default device of the system.
pub proof fn every_name_but_the_empty_one_is_offered(
    names: Seq<Option<Seq<char>>>,
    name: Seq<char>,
)
    ensures
        offered(names).contains(name) <==> name.len() > 0 && names.contains(Some(name)),
    decreases names.len(),
{
    if names.len() > 0 {
        let rest = names.drop_last();
        let before = offered(rest);
        every_name_but_the_empty_one_is_offered(rest, name);
        assert(names =~= rest.push(names.last()));
        assert(names.contains(Some(name)) <==> rest.contains(Some(name)) || names.last() == Some(
            name,
        )) by {
            lemma_push_contains(rest, names.last(), Some(name));
        }
        if names.last() is Some {
            lemma_push_contains(before, names.last()->0, name);
        }
    }
}

/// The names are offered one by one and in their order: those of two lists after each
/// other are those of the first and then those of the second, and that of a single device
/// is its name, if it has one.
pub proof fn names_are_offered_one_by_one(
    a: Seq<Option<Seq<char>>>,
    b: Seq<Option<Seq<char>>>,
    name: Option<Seq<char>>,
)
    ensures
        offered(a + b) == offered(a) + offered(b),
        offered(seq![name]) == (match name {
            Some(text) if text.len() > 0 => seq![text],
            _ => Seq::empty(),
        }),
    decreases b.len(),
{
    let one = seq![name];
    assert(one.drop_last() =~= Seq::empty());
    reveal_with_fuel(offered, 2);
    if b.len() > 0 {
        names_are_offered_one_by_one(a, b.drop_last(), name);
        assert((a + b).drop_last() =~= a + b.drop_last());
    } else {
        assert(a + b =~= a);
    }
}

proof fn lemma_push_contains<T>(s: Seq<T>, a: T, x: T)
    ensures
        s.push(a).contains(x) <==> s.contains(x) || a == x,
{
    let t = s.push(a);
    if s.contains(x) {
        let i = choose|i: int| 0 <= i < s.len() && s[i] == x;
        assert(t[i] == x);
    }
    if a == x {
        assert(t[s.len() as int] == x);
    }
    if t.contains(x) && a != x {
        let i = choose|i: int| 0 <= i < t.len() && t[i] == x;
        assert(s[i] == x);
    }
}

} // verus!
