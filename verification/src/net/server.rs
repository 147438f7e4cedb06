//! The node as a server: the names on its certificate, and how it takes the
//! certificates of others.

use std::sync::Arc;

use vstd::prelude::*;

verus! {

/// Takes any certificate as valid. A node that checks certificates so can be
/// spoken to by anyone in the middle.
#[derive(Clone, Copy, Debug, PartialEq, Eq)]
pub struct SkipServerVerification;

impl SkipServerVerification {
    /// The verifier, to be shared.
    pub fn new() -> (verifier: Arc<Self>)
        ensures
            *verifier == SkipServerVerification,
    {
        Arc::new(SkipServerVerification)
    }
}

/// The names, taken by their characters.
pub open spec fn name_views(names: Seq<String>) -> Seq<Seq<char>> {
    names.map_values(|name: String| name@)
}

/// Whether a name is among these.
fn contains_name(names: &Vec<String>, name: &String) -> (b: bool)
    ensures
        b == name_views(names@).contains(name@),
{
    let mut i: usize = 0;
    while i < names.len()
        invariant
            i <= names.len(),
            forall|j: int| 0 <= j < i ==> (#[trigger] names@[j])@ != name@,
        decreases names.len() - i,
    {
        if names[i] == *name {
            assert(name_views(names@)[i as int] == name@);
            return true;
        }
        i += 1;
    }
    proof {
        if name_views(names@).contains(name@) {
            let k = choose|k: int|
                0 <= k < name_views(names@).len() && name_views(names@)[k] == name@;
            assert(names@[k]@ == name@);
        }
    }
    false
}

/// The names on the certificate of a server: those it was given, and `localhost`,
/// none of them twice.
pub fn certificate_names(server_names: Vec<String>) -> (names: Vec<String>)
    ensures
        name_views(names@).no_duplicates(),
        name_views(names@).to_set() == name_views(server_names@).to_set().insert("localhost"@),
{
    let mut names: Vec<String> = Vec::new();
    names.push("localhost".to_owned());
    let ghost given = name_views(server_names@);
    proof {
        assert(name_views(names@) =~= seq!["localhost"@]);
        assert(name_views(names@)[0] == "localhost"@);
        assert(name_views(names@).to_set() =~= given.take(0).to_set().insert("localhost"@));
    }
    for name in it: server_names
        invariant
            it.seq() == server_names@,
            given == name_views(server_names@),
            name_views(names@).no_duplicates(),
            name_views(names@).to_set() == given.take(it.index() as int).to_set().insert(
                "localhost"@,
            ),
    {
        let ghost n = it.index() as int;
        let ghost before = name_views(names@);
        let ghost view = name@;
        assert(given[n] == view);
        if !contains_name(&names, &name) {
            names.push(name);
            assert(name_views(names@) =~= before.push(view));
        }
        proof {
            let after = name_views(names@);
            let done = given.take(n);
            let next = given.take(n + 1);
            assert(next =~= done.push(view));
            assert forall|v: Seq<char>| next.contains(v) <==> done.contains(v) || v == view by {
                if done.contains(v) {
                    let k = choose|k: int| 0 <= k < done.len() && done[k] == v;
                    assert(next[k] == v);
                }
                if v == view {
                    assert(next[n] == v);
                }
            }
            assert forall|v: Seq<char>| after.contains(v) <==> before.contains(v) || v == view by {
                if before.contains(v) {
                    let k = choose|k: int| 0 <= k < before.len() && before[k] == v;
                    assert(after[k] == v);
                }
                if v == view && !before.contains(v) {
                    assert(after[before.len() as int] == v);
                }
            }
            assert forall|v: Seq<char>| after.to_set().contains(v) <==> next.to_set().insert(
                "localhost"@,
            ).contains(v) by {
                assert(before.to_set().contains(v) <==> done.to_set().insert(
                    "localhost"@,
                ).contains(v));
            }
            assert(after.to_set() =~= next.to_set().insert("localhost"@));
        }
    }
    assert(given.take(given.len() as int) =~= given);
    names
}

/// The names are taken by their characters, each at its place.
pub proof fn each_name_has_its_characters(names: Seq<String>, i: int)
    ensures
        name_views(names).len() == names.len(),
        0 <= i < names.len() ==> name_views(names)[i] == names[i]@,
{
}

} // verus!
