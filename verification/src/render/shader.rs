//! What a linked shader program is checked against: the attributes it was
//! given, and uniform values that are not numbers.

use crate::gl::{append_hex, hex_text};
use vstd::prelude::*;

verus! {

/// A uniform that names a texture unit.
#[derive(Clone, Copy, Debug)]
pub struct Sampler2D(pub u32);

/// The index of the last of `attributes` whose name is `name`, if any.
pub open spec fn last_named(attributes: Seq<(String, u32)>, name: Seq<char>) -> Option<int>
    decreases attributes.len(),
{
    if attributes.len() == 0 {
        None
    } else if attributes.last().0@ == name {
        Some(attributes.len() - 1)
    } else {
        last_named(attributes.drop_last(), name)
    }
}

/// The active attribute `active` is among `attributes` by name, with the
/// same type; of several with its name, the last counts.
pub open spec fn attribute_matches(attributes: Seq<(String, u32)>, active: (String, u32)) -> bool {
    match last_named(attributes, active.0@) {
        Some(i) => attributes[i].1 == active.1,
        None => false,
    }
}

/// The message for an active attribute that does not match.
pub open spec fn attribute_error_text(attributes: Seq<(String, u32)>, active: (String, u32)) -> Seq<char> {
    match last_named(attributes, active.0@) {
        Some(i) => "Data type mismatch on attribute "@ + active.0@ + " (Found "@ + hex_text(active.1 as nat) + " expected "@
            + hex_text(attributes[i].1 as nat) + ")"@,
        None => "Shader requires unknown vertex attribute "@ + active.0@,
    }
}

/// Active attribute `j` is the first that does not match.
pub open spec fn first_unmatched(attributes: Seq<(String, u32)>, active: Seq<(String, u32)>, j: int) -> bool {
    &&& 0 <= j < active.len()
    &&& !attribute_matches(attributes, active[j])
    &&& forall|j2: int| 0 <= j2 < j ==> attribute_matches(attributes, #[trigger] active[j2])
}

proof fn lemma_last_named(attributes: Seq<(String, u32)>, name: Seq<char>)
    ensures
        match last_named(attributes, name) {
            Some(i) => 0 <= i < attributes.len() && attributes[i].0@ == name
                && forall|k: int| i < k < attributes.len() ==> (#[trigger] attributes[k]).0@ != name,
            None => forall|k: int| 0 <= k < attributes.len() ==> (#[trigger] attributes[k]).0@ != name,
        },
    decreases attributes.len(),
{
    if attributes.len() > 0 && attributes.last().0@ != name {
        let d = attributes.drop_last();
        lemma_last_named(d, name);
        match last_named(d, name) {
            Some(i) => {
                assert(d[i] == attributes[i]);
                assert forall|k: int| i < k < attributes.len() implies (#[trigger] attributes[k]).0@ != name by {
                    if k < d.len() {
                        assert(d[k] == attributes[k]);
                    }
                }
            },
            None => {
                assert forall|k: int| 0 <= k < attributes.len() implies (#[trigger] attributes[k]).0@ != name by {
                    if k < d.len() {
                        assert(d[k] == attributes[k]);
                    }
                }
            },
        }
    }
}

/// Finds the last of `attributes` whose name is `name`.
fn find_last_named(attributes: &[(String, u32)], name: &String) -> (r: Option<usize>)
    ensures
        match r {
            Some(i) => i < attributes@.len() && last_named(attributes@, name@) == Some(i as int),
            None => last_named(attributes@, name@) is None,
        },
{
    proof {
        lemma_last_named(attributes@, name@);
    }
    let mut i = attributes.len();
    while i > 0
        invariant
            i <= attributes@.len(),
            forall|k: int| i <= k < attributes@.len() ==> (#[trigger] attributes@[k]).0@ != name@,
            match last_named(attributes@, name@) {
                Some(m) => 0 <= m < attributes@.len() && attributes@[m].0@ == name@
                    && forall|k: int| m < k < attributes@.len() ==> (#[trigger] attributes@[k]).0@ != name@,
                None => forall|k: int| 0 <= k < attributes@.len() ==> (#[trigger] attributes@[k]).0@ != name@,
            },
        decreases i,
    {
        if attributes[i - 1].0 == *name {
            proof {
                match last_named(attributes@, name@) {
                    Some(m) => {
                        if m < i - 1 {
                            assert(attributes@[i - 1].0@ != name@);
                        }
                        if m > i - 1 {
                            assert(attributes@[m].0@ != name@);
                        }
                    },
                    None => {
                        assert(attributes@[i - 1].0@ != name@);
                    },
                }
            }
            return Some(i - 1);
        }
        i -= 1;
    }
    proof {
        match last_named(attributes@, name@) {
            Some(m) => {
                assert(attributes@[m].0@ != name@);
            },
            None => {},
        }
    }
    None
}

/// Checks the active attributes of a linked program, as `(name, type)`,
/// against the attributes it was given: each must be among them by name,
/// with the same type. The error describes the first one that is not.
pub fn check_active_attributes(attributes: &[(String, u32)], active: &[(String, u32)]) -> (r: Result<(), String>)
    ensures
        match r {
            Ok(()) => forall|j: int| 0 <= j < active@.len() ==> attribute_matches(attributes@, #[trigger] active@[j]),
            Err(msg) => exists|j: int|
                #[trigger] first_unmatched(attributes@, active@, j) && msg@ == attribute_error_text(attributes@, active@[j]),
        },
{
    let mut j: usize = 0;
    while j < active.len()
        invariant
            j <= active@.len(),
            forall|j2: int| 0 <= j2 < j ==> attribute_matches(attributes@, #[trigger] active@[j2]),
        decreases active@.len() - j,
    {
        let name = &active[j].0;
        let found = active[j].1;
        match find_last_named(attributes, name) {
            None => {
                let mut msg = String::from_str("Shader requires unknown vertex attribute ");
                msg.append(name.as_str());
                proof {
                    assert(first_unmatched(attributes@, active@, j as int));
                }
                return Err(msg);
            },
            Some(i) => {
                let expected = attributes[i].1;
                if found != expected {
                    let mut msg = String::from_str("Data type mismatch on attribute ");
                    msg.append(name.as_str());
                    msg.append(" (Found ");
                    append_hex(&mut msg, found);
                    msg.append(" expected ");
                    append_hex(&mut msg, expected);
                    msg.append(")");
                    proof {
                        assert(first_unmatched(attributes@, active@, j as int));
                    }
                    return Err(msg);
                }
            },
        }
        j += 1;
    }
    Ok(())
}

} // verus!
