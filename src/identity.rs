//! Identities and generated name parts, which come from the `uuid` and `rand`
//! crates.
use rand::Rng;
use vstd::prelude::*;

verus! {

/// Identifies an input source (a function that produces a scalar per entity,
/// or per entity and target).
pub type InputId = u64;

/// Identifies a kind of component (a tag an entity may carry).
pub type ComponentId = u64;

/// Identifies an entity.
pub type EntityId = u64;

/// Identifies an action: the component kind a decision switches on.
pub type ActionId = u64;

/// Identifies a behaviour marker, the tag that selects an AI definition.
pub type MarkerId = u64;

#[verifier::external_type_specification]
#[verifier::external_body]
pub struct ExUuid(uuid::Uuid);

/// Relies on `uuid::Uuid::new_v4`: a fresh random identity. Nothing is
/// promised of its value.
pub assume_specification[ uuid::Uuid::new_v4 ]() -> uuid::Uuid;

/// An ASCII letter or digit.
pub open spec fn is_ascii_alphanumeric(c: char) -> bool {
    ('a' <= c <= 'z') || ('A' <= c <= 'Z') || ('0' <= c <= '9')
}

/// The ASCII lower-case form of `c`; other characters stay as they are.
pub open spec fn ascii_lower_char(c: char) -> char {
    if 'A' <= c <= 'Z' {
        ((c as u32) + 32) as char
    } else {
        c
    }
}

pub open spec fn ascii_lower(s: Seq<char>) -> Seq<char> {
    s.map_values(|c: char| ascii_lower_char(c))
}

/// Relies on rand's `Alphanumeric` distribution sampled from `thread_rng`:
/// `len` characters, each an ASCII letter or digit.
#[verifier::external_body]
fn random_alphanumeric(len: usize) -> (r: String)
    ensures
        r@.len() == len,
        forall|i: int| 0 <= i < r@.len() ==> is_ascii_alphanumeric(#[trigger] r@[i]),
{
    rand::thread_rng().sample_iter(&rand::distributions::Alphanumeric).take(len).map(
        char::from,
    ).collect()
}

/// Relies on `str::to_ascii_lowercase`: maps `A`..=`Z` to `a`..=`z` and keeps
/// every other character.
#[verifier::external_body]
fn to_ascii_lowercase(s: &str) -> (r: String)
    ensures
        r@ == ascii_lower(s@),
{
    s.to_ascii_lowercase()
}

/// A random tag of `len` lower-case ASCII letters and digits.
pub fn random_tag(len: usize) -> (r: String)
    ensures
        r@.len() == len,
        forall|i: int|
            0 <= i < r@.len() ==> {
                let c = #[trigger] r@[i];
                ('a' <= c <= 'z') || ('0' <= c <= '9')
            },
{
    let raw = random_alphanumeric(len);
    let r = to_ascii_lowercase(raw.as_str());
    assert forall|i: int| 0 <= i < r@.len() implies {
        let c = #[trigger] r@[i];
        ('a' <= c <= 'z') || ('0' <= c <= '9')
    } by {
        assert(is_ascii_alphanumeric(raw@[i]));
    }
    r
}

} // verus!
