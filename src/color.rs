//! A stable colour for each path.
use vstd::prelude::*;

verus! {

/// An RGBA colour, eight bits per channel.
#[derive(Clone, Copy, Debug, PartialEq, Eq, Structural)]
pub struct Color {
    pub r: u8,
    pub g: u8,
    pub b: u8,
    pub a: u8,
}

/// The 64-bit hash of a path string.
pub uninterp spec fn path_hash(s: Seq<char>) -> u64;

/// Relies on `Hash for String` fed to std's `DefaultHasher::new()` and
/// `Hasher::finish`: a hasher built by `new` has fixed keys, so the value
/// depends on the string alone.
#[verifier::external_body]
fn hash_path(path: &String) -> (r: u64)
    ensures
        r == path_hash(path@),
{
    let mut hasher = std::collections::hash_map::DefaultHasher::new();
    std::hash::Hash::hash(path, &mut hasher);
    std::hash::Hasher::finish(&hasher)
}

/// The colour for a path hash: red is the hash modulo 255, no green, full
/// blue, opaque.
pub fn color_from_hash(h: u64) -> (r: Color)
    ensures
        r == (Color { r: (h % 255) as u8, g: 0, b: 255, a: 255 }),
{
    Color { r: (h % 255) as u8, g: 0, b: 255, a: 255 }
}

/// The colour of the box of `path`; the same path always gets the same
/// colour.
pub fn color_for_path(path: &String) -> (r: Color)
    ensures
        r == (Color { r: (path_hash(path@) % 255) as u8, g: 0, b: 255, a: 255 }),
{
    color_from_hash(hash_path(path))
}

/// The colour of a path is a function of the path alone.
pub proof fn lemma_color_is_pure(p: String, q: String, c: Color, d: Color)
    requires
        p@ == q@,
        c == (Color { r: (path_hash(p@) % 255) as u8, g: 0, b: 255, a: 255 }),
        d == (Color { r: (path_hash(q@) % 255) as u8, g: 0, b: 255, a: 255 }),
    ensures
        c == d,
{
}

} // verus!
