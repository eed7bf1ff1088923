use vstd::prelude::*;
use crate::text::push_str;

verus! {

/// What `str::to_lowercase` gives for `s`.
pub uninterp spec fn lowercase_of(s: Seq<char>) -> Seq<char>;

/// Relies on `str::to_lowercase`: the lower-case form of a string, which depends on its
/// characters alone.
#[verifier::external_body]
fn to_lowercase(s: &str) -> (r: String)
    ensures
        r@ == lowercase_of(s@),
{
    s.to_lowercase()
}

/// The file name of the library of a plugin whose name, in lower case, is `lower`:
/// `lib<lower>_plugin.<ext>`.
pub fn library_file_name(lower: &str, ext: &str) -> (r: String)
    ensures
        r@ == "lib"@ + lower@ + "_plugin."@ + ext@,
{
    let mut r = String::new();
    push_str(&mut r, "lib");
    push_str(&mut r, lower);
    push_str(&mut r, "_plugin.");
    push_str(&mut r, ext);
    r
}

/// The file name of the library of plugin `name` on a system whose libraries end in
/// `ext` (`so`, `dll`, `dylib`): the name goes in lower case.
pub fn build_library_name(name: &str, ext: &str) -> (r: String)
    ensures
        r@ == "lib"@ + lowercase_of(name@) + "_plugin."@ + ext@,
{
    let lower = to_lowercase(name);
    library_file_name(lower.as_str(), ext)
}

} // verus!
