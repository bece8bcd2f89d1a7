//! File names.
use vstd::prelude::*;
use vstd::string::*;

verus! {

/// The stem of the final component of `path`: its file name without the last extension, with
/// components separated as the target platform's paths are.
pub uninterp spec fn file_stem_of(path: Seq<char>) -> Option<Seq<char>>;

/// Relies on `std::path::Path::file_stem`: the stem is read from the text of the path alone, and
/// there is none when the path has no file name. The stem of a path given as UTF-8 text is
/// UTF-8 text.
#[verifier::external_body]
fn file_stem(path: &str) -> (r: Option<String>)
    ensures
        r matches Some(s) ==> file_stem_of(path@) == Some(s@),
        r is None ==> file_stem_of(path@) is None,
{
    std::path::Path::new(path).file_stem().map(|s| s.to_string_lossy().into_owned())
}

/// The file name `{stem}.{new_extension}`.
pub fn file_name_with_extension(stem: &str, new_extension: &str) -> (r: String)
    ensures
        r@ == stem@ + "."@ + new_extension@,
{
    let mut r = String::from_str(stem);
    r.append(".");
    r.append(new_extension);
    r
}

/// The file name of `file_path` with its extension replaced by `new_extension`, without the
/// directories; `None` when the path has no file name.
pub fn replace_file_extension(file_path: &str, new_extension: &str) -> (r: Option<String>)
    ensures
        r matches Some(s) ==> file_stem_of(file_path@) matches Some(stem) && s@ == stem + "."@
            + new_extension@,
        r is None ==> file_stem_of(file_path@) is None,
{
    match file_stem(file_path) {
        Some(stem) => Some(file_name_with_extension(stem.as_str(), new_extension)),
        None => None,
    }
}

} // verus!
