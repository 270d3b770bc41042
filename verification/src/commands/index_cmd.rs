//! Whether a benchmark source file's index can be used as it is, and which
//! files are benchmark sources.
use crate::text::{chars_eq_ignore_ascii_case, chars_of, eq_ignore_ascii_case};
use vstd::prelude::*;

verus! {

broadcast use vstd::string::group_string_axioms;

/// The state of a source file's index.
#[derive(Debug, Clone, Copy, PartialEq, Eq)]
pub enum IndexState {
    Missing,
    Fresh,
    Stale,
    Corrupted,
}

/// The state of an index from what the file system says of it: whether it
/// exists and reads back as an index, and the metadata of the index and of
/// its source (`None` where it could not be read), each holding the
/// modification time (`None` where the platform gives none). An index older
/// than its source is stale; one whose times cannot be compared counts as
/// fresh.
pub fn index_state_from(
    present: bool,
    reads_back: bool,
    index_meta: Option<Option<i128>>,
    source_meta: Option<Option<i128>>,
) -> (s: IndexState)
    ensures
        s == if !present {
            IndexState::Missing
        } else if !reads_back || index_meta is None || source_meta is None {
            IndexState::Corrupted
        } else {
            match (index_meta->Some_0, source_meta->Some_0) {
                (Some(i), Some(t)) => if i < t {
                    IndexState::Stale
                } else {
                    IndexState::Fresh
                },
                _ => IndexState::Fresh,
            }
        },
{
    if !present {
        return IndexState::Missing;
    }
    if !reads_back {
        return IndexState::Corrupted;
    }
    let idx = match index_meta {
        Some(m) => m,
        None => return IndexState::Corrupted,
    };
    let src = match source_meta {
        Some(m) => m,
        None => return IndexState::Corrupted,
    };
    match (idx, src) {
        (Some(i), Some(t)) => if i < t {
            IndexState::Stale
        } else {
            IndexState::Fresh
        },
        _ => IndexState::Fresh,
    }
}

/// `Path::extension` of a path, by name.
pub uninterp spec fn path_extension(path: Seq<char>) -> Option<Seq<char>>;

/// Calls `Path::extension`; the result is the named extension, as text.
#[verifier::external_body]
fn extension_of(path: &str) -> (r: Option<String>)
    ensures
        match r {
            Some(e) => path_extension(path@) == Some(e@),
            None => path_extension(path@) is None,
        },
{
    std::path::Path::new(path).extension().map(|e| e.to_string_lossy().to_string())
}

/// A benchmark source: a file whose extension is `gctf` in any case.
pub fn is_bench_file(path: &str) -> (b: bool)
    ensures
        b == (path_extension(path@) matches Some(e) && eq_ignore_ascii_case(e, "gctf"@)),
{
    match extension_of(path) {
        Some(e) => chars_eq_ignore_ascii_case(&chars_of(e.as_str()), &chars_of("gctf")),
        None => false,
    }
}

} // verus!
