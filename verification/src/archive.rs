//! Reading entries out of the decompressed tar-style archive.

use vstd::prelude::*;

verus! {

/// What the archive reader yields on the given bytes: each entry's path and
/// raw content, in storage order, or `None` when the container framing is
/// invalid.
pub uninterp spec fn tar_entry_list(b: Seq<u8>) -> Option<Seq<(Seq<char>, Seq<u8>)>>;

/// Enumerates the entries of a tar archive held in memory.
///
/// Relies on `tar::Archive::entries` and `tar::Entry`: `entries` iterates the
/// archive's entries in storage order; each entry names its path, and its
/// content is read to the end; any framing or read failure ends the
/// enumeration with an error. The result depends on the bytes alone.
#[verifier::external_body]
pub(crate) fn read_entries(data: &[u8]) -> (r: Option<Vec<(String, Vec<u8>)>>)
    ensures
        match r {
            Some(es) => tar_entry_list(data@) == Some(es.deep_view()),
            None => tar_entry_list(data@) is None,
        },
{
    let mut archive = tar::Archive::new(std::io::Cursor::new(data));
    let mut out: Vec<(String, Vec<u8>)> = Vec::new();
    for entry in archive.entries().ok()? {
        let mut e = entry.ok()?;
        let path = e.path().ok()?.to_string_lossy().into_owned();
        let mut content: Vec<u8> = Vec::new();
        std::io::Read::read_to_end(&mut e, &mut content).ok()?;
        out.push((path, content));
    }
    Some(out)
}

} // verus!
