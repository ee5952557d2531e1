//! Gzipped tarballs and zips.

use vstd::prelude::*;
use std::io::Read;

verus! {

/// One entry of an archive, as far as it could be read.
pub struct ArchiveItem {
    pub is_file: bool,
    pub path: Result<String, String>,
    pub body: Result<Vec<u8>, String>,
}

/// What an entry is: whether it is a plain file, its path and its body.
pub type ItemParts = (bool, Result<Seq<char>, Seq<char>>, Result<Seq<u8>, Seq<char>>);

impl View for ArchiveItem {
    type V = ItemParts;

    open spec fn view(&self) -> ItemParts {
        (
            self.is_file,
            match self.path {
                Ok(p) => Ok(p@),
                Err(e) => Err(e@),
            },
            match self.body {
                Ok(b) => Ok(b@),
                Err(e) => Err(e@),
            },
        )
    }
}

pub open spec fn item_result(r: Result<ArchiveItem, String>) -> Result<ItemParts, Seq<char>> {
    match r {
        Ok(item) => Ok(item@),
        Err(e) => Err(e@),
    }
}

pub open spec fn item_views(v: Seq<Result<ArchiveItem, String>>) -> Seq<
    Result<ItemParts, Seq<char>>,
> {
    v.map_values(|r: Result<ArchiveItem, String>| item_result(r))
}

/// The name of the entries that `tar` and `flate2` read from a gzipped tarball, in order; an
/// entry that cannot be read is its error, and a stream that is no tarball an error alone.
pub uninterp spec fn tarball_entries(bytes: Seq<u8>) -> Result<
    Seq<Result<ItemParts, Seq<char>>>,
    Seq<char>,
>;

/// `tar::Archive::entries` over `flate2::read::GzDecoder`: for each entry whether its type is a
/// plain file, its path (lossily as text) and its bytes.
#[verifier::external_body]
pub(crate) fn read_tarball(bytes: &[u8]) -> (r: Result<
    Vec<Result<ArchiveItem, String>>,
    String,
>)
    ensures
        match r {
            Ok(v) => tarball_entries(bytes@) == Ok::<_, Seq<char>>(item_views(v@)),
            Err(e) => tarball_entries(bytes@) == Err::<Seq<Result<ItemParts, Seq<char>>>, _>(e@),
        },
{
    let mut archive = tar::Archive::new(flate2::read::GzDecoder::new(bytes));
    let mut out = Vec::new();
    for entry in archive.entries().map_err(|e| e.to_string())? {
        out.push(entry.map_err(|e| e.to_string()).map(|mut entry| {
            let is_file = entry.header().entry_type().is_file();
            let path = entry.path().map(|p| p.to_string_lossy().into_owned()).map_err(
                |e| e.to_string(),
            );
            let mut data = Vec::new();
            let read = entry.read_to_end(&mut data).map_err(|e| e.to_string());
            ArchiveItem { is_file, path, body: read.map(|_| data) }
        }));
    }
    Ok(out)
}

/// One entry of a zip, as far as it could be read. An entry whose path leads out of the archive
/// has none.
pub struct ZipItem {
    pub path: Option<String>,
    pub body: Result<Vec<u8>, String>,
}

/// What an entry of a zip is: its path and its body.
pub type ZipParts = (Option<Seq<char>>, Result<Seq<u8>, Seq<char>>);

impl View for ZipItem {
    type V = ZipParts;

    open spec fn view(&self) -> ZipParts {
        (
            match self.path {
                Some(p) => Some(p@),
                None => None,
            },
            match self.body {
                Ok(b) => Ok(b@),
                Err(e) => Err(e@),
            },
        )
    }
}

pub open spec fn zip_result(r: Result<ZipItem, String>) -> Result<ZipParts, Seq<char>> {
    match r {
        Ok(item) => Ok(item@),
        Err(e) => Err(e@),
    }
}

pub open spec fn zip_views(v: Seq<Result<ZipItem, String>>) -> Seq<Result<ZipParts, Seq<char>>> {
    v.map_values(|r: Result<ZipItem, String>| zip_result(r))
}

/// The name of the entries that `zip` reads from an archive, in order; an entry that cannot be
/// read is its error, and bytes that are no archive an error alone.
pub uninterp spec fn zip_entries(bytes: Seq<u8>) -> Result<
    Seq<Result<ZipParts, Seq<char>>>,
    Seq<char>,
>;

/// `zip::ZipArchive` over the bytes: for each entry its path where `enclosed_name` gives one
/// (lossily as text), and its bytes.
#[verifier::external_body]
pub(crate) fn read_zip(bytes: &[u8]) -> (r: Result<Vec<Result<ZipItem, String>>, String>)
    ensures
        match r {
            Ok(v) => zip_entries(bytes@) == Ok::<_, Seq<char>>(zip_views(v@)),
            Err(e) => zip_entries(bytes@) == Err::<Seq<Result<ZipParts, Seq<char>>>, _>(e@),
        },
{
    let mut zip = zip::ZipArchive::new(std::io::Cursor::new(bytes)).map_err(|e| e.to_string())?;
    let mut out = Vec::new();
    for index in 0..zip.len() {
        out.push(zip.by_index(index).map_err(|e| e.to_string()).map(|mut entry| {
            let path = entry.enclosed_name().map(|p| p.to_string_lossy().into_owned());
            let mut data = Vec::new();
            let read = entry.read_to_end(&mut data).map_err(|e| e.to_string());
            ZipItem { path, body: read.map(|_| data) }
        }));
    }
    Ok(out)
}

} // verus!
