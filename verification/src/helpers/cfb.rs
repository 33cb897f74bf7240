//! Access to the streams of Microsoft compound files.

use crate::error::ErrorView;
use crate::error::RustySheetError;
use crate::helpers::source::ByteSource;
use vstd::prelude::*;

verus! {

/// The reader of compound files, `cfb::CompoundFile`.
#[verifier::external_type_specification]
#[verifier::external_body]
#[verifier::reject_recursive_types(F)]
pub struct ExCompoundFile<F>(cfb::CompoundFile<F>);

/// A position in a buffer, `std::io::Cursor`.
#[verifier::external_type_specification]
#[verifier::external_body]
#[verifier::reject_recursive_types(T)]
pub struct ExCursor<T>(std::io::Cursor<T>);

/// The bytes that a compound file was opened on.
pub uninterp spec fn compound_image(file: cfb::CompoundFile<std::io::Cursor<Vec<u8>>>) -> Seq<u8>;

/// What opening a compound file comes to: the message of the error, or `None`
/// where it succeeds, and the position at which the input is left.
pub uninterp spec fn compound_opening(image: Seq<u8>) -> (Option<Seq<char>>, nat);

/// Whether a compound file has an entry at a path.
pub uninterp spec fn compound_entry_exists(image: Seq<u8>, path: Seq<char>) -> bool;

/// Whether a compound file has a stream at a path.
pub uninterp spec fn compound_has_stream(image: Seq<u8>, path: Seq<char>) -> bool;

/// The bytes of the stream at a path, or the message of the error.
pub uninterp spec fn compound_stream(image: Seq<u8>, path: Seq<char>) -> Result<
    Seq<u8>,
    Seq<char>,
>;

/// The first bytes of every compound file.
pub open spec fn compound_signature() -> Seq<u8> {
    seq![0xd0, 0xcf, 0x11, 0xe0, 0xa1, 0xb1, 0x1a, 0xe1]
}

/// Whether the path of an entry with this name is read alike on all platforms: on
/// some of them a backslash is a path separator, and two slashes in front name
/// a share.
pub open spec fn is_plain_name(name: Seq<char>) -> bool {
    !name.contains('\\') && !(name.len() > 0 && name[0] == '/')
}

/// The path of an entry below the root.
pub open spec fn entry_path(name: Seq<char>) -> Seq<char> {
    seq!['/'] + name
}

/// Opens bytes with `cfb::OpenOptions::open_with`, the stream buffer limited to
/// 64 KiB, and also returns where the input was left. Claimed: both are functions
/// of the bytes; fewer than 512 bytes are refused without a look at them; and
/// where the signature is wrong the input is refused right behind it.
#[verifier::external_body]
fn open_compound(data: Vec<u8>) -> (res: (
    Result<cfb::CompoundFile<std::io::Cursor<Vec<u8>>>, String>,
    u64,
))
    ensures
        match res.0 {
            Ok(file) => compound_opening(data@) == (None::<Seq<char>>, res.1 as nat)
                && compound_image(file) == data@,
            Err(text) => compound_opening(data@) == (Some(text@), res.1 as nat),
        },
        data@.len() < 512 ==> res.0 is Err && res.1 == data@.len(),
        data@.len() >= 512 && data@.take(8) != compound_signature() ==> res.0 is Err && res.1 == 8,
{
    let mut cursor = std::io::Cursor::new(data);
    let options = cfb::OpenOptions::new().max_buffer_size(64 * 1024);
    let fault = options.open_with(&mut cursor).err();
    let position = cursor.position();
    let options = cfb::OpenOptions::new().max_buffer_size(64 * 1024);
    match fault {
        Some(error) => (Err(error.to_string()), position),
        None => (options.open_with(cursor).map_err(|error| error.to_string()), position),
    }
}

/// Asks `cfb::CompoundFile::exists`. Claimed: for a path below the root that is read
/// alike on all platforms, the answer is a function of the file's bytes and the
/// path.
#[verifier::external_body]
fn entry_exists(file: &cfb::CompoundFile<std::io::Cursor<Vec<u8>>>, path: &str) -> (res: bool)
    ensures
        path@.len() > 0 && path@[0] == '/' && is_plain_name(path@.skip(1)) ==> res
            == compound_entry_exists(compound_image(*file), path@),
{
    file.exists(path)
}

/// Asks `cfb::CompoundFile::is_stream`. Claimed: for a path below the root that is
/// read alike on all platforms, the answer is a function of the file's bytes and the
/// path, and a stream is an entry that exists.
#[verifier::external_body]
fn has_stream(file: &cfb::CompoundFile<std::io::Cursor<Vec<u8>>>, path: &str) -> (res: bool)
    ensures
        path@.len() > 0 && path@[0] == '/' && is_plain_name(path@.skip(1)) ==> {
            &&& res == compound_has_stream(compound_image(*file), path@)
            &&& res ==> compound_entry_exists(compound_image(*file), path@)
        },
{
    file.is_stream(path)
}

/// Copies a stream that `cfb::CompoundFile::open_stream` opens to the end of a buffer.
/// Claimed: the file stays what it is, and the buffer keeps what it holds; and for a
/// path below the root that is read alike on all platforms and leads to a stream, the
/// outcome is a function of the file's bytes and the path. How much of the stream is
/// copied before an error is left open.
#[verifier::external_body]
fn copy_stream(
    file: &mut cfb::CompoundFile<std::io::Cursor<Vec<u8>>>,
    path: &str,
    writer: &mut Vec<u8>,
) -> (res: Result<(), String>)
    ensures
        compound_image(*final(file)) == compound_image(*old(file)),
        old(writer)@.is_prefix_of(final(writer)@),
        path@.len() > 0 && path@[0] == '/' && is_plain_name(path@.skip(1)) && compound_has_stream(
            compound_image(*old(file)),
            path@,
        ) ==> match compound_stream(compound_image(*old(file)), path@) {
            Ok(bytes) => res is Ok && final(writer)@ == old(writer)@ + bytes,
            Err(text) => res matches Err(message) && message@ == text,
        },
{
    let mut stream = file.open_stream(path).map_err(|error| error.to_string())?;
    std::io::copy(&mut stream, writer).map_err(|error| error.to_string())?;
    Ok(())
}

/// A compound file.
pub struct Cfb {
    inner: cfb::CompoundFile<std::io::Cursor<Vec<u8>>>,
}

impl Cfb {
    /// The bytes that the file was opened on.
    pub closed spec fn image(&self) -> Seq<u8> {
        compound_image(self.inner)
    }

    /// Opens the bytes of a stream. The stream is left where opening them ended, in
    /// success or failure.
    pub fn new(reader: &mut ByteSource) -> (res: Result<Cfb, RustySheetError>)
        ensures
            final(reader).data == old(reader).data,
            match compound_opening(old(reader).data@) {
                (None, position) => {
                    &&& res matches Ok(file)
                    &&& file.image() == old(reader).data@
                    &&& position <= usize::MAX ==> final(reader).position == position
                },
                (Some(text), position) => {
                    &&& res matches Err(e)
                    &&& e@ == ErrorView::Compound(text)
                    &&& position <= usize::MAX ==> final(reader).position == position
                },
            },
            old(reader).data@.len() < 512 ==> res is Err,
            old(reader).data@.len() >= 512 && old(reader).data@.take(8) != compound_signature()
                ==> res is Err && final(reader).position == 8,
    {
        let (opened, position) = open_compound(vstd::slice::slice_to_vec(reader.data.as_slice()));
        if position <= usize::MAX as u64 {
            reader.seek(position as usize);
        }
        match opened {
            Ok(inner) => Ok(Cfb { inner }),
            Err(text) => Err(RustySheetError::Compound(text)),
        }
    }

    /// The path of an entry below the root.
    fn path_of(name: &str) -> (res: String)
        ensures
            res@ == entry_path(name@),
    {
        let mut path = String::new();
        path.push('/');
        path.push_str(name);
        proof {
            assert(path@ =~= entry_path(name@));
        }
        path
    }

    /// Whether there is an entry with this name below the root. Slashes in it part the
    /// names of storages. What holds of names with a backslash or a slash in front
    /// depends on the platform.
    pub fn has_entry(&self, name: &str) -> (res: bool)
        ensures
            is_plain_name(name@) ==> res == compound_entry_exists(
                self.image(),
                entry_path(name@),
            ),
    {
        let path = Self::path_of(name);
        proof {
            assert(path@.skip(1) =~= name@);
        }
        entry_exists(&self.inner, path.as_str())
    }

    /// Appends the bytes of the stream with this name to `writer`, and returns
    /// whether there is such a stream. Where the stream fails, a part of it may have
    /// been appended. What holds of names with a backslash or a slash in front depends
    /// on the platform.
    pub fn copy_to(&mut self, name: &str, writer: &mut Vec<u8>) -> (res: Result<
        bool,
        RustySheetError,
    >)
        ensures
            final(self).image() == old(self).image(),
            old(writer)@.is_prefix_of(final(writer)@),
            is_plain_name(name@) ==> {
                let path = entry_path(name@);
                if !compound_has_stream(old(self).image(), path) {
                    &&& res == Ok::<bool, RustySheetError>(false)
                    &&& final(writer)@ == old(writer)@
                } else {
                    &&& compound_entry_exists(old(self).image(), path)
                    &&& match compound_stream(old(self).image(), path) {
                        Ok(bytes) => {
                            &&& res == Ok::<bool, RustySheetError>(true)
                            &&& final(writer)@ == old(writer)@ + bytes
                        },
                        Err(text) => res matches Err(e) && e@ == ErrorView::Compound(text),
                    }
                }
            },
    {
        let path = Self::path_of(name);
        proof {
            assert(path@.skip(1) =~= name@);
        }
        if !has_stream(&self.inner, path.as_str()) {
            return Ok(false);
        }
        match copy_stream(&mut self.inner, path.as_str(), writer) {
            Ok(_) => Ok(true),
            Err(text) => Err(RustySheetError::Compound(text)),
        }
    }
}

} // verus!
