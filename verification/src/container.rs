//! Zip archives held in memory.

use std::io::{Cursor, Read, Write};
use vstd::prelude::*;
use zip::result::ZipError;
use zip::write::SimpleFileOptions;
use zip::{CompressionMethod, ZipArchive, ZipWriter};

verus! {

/// The error type of the `zip` crate.
#[verifier::external_type_specification]
#[verifier::external_body]
pub struct ExZipError(ZipError);

/// An archive that is being written, held in a `zip::ZipWriter` over memory.
#[verifier::external_body]
pub struct Packer {
    writer: ZipWriter<Cursor<Vec<u8>>>,
}

/// The names and contents written so far, in order.
pub uninterp spec fn members_of(packer: Packer) -> Seq<(Seq<char>, Seq<u8>)>;

/// Whether `ZipArchive::new` takes the bytes for an archive and `ZipArchive::by_name` opens
/// a member with the name in it.
pub uninterp spec fn has_member(bytes: Seq<u8>, name: Seq<char>) -> bool;

/// What is read to the end from the member that `ZipArchive::by_name` opens; nothing where
/// there is no such member, or where it cannot be unpacked whole without an error.
pub uninterp spec fn member_in(bytes: Seq<u8>, name: Seq<char>) -> Option<Seq<u8>>;

/// A name of plain characters without directories.
pub open spec fn plain_name(name: Seq<char>) -> bool {
    &&& name.len() > 0
    &&& forall|i: int| 0 <= i < name.len() ==> plain_character(#[trigger] name[i])
}

pub open spec fn plain_character(c: char) -> bool {
    ('a' <= c && c <= 'z') || ('0' <= c && c <= '9') || c == '_' || c == '.'
}

/// The length up to which a member is sure to be accepted. A member may have up to 4 GiB
/// both before and after deflating, and deflating lengthens it by less than one part in
/// seven.
pub const MEMBER_LIMIT: u64 = 0xE000_0000;

/// All members are sure to be accepted.
pub open spec fn moderate(members: Seq<(Seq<char>, Seq<u8>)>) -> bool {
    forall|i: int| 0 <= i < members.len() ==> (#[trigger] members[i]).1.len() <= MEMBER_LIMIT
}

/// No member has the name.
pub open spec fn unused_name(members: Seq<(Seq<char>, Seq<u8>)>, name: Seq<char>) -> bool {
    forall|i: int| 0 <= i < members.len() ==> (#[trigger] members[i]).0 != name
}

/// `ZipWriter::new` over an empty buffer: an archive without members.
#[verifier::external_body]
pub(crate) fn start_archive() -> (packer: Packer)
    ensures
        members_of(packer).len() == 0,
{
    Packer { writer: ZipWriter::new(Cursor::new(Vec::new())) }
}

/// `ZipWriter::start_file`, deflating: where it succeeds, the archive has one more member,
/// still empty, and no earlier member has its name. It succeeds for a short new name where
/// the members so far are not too long.
#[verifier::external_body]
pub(crate) fn begin_member(packer: &mut Packer, name: &str) -> (result: std::result::Result<
    (),
    ZipError,
>)
    requires
        plain_name(name@),
    ensures
        result is Ok ==> {
            &&& members_of(*final(packer)) == members_of(*old(packer)).push(
                (name@, Seq::<u8>::empty()),
            )
            &&& unused_name(members_of(*old(packer)), name@)
        },
        unused_name(members_of(*old(packer)), name@) && name@.len() <= 1000 && moderate(
            members_of(*old(packer)),
        ) ==> result is Ok,
{
    let options = SimpleFileOptions::default().compression_method(CompressionMethod::Deflated);
    packer.writer.start_file(name, options)
}

/// `Write::write_all` of `ZipWriter`: where it succeeds, the bytes stand behind those of the
/// last member. It succeeds where the member does not become too long.
#[verifier::external_body]
pub(crate) fn write_member(packer: &mut Packer, bytes: &[u8]) -> (result: std::result::Result<
    (),
    ZipError,
>)
    requires
        members_of(*old(packer)).len() > 0,
    ensures
        result is Ok ==> members_of(*final(packer)) == members_of(*old(packer)).drop_last().push(
            (members_of(*old(packer)).last().0, members_of(*old(packer)).last().1 + bytes@),
        ),
        members_of(*old(packer)).last().1.len() + bytes@.len() <= MEMBER_LIMIT ==> result is Ok,
{
    packer.writer.write_all(bytes).map_err(ZipError::from)
}

/// `ZipWriter::finish`: where it succeeds, reading the archive gives back every member. It
/// succeeds where no member is too long.
#[verifier::external_body]
pub(crate) fn finish_archive(packer: Packer) -> (result: std::result::Result<Vec<u8>, ZipError>)
    ensures
        match result {
            Ok(bytes) => forall|i: int|
                0 <= i < members_of(packer).len() ==> has_member(
                    bytes@,
                    (#[trigger] members_of(packer)[i]).0,
                ) && member_in(bytes@, members_of(packer)[i].0) == Some(members_of(packer)[i].1),
            Err(_) => !moderate(members_of(packer)),
        },
{
    packer.writer.finish().map(|buffer| buffer.into_inner())
}

/// The first bytes of a sequence, no more than a number of them.
pub open spec fn front(contents: Seq<u8>, length: nat) -> Seq<u8> {
    if length < contents.len() {
        contents.take(length as int)
    } else {
        contents
    }
}

/// `ZipArchive::by_name` on an archive in memory, and `Read::read_to_end` of the first bytes
/// of the member, no more than `length`: nothing where no member is opened. Of a member that
/// can be unpacked whole these are its first bytes. Of any other member nothing is said: what
/// stands before a fault may or may not be read.
#[verifier::external_body]
pub(crate) fn read_member(bytes: &[u8], name: &str, length: usize) -> (result: std::result::Result<
    Option<Vec<u8>>,
    ZipError,
>)
    ensures
        match result {
            Ok(None) => !has_member(bytes@, name@) && member_in(bytes@, name@) is None,
            Ok(Some(start)) => has_member(bytes@, name@) && (member_in(bytes@, name@) matches Some(
                contents,
            ) ==> start@ == front(contents, length as nat)),
            Err(_) => has_member(bytes@, name@) && member_in(bytes@, name@) is None,
        },
{
    let mut archive = match ZipArchive::new(Cursor::new(bytes)) {
        Ok(archive) => archive,
        Err(_) => return Ok(None),
    };
    let member = match archive.by_name(name) {
        Ok(member) => member,
        Err(_) => return Ok(None),
    };
    let mut start: Vec<u8> = Vec::new();
    member.take(length as u64).read_to_end(&mut start).map_err(ZipError::from)?;
    Ok(Some(start))
}

} // verus!
