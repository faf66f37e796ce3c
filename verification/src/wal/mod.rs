//! Object-store write-ahead log.
//!
//! - [`format`]: encoding and decoding of a log object.

pub mod codec;
pub mod fence;
pub mod format;
pub mod layout;
pub mod reader;
pub mod roundtrip;
pub mod writer;

use crate::path::{path_components, path_file_name, path_join, split_extension};
use crate::text::{fixed_width_string, parse_u64, same_text};
#[allow(unused_imports)]
use crate::{path, text};
use vstd::prelude::*;

verus! {

/// Monotonically increasing, contiguous id of an object within one ingester's log.
///
/// `0` is never written: it is the "nothing flushed yet" boundary, so the first object of a log
/// has id `1`.
#[derive(Clone, Copy, Debug, Default, PartialEq, Eq, Hash, PartialOrd, Ord, Structural)]
pub struct WalId(pub u64);

impl WalId {
    /// The boundary before the first object.
    pub fn zero() -> (zero: WalId)
        ensures
            zero.0 == 0,
    {
        WalId(0)
    }

    /// Returns the next id.
    pub fn next(self) -> (next: WalId)
        requires
            self.0 < u64::MAX,
        ensures
            next.0 == self.0 + 1,
    {
        WalId(self.0 + 1)
    }

    /// The id as it stands in object names: twenty decimal digits.
    pub fn to_text(self) -> (text: String)
        ensures
            text@ == wal_id_text(self.0),
    {
        fixed_width_string(self.0, 20)
    }
}

impl From<u64> for WalId {
    fn from(value: u64) -> (id: Self) {
        WalId(value)
    }
}

impl vstd::std_specs::convert::FromSpecImpl<u64> for WalId {
    open spec fn obeys_from_spec() -> bool {
        true
    }

    open spec fn from_spec(value: u64) -> Self {
        WalId(value)
    }
}

/// The twenty digits of an id.
pub open spec fn wal_id_text(id: u64) -> Seq<char> {
    text::fixed_width(id as nat, 20)
}

/// The directory of an ingester's log, relative to the root of the log storage.
pub open spec fn log_dir(ingester_id: Seq<char>) -> Seq<char> {
    path::joined(ingester_id, "wal"@)
}

/// The name of a log object within its directory.
pub open spec fn object_name(id: u64) -> Seq<char> {
    wal_id_text(id).push('.') + "wal"@
}

/// The path of a log object, relative to the root of the log storage.
pub open spec fn object_path(ingester_id: Seq<char>, id: u64) -> Seq<char> {
    path::joined(log_dir(ingester_id), object_name(id))
}

/// The id that an object path carries: its file has the extension `wal` and a stem of twenty
/// bytes that reads as a number.
pub open spec fn object_id(object: Seq<char>) -> Option<u64> {
    match path::file_name(object) {
        Some(name) => match path::stem_and_extension(name) {
            Some((stem, extension)) => if extension == "wal"@ && vstd::utf8::encode_utf8(stem).len()
                == 20 {
                text::parsed_u64(stem)
            } else {
                None
            },
            None => None,
        },
        None => None,
    }
}

/// The ingester and the id that an object path of the form `<ingester>/wal/<id>.wal` carries: three
/// components, none of them the root.
pub open spec fn ingester_object(object: Seq<char>) -> Option<(Seq<char>, u64)> {
    let parts = path::components(object);
    match object_id(object) {
        Some(id) => if parts.len() == 3 && parts[0] != seq!['/'] && parts[1] == "wal"@ {
            Some((parts[0], id))
        } else {
            None
        },
        None => None,
    }
}

/// Returns the directory of an ingester's log, relative to the WAL storage root.
pub fn wal_dir(ingester_id: &str) -> (dir: String)
    ensures
        dir@ == log_dir(ingester_id@),
{
    path_join(ingester_id, "wal")
}

/// Returns the path of a WAL object, relative to the WAL storage root:
/// `<ingester_id>/wal/<wal_id:020>.wal`.
pub fn wal_object_path(ingester_id: &str, wal_id: WalId) -> (object: String)
    ensures
        object@ == object_path(ingester_id@, wal_id.0),
{
    proof {
        reveal_strlit(".");
    }
    let dir = wal_dir(ingester_id);
    let mut name = wal_id.to_text();
    name.append(".");
    assert(name@ =~= wal_id_text(wal_id.0).push('.'));
    name.append("wal");
    path_join(dir.as_str(), name.as_str())
}

/// Parses the [`WalId`] out of a WAL object path (relative to the WAL storage root).
pub fn parse_wal_object_path(path: &str) -> (wal_id: Option<WalId>)
    ensures
        match wal_id {
            Some(wal_id) => object_id(path@) == Some(wal_id.0),
            None => object_id(path@) is None,
        },
{
    match path_file_name(path) {
        None => None,
        Some(name) => match split_extension(name.as_str()) {
            None => None,
            Some((stem, extension)) => {
                if !same_text(extension.as_str(), "wal") {
                    return None;
                }
                if stem.as_str().as_bytes().len() != 20 {
                    return None;
                }
                match parse_u64(stem.as_str()) {
                    Some(id) => Some(WalId(id)),
                    None => None,
                }
            },
        },
    }
}

/// Parses `<ingester_id>/wal/<wal_id>.wal`.
pub fn parse_ingester_object_path(path: &str) -> (object: Option<(String, WalId)>)
    ensures
        match object {
            Some((ingester_id, wal_id)) => ingester_object(path@) == Some(
                (ingester_id@, wal_id.0),
            ),
            None => ingester_object(path@) is None,
        },
{
    match parse_wal_object_path(path) {
        None => None,
        Some(wal_id) => {
            let parts = path_components(path);
            assert(parts@.len() == path::texts(parts@).len());
            if parts.len() != 3 {
                return None;
            }
            proof {
                reveal_strlit("/");
                assert("/"@ =~= seq!['/']);
                assert(path::texts(parts@)[0] == parts@[0]@);
                assert(path::texts(parts@)[1] == parts@[1]@);
            }
            if same_text(parts[0].as_str(), "/") || !same_text(parts[1].as_str(), "wal") {
                return None;
            }
            Some((parts[0].clone(), wal_id))
        },
    }
}

/// Ids sort as texts the way they sort as numbers, so a listing in name order is in id order.
pub proof fn wal_ids_sort_lexicographically(a: u64, b: u64)
    requires
        a < b,
    ensures
        text::lexicographically_less(wal_id_text(a), wal_id_text(b)),
{
    lemma_ids_have_twenty_digits();
    text::fixed_width_keeps_order(a as nat, b as nat, 20);
}

proof fn lemma_ids_have_twenty_digits()
    ensures
        u64::MAX < text::power_of_ten(20),
{
    reveal_with_fuel(text::power_of_ten, 21);
}

/// The path of an object gives back its id, whatever the ingester is called.
pub proof fn object_path_gives_back_the_id(ingester_id: Seq<char>, id: u64)
    ensures
        object_id(object_path(ingester_id, id)) == Some(id),
{
    reveal_strlit("wal");
    let dir = log_dir(ingester_id);
    let name = object_name(id);
    let stem = wal_id_text(id);
    lemma_ids_have_twenty_digits();
    text::fixed_width_reads_back(id as nat, 20);
    assert forall|i: int| 0 <= i < name.len() implies name[i] != '/' by {
        if i < 20 {
            assert(text::is_digit(stem[i]));
        }
    }
    assert(dir.len() > 0 && dir.last() == 'l');
    assert(name.len() == 24);
    path::joined_adds_a_component(dir, name);
    path::extension_splits_off(stem, "wal"@);
    assert(text::is_digit(stem[0]));
    assert forall|i: int| 0 <= i < stem.len() implies 0 <= #[trigger] stem[i] as u32 <= 0x7f by {
        assert(text::is_digit(stem[i]));
    }
    vstd::utf8::is_ascii_chars_encode_utf8(stem);
}

/// The path of an object gives back its ingester and its id, for every ingester whose name is a
/// single path component.
pub proof fn object_path_gives_back_the_ingester(ingester_id: Seq<char>, id: u64)
    requires
        ingester_id.len() > 0,
        forall|i: int| 0 <= i < ingester_id.len() ==> ingester_id[i] != '/',
    ensures
        ingester_object(object_path(ingester_id, id)) == Some((ingester_id, id)),
{
    reveal_strlit("wal");
    object_path_gives_back_the_id(ingester_id, id);
    let dir = log_dir(ingester_id);
    let name = object_name(id);
    let stem = wal_id_text(id);
    text::fixed_width_reads_back(id as nat, 20);
    assert forall|i: int| 0 <= i < name.len() implies name[i] != '/' by {
        if i < 20 {
            assert(text::is_digit(stem[i]));
        }
    }
    path::plain_name_is_one_component(ingester_id);
    assert(ingester_id.last() != '/');
    assert("wal"@[0] != '/' && "wal"@[1] != '/' && "wal"@[2] != '/');
    assert("wal"@ != seq!['.']);
    path::joined_adds_a_component(ingester_id, "wal"@);
    assert(ingester_id != seq!['/']) by {
        assert(ingester_id[0] != '/');
    }
    assert(dir.last() == 'l');
    assert(name.len() == 24);
    path::joined_adds_a_component(dir, name);
}

/// What went wrong in the underlying storage.
#[derive(Clone, Copy, Debug, PartialEq, Eq, Structural)]
pub enum StorageErrorKind {
    /// The object does not exist.
    NotFound,
    /// The object was to be created and exists already.
    AlreadyExists,
    /// The storage refused the credentials.
    Unauthorized,
    /// The storage service failed.
    Service,
    /// The request took too long.
    Timeout,
    /// Reading or writing failed.
    Io,
    /// Anything else.
    Internal,
}

/// A failed storage request.
#[derive(Clone, Debug, PartialEq, Eq)]
pub struct StorageError {
    pub kind: StorageErrorKind,
    pub message: String,
}

/// Errors returned by the WAL.
#[derive(Clone, Debug, PartialEq, Eq)]
pub enum WalError {
    /// Another writer claimed a later epoch: this writer must stop.
    Fenced,
    /// The in-memory buffer exceeded its configured capacity; retry after a flush.
    BufferFull,
    /// The writer was shut down.
    Closed,
    /// A WAL object failed integrity or format checks.
    Corrupted(String),
    /// The underlying storage failed.
    Storage(StorageError),
}

impl WalError {
    /// Whether the error is [`WalError::Storage`] with the given kind.
    pub fn is_storage_kind(&self, kind: StorageErrorKind) -> (is: bool)
        ensures
            is == (self matches WalError::Storage(error) && error.kind == kind),
    {
        match self {
            WalError::Storage(error) => error.kind == kind,
            _ => false,
        }
    }

    /// The error as a sentence.
    pub fn to_text(&self) -> (text: String)
        ensures
            text@ == error_text(*self),
    {
        match self {
            WalError::Fenced => "WAL writer was fenced".to_owned(),
            WalError::BufferFull => "WAL buffer is full".to_owned(),
            WalError::Closed => "WAL writer is closed".to_owned(),
            WalError::Corrupted(message) => {
                let mut text = "WAL object is corrupted: ".to_owned();
                text.append(message.as_str());
                text
            },
            WalError::Storage(error) => {
                let mut text = "storage error: ".to_owned();
                text.append(error.message.as_str());
                text
            },
        }
    }
}

/// An error as a sentence.
pub open spec fn error_text(error: WalError) -> Seq<char> {
    match error {
        WalError::Fenced => "WAL writer was fenced"@,
        WalError::BufferFull => "WAL buffer is full"@,
        WalError::Closed => "WAL writer is closed"@,
        WalError::Corrupted(message) => "WAL object is corrupted: "@ + message@,
        WalError::Storage(error) => "storage error: "@ + error.message@,
    }
}

pub type WalResult<T> = Result<T, WalError>;

/// The objects of a log stand in the directory `wal` of its ingester, each under its id in twenty digits
/// and the extension `wal`.
pub proof fn object_paths_are_spelled_out(ingester_id: Seq<char>, id: u64)
    requires
        ingester_id.len() > 0,
        ingester_id.last() != '/',
    ensures
        log_dir(ingester_id) == ingester_id + seq!['/', 'w', 'a', 'l'],
        object_path(ingester_id, id) == ingester_id + seq!['/', 'w', 'a', 'l', '/']
            + wal_id_text(id) + seq!['.', 'w', 'a', 'l'],
        wal_id_text(id).len() == 20,
        text::all_digits(wal_id_text(id)),
        text::digits_value(wal_id_text(id)) == id,
{
    reveal_strlit("wal");
    assert("wal"@ =~= seq!['w', 'a', 'l']);
    path::joined_paths_have_one_slash_between(ingester_id, "wal"@);
    assert(log_dir(ingester_id) =~= ingester_id + seq!['/', 'w', 'a', 'l']);
    path::joined_paths_have_one_slash_between(log_dir(ingester_id), object_name(id));
    assert(object_path(ingester_id, id) =~= ingester_id + seq!['/', 'w', 'a', 'l', '/']
        + wal_id_text(id) + seq!['.', 'w', 'a', 'l']);
    text::fixed_width_reads_back(id as nat, 20);
    lemma_twenty_digits_hold_every_id(id);
}

proof fn lemma_twenty_digits_hold_every_id(id: u64)
    ensures
        id < text::power_of_ten(20),
{
    reveal_with_fuel(text::power_of_ten, 21);
}

/// A path gives an id only if it ends with a name of twenty bytes that read as the id, and the extension
/// `wal`. Every such path does.
pub proof fn only_object_names_have_an_id(object: Seq<char>)
    ensures
        object_id(object) matches Some(id) ==> ({
            let name = path::file_name(object);
            let (stem, extension) = path::stem_and_extension(name->0)->0;
            &&& name is Some
            &&& path::stem_and_extension(name->0) is Some
            &&& extension == seq!['w', 'a', 'l']
            &&& vstd::utf8::encode_utf8(stem).len() == 20
            &&& text::parsed_u64(stem) == Some(id)
        }),
        (path::file_name(object) matches Some(name) && path::stem_and_extension(name) matches Some(
            (stem, extension),
        ) && extension == seq!['w', 'a', 'l'] && vstd::utf8::encode_utf8(stem).len() == 20
            && text::parsed_u64(stem) is Some) ==> object_id(object) is Some,
{
    reveal_strlit("wal");
    assert("wal"@ =~= seq!['w', 'a', 'l']);
}

/// A path gives an ingester exactly if it gives an id and is made of three names, of which the second is
/// `wal` and the first, which is not the root, is the ingester.
pub proof fn objects_stand_under_their_ingester(object: Seq<char>)
    ensures
        ingester_object(object) is Some <==> object_id(object) is Some && path::components(
            object,
        ).len() == 3 && path::components(object)[1] == seq!['w', 'a', 'l'] && path::components(
            object,
        )[0] != seq!['/'],
        ingester_object(object) matches Some((ingester_id, id)) ==> ingester_id
            == path::components(object)[0] && object_id(object) == Some(id),
{
    reveal_strlit("wal");
    assert("wal"@ =~= seq!['w', 'a', 'l']);
}

/// The text of an error ends with its reason, where it has one.
pub proof fn errors_tell_their_reason(error: WalError)
    ensures
        error matches WalError::Corrupted(message) ==> message@.is_suffix_of(error_text(error)),
        error matches WalError::Storage(storage) ==> storage.message@.is_suffix_of(
            error_text(error),
        ),
{
    match error {
        WalError::Corrupted(message) => {
            let text = error_text(error);
            assert(text.subrange(text.len() - message@.len(), text.len() as int) =~= message@);
        },
        WalError::Storage(storage) => {
            let text = error_text(error);
            assert(text.subrange(text.len() - storage.message@.len(), text.len() as int)
                =~= storage.message@);
        },
        _ => {},
    }
}

} // verus!
