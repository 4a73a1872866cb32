use crate::digest::{content_hash, content_hash_of};
use crate::status::FileStatus;
use vstd::prelude::*;
use vstd::string::StringExecFns;

verus! {

/// A data file that backs an index: where it is stored, the hexadecimal
/// MD5 digest of its content, its size in bytes, and where its download
/// stands.
#[derive(Debug)]
pub struct Item {
    pub id: String,
    pub filename: String,
    pub md5: String,
    pub filesize_bytes: u64,
    pub filestatus: FileStatus,
    pub updated_at: i64,
}

/// What happens to a download.
#[derive(Clone, Copy, Debug, PartialEq, Eq, Structural)]
pub enum FetchEvent {
    /// A first download is started.
    Start,
    /// The content was fetched and stored.
    Success,
    /// The transfer or the write failed, timed out or was cancelled.
    Failure,
    /// A failed download is started again.
    Retry,
    /// An available item is downloaded anew.
    Refresh,
}

/// The status that `event` moves a download in status `from` to, if the
/// life cycle allows it.
pub open spec fn file_transition(from: FileStatus, event: FetchEvent) -> Option<FileStatus> {
    match (from, event) {
        (FileStatus::NotAvailable, FetchEvent::Start) => Some(FileStatus::DownloadInProgress),
        (FileStatus::DownloadInProgress, FetchEvent::Success) => Some(FileStatus::Available),
        (FileStatus::DownloadInProgress, FetchEvent::Failure) => Some(FileStatus::DownloadError),
        (FileStatus::DownloadError, FetchEvent::Retry) => Some(FileStatus::DownloadInProgress),
        (FileStatus::Available, FetchEvent::Refresh) => Some(FileStatus::DownloadInProgress),
        _ => None,
    }
}

impl FileStatus {
    /// The status that `event` moves this status to, if the life cycle
    /// allows it.
    pub fn next(self, event: FetchEvent) -> (r: Option<FileStatus>)
        ensures
            r == file_transition(self, event),
    {
        match (self, event) {
            (FileStatus::NotAvailable, FetchEvent::Start) => Some(FileStatus::DownloadInProgress),
            (FileStatus::DownloadInProgress, FetchEvent::Success) => Some(FileStatus::Available),
            (FileStatus::DownloadInProgress, FetchEvent::Failure) => Some(
                FileStatus::DownloadError,
            ),
            (FileStatus::DownloadError, FetchEvent::Retry) => Some(FileStatus::DownloadInProgress),
            (FileStatus::Available, FetchEvent::Refresh) => Some(FileStatus::DownloadInProgress),
            _ => None,
        }
    }
}

/// How a request to download an item was taken.
#[derive(Clone, Copy, Debug, PartialEq, Eq, Structural)]
pub enum Acquisition {
    /// The item was moved to `DownloadInProgress`: the caller runs the transfer.
    Started,
    /// A transfer of the item is already under way: nothing was changed.
    InFlight,
}

/// Why a transfer did not end with the content stored.
#[derive(Clone, Copy, Debug, PartialEq, Eq, Structural)]
pub enum FetchFailure {
    Transport,
    Timeout,
    Storage,
    Cancelled,
}

/// The name under which the file of item `item_id` is stored.
pub open spec fn bano_filename_of(item_id: Seq<char>) -> Seq<char> {
    seq!['b', 'a', 'n', 'o', '-'] + item_id + seq!['.', 'c', 's', 'v']
}

/// The location that the file of item `item_id` is fetched from.
pub open spec fn bano_url_of(item_id: Seq<char>) -> Seq<char> {
    seq!['h', 't', 't', 'p', ':', '/', '/'] + seq!['b', 'a', 'n', 'o', '.'] + seq![
        'o',
        'p',
        'e',
        'n',
        's',
        't',
        'r',
        'e',
        'e',
        't',
        'm',
        'a',
        'p',
        '.',
        'f',
        'r',
    ] + seq!['/', 'd', 'a', 't', 'a', '/'] + bano_filename_of(item_id)
}

/// The name under which the file of item `item_id` is stored.
pub fn bano_item_filename(item_id: &str) -> (r: String)
    ensures
        r@ == bano_filename_of(item_id@),
{
    proof {
        reveal_strlit("bano-");
        reveal_strlit(".csv");
    }
    let mut r = String::new();
    r.append("bano-");
    r.append(item_id);
    r.append(".csv");
    assert(r@ =~= bano_filename_of(item_id@));
    r
}

/// The location that the file of item `item_id` is fetched from.
pub fn bano_item_url(item_id: &str) -> (r: String)
    ensures
        r@ == bano_url_of(item_id@),
{
    proof {
        reveal_strlit("http://bano.openstreetmap.fr/data/");
    }
    let mut r = String::new();
    r.append("http://bano.openstreetmap.fr/data/");
    let f = bano_item_filename(item_id);
    r.append(f.as_str());
    assert(r@ =~= bano_url_of(item_id@));
    r
}

impl Item {
    /// A new item, not yet downloaded, recorded at time `now`.
    pub fn new(id: String, now: i64) -> (r: Item)
        ensures
            r.id == id,
            r.updated_at == now,
            r.filename@.len() == 0,
            r.md5@.len() == 0,
            r.filesize_bytes == 0,
            r.filestatus == FileStatus::NotAvailable,
    {
        Item {
            id,
            filename: String::new(),
            md5: String::new(),
            filesize_bytes: 0,
            filestatus: FileStatus::NotAvailable,
            updated_at: now,
        }
    }

    /// A copy of this item.
    pub fn copy(&self) -> (r: Item)
        ensures
            r == *self,
    {
        Item {
            id: self.id.clone(),
            filename: self.filename.clone(),
            md5: self.md5.clone(),
            filesize_bytes: self.filesize_bytes,
            filestatus: self.filestatus,
            updated_at: self.updated_at,
        }
    }

    /// The size in kilobytes, as a whole number of kilobytes and the bytes
    /// left over: the size is `whole + rest / 1024` kilobytes.
    pub fn filesize_kb(&self) -> (r: (u64, u64))
        ensures
            r.0 == self.filesize_bytes / 1024,
            r.1 == self.filesize_bytes % 1024,
            r.0 * 1024 + r.1 == self.filesize_bytes,
    {
        (self.filesize_bytes / 1024, self.filesize_bytes % 1024)
    }
}

/// What a request to download item `old` at time `now` makes of it: an
/// item whose transfer is under way stays as it is (`InFlight`); any other
/// moves by its life cycle to `DownloadInProgress` (`Started`), with only
/// its status and time changed.
pub open spec fn acquired(old: Item, new: Item, r: Acquisition, now: i64) -> bool {
    &&& new.filestatus == FileStatus::DownloadInProgress
    &&& (r == Acquisition::InFlight) <==> (old.filestatus == FileStatus::DownloadInProgress)
    &&& r == Acquisition::InFlight ==> new == old
    &&& r == Acquisition::Started ==> {
        &&& exists|e: FetchEvent| file_transition(old.filestatus, e) == Some(FileStatus::DownloadInProgress)
        &&& new.id == old.id
        &&& new.filename == old.filename
        &&& new.md5 == old.md5
        &&& new.filesize_bytes == old.filesize_bytes
        &&& new.updated_at == now
    }
}

/// What recording the end of the transfer of item `old` at time `now`
/// makes of it: on success it is `Available` with the file name, the
/// content hash and the size of exactly the bytes fetched; on failure it is
/// `DownloadError` with its other fields as they were.
pub open spec fn transfer_recorded(
    old: Item,
    new: Item,
    outcome: Result<&[u8], FetchFailure>,
    now: i64,
) -> bool {
    &&& new.id == old.id
    &&& new.updated_at == now
    &&& match outcome {
        Ok(data) => {
            &&& file_transition(old.filestatus, FetchEvent::Success) == Some(new.filestatus)
            &&& new.filestatus == FileStatus::Available
            &&& new.filename@ == bano_filename_of(old.id@)
            &&& new.md5@ == content_hash_of(data@)
            &&& new.md5@.len() == 32
            &&& new.filesize_bytes == data@.len()
        },
        Err(_) => {
            &&& file_transition(old.filestatus, FetchEvent::Failure) == Some(new.filestatus)
            &&& new.filestatus == FileStatus::DownloadError
            &&& new.filename == old.filename
            &&& new.md5 == old.md5
            &&& new.filesize_bytes == old.filesize_bytes
        },
    }
}

/// Takes a request to download `item`, at time `now`.
///
/// An item whose transfer is under way is left as it is, so that there is
/// never more than one transfer of an item at a time. Any other item moves
/// at once to `DownloadInProgress`, before any byte is fetched: a first
/// download, a retry after an error, or a refresh of an available item.
pub fn download_bano_item(item: &mut Item, now: i64) -> (r: Acquisition)
    ensures
        acquired(*old(item), *final(item), r, now),
{
    let event = match item.filestatus {
        FileStatus::DownloadInProgress => {
            return Acquisition::InFlight;
        },
        FileStatus::NotAvailable => FetchEvent::Start,
        FileStatus::DownloadError => FetchEvent::Retry,
        FileStatus::Available => FetchEvent::Refresh,
    };
    if let Some(s) = item.filestatus.next(event) {
        item.filestatus = s;
    }
    item.updated_at = now;
    Acquisition::Started
}

/// Records how the transfer of `item` ended, at time `now`.
///
/// `outcome` is the content that was fetched and already stored durably, or
/// the reason why that did not happen. On success the item becomes
/// `Available` with its file name, the content hash and the size of exactly
/// those bytes; on any failure it becomes `DownloadError`, its other fields
/// unchanged. Either way it leaves `DownloadInProgress`.
pub fn download_bano_item_task(item: &mut Item, outcome: Result<&[u8], FetchFailure>, now: i64)
    requires
        old(item).filestatus == FileStatus::DownloadInProgress,
    ensures
        transfer_recorded(*old(item), *final(item), outcome, now),
{
    match outcome {
        Ok(data) => {
            item.filename = bano_item_filename(item.id.as_str());
            item.md5 = content_hash(data);
            item.filesize_bytes = data.len() as u64;
            item.filestatus = FileStatus::Available;
        },
        Err(_) => {
            item.filestatus = FileStatus::DownloadError;
        },
    }
    item.updated_at = now;
}

} // verus!
