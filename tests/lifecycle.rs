use mjolnir::item::{
    bano_item_filename, bano_item_url, download_bano_item, download_bano_item_task, Acquisition,
    FetchEvent, FetchFailure, Item,
};
use mjolnir::status::{aggregate_status, worse_status, FileStatus, IndexStatus};

#[test]
fn aggregate_of_no_member_is_available() {
    assert_eq!(aggregate_status(&vec![]), IndexStatus::Available);
}

#[test]
fn aggregate_available_only_when_all_are() {
    assert_eq!(
        aggregate_status(&vec![IndexStatus::Available, IndexStatus::Available]),
        IndexStatus::Available
    );
    assert_eq!(
        aggregate_status(&vec![IndexStatus::Available, IndexStatus::Indexed]),
        IndexStatus::Indexed
    );
}

#[test]
fn aggregate_takes_least_progressed() {
    assert_eq!(
        aggregate_status(&vec![
            IndexStatus::Indexed,
            IndexStatus::DownloadInProgress,
            IndexStatus::Available
        ]),
        IndexStatus::DownloadInProgress
    );
    assert_eq!(
        aggregate_status(&vec![IndexStatus::Downloaded, IndexStatus::NotAvailable]),
        IndexStatus::NotAvailable
    );
}

#[test]
fn aggregate_errors_outrank_progress() {
    assert_eq!(
        aggregate_status(&vec![IndexStatus::NotAvailable, IndexStatus::ValidationError]),
        IndexStatus::ValidationError
    );
    assert_eq!(
        aggregate_status(&vec![IndexStatus::IndexingError, IndexStatus::DownloadError]),
        IndexStatus::DownloadError
    );
    assert_eq!(
        worse_status(IndexStatus::DownloadInProgress, IndexStatus::IndexingError),
        IndexStatus::IndexingError
    );
}

#[test]
fn index_life_cycle_moves() {
    assert!(IndexStatus::NotAvailable.can_move_to(IndexStatus::DownloadInProgress));
    assert!(IndexStatus::DownloadInProgress.can_move_to(IndexStatus::DownloadError));
    assert!(IndexStatus::DownloadError.can_move_to(IndexStatus::DownloadInProgress));
    assert!(IndexStatus::ValidationInProgress.can_move_to(IndexStatus::Available));
    assert!(!IndexStatus::NotAvailable.can_move_to(IndexStatus::Available));
    assert!(!IndexStatus::Available.can_move_to(IndexStatus::NotAvailable));
    assert!(!IndexStatus::DownloadError.can_move_to(IndexStatus::Downloaded));
}

#[test]
fn file_life_cycle_moves() {
    assert_eq!(
        FileStatus::NotAvailable.next(FetchEvent::Start),
        Some(FileStatus::DownloadInProgress)
    );
    assert_eq!(
        FileStatus::DownloadInProgress.next(FetchEvent::Success),
        Some(FileStatus::Available)
    );
    assert_eq!(
        FileStatus::DownloadInProgress.next(FetchEvent::Failure),
        Some(FileStatus::DownloadError)
    );
    assert_eq!(
        FileStatus::DownloadError.next(FetchEvent::Retry),
        Some(FileStatus::DownloadInProgress)
    );
    assert_eq!(
        FileStatus::Available.next(FetchEvent::Refresh),
        Some(FileStatus::DownloadInProgress)
    );
    assert_eq!(FileStatus::NotAvailable.next(FetchEvent::Success), None);
    assert_eq!(FileStatus::Available.next(FetchEvent::Failure), None);
}

#[test]
fn new_item_is_not_available() {
    let item = Item::new("75".to_string(), 0);
    assert_eq!(item.id, "75");
    assert_eq!(item.filestatus, FileStatus::NotAvailable);
    assert_eq!(item.filesize_bytes, 0);
    assert_eq!(item.md5, "");
}

#[test]
fn acquire_moves_to_in_progress_before_transfer() {
    let mut item = Item::new("75".to_string(), 0);
    assert_eq!(download_bano_item(&mut item, 10), Acquisition::Started);
    assert_eq!(item.filestatus, FileStatus::DownloadInProgress);
    assert_eq!(item.updated_at, 10);
    assert_eq!(item.md5, "");
    assert_eq!(download_bano_item(&mut item, 11), Acquisition::InFlight);
    assert_eq!(item.updated_at, 10);
}

#[test]
fn failed_transfer_lands_in_error_and_can_retry() {
    let mut item = Item::new("92".to_string(), 0);
    download_bano_item(&mut item, 1);
    download_bano_item_task(&mut item, Err(FetchFailure::Timeout), 2);
    assert_eq!(item.filestatus, FileStatus::DownloadError);
    assert_eq!(item.md5, "");
    assert_eq!(item.updated_at, 2);
    assert_eq!(download_bano_item(&mut item, 3), Acquisition::Started);
    assert_eq!(item.filestatus, FileStatus::DownloadInProgress);
    download_bano_item_task(&mut item, Err(FetchFailure::Cancelled), 4);
    assert_eq!(item.filestatus, FileStatus::DownloadError);
}

#[test]
fn download_of_2048_bytes() {
    let mut item = Item::new("75".to_string(), 0);
    download_bano_item(&mut item, 1);
    let payload = vec![0u8; 2048];
    download_bano_item_task(&mut item, Ok(&payload), 2);
    assert_eq!(item.filestatus, FileStatus::Available);
    assert_eq!(item.filesize_bytes, 2048);
    let (whole, rest) = item.filesize_kb();
    assert_eq!((whole, rest), (2, 0));
    let kb = whole as f64 + rest as f64 / 1024.0;
    assert_eq!(kb, 2.0);
    assert_eq!(item.md5, mjolnir::digest::content_hash(&payload));
    assert_eq!(item.md5, "c99a74c555371a433d121f551d6c6398");
    assert_eq!(item.filename, "bano-75.csv");
}

#[test]
fn fractional_size_is_kept() {
    let mut item = Item::new("1".to_string(), 0);
    download_bano_item(&mut item, 1);
    download_bano_item_task(&mut item, Ok(&[7u8; 1536]), 2);
    assert_eq!(item.filesize_kb(), (1, 512));
    download_bano_item(&mut item, 3);
    assert_eq!(item.filestatus, FileStatus::DownloadInProgress);
}

#[test]
fn bano_locations() {
    assert_eq!(bano_item_filename("75"), "bano-75.csv");
    assert_eq!(bano_item_url("75"), "http://bano.openstreetmap.fr/data/bano-75.csv");
}
