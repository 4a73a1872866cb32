use mjolnir::bano::{BanoCatalog, UserError};
use mjolnir::item::{Acquisition, FetchFailure};
use mjolnir::status::FileStatus;

fn catalog_with_two_sets() -> BanoCatalog {
    let mut c = BanoCatalog::new();
    c.check_and_insert_bano("idf", "Ile de France").unwrap();
    c.check_and_insert_bano("paris", "Paris").unwrap();
    c
}

#[test]
fn insert_bano_refuses_duplicates() {
    let mut c = catalog_with_two_sets();
    let b = c.check_and_insert_bano("corse", "Corse").unwrap();
    assert_eq!(b.id, "corse");
    assert_eq!(b.description, "Corse");
    assert!(b.items.is_empty());
    assert_eq!(c.check_and_insert_bano("idf", "again").unwrap_err(), UserError::DuplicateBano);
    assert_eq!(c.banos.len(), 3);
}

#[test]
fn insert_item_checks_bano_and_duplicates() {
    let mut c = catalog_with_two_sets();
    assert_eq!(c.check_and_insert_bano_item("nowhere", "75", 0).unwrap_err(), UserError::UnknownBano);
    let it = c.check_and_insert_bano_item("idf", "75", 7).unwrap();
    assert_eq!(it.id, "75");
    assert_eq!(it.updated_at, 7);
    assert!(c.fetch_bano_item("idf", "75").is_some());
    assert_eq!(it.filestatus, FileStatus::NotAvailable);
    assert_eq!(
        c.check_and_insert_bano_item("idf", "75", 0).unwrap_err(),
        UserError::DuplicateItem
    );
    c.check_and_insert_bano_item("paris", "75", 0).unwrap();
    assert_eq!(c.items.len(), 1);
    assert_eq!(c.links.len(), 2);
}

#[test]
fn fetch_items_of_a_bano() {
    let mut c = catalog_with_two_sets();
    c.check_and_insert_bano_item("idf", "75", 0).unwrap();
    c.check_and_insert_bano_item("idf", "92", 0).unwrap();
    c.check_and_insert_bano_item("paris", "75", 0).unwrap();
    let idf: Vec<String> = c.fetch_bano_items("idf").into_iter().map(|i| i.id).collect();
    assert_eq!(idf, vec!["75".to_string(), "92".to_string()]);
    let paris = c.fetch_bano("paris").unwrap();
    assert_eq!(paris.description, "Paris");
    assert_eq!(paris.items.len(), 1);
    assert!(c.fetch_bano("corse").is_none());
    assert!(c.fetch_bano_item("paris", "92").is_none());
    assert_eq!(c.fetch_bano_item("idf", "92").unwrap().id, "92");
    let all = c.fetch_banos();
    assert_eq!(all.len(), 2);
    assert_eq!(all[0].items.len(), 2);
    assert_eq!(all[1].id, "paris");
}

#[test]
fn item_goes_with_its_last_link() {
    let mut c = catalog_with_two_sets();
    c.check_and_insert_bano_item("idf", "75", 0).unwrap();
    c.check_and_insert_bano_item("paris", "75", 0).unwrap();
    c.check_and_insert_bano_item("idf", "92", 0).unwrap();
    c.remove_bano_item("idf", "75");
    assert_eq!(c.items.len(), 2);
    assert!(c.fetch_bano_item("idf", "75").is_none());
    assert!(c.fetch_bano_item("paris", "75").is_some());
    c.remove_bano_item("paris", "75");
    assert_eq!(c.items.len(), 1);
    assert_eq!(c.items[0].id, "92");
    c.remove_bano_item("paris", "75");
    assert_eq!(c.items.len(), 1);
}

#[test]
fn remove_bano_drops_links_and_orphans() {
    let mut c = catalog_with_two_sets();
    c.check_and_insert_bano_item("idf", "75", 0).unwrap();
    c.check_and_insert_bano_item("idf", "92", 0).unwrap();
    c.check_and_insert_bano_item("paris", "75", 0).unwrap();
    let removed = c.remove_bano("idf").unwrap();
    assert_eq!(removed.id, "idf");
    assert_eq!(removed.description, "Ile de France");
    assert_eq!(c.banos.len(), 1);
    assert_eq!(c.links.len(), 1);
    assert_eq!(c.items.len(), 1);
    assert_eq!(c.items[0].id, "75");
    assert_eq!(c.remove_bano("idf").unwrap_err(), UserError::UnknownBano);
}

#[test]
fn catalog_download_flow() {
    let mut c = catalog_with_two_sets();
    c.check_and_insert_bano_item("idf", "75", 0).unwrap();
    assert_eq!(c.acquire_item("76", 1), None);
    assert_eq!(c.acquire_item("75", 1), Some(Acquisition::Started));
    assert_eq!(c.acquire_item("75", 2), Some(Acquisition::InFlight));
    assert!(c.record_transfer("75", Ok(b"abc"), 3));
    let it = c.fetch_bano_item("idf", "75").unwrap();
    assert_eq!(it.filestatus, FileStatus::Available);
    assert_eq!(it.filename, "bano-75.csv");
    assert_eq!(it.updated_at, 3);
    assert_eq!(it.md5, "900150983cd24fb0d6963f7d28e17f72");
    assert_eq!(it.filesize_bytes, 3);
    assert!(!c.record_transfer("75", Err(FetchFailure::Transport), 4));
    assert_eq!(c.acquire_item("75", 5), Some(Acquisition::Started));
    assert!(c.record_transfer("75", Err(FetchFailure::Transport), 6));
    assert_eq!(c.items[0].filestatus, FileStatus::DownloadError);
}
