use rlgdesktop::db::Book;
use rlgdesktop::download::{
    announce_write, begin_download, check_downloaded, decimal_string, download_url, finish_write,
    mirror_hosts,
    record_error, record_race_failure, start_delay_secs, Race, RaceAction, Status,
};

fn record() -> Book {
    Book {
        title: "Dune".to_string(),
        authors: "Frank Herbert".to_string(),
        format: "epub".to_string(),
        ipfs_cid: "bafy123".to_string(),
        download_status: "Queued".to_string(),
        ..Default::default()
    }
}

#[test]
fn existing_file_is_done_without_fetch() {
    let mut status = Status::default();
    let mut book = record();
    let fetch = begin_download(&mut status, &mut book, true);
    assert!(!fetch);
    assert_eq!(book.download_status, "Done");
    assert_eq!(status.description, "Dune already exists");
    assert_eq!(status.completed, 0);
    assert_eq!(status.errors, 0);
}

#[test]
fn missing_file_is_fetched() {
    let mut status = Status::default();
    let mut book = record();
    assert!(begin_download(&mut status, &mut book, false));
    assert_eq!(book.download_status, "Downloading");
    assert_eq!(status.description, "Downloading Dune");
}

#[test]
fn url_names_cid_and_file() {
    let mut book = record();
    assert_eq!(
        download_url("ipfs.io", &book),
        "https://ipfs.io/ipfs/bafy123?filename=Frank Herbert - Dune.epub"
    );
    book.series = "Dune Chronicles 1".to_string();
    assert_eq!(
        download_url("cf-ipfs.com", &book),
        "https://cf-ipfs.com/ipfs/bafy123?filename=(Dune Chronicles 1) Frank Herbert - Dune.epub"
    );
}

#[test]
fn hosts_start_ten_seconds_apart() {
    assert_eq!(start_delay_secs(0), 0);
    assert_eq!(start_delay_secs(1), 10);
    assert_eq!(start_delay_secs(2), 20);
}

#[test]
fn fastest_host_wins_and_others_are_dropped() {
    let mut race = Race::new(3);
    assert_eq!(race.len(), 3);
    assert_eq!(race.finished(1, true), RaceAction::Win(1));
    assert_eq!(race.finished(0, true), RaceAction::Ignore);
    assert_eq!(race.finished(2, true), RaceAction::Ignore);
}

#[test]
fn race_waits_after_failures_until_all_failed() {
    let mut race = Race::new(3);
    assert_eq!(race.finished(2, false), RaceAction::Wait);
    assert_eq!(race.finished(0, false), RaceAction::Wait);
    assert_eq!(race.finished(1, false), RaceAction::AllFailed);
    let mut race = Race::new(2);
    assert_eq!(race.finished(0, false), RaceAction::Wait);
    assert_eq!(race.finished(1, true), RaceAction::Win(1));
}

#[test]
fn truncated_write_is_an_error() {
    let mut status = Status::default();
    let mut book = record();
    let r = finish_write(&mut status, &mut book, 10, 5);
    assert_eq!(r, Err("File size mismatch: expected 10 bytes, got 5 bytes".to_string()));
    assert_eq!(book.download_status, "Error: File size mismatch: expected 10 bytes, got 5 bytes");
    assert_ne!(book.download_status, "Done");
    assert_eq!(status.errors, 1);
    assert_eq!(status.completed, 0);
}

#[test]
fn complete_write_is_done() {
    let mut status = Status::default();
    let mut book = record();
    assert_eq!(finish_write(&mut status, &mut book, 2048, 2048), Ok(()));
    assert_eq!(book.download_status, "Done");
    assert_eq!(status.completed, 1);
    assert_eq!(status.errors, 0);
    assert_eq!(status.description, "Downloaded Dune");
}

#[test]
fn write_notice_gives_kibibytes() {
    let mut status = Status::default();
    let book = record();
    announce_write(&mut status, &book, 5000);
    assert_eq!(status.description, "Writing Dune to disk, 4 KiB");
}

#[test]
fn failures_are_counted() {
    let mut status = Status::default();
    let mut book = record();
    record_race_failure(&mut status, &mut book, "No downloads succeeded");
    assert_eq!(status.description, "Error downloading Dune: No downloads succeeded");
    assert_eq!(book.download_status, "Error: No downloads succeeded");
    record_error(&mut status, &mut book, "disk full");
    assert_eq!(status.description, "Error: disk full");
    assert_eq!(book.download_status, "Error: disk full");
    assert_eq!(status.errors, 2);
}

#[test]
fn decimal_matches_display() {
    assert_eq!(decimal_string(0), "0");
    assert_eq!(decimal_string(7), "7");
    assert_eq!(decimal_string(1234567), "1234567");
    assert_eq!(decimal_string(u64::MAX), u64::MAX.to_string());
}

#[test]
fn unknown_status_is_settled_from_disk() {
    let mut book = record();
    book.download_status = "?".to_string();
    assert_eq!(check_downloaded(&mut book, true), "Done");
    assert_eq!(book.download_status, "Done");
    assert_eq!(check_downloaded(&mut book, false), "");
    assert_eq!(book.download_status, "");
}

#[test]
fn host_list_splits_on_ascii_white_space() {
    assert_eq!(mirror_hosts(" ipfs.io\tcf-ipfs.com\n\ndweb.link "), vec!["ipfs.io", "cf-ipfs.com", "dweb.link"]);
    assert!(mirror_hosts("   ").is_empty());
    assert!(mirror_hosts("").is_empty());
    assert_eq!(mirror_hosts("one"), vec!["one"]);
}
