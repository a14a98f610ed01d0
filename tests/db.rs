use rlgdesktop::db::{
    download_path, query_statement, row_to_book, table_name, Collection, Params, ResultGate,
};

#[test]
fn statement_reads_the_collection_table() {
    let mut params = Params::default();
    let s = query_statement(&params, true);
    assert!(s.contains("FROM fiction f WHERE"));
    assert!(s.contains("f.ipfs_cid as ipfs_cid"));
    assert!(s.ends_with("ORDER BY f.author, f.title, f.filesize"));
    params.collection = Collection::NonFiction;
    let s = query_statement(&params, false);
    assert!(s.contains("FROM non_fiction f join non_fiction_hashes as fh on LOWER(f.md5) = fh.md5 WHERE"));
    assert!(s.contains(":title") && s.contains(":authors") && s.contains(":series"));
    assert!(s.contains(":language") && s.contains(":format"));
    assert_eq!(table_name(Collection::Fiction), "fiction");
}

#[test]
fn paths_by_author_or_flat() {
    assert_eq!(download_path("/books", true, "Smith", "Foo", "epub"), "/books/Smith/Foo.epub");
    assert_eq!(download_path("/books/", false, "Smith", "Foo", "pdf"), "/books/Smith - Foo.pdf");
    assert_eq!(download_path("", false, "Smith", "Foo", "pdf"), "Smith - Foo.pdf");
}

#[test]
fn row_becomes_fresh_record() {
    let b = row_to_book(
        Collection::NonFiction,
        "Foo".to_string(),
        "Smith".to_string(),
        "".to_string(),
        "2000".to_string(),
        "English".to_string(),
        "P".to_string(),
        1234,
        "epub".to_string(),
        "cid".to_string(),
        "/books",
        false,
    );
    assert_eq!(b.duplicates, 1);
    assert_eq!(b.download_status, "?");
    assert_eq!(b.download_path, "/books/Smith - Foo.epub");
    assert_eq!(b.collection, Collection::NonFiction);
    assert_eq!(b.sizeinbytes, 1234);
}

#[test]
fn stale_batches_are_refused_after_new_query() {
    let mut gate = ResultGate::new();
    let first = gate.next_query();
    assert!(gate.accepts(first));
    let second = gate.next_query();
    assert!(!gate.accepts(first));
    assert!(gate.accepts(second));
    assert_eq!(gate.current(), second);
}
