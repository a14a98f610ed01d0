use std::sync::Arc;

use rlgdesktop::db::Book;
use rlgdesktop::uifilter::{
    clean_title, compare, filter_update_booklist, first_author, read_results, UIFilter,
};

fn book(title: &str, authors: &str, format: &str, size: i64, publisher: &str, year: &str) -> Book {
    Book {
        title: title.to_string(),
        authors: authors.to_string(),
        format: format.to_string(),
        sizeinbytes: size,
        publisher: publisher.to_string(),
        year: year.to_string(),
        ..Default::default()
    }
}

// keep the one with a publisher, even if the year is newer
#[test]
fn test_compare_publisher_year() {
    let old = Arc::new(Book {
        publisher: "".to_string(),
        year: "2002".to_string(),
        ..Default::default()
    });
    let new = Arc::new(Book {
        publisher: "publisher".to_string(),
        year: "2001".to_string(),
        ..Default::default()
    });
    assert!(compare(&old, &new));
    assert!(!compare(&new, &old));
}

#[test]
fn clean_title_drops_edition_suffix() {
    assert_eq!(clean_title("The Foo (2nd Edition)"), "foo");
    assert_eq!(clean_title("Foo"), "foo");
}

#[test]
fn clean_title_strips_articles_and_marks() {
    assert_eq!(clean_title("A Tale-of Two's"), "taleoftwos");
    assert_eq!(clean_title("Breathe In"), "breathein");
    assert_eq!(clean_title("Gone with the Wind"), "gonewiththewind");
    assert_eq!(clean_title("The A-Team"), "ateam");
    assert_eq!(clean_title("The A Team"), "team");
    assert_eq!(clean_title("Catch a Fire"), "catchafire");
    assert_eq!(clean_title(""), "");
    assert_eq!(clean_title("Dune: Messiah"), "dune");
}

#[test]
fn first_author_takes_first_token() {
    assert_eq!(first_author("John Smith, Jane Doe"), "John");
    assert_eq!(first_author("Plato"), "Plato");
    assert_eq!(first_author(""), "");
}

#[test]
fn epub_wins_in_either_order() {
    let a = book("Foo", "Smith", "epub", 100, "", "2000");
    let b = book("Foo", "Smith", "pdf", 100, "", "2000");
    assert!(compare(&b, &a));
    assert!(!compare(&a, &b));
}

#[test]
fn oversize_rule_is_strict() {
    let old = book("Foo", "Smith", "pdf", 100, "", "2000");
    let ten_times_newer = book("Foo", "Smith", "pdf", 1000, "", "2001");
    let ten_times_plus_one = book("Foo", "Smith", "pdf", 1001, "", "2001");
    assert!(compare(&old, &ten_times_newer));
    assert!(!compare(&old, &ten_times_plus_one));
}

#[test]
fn acrobat_publisher_loses() {
    let old = book("Foo", "Smith", "pdf", 100, "Acrobat 5", "2000");
    let new = book("Foo", "Smith", "pdf", 100, "Penguin", "1990");
    assert!(compare(&old, &new));
    assert!(!compare(&new, &old));
}

#[test]
fn later_year_wins_and_non_numeric_is_zero() {
    let old = book("Foo", "Smith", "pdf", 100, "P", "n/a");
    let new = book("Foo", "Smith", "pdf", 100, "P", "1999");
    assert!(compare(&old, &new));
    assert!(!compare(&new, &old));
}

#[test]
fn same_year_more_authors_wins() {
    let old = book("Foo", "Smith", "pdf", 100, "P", "2000");
    let new = book("Foo", "Smith, Jones", "pdf", 100, "P", "2000");
    assert!(compare(&old, &new));
    assert!(!compare(&new, &old));
    assert!(!compare(&old, &old));
}

#[test]
fn merge_counts_every_record_of_a_key() {
    let mut f = UIFilter::default();
    let mut books: Vec<Book> = Vec::new();
    filter_update_booklist(&mut f, &mut books, &book("The Foo", "Smith A", "pdf", 100, "P", "2000"));
    filter_update_booklist(&mut f, &mut books, &book("Bar", "Jones", "pdf", 100, "P", "2000"));
    filter_update_booklist(&mut f, &mut books, &book("Foo (2nd ed)", "Smith B", "pdf", 100, "P", "1990"));
    filter_update_booklist(&mut f, &mut books, &book("foo", "Smith", "pdf", 100, "P", "1980"));
    assert_eq!(books.len(), 2);
    assert_eq!(books[0].title, "The Foo");
    assert_eq!(books[0].duplicates, 3);
    assert_eq!(books[1].title, "Bar");
    assert_eq!(books[1].duplicates, 1);
}

#[test]
fn merge_replaces_in_place_when_new_wins() {
    let mut f = UIFilter::new();
    let mut books: Vec<Book> = Vec::new();
    filter_update_booklist(&mut f, &mut books, &book("Foo", "Smith", "pdf", 100, "P", "2000"));
    filter_update_booklist(&mut f, &mut books, &book("Bar", "Jones", "pdf", 100, "P", "2000"));
    filter_update_booklist(&mut f, &mut books, &book("Foo", "Smith", "epub", 100, "P", "1990"));
    assert_eq!(books.len(), 2);
    assert_eq!(books[0].format, "epub");
    assert_eq!(books[0].duplicates, 2);
    filter_update_booklist(&mut f, &mut books, &book("Foo", "Smith", "pdf", 100, "P", "2020"));
    assert_eq!(books[0].format, "epub");
    assert_eq!(books[0].duplicates, 3);
}

#[test]
fn merge_keeps_epub_regardless_of_arrival_order() {
    let mut f = UIFilter::new();
    let mut books: Vec<Book> = Vec::new();
    filter_update_booklist(&mut f, &mut books, &book("Foo", "Smith", "epub", 100, "P", "2000"));
    filter_update_booklist(&mut f, &mut books, &book("Foo", "Smith", "pdf", 100, "P", "2000"));
    assert_eq!(books.len(), 1);
    assert_eq!(books[0].format, "epub");
    assert_eq!(books[0].duplicates, 2);
}

#[test]
fn read_results_merges_batch_from_its_end() {
    let mut f = UIFilter::new();
    let mut results: Result<Vec<Book>, String> = Ok(Vec::new());
    let batch = vec![
        book("Foo", "Smith", "pdf", 100, "P", "2000"),
        book("Bar", "Jones", "pdf", 100, "P", "2000"),
        book("Foo", "Smith", "pdf", 100, "P", "2010"),
    ];
    read_results(&mut results, batch, &mut f, true);
    let books = results.unwrap();
    assert_eq!(books.len(), 2);
    assert_eq!(books[0].year, "2010");
    assert_eq!(books[0].duplicates, 2);
    assert_eq!(books[1].title, "Bar");
}

#[test]
fn read_results_appends_without_dedup() {
    let mut f = UIFilter::new();
    let mut results: Result<Vec<Book>, String> = Err("Searching...".to_string());
    let batch = vec![book("A", "X", "pdf", 1, "", ""), book("B", "Y", "pdf", 1, "", "")];
    read_results(&mut results, batch, &mut f, false);
    let batch = vec![book("C", "X", "pdf", 1, "", ""), book("D", "Y", "pdf", 1, "", "")];
    read_results(&mut results, batch, &mut f, false);
    let titles: Vec<String> = results.unwrap().iter().map(|b| b.title.clone()).collect();
    assert_eq!(titles, vec!["A", "B", "D", "C"]);
}

#[test]
fn read_results_dedups_first_batch_too() {
    let mut f = UIFilter::new();
    let mut results: Result<Vec<Book>, String> = Err("Searching...".to_string());
    let batch = vec![book("Foo", "Smith", "pdf", 1, "", ""), book("Foo", "Smith", "pdf", 1, "", "")];
    read_results(&mut results, batch, &mut f, true);
    let books = results.unwrap();
    assert_eq!(books.len(), 1);
    assert_eq!(books[0].duplicates, 2);
}
