use std::cmp::Ordering;

use rlgdesktop::db::Book;
use rlgdesktop::sort::{compare_duplicates, compare_series, sort_books, str_cmp};

fn titled(title: &str, series: &str, duplicates: usize, size: i64) -> Book {
    Book {
        title: title.to_string(),
        series: series.to_string(),
        duplicates,
        sizeinbytes: size,
        ..Default::default()
    }
}

fn titles(books: &[Book]) -> Vec<String> {
    books.iter().map(|b| b.title.clone()).collect()
}

#[test]
fn series_compare_by_trailing_number() {
    assert_eq!(compare_series("Foundation 2", "Foundation 10"), Ordering::Less);
    assert_eq!(compare_series("  Dune 3 ", "Dune 3"), Ordering::Equal);
    assert_eq!(compare_series("Dune -1", "Dune 0"), Ordering::Less);
}

#[test]
fn series_compare_by_word_otherwise() {
    assert_eq!(compare_series("Saga b", "Saga a"), Ordering::Greater);
    assert_eq!(compare_series("Saga 10", "Saga x"), Ordering::Less);
    assert_eq!(compare_series("", "Saga 1"), Ordering::Less);
    assert_eq!(compare_series("Saga 1", "   "), Ordering::Greater);
    assert_eq!(compare_series("", " "), Ordering::Equal);
}

#[test]
fn duplicates_and_strings_compare() {
    assert_eq!(compare_duplicates(1, 2), Ordering::Less);
    assert_eq!(compare_duplicates(3, 3), Ordering::Equal);
    assert_eq!(str_cmp("abc", "abd"), Ordering::Less);
    assert_eq!(str_cmp("ab", "a"), Ordering::Greater);
    assert_eq!(str_cmp("Z", "a"), "Z".cmp("a"));
}

#[test]
fn sort_by_title_ignores_case() {
    let mut books = vec![titled("banana", "", 1, 0), titled("Apple", "", 1, 0), titled("cherry", "", 1, 0)];
    sort_books("Title", &mut books);
    assert_eq!(titles(&books), vec!["Apple", "banana", "cherry"]);
}

#[test]
fn sort_by_duplicates_puts_highest_first_and_is_stable() {
    let mut books = vec![
        titled("a", "", 1, 0),
        titled("b", "", 5, 0),
        titled("c", "", 1, 0),
        titled("d", "", 3, 0),
    ];
    sort_books("Duplicates", &mut books);
    assert_eq!(titles(&books), vec!["b", "d", "a", "c"]);
}

#[test]
fn sort_by_series_and_size() {
    let mut books = vec![titled("x", "S 10", 1, 30), titled("y", "S 2", 1, 10), titled("z", "", 1, 20)];
    sort_books("Series", &mut books);
    assert_eq!(titles(&books), vec!["z", "y", "x"]);
    sort_books("FileSize", &mut books);
    assert_eq!(titles(&books), vec!["y", "z", "x"]);
    sort_books("Nothing", &mut books);
    assert_eq!(titles(&books), vec!["y", "z", "x"]);
    let mut same = vec![titled("q", "S 1", 1, 5), titled("r", "S 1", 1, 5), titled("s", "S 1", 1, 5)];
    sort_books("Series", &mut same);
    assert_eq!(titles(&same), vec!["q", "r", "s"]);
}
