use rlgdesktop::db::Book;
use rlgdesktop::link::{search_link, title_query};

#[test]
fn link_encodes_query() {
    assert_eq!(
        search_link("https://example.org/search?q=", "Dune by Frank Herbert"),
        Some("https://example.org/search?q=Dune%20by%20Frank%20Herbert".to_string())
    );
    assert_eq!(search_link("b/", "é-x_1"), Some("b/%C3%A9%2Dx%5F1".to_string()));
}

#[test]
fn no_base_no_link() {
    assert_eq!(search_link("", "Dune"), None);
}

#[test]
fn title_query_names_title_and_authors() {
    let book = Book {
        title: "Dune".to_string(),
        authors: "Frank Herbert".to_string(),
        ..Default::default()
    };
    assert_eq!(title_query(&book), "Dune by Frank Herbert");
}
