use calculator::catalog::{AdvancedLibrary, Book, BookGenre, LibraryError};
use calculator::text::text_to_strikethrough;

fn shelf() -> AdvancedLibrary<Book> {
    let mut library: AdvancedLibrary<Book> = AdvancedLibrary::new();
    for book in [
        Book::new("The Rust Programming Language", "Steve Klabnik", 2018, BookGenre::TextBook),
        Book::new("1984", "George Orwell", 1949, BookGenre::Fiction),
        Book::new("To Kill a Mockingbird", "Harper Lee", 1960, BookGenre::Fiction),
        Book::new("A Brief History of Time", "Stephen Hawking", 1988, BookGenre::NonFiction),
    ] {
        assert!(library.add_book(book).is_ok());
    }
    library
}

#[test]
fn new_book_keeps_its_fields() {
    let book = Book::new("1984", "George Orwell", 1949, BookGenre::Fiction);
    assert_eq!(book.title, "1984");
    assert_eq!(book.author, "George Orwell");
    assert_eq!(book.year, 1949);
    assert_eq!(book.genre, BookGenre::Fiction);
}

#[test]
fn new_library_is_empty() {
    let library: AdvancedLibrary<Book> = AdvancedLibrary::new();
    assert!(library.books.is_empty());
    assert!(library.get_book("1984").is_none());
    assert_eq!(library.position("1984"), None);
}

#[test]
fn duplicate_title_is_refused() {
    let mut library = shelf();
    let again = Book::new("1984", "Someone Else", 2001, BookGenre::NonFiction);
    assert!(matches!(library.add_book(again), Err(LibraryError::DuplicateBook)));
    assert_eq!(library.books.len(), 4);
    assert_eq!(library.get_book("1984").unwrap().author, "George Orwell");
}

#[test]
fn get_book_finds_by_title() {
    let library = shelf();
    let book = library.get_book("To Kill a Mockingbird").unwrap();
    assert_eq!(book.author, "Harper Lee");
    assert_eq!(book.year, 1960);
    assert!(library.get_book("Dune").is_none());
    assert_eq!(library.position("1984"), Some(1));
}

#[test]
fn remove_book_takes_the_entry_out() {
    let mut library = shelf();
    let book = library.remove_book("A Brief History of Time").unwrap();
    assert_eq!(book.author, "Stephen Hawking");
    assert_eq!(library.books.len(), 3);
    assert!(library.get_book("A Brief History of Time").is_none());
    assert!(matches!(
        library.remove_book("A Brief History of Time"),
        Err(LibraryError::BookNotFound)
    ));
    assert_eq!(library.books.len(), 3);
}

#[test]
fn books_by_genre_keeps_the_order_of_arrival() {
    let library = shelf();
    let fiction = library.books_by_genre(&BookGenre::Fiction);
    let titles: Vec<&str> = fiction.iter().map(|book| book.title.as_str()).collect();
    assert_eq!(titles, vec!["1984", "To Kill a Mockingbird"]);
    assert_eq!(library.books_by_genre(&BookGenre::TextBook).len(), 1);
    let empty: AdvancedLibrary<Book> = AdvancedLibrary::new();
    assert!(empty.books_by_genre(&BookGenre::Fiction).is_empty());
}

#[test]
fn strikethrough_wraps_the_text() {
    assert_eq!(text_to_strikethrough("done"), "\u{1b}[9mdone\u{1b}[0m");
    assert_eq!(text_to_strikethrough(""), "\u{1b}[9m\u{1b}[0m");
}
