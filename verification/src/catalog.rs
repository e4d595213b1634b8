//! An in-memory book catalog keyed by title.

use vstd::prelude::*;

verus! {

/// The shelf a book belongs to.
#[derive(Debug, Clone, Copy, PartialEq, Eq, Hash, Structural)]
pub enum BookGenre {
    Fiction,
    NonFiction,
    TextBook,
}

/// A catalogued book.
#[derive(Debug, Clone)]
pub struct Book {
    pub title: String,
    pub author: String,
    pub year: u32,
    pub genre: BookGenre,
}

/// The mathematical value of a [`Book`].
pub struct BookView {
    pub title: Seq<char>,
    pub author: Seq<char>,
    pub year: u32,
    pub genre: BookGenre,
}

impl View for Book {
    type V = BookView;

    open spec fn view(&self) -> BookView {
        BookView { title: self.title@, author: self.author@, year: self.year, genre: self.genre }
    }
}

impl Book {
    /// A book with the given title, author, year of publication and genre.
    pub fn new(title: &str, author: &str, year: u32, genre: BookGenre) -> (book: Book)
        ensures
            book@ == (BookView { title: title@, author: author@, year, genre }),
    {
        Book { title: title.to_owned(), author: author.to_owned(), year, genre }
    }
}

/// Why a catalog operation was refused.
#[derive(Debug, Clone, Copy, PartialEq, Eq)]
pub enum LibraryError {
    /// No book with that title is in the catalog.
    BookNotFound,
    /// A book with that title is already in the catalog.
    DuplicateBook,
}

/// A catalog that holds at most one entry per title.
pub struct AdvancedLibrary<T> {
    pub books: Vec<T>,
}

impl<T: Clone> AdvancedLibrary<T> {
    /// An empty catalog.
    pub fn new() -> (library: Self)
        ensures
            library.books@.len() == 0,
    {
        AdvancedLibrary { books: Vec::new() }
    }
}

/// The books of `books` that belong to `genre`, in their order.
pub open spec fn of_genre(books: Seq<Book>, genre: BookGenre) -> Seq<Book>
    decreases books.len(),
{
    if books.len() == 0 {
        Seq::empty()
    } else if books.last().genre == genre {
        of_genre(books.drop_last(), genre).push(books.last())
    } else {
        of_genre(books.drop_last(), genre)
    }
}

impl AdvancedLibrary<Book> {
    /// No two entries share a title.
    pub open spec fn well_formed(&self) -> bool {
        forall|i: int, j: int|
            0 <= i < j < self.books@.len() ==> (#[trigger] self.books@[i]).title@ != (
            #[trigger] self.books@[j]).title@
    }

    /// Whether an entry with this title is in the catalog.
    pub open spec fn holds(&self, title: Seq<char>) -> bool {
        exists|i: int| 0 <= i < self.books@.len() && (#[trigger] self.books@[i]).title@ == title
    }

    /// Where the entry with this title stands, if there is one.
    pub fn position(&self, title: &str) -> (found: Option<usize>)
        ensures
            match found {
                Some(i) => i < self.books@.len() && self.books@[i as int].title@ == title@,
                None => !self.holds(title@),
            },
    {
        let wanted = title.to_owned();
        let mut i: usize = 0;
        while i < self.books.len()
            invariant
                i <= self.books@.len(),
                wanted@ == title@,
                forall|k: int| 0 <= k < i ==> (#[trigger] self.books@[k]).title@ != title@,
            decreases self.books.len() - i,
        {
            if self.books[i].title == wanted {
                return Some(i);
            }
            i = i + 1;
        }
        None
    }

    /// Adds `book`, unless an entry with its title is there already.
    pub fn add_book(&mut self, book: Book) -> (result: Result<(), LibraryError>)
        requires
            old(self).well_formed(),
        ensures
            final(self).well_formed(),
            old(self).holds(book.title@) ==> {
                &&& result == Err::<(), LibraryError>(LibraryError::DuplicateBook)
                &&& final(self).books@ == old(self).books@
            },
            !old(self).holds(book.title@) ==> {
                &&& result is Ok
                &&& final(self).books@ == old(self).books@.push(book)
            },
    {
        match self.position(book.title.as_str()) {
            Some(_) => Err(LibraryError::DuplicateBook),
            None => {
                self.books.push(book);
                Ok(())
            },
        }
    }

    /// Takes the entry with this title out of the catalog.
    pub fn remove_book(&mut self, title: &str) -> (result: Result<Book, LibraryError>)
        requires
            old(self).well_formed(),
        ensures
            final(self).well_formed(),
            !final(self).holds(title@),
            match result {
                Ok(book) => exists|i: int|
                    {
                        &&& 0 <= i < old(self).books@.len()
                        &&& #[trigger] old(self).books@[i] == book
                        &&& book.title@ == title@
                        &&& final(self).books@ == old(self).books@.remove(i)
                    },
                Err(e) => {
                    &&& e == LibraryError::BookNotFound
                    &&& !old(self).holds(title@)
                    &&& final(self).books@ == old(self).books@
                },
            },
    {
        match self.position(title) {
            Some(i) => {
                let book = self.books.remove(i);
                Ok(book)
            },
            None => Err(LibraryError::BookNotFound),
        }
    }

    /// The entry with this title, if there is one.
    pub fn get_book(&self, title: &str) -> (found: Option<&Book>)
        ensures
            match found {
                Some(book) => exists|i: int|
                    {
                        &&& 0 <= i < self.books@.len()
                        &&& #[trigger] self.books@[i] == *book
                        &&& book.title@ == title@
                    },
                None => !self.holds(title@),
            },
    {
        match self.position(title) {
            Some(i) => Some(&self.books[i]),
            None => None,
        }
    }

    /// The entries of one genre, in the order in which they were added.
    pub fn books_by_genre(&self, genre: &BookGenre) -> (found: Vec<&Book>)
        ensures
            found@.len() == of_genre(self.books@, *genre).len(),
            forall|k: int|
                0 <= k < found@.len() ==> *(#[trigger] found@[k]) == of_genre(
                    self.books@,
                    *genre,
                )[k],
    {
        let mut found: Vec<&Book> = Vec::new();
        let mut i: usize = 0;
        while i < self.books.len()
            invariant
                i <= self.books@.len(),
                found@.len() == of_genre(self.books@.take(i as int), *genre).len(),
                forall|k: int|
                    0 <= k < found@.len() ==> *(#[trigger] found@[k]) == of_genre(
                        self.books@.take(i as int),
                        *genre,
                    )[k],
            decreases self.books.len() - i,
        {
            assert(self.books@.take(i + 1).drop_last() =~= self.books@.take(i as int));
            if self.books[i].genre == *genre {
                found.push(&self.books[i]);
            }
            i = i + 1;
        }
        assert(self.books@.take(i as int) =~= self.books@);
        found
    }
}

} // verus!
