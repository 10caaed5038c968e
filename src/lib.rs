//! A reader for a book divided into numbered suras, each holding numbered ayas:
//! loading the book from its markup, looking verses up, and searching them.

pub mod text;
pub mod quran;
pub mod markup;
