//! Page and URL logic of a Wenku8 light-novel source: site selection, cookie
//! scoping, URL resolution, GBK search encoding, response checks and the
//! extraction of books, chapters and chapter text from values read off pages.

pub mod text;
pub mod encoding;
pub mod response;
pub mod site;
pub mod resolve;
pub mod parse;
pub mod search;
pub mod details;
