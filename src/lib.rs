//! A dictionary lookup plugin: it builds the lookup request for a term, cleans
//! the definitions that come back, and ranks them for display.
//!
//! - `sanitize`: removal of markup characters from definition text.
//! - `text`: lexicographic order on text.
//! - `sorting`: stable sorting as a specification, with its lemmas.
//! - `rank`: records, display results, and the ranking of one lookup.
//! - `client`: the request URL and the cleaning of a response.
//! - `facade`: what a search and a clipboard copy return and log.
pub mod sanitize;
pub mod text;
pub mod sorting;
pub mod rank;
pub mod client;
pub mod facade;
