//! A bilingual dictionary with fuzzy search, and a scheduler of reviews for
//! the words one studies.
//!
//! * [`text`] normalises the strings that are compared.
//! * [`score`] holds similarity scores as exact fractions.
//! * [`search`] scores dictionary entries against a query and ranks them.
//! * [`srs`] keeps the state of each reviewed item and computes when it is
//!   due again.
//! * [`deck`] orders the words of a deck for study and lists what is due.
//! * [`parser`] reads the text of a dictionary file.
//! * [`sort`] is the stable ordering that ranking and study order share.
//! * [`sequences`] holds facts about filtered sequences.

pub mod deck;
pub mod models;
pub mod parser;
pub mod score;
pub mod search;
pub mod sequences;
pub mod sort;
pub mod srs;
pub mod text;
