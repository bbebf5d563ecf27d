//! A continuous limit order book with price-time priority matching.
//!
//! `models` holds the plain data of the exchange, `book_model` the
//! mathematical model of a book and of its operations, `book_proofs` the
//! proofs that the operations keep a book valid, `laws` what holds of every
//! book, and `order_engine` the book itself.

pub mod models;
pub mod book_model;
pub mod book_proofs;
pub mod order_engine;
pub mod laws;
