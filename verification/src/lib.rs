//! A multi-venue options order book.
//!
//! * [`trading`] holds the book itself: prices, price levels and rows, the
//!   ladder of one instrument with its queue of active orders and its history,
//!   the book of one venue, and the matching pass that fills a book's orders
//!   from its own ladder or from a peer venue's.
//! * [`exchanges`] holds the venues: the two dialects of instrument strings,
//!   the subscription messages, the depth responses, and the registry.
//! * [`utils`] holds what both lean on: taking from one price level, putting
//!   an order or a whole snapshot into a book, texts, integers and dates.
//! * [`error`] holds the errors.
//!
//! Prices are kept as bit patterns and compared as integers; every quantity
//! is an integer. Contracts are stated over models of the data (`view`), and
//! each container has a predicate that says when it is in order (`wf`), which
//! every operation keeps.
pub mod error;
pub mod exchanges;
pub mod trading;
pub mod utils;
