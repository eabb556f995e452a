//! A verified inventory and shopping-cart library.
//!
//! The library keeps two collections of records — a product catalog and a
//! shopping cart — each persisted as delimited text.  It provides the record
//! codec (one text line per record), the keyed collections with ordered
//! export, the quantity-reservation rules, and the checkout computation that
//! applies a whole cart against the catalog.  File and terminal I/O stay
//! outside the library; callers hand in the raw bytes of a persisted file and
//! receive the bytes to write back.

#![allow(non_snake_case)]

pub mod codec;
pub mod keyed;
pub mod cart;
pub mod store;
pub mod checkout;
