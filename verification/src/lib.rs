//! A grid of boolean cells, the keyed rows derived from it, and the keyed-list
//! reconciler that decides which rendered nodes survive from one list
//! snapshot to the next.
//!
//! - `grid`: the cells, their dimensions, resizing and toggling.
//! - `rows`, `row_key`, `decimal`: the keyed lists derived from the grid and
//!   the two ways of spelling a row's key.
//! - `key`: what a list key has to offer.
//! - `model`, `laws`: what reconciliation means and what it guarantees.
//! - `reconciler`: the reconciler itself.

pub mod decimal;
pub mod grid;
mod index;
pub mod key;
pub mod laws;
pub mod model;
pub mod model_lemmas;
pub mod reconciler;
pub mod row_key;
pub mod rows;
