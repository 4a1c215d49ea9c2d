//! Cost resolution for kitchen recipes.
//!
//! Given a quantity of an ingredient in the unit a recipe names, the engine
//! finds the unit the ingredient is bought in, the price it is bought at,
//! and a conversion between the two units, through other units if need be;
//! and so the cost of the line, or the first reason why it has none.
//!
//! - `amount`: quantities and prices, carried by their bits.
//! - `records`: the rows read and the lines costed.
//! - `text`: the order of dates kept as text.
//! - `catalog`: the rows of a batch in memory, and the reads made of them.
//! - `route`: routes through the conversion edges, and which route is first.
//! - `reach`: what holds of conversions whatever the edges.
//! - `graph`: the conversion graph of one item.
//! - `resolver`: the search for a conversion, limited in hops.
//! - `costing`: purchase unit, price, cost and status of a line, and batches.
//! - `paths`: paths as text.

pub mod amount;
pub mod records;
pub mod text;
pub mod catalog;
pub mod route;
pub mod reach;
pub mod graph;
pub mod resolver;
pub mod costing;
pub mod paths;
