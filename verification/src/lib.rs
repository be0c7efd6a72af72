//! Database, SQL and archive-page logic of the Stump media server, with
//! contracts proved by Verus.

pub mod text;
pub mod backend;
pub mod sql;
pub mod content;
pub mod order;
pub mod zip_pages;
pub mod page_cache;
pub mod journal;
pub mod migration;
pub mod schema;
pub mod random_order;
