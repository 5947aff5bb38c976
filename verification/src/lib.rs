//! A verified in-memory store of entities: garbage collection, entity queries and view overrides.
pub mod archetypes;
pub mod bucket;
pub mod classes;
pub mod clear;
pub mod cloned;
pub mod components;
pub mod contents;
pub mod counted;
pub mod coverage;
pub mod data_result;
pub mod details;
pub mod duplicated;
pub mod effects;
pub mod emptied;
pub mod enough;
pub mod entity_db;
pub mod entries;
pub mod exported;
pub mod filter;
pub mod gc;
pub mod ingest;
pub mod kept;
pub mod names;
pub mod overrides;
pub mod path;
pub mod paths;
pub mod progress;
pub mod protect;
pub mod pruned;
pub mod purged;
pub mod query;
pub mod readback;
pub mod reports;
pub mod restored;
pub mod retry;
pub mod row;
pub mod shown;
pub mod sorting;
pub mod space_view;
pub mod stats;
pub mod store;
pub mod survival;
pub mod table;
pub mod times;
pub mod tree;
pub mod upkeep;
pub mod view_id;
