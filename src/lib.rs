// Latest-value store of a telemetry stream, with per-type arrival rates,
// and a resolver of slash-delimited paths into it.
//
// json: the tree that payloads and snapshots are made of.
// frequency: the smoothed arrival rate of one message type.
// text: decimal text of counts and rates.
// store: the store, its snapshots, and what a `put` does to it.
// query: path splitting and resolution.
// ingest: one turn of the ingestion loop.
// link: the fixed outbound messages and the query options.
pub mod json;
pub mod frequency;
pub mod text;
pub mod store;
pub mod query;
pub mod ingest;
pub mod link;
