// Bottleneck AS computation over BGP routing-table snapshots.
//
// `address` rebuilds prefixes from record bytes, `attributes` reads AS paths
// out of BGP path attributes, `path` collapses prepended AS numbers, `table`
// holds the distinct paths seen per prefix, `window` files records into
// leading-byte bins and merges the unsorted cache, and `resolve` reduces each
// prefix's paths to its bottleneck AS.
pub mod address;
pub mod attributes;
pub mod path;
pub mod resolve;
pub mod table;
pub mod window;
