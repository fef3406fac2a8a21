//! A dataframe query-plan library: an arena-based logical-plan representation
//! together with a projection-pushdown optimizer that narrows every scan to
//! the minimal set of columns the plan above it needs, plus the small column
//! models (null columns, value-to-column conversion, arg-min/arg-max) that the
//! plan's leaves are built from.

pub mod arena;
pub mod dtype;
pub mod error;
pub mod schema;
pub mod expr;
pub mod context;
pub mod columns;
pub mod ir;
pub mod pushdown;
pub mod value;
pub mod series;
pub mod null_series;
pub mod arg_min_max;
pub mod page_walk;
