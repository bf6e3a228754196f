//! An entity/component storage-and-dispatch core for a small game-engine
//! toolkit.
//!
//! The crate stores heterogeneous per-entity data column-wise in per-archetype
//! tables, lets callers query any component kind across all tables through
//! dynamically checked shared/exclusive views, keeps one singleton resource
//! per kind, and drives a deterministic per-frame update loop over registered
//! systems.
//!
//! Component kinds form a closed set ([`value::TypeTag`]); every stored value
//! carries its kind and every access re-checks it, so a value of the wrong
//! kind can never silently land in a column. Aliasing is controlled by
//! explicit reader/writer flags with acquire and release operations: any
//! number of shared views of one column or resource may coexist, an exclusive
//! view requires that no other view is outstanding, and a conflicting request
//! fails with a distinguishable error instead of aborting.

pub mod error;
pub mod laws;
pub mod query;
pub mod resources;
pub mod system;
pub mod table;
pub mod value;
pub mod vecany;
pub mod vertex;
pub mod world;

pub use error::EcsError;
pub use query::{Columns, ColumnsMut, Query, QueryOutput};
pub use system::{Action, Event, EventKind, SystemDef};
pub use table::{Borrow, Column, RowIndex, Table};
pub use value::{State, TypeTag, Value};
pub use vecany::VecAny;
pub use world::{Archetype, EntityId, World};
