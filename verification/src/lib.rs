//! A tracing garbage collector with explicit collector state.
//!
//! Application code allocates heap cells that may reference one another in
//! arbitrary, possibly cyclic, shapes.  A cell stays alive as long as it is
//! reachable from a rooted handle; a mark-and-sweep pass over the collector's
//! node list reclaims everything else.  The collector state is an ordinary
//! value that callers thread through the API, so every step of the rooting
//! dance and of a sweep is visible to the verifier.

pub mod accounting;
pub mod gc;
pub mod laws;
pub mod gc_obj;
pub mod gc_ref;
pub mod gc_state;
pub mod record;
pub mod traits;

pub use gc::Gc;
pub use gc::GcRefMut;
pub use gc_state::GcData;
pub use gc_state::GcState;
pub use record::Record;
pub use traits::Trace;
