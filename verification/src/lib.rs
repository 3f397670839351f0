//! Persistence layer for a desktop game-mod manager.
//!
//! Games, profiles, mods, ordered mod-load entries and auxiliary tools are
//! stored as nodes of one embedded graph database; ownership, "currently
//! active" pointers and load order are encoded purely as edges. Long-lived
//! handles pair a store address with a never-reused uid so that deletion by
//! another handle is detected on the next access.
//!
//! Two deliberate simplifications of the schema: entities are linked only
//! from their owner (game or profile), while the category roots "profiles",
//! "mods" and "mod_entries" stand as named anchors without per-entity edges;
//! and tools, which are plain attribute records with no relationships, have
//! no operations here yet — the "tools" root is bootstrapped for them.
use vstd::prelude::*;

pub mod chainlem;
pub mod errors;
pub mod fsops;
pub mod game;
pub mod ids;
pub mod mod_entry;
pub mod model;
pub mod profile;
pub mod repo;
pub mod store;
pub mod ui;

verus! {

} // verus!
