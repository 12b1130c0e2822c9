//! A card-table server core: the deck model, the per-room poker state
//! machine, the room registry and the broadcast hub, each as sequential
//! logic with machine-checked contracts.
//!
//! Every room, the registry and the hub are each owned by one task; the
//! tasks and their channels live with the caller. What is here decides:
//! given the state and an input, the next state and what to do.
pub mod cards;
pub mod channel_hub;
pub mod lookup;
pub mod notices;
pub mod poker_model;
pub mod poker_state;
pub mod random;
pub mod registry;
