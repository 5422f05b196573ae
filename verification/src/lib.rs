//! A reducer for interaction nets: an arena of agents joined by wires,
//! rewritten in place until no active pair is left.
//!
//! * [`net`] holds the store and its model;
//! * [`model`] says what a rewrite is;
//! * [`reduce`] holds the dispatcher and the driver;
//! * [`wiring`] says what wire symmetry is, and [`symmetry`] proves what
//!   rewriting keeps of it;
//! * [`names`] proves that free ports persist;
//! * [`budget`] proves that the driver comes to an end;
//! * [`ready`] gives a condition under which a store can be handed to the
//!   driver;
//! * [`fixtures`] builds a few small nets.

pub mod budget;
pub mod fixtures;
pub mod model;
pub mod names;
pub mod net;
pub mod ready;
pub mod reduce;
pub mod symmetry;
pub mod wiring;

pub use crate::fixtures::{
    nonterminating, test_annihilate_2, trivial_annihilate_1, trivial_annihilate_2,
    trivial_annihilate_3, trivial_commute_1, trivial_commute_2, trivial_commute_3,
};
pub use crate::net::{cleanup, new_node, relink, remove_node, Kind, Net, Node, Port};
pub use crate::reduce::{reduce, reduce_all};
