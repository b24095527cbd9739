//! The linked-list form of the RGA from Roh et al. 2011: nodes kept in one
//! list in document order and addressed by quadruple vectors, with the
//! servers that carry its operations between replicas.
pub mod char_id;
pub mod client_op;
pub mod convergence;
pub mod editing;
pub mod flush;
pub mod hydration;
pub mod node;
pub mod op;
pub mod relay;
pub mod rga;
pub mod sync;
