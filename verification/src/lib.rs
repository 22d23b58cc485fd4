//! Shared logic of the federated-learning orchestration: the seedable
//! SplitMix64 generator and seed derivation, participant eligibility and
//! ranking, the FedAvg admissibility check, the structure of a simulated
//! topology, and the small text formats used by the configuration of every
//! tier.
pub mod model;
pub mod rng;
pub mod select;
pub mod text;
pub mod topology;
