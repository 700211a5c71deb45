//! k-means clustering with best-of-N random restarts.
//!
//! Points are vectors of integer coordinates, all of one dimension, each
//! coordinate within `[-COORD_LIMIT, COORD_LIMIT]`. A mean is the centroid of
//! its cluster rounded per coordinate to the nearest integer (halves upward);
//! that rounding is the integer point nearest the exact centroid in squared
//! distance, so a refinement step never increases the loss.
//!
//! Policies:
//! - a refinement run stops once no mean moved (squared displacement zero)
//!   or after `MAX_STEPS` steps; there is no minimum step count;
//! - a restart in which a cluster loses all of its points fails with
//!   `EmptyCluster` and takes no part in the selection; the whole run fails
//!   with `EmptyCluster` only when every restart did;
//! - ties in distance go to the lowest cluster index, ties in loss keep the
//!   earlier restart.
//!
//! Modules: `model` holds the mathematical model, `assign` the nearest-mean
//! assignment and loss, `refine` the mean recomputation and refinement loop,
//! `driver` the initialization and restart selection, `laws` the properties
//! proved of the model, `singletons` the case of one cluster per point.
pub mod assign;
pub mod driver;
pub mod laws;
pub mod model;
pub mod refine;
pub mod singletons;
