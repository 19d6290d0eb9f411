//! Breadth-first pathfinding on a rectangular grid, one generation at a time.
//!
//! A [`node::Node`] is one cell of the grid. A [`matrix::Matrix`] owns the
//! cells together with the frontier of the search, and
//! [`matrix::Matrix::step`] advances the search by one generation. A
//! [`pathfinder::Pathfinder`] is the session around a grid: it places start,
//! target and walls as the user asks, and runs the search tick by tick.
//! [`trial`] runs searches between cells picked at random.
//!
//! What the executable code does is stated over the model in [`model`] and
//! [`clearing`]. What follows from it is proved in [`progress`] and
//! [`discovery`], and stated in [`laws`], [`open_grid`], [`shortest`] and
//! [`session`]: a parent is recorded once, a target behind walls is never
//! reached, the path that is marked is a shortest one, and a session has
//! one start and one target at every moment.
pub mod clearing;
pub mod discovery;
pub mod laws;
pub mod matrix;
pub mod model;
pub mod node;
pub mod open_grid;
pub mod pathfinder;
pub mod progress;
pub mod session;
pub mod shortest;
pub mod trial;
