//! Index, schedule and text-format logic of a small data-assimilation toolkit
//! (Kalman filter, ensemble Kalman filter, merging particle filter and the
//! Lorenz-96 model), with contracts proved by Verus.
pub mod lorenz96;
pub mod merging;
pub mod schedule;
pub mod text_format;
