//! Simulated annealing for the Euclidean travelling salesman problem:
//! the verified core (TSPLIB tokenising and header parsing, tour
//! construction and the 2-opt move).

pub mod text;
pub mod scanner;
pub mod tsplib;
pub mod tour;
pub mod cooling;
