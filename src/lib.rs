//! Solvers for a set of grid, search and simulation puzzles, each proved against a
//! specification of what it computes.
//!
//! The centrepiece is [`day16`]: the cheapest route through a maze where turning costs a
//! thousand times more than stepping, and the set of cells that lie on any cheapest route.
pub mod text;
pub mod day01;
pub mod day02;
pub mod day04;
pub mod day05;
pub mod day06;
pub mod day07;
pub mod day08;
pub mod day09;
pub mod day10;
pub mod day11;
pub mod day12;
pub mod day13;
pub mod day14;
pub mod day15;
pub mod day16;
pub mod day17;
pub mod day18;
pub mod day19;
pub mod day20;
pub mod day21;
pub mod day22;
pub mod day23;
pub mod day24;
pub mod day25;
