pub mod day01;
pub mod day02;
pub mod day05;
pub mod day08;
pub mod day09;
pub mod day11;
pub mod day14;
pub mod day15;
pub mod text;
