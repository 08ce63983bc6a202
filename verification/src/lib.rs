//! Generation and marking of printed multiple-choice quizzes: the quiz markup,
//! the answer keys, and the image analysis that finds answer tables and cells
//! on scanned pages.

pub mod cells;
pub mod profile;
pub mod imaging;
pub mod sorting;
pub mod text;
pub mod models;
pub mod utils;
pub mod cli;
pub mod markup;
pub mod geometry;
pub mod aruco;
pub mod grading;
pub mod ingest;
pub mod pdfmerge;
pub mod page_index;
