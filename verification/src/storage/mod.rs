//! The form in which lanes are stored, and what is checked of it.
pub mod paths;
pub mod values;
pub mod rows;
pub mod detect;
pub mod doctor;
pub mod encode;
pub mod failures;
pub mod health;
pub mod inspect;
pub mod manifest;
pub mod round_trip;
