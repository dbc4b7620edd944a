//! Verified calendar, text and bookkeeping logic of the skipzone app: civil
//! dates and their day numbers, the date text the operator edits, the day
//! spans and cycle schedules a calibration corpus is built over, the station
//! bookkeeping that decides which spots a fit may use, the negatives drawn
//! from a cycle census, and the description of what a corpus contains.
pub mod clock;
pub mod text;
pub mod compute;
pub mod antenna;
pub mod span;
pub mod sampling;
pub mod stations;
pub mod census;
pub mod contents;
