//! Daily screen-time accounting for the windows of a desktop session.
//!
//! A watched process is sampled again and again. Each sample is put on
//! record in a ledger, under a key that names the session by its command,
//! its process and the second at which it began. The sessions of a day are
//! intervals of seconds; the day's total is the time that they cover, each
//! second counted once. Before the total reaches the limit a warning is due,
//! once a day; at the limit the process is to be ended.
//!
//! Nothing here runs a command, reads a file or sends a signal: the library
//! says what is to be done, and takes what came of it.
//!
//! - [`text`]: characters, numbers, lines and words
//! - [`interval`]: intervals, the seconds they cover, and merging
//! - [`key`]: session keys
//! - [`ledger`]: the ledger, its file, and the day's total
//! - [`enforce`]: the decision between nothing, a warning and the end
//! - [`filter`]: the patterns that say which processes are watched
//! - [`sample`]: what the process table says of a process
//! - [`clock`]: the wall clock
//! - [`notify`]: the text of the warning
//! - [`watchdog`]: one observation of one window
//! - [`backend`]: listing the windows of a desktop

pub mod backend;
pub mod clock;
pub mod enforce;
pub mod filter;
pub mod interval;
pub mod key;
pub mod ledger;
pub mod notify;
pub mod sample;
pub mod text;
pub mod watchdog;
