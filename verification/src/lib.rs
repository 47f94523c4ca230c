//! One-way backup of a Dropbox account to an external disk: the list logic.
//!
//! The program keeps tab-separated text lists of files (`path`, `modified`, `size`)
//! for the remote Dropbox and for the local disks, compares them and derives what to
//! download, what to move to the trash folder and whose modification time to correct.
//! This crate holds that logic; the program around it reads and writes the files.
pub mod text;
pub mod order;
pub mod compare;
pub mod sorting;
pub mod merge;
pub mod sync;
pub mod seq_facts;
pub mod local_list;
pub mod terminal;
pub mod trash;
pub mod moves;
pub mod remote;
pub mod correct_time;
pub mod completion;

