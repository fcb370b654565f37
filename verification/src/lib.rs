//! Subdomain discovery engine: splits a list of candidate labels among
//! workers, derives the hostname of each candidate, gathers the hostnames
//! that resolved into a duplicate-free set and hands them back in ascending
//! order, while counting how many candidates have been processed.
//!
//! Name resolution itself, threads and terminal output are left to the
//! caller; every function here is a plain computation with a proved contract.

pub mod hostname;
pub mod order;
pub mod partition;
pub mod progress;
pub mod results;
pub mod scan;
pub mod wordlist;
