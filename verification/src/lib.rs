//! Selection, transformation and output of the circuit data that a SPAN panel
//! reports, together with the rules that lead to the panel: which credentials
//! apply, which address is asked, and when a failed request is repeated.
//!
//! Reading files, talking to the panel and printing are left to the program
//! around this library; every decision in between is made here.

pub mod api;
pub mod attribute;
pub mod config;
pub mod json;
pub mod report;
pub mod retry;
pub mod select;
pub mod shell;
pub mod table;
pub mod text;
