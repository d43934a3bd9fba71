//! The Sv39 entry format and the three-level page-table engine.
pub mod ledger;
pub mod page_table;
pub mod page_table_entry;
