pub mod binary;
pub mod compress;
pub mod grep_tool;
pub mod imap;
