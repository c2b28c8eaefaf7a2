pub mod decimal;
pub mod book;
pub mod ftx;
pub mod checksum;
