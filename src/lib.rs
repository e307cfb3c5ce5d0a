//! Access-log analysis: parsing of log lines, geodata resolution with a
//! persistent cache, and aggregation of visits into report data.

pub mod accesslog;
pub mod date;
pub mod geodata;
pub mod report;
pub mod text;
