pub mod text;
pub mod archive;
pub mod sort;
pub mod highlight;
pub mod search;
pub mod page;
pub mod scrape;
pub mod paths;
pub mod report;
