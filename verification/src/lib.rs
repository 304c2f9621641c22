pub mod options;
pub mod pipeline;
pub mod request;
pub mod sitemap;
pub mod source;

pub use options::ArchiveOpts;
pub use sitemap::extract_urls;
