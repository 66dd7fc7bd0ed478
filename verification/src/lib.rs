pub mod events;
pub mod index_store;
pub mod parser;
pub mod rss;
pub mod sidenote_error;
pub mod sidenotes;
pub mod templates;
pub mod time;
pub mod toc;

pub use parser::{ParsedMarkdown, PostData, SidenoteParser, transform_events};
pub use sidenote_error::SidenoteError;
pub use sidenotes::compile_sidenotes;
pub use toc::{Blog, IndexedBlogPost};
