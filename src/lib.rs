//! A small HTTP/1.1 request/response engine: request parsing, exact-path
//! routing to callbacks or static files, cookie merging and response
//! serialisation. Every function here is verified; sockets, files and
//! threads belong to the program that embeds the library.
pub mod headers;
pub mod method;
pub mod mime_type;
pub mod params;
pub mod path;
pub mod request;
pub mod response;
pub mod router;
pub mod serve;
pub mod status_code;
pub mod str_map;
pub mod text;

pub use headers::Headers;
pub use method::Method;
pub use mime_type::mime_type;
pub use params::parse_url_param;
pub use path::Path;
pub use request::Request;
pub use response::{FileRead, Response};
pub use router::{Handler, Routed, Router};
pub use serve::{merge_cookies, parse_cookies};
pub use status_code::StatusCode;
pub use str_map::StrMap;
