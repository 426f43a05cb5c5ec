pub mod args;
pub mod client;
pub mod domain;
pub mod error;
pub mod header;
pub mod message;
pub mod name;
pub mod route;
pub mod wire;

pub use args::Args;
pub use domain::Domain;
pub use error::DnsError;
pub use header::Header;
pub use message::Message;
pub use name::Name;
pub use route::Route;
