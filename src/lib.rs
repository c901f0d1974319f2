//! Resolves the client address of a proxied connection from the proxy
//! headers of its request, falling back to the socket address.

pub mod headers;
pub mod ip;
pub mod resolve;

pub use headers::real_ip;
pub use ip::{parse_ip, IpAddress, SocketAddress};
pub use resolve::{get_last_addr_from_x_forwarded_for_header, pick_best_ip_from_options, Source};
