//! Where the server listens and the pages it answers with.
use vstd::prelude::*;

verus! {

/// Length of the random name given to a body posted to `/`.
pub const MAX_RAND_FILENAME: usize = 200;

/// The address the server listens on.
pub const BIND_ADDRESS: &'static str = "127.0.0.1:1025";

/// The page sent with `404 Not Found`.
pub const NOT_FOUND: &'static str = "404.html";

/// The page sent with `409 Conflict`.
pub const CONFLICT: &'static str = "409.html";

/// The page sent with `201 Created`.
pub const CREATED: &'static str = "201.html";

/// The page for a method that is not allowed.
pub const METHOD_NOT_ALLOWED: &'static str = "405.html";

} // verus!
