//! Batched text-embedding requests with verified rate-limit backoff.
//!
//! `duration` parses the provider's reset-header format into a positive
//! wait; `requester` turns each provider reply into the one step the
//! retry loop takes next: finish, wait and resend, or fail with a typed
//! error. The HTTP transport around both lives outside this crate.

pub mod duration;
pub mod requester;
