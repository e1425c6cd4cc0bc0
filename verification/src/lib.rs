//! Function mocking by patching function entries, with checked call expectations.

pub mod asynchronous;
pub mod code;
pub mod error;
pub mod executable;
pub mod expectation;
pub mod memory;
pub mod routing;
pub mod session;

pub use asynchronous::{AsyncExpectation, AsyncMock};
pub use error::Error;
pub use expectation::{CallCount, Sequence};
