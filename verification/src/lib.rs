//! Topic routing, request correlation and message bookkeeping for an
//! event-based modular framework.
pub mod text;
pub mod topic;
pub mod rest;
pub mod correlation;
pub mod text_map;
pub mod routing;
pub mod subscriptions;
pub mod monitor;
pub mod clock;
pub mod process;
pub mod mock_bus;
