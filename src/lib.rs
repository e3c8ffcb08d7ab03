//! Visitor identity and bot verification: a reversible IPv4 address codec, a
//! ledger of visitors with first-seen ranks and bot flags, and a store of
//! short-lived single-use verification tokens.

pub mod conversion_utils;
pub mod coordinator;
pub mod template_models;
pub mod user_info;
pub mod validation;

pub use conversion_utils::{ip_to_u32, u32_to_ip};
pub use coordinator::{complete_verification, finish_verification, rejection, RejectReason, Verification};
pub use template_models::{DataTableModel, IndexModel};
pub use user_info::{LedgerError, UserInfo, VisitorLedger, VisitorRecord};
pub use validation::{PendingValidation, RedeemError, TokenStore};
