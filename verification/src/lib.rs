//! Light-client state transition for a delegated-proof-of-stake chain:
//! header and transaction parsing, block-producer signature checks,
//! order bookkeeping and the public commitment of each transition.

pub mod block;
pub mod bytes;
pub mod closing;
pub mod codec;
pub mod crypto;
pub mod election;
pub mod entry;
pub mod header;
pub mod history;
pub mod invariants;
pub mod model;
pub mod output;
pub mod relay;
pub mod rules;
pub mod stf;
pub mod transaction;
pub mod wire;

pub use block::block_id_to_number;
pub use model::{
    Action, Execution, Order, OrderState, RawBlock, State, BLOCK_TIME,
    MAINTENANCE_PERIOD_BLOCK_OFFSET, MAINTENANCE_PERIOD_INTERVAL, ORDER_TTL,
};
pub use rules::StfError;
pub use stf::stf;
