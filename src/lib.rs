//! Staking bookkeeping for a digital collectible whose state is kept as a
//! list of key/value attributes: staking marks the asset frozen and records
//! when staking began; unstaking clears the mark and adds the elapsed time to
//! the accumulated staking time.

pub mod decimal;
pub mod staking;
