//! The numbers that the library goes by.
use vstd::prelude::*;

use crate::client::peer::tcp::SILENCE_LIMIT;
use crate::client::piece::BLOCK_LEN;
use crate::client::tracker::{ATTEMPTS, FIRST_INTERVAL};
use crate::engine::PIECES_PER_PEER;
use crate::engine::peer::connection::HANDSHAKE_LEN;
use crate::engine::peer::state::{BLOCK_SIZE, UNKNOWN_MESSAGES_LIMIT};
use crate::engine::peer::tcp::MAX_MESSAGE_LEN;
use crate::engine::tracker::MAX_REANNOUNCE_SECS;
use crate::ui::{TAB_COUNT, TICK_NANOS};

verus! {

/// A peer may be silent for ten seconds, a tracker is asked three times and at least every
/// two minutes, a block has 16384 bytes, a handshake 68, a message at most 65535. A peer
/// is given five pieces at once and dropped for its fifth unknown message. The screen has
/// three tabs and is drawn five times in a second.
pub proof fn lemma_limits()
    ensures
        SILENCE_LIMIT == 10 * 1_000_000_000,
        ATTEMPTS == 3,
        FIRST_INTERVAL == 20,
        MAX_REANNOUNCE_SECS == 2 * 60,
        BLOCK_SIZE == 16 * 1024,
        BLOCK_LEN == BLOCK_SIZE,
        HANDSHAKE_LEN == 1 + 19 + 8 + 20 + 20,
        MAX_MESSAGE_LEN == 65535,
        PIECES_PER_PEER == 5,
        UNKNOWN_MESSAGES_LIMIT == 5,
        TAB_COUNT == 3,
        5 * TICK_NANOS == 1_000_000_000,
{
}

} // verus!
