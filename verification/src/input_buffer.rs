//! The per-connection jitter buffer. Inputs arrive in bursts; the buffer
//! delays playback by `BUFFER_DELAY_MS` while **Buffering**, then while
//! **Playing** consumes at least one input per tick, draining down to
//! below `BUFFER_LEN` whenever the queue has grown past it. An empty
//! queue while Playing is starvation and drops back to Buffering.

use vstd::prelude::*;
use crate::consts::{BUFFER_DELAY_MS, BUFFER_LEN};
use crate::server_types::{NetInput, NetInputState, ReceivedPlayerInput};

verus! {

/// Whether a tick at `now_ms` consumes inputs, given the state and queue.
/// While Buffering, nothing is consumed until the queue is non-empty and
/// its oldest input has waited out the buffer delay; while Playing,
/// anything non-empty is consumed from.
pub open spec fn should_consume(
    state: NetInputState,
    inputs: Seq<ReceivedPlayerInput>,
    now_ms: u64,
) -> bool {
    match state {
        NetInputState::Buffering => inputs.len() > 0 && inputs[0].time_received + BUFFER_DELAY_MS
            <= now_ms,
        NetInputState::Playing => inputs.len() > 0,
    }
}

/// How many inputs a consuming tick takes: at least one, and enough to
/// bring the queue below `BUFFER_LEN`.
pub open spec fn consume_count(queue_len: int) -> int {
    if queue_len - 1 < BUFFER_LEN - 1 {
        1
    } else {
        queue_len - (BUFFER_LEN - 1)
    }
}

/// One tick of the jitter buffer: consumes the FIFO prefix the state
/// machine calls for and returns it, transitioning between Buffering and
/// Playing as the spec describes. The caller applies the consumed inputs
/// to the paddle in order and acknowledges the last one's sequence.
#[verifier::loop_isolation(false)]
pub fn consume_inputs(net_input: &mut NetInput, now_ms: u64) -> (consumed: Vec<
    ReceivedPlayerInput,
>)
    ensures
        final(net_input).pings == old(net_input).pings,
        // No consumption: the queue is untouched; Playing starves back to
        // Buffering on an empty queue, Buffering holds otherwise.
        !should_consume(old(net_input).input_state, old(net_input).inputs@, now_ms) ==> {
            &&& consumed@.len() == 0
            &&& final(net_input).inputs == old(net_input).inputs
            &&& final(net_input).input_state == (
            if old(net_input).input_state is Playing && old(net_input).inputs@.len() == 0 {
                NetInputState::Buffering
            } else {
                old(net_input).input_state
            })
        },
        // Consumption: at least one input leaves, in FIFO order, and the
        // queue ends below its target length.
        should_consume(old(net_input).input_state, old(net_input).inputs@, now_ms) ==> {
            &&& consumed@.len() == consume_count(old(net_input).inputs@.len() as int)
            &&& 1 <= consumed@.len() <= old(net_input).inputs@.len()
            &&& consumed@ == old(net_input).inputs@.take(consumed@.len() as int)
            &&& final(net_input).inputs@ == old(net_input).inputs@.skip(consumed@.len() as int)
            &&& final(net_input).inputs@.len() < BUFFER_LEN
            &&& final(net_input).input_state == NetInputState::Playing
        },
{
    let consume: bool = match net_input.input_state {
        NetInputState::Buffering => {
            if net_input.inputs.len() == 0 {
                false
            } else {
                let oldest = net_input.inputs[0].time_received;
                if oldest > u64::MAX - BUFFER_DELAY_MS || oldest + BUFFER_DELAY_MS > now_ms {
                    false
                } else {
                    net_input.input_state = NetInputState::Playing;
                    true
                }
            }
        },
        NetInputState::Playing => {
            if net_input.inputs.len() == 0 {
                net_input.input_state = NetInputState::Buffering;
                false
            } else {
                true
            }
        },
    };
    let mut consumed: Vec<ReceivedPlayerInput> = Vec::new();
    if !consume {
        return consumed;
    }
    let ghost start = net_input.inputs@;
    let len = net_input.inputs.len();
    let count: usize = if len - 1 < BUFFER_LEN - 1 {
        1
    } else {
        len - (BUFFER_LEN - 1)
    };
    proof {
        assert(count == consume_count(start.len() as int));
        assert(1 <= count <= len);
    }
    let mut i: usize = 0;
    while i < count
        invariant
            i <= count,
            net_input.input_state == NetInputState::Playing,
            net_input.pings == old(net_input).pings,
            consumed@.len() == i,
            consumed@ == start.take(i as int),
            net_input.inputs@ == start.skip(i as int),
        decreases count - i,
    {
        let input = net_input.inputs.remove(0);
        consumed.push(input);
        i = i + 1;
        proof {
            assert(consumed@ =~= start.take(i as int));
            assert(net_input.inputs@ =~= start.skip(i as int));
        }
    }
    consumed
}

} // verus!
