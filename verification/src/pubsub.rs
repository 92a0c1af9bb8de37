//! The decisions of a broadcast pub/sub hub: the ring size a hub gets, and
//! whether a published value is offered to the channel given how many values
//! the ring retains. The channel itself (receivers, lag, wake-ups) is the
//! async runtime's.
use vstd::prelude::*;

verus! {

/// How a hub treats a full ring.
#[derive(Clone, Copy, Debug, PartialEq, Eq)]
pub enum PubSubMode {
    /// Publishing fails while the ring already holds `capacity` values.
    Bounded,
    /// Same rule as `Bounded`: the incoming value is not stored when full.
    Dropping,
    /// The oldest values are evicted when the ring is full.
    Sliding,
    /// A large ring; publishing never fails for fullness.
    Unbounded,
}

/// Ring size of an unbounded hub.
pub const UNBOUNDED_CAPACITY: usize = 65536;

/// The ring size a hub of `mode` gets when `requested` values were asked for.
pub open spec fn capacity_for(mode: PubSubMode, requested: usize) -> usize {
    match mode {
        PubSubMode::Unbounded => UNBOUNDED_CAPACITY,
        _ => if requested == 0 {
            1
        } else {
            requested
        },
    }
}

/// Ring size of a new hub: at least one slot for bounded, dropping and
/// sliding hubs, and the fixed large ring for an unbounded one.
pub fn hub_capacity(mode: PubSubMode, requested: usize) -> (c: usize)
    ensures
        c == capacity_for(mode, requested),
        c >= 1,
{
    match mode {
        PubSubMode::Unbounded => UNBOUNDED_CAPACITY,
        _ => if requested == 0 {
            1
        } else {
            requested
        },
    }
}

/// Whether a published value is offered to the channel.
pub open spec fn offers(mode: PubSubMode, shut_down: bool, retained: usize, capacity: usize) -> bool {
    !shut_down && match mode {
        PubSubMode::Bounded | PubSubMode::Dropping => retained < capacity,
        PubSubMode::Sliding | PubSubMode::Unbounded => true,
    }
}

/// Whether a value published now is offered to the channel: never once the
/// hub is shut down; for bounded and dropping hubs only while the ring holds
/// fewer than `capacity` values. A value offered can still be refused by the
/// channel (no receivers); one not offered is reported as not published.
pub fn publish_offers(mode: PubSubMode, shut_down: bool, retained: usize, capacity: usize) -> (b: bool)
    ensures
        b == offers(mode, shut_down, retained, capacity),
{
    if shut_down {
        return false;
    }
    match mode {
        PubSubMode::Bounded | PubSubMode::Dropping => retained < capacity,
        PubSubMode::Sliding | PubSubMode::Unbounded => true,
    }
}

/// What `publish` answers: `true` only when the value was offered and the
/// channel took it.
pub fn publish_result(offered: bool, channel_took: bool) -> (b: bool)
    ensures
        b == (offered && channel_took),
{
    offered && channel_took
}

/// Messages a hub reports as retained: none once shut down.
pub fn reported_size(shut_down: bool, retained: usize) -> (n: usize)
    ensures
        n == (if shut_down { 0 } else { retained }),
{
    if shut_down {
        0
    } else {
        retained
    }
}

/// Whether a hub reports itself empty: always once shut down.
pub fn reported_empty(shut_down: bool, retained: usize) -> (b: bool)
    ensures
        b == (shut_down || retained == 0),
{
    shut_down || retained == 0
}

/// Whether a hub reports itself full: always once shut down, else when the
/// ring holds `capacity` values or more.
pub fn reported_full(shut_down: bool, retained: usize, capacity: usize) -> (b: bool)
    ensures
        b == (shut_down || retained >= capacity),
{
    shut_down || retained >= capacity
}

// ---------------------------------------------------------------------------
// Laws.

/// A hub that does not report itself full offers every published value, and
/// only bounded and dropping hubs refuse values for fullness.
pub proof fn law_room_means_offered(mode: PubSubMode, shut_down: bool, retained: usize, capacity: usize)
    ensures
        !(shut_down || retained >= capacity) ==> offers(mode, shut_down, retained, capacity),
        (mode == PubSubMode::Sliding || mode == PubSubMode::Unbounded) ==> (offers(mode, shut_down, retained, capacity)
            <==> !shut_down),
{
}

/// A shut-down hub offers nothing. A bounded or dropping hub whose ring
/// already holds `capacity` values or more refuses a publish, and offers it
/// while there is room; both kinds decide alike.
pub proof fn law_full_bounded_hubs_refuse(shut_down: bool, retained: usize, capacity: usize, mode: PubSubMode)
    ensures
        shut_down ==> !offers(mode, shut_down, retained, capacity),
        (mode == PubSubMode::Bounded || mode == PubSubMode::Dropping) && retained >= capacity ==> !offers(
            mode,
            shut_down,
            retained,
            capacity,
        ),
        (mode == PubSubMode::Bounded || mode == PubSubMode::Dropping) && !shut_down && retained < capacity ==> offers(
            mode,
            shut_down,
            retained,
            capacity,
        ),
        offers(PubSubMode::Bounded, shut_down, retained, capacity) == offers(
            PubSubMode::Dropping,
            shut_down,
            retained,
            capacity,
        ),
{
}

} // verus!
