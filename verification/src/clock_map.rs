//! The logical clocks of a shard: for each pair of peer and clock id the
//! highest tick seen, by which writes that arrive through several replicas
//! are put in order.

use vstd::prelude::*;
use vstd::std_specs::iter::IteratorSpec;
use std::collections::hash_map::Entry;
use std::collections::HashMap;

verus! {

broadcast use vstd::std_specs::hash::group_hash_axioms;

/// The id of a peer of the cluster.
pub type PeerId = u64;

/// The clock annotation that a write carries.
#[derive(Clone, Copy, Debug)]
pub struct ClockTag {
    pub peer_id: PeerId,
    pub clock_id: u32,
    pub clock_tick: u64,
    pub force: bool,
}

impl ClockTag {
    /// A tag that is not forced.
    pub fn new(peer_id: PeerId, clock_id: u32, clock_tick: u64) -> (tag: Self)
        ensures
            tag == (ClockTag { peer_id, clock_id, clock_tick, force: false }),
    {
        ClockTag { peer_id, clock_id, clock_tick, force: false }
    }
}

/// What names a clock: the peer that owns it and its number on that peer.
#[derive(Clone, Copy, Debug, PartialEq, Eq, Hash, Structural)]
pub struct Key {
    pub peer_id: PeerId,
    pub clock_id: u32,
}

/// The number under which the clock of `peer_id` and `clock_id` is kept: the
/// peer in the upper bits, the clock id in the lower 32.
pub open spec fn key_code(peer_id: PeerId, clock_id: u32) -> u128 {
    (peer_id * 0x1_0000_0000 + clock_id) as u128
}

/// Two clocks with the same code are the same clock.
pub proof fn lemma_key_code_injective(a: Key, b: Key)
    requires
        key_code(a.peer_id, a.clock_id) == key_code(b.peer_id, b.clock_id),
    ensures
        a == b,
{
}

impl Key {
    /// The key of the clock `clock_id` of peer `peer_id`.
    pub fn new(peer_id: PeerId, clock_id: u32) -> (key: Self)
        ensures
            key == (Key { peer_id, clock_id }),
    {
        Self { peer_id, clock_id }
    }

    /// The key of the clock that the tag speaks of.
    pub fn from_tag(clock_tag: &ClockTag) -> (key: Self)
        ensures
            key == (Key { peer_id: clock_tag.peer_id, clock_id: clock_tag.clock_id }),
    {
        Self { peer_id: clock_tag.peer_id, clock_id: clock_tag.clock_id }
    }

    /// The number under which the clock is kept.
    pub fn code(&self) -> (code: u128)
        ensures
            code == key_code(self.peer_id, self.clock_id),
    {
        (self.peer_id as u128) * 0x1_0000_0000 + (self.clock_id as u128)
    }
}

/// One clock: the highest tick it has been advanced to.
#[derive(Debug)]
pub struct Clock {
    current_tick: u64,
}

impl Clock {
    /// The tick that the clock stands at.
    pub closed spec fn tick(&self) -> u64 {
        self.current_tick
    }

    /// A clock that stands at `tick`.
    pub fn new(tick: u64) -> (clock: Self)
        ensures
            clock.tick() == tick,
    {
        Self { current_tick: tick }
    }

    /// The tick that the clock stands at.
    pub fn current_tick(&self) -> (tick: u64)
        ensures
            tick == self.tick(),
    {
        self.current_tick
    }

    /// Advances the clock to `new_tick` if that is beyond where it stands.
    /// Answers whether the clock moved, and the tick it stands at now.
    #[must_use]
    pub fn advance_to(&mut self, new_tick: u64) -> (r: (bool, u64))
        ensures
            final(self).tick() == if old(self).tick() < new_tick {
                new_tick
            } else {
                old(self).tick()
            },
            r.0 == (old(self).tick() < new_tick),
            r.1 == final(self).tick(),
    {
        let old_tick = self.current_tick;
        let clock_updated = old_tick < new_tick;
        if clock_updated {
            self.current_tick = new_tick;
        }
        (clock_updated, self.current_tick)
    }
}

/// The clocks after the clock of `key` was advanced to `tick`: a clock that
/// was not there stands at `tick`, one that was there at the larger of the
/// two.
pub open spec fn advanced(
    clocks: Map<(PeerId, u32), u64>,
    key: (PeerId, u32),
    tick: u64,
) -> Map<(PeerId, u32), u64> {
    if clocks.contains_key(key) && clocks[key] >= tick {
        clocks
    } else {
        clocks.insert(key, tick)
    }
}

/// Whether advancing the clock of `key` to `tick` moves it: it was not there
/// or stood below `tick`.
pub open spec fn moves(clocks: Map<(PeerId, u32), u64>, key: (PeerId, u32), tick: u64) -> bool {
    !clocks.contains_key(key) || clocks[key] < tick
}

/// Whether the shard takes an operation: its tag moved the clock, asks to be
/// stamped with tick 0, or is forced.
pub open spec fn operation_accepted(clock_updated: bool, tag: ClockTag) -> bool {
    clock_updated || tag.clock_tick == 0 || tag.force
}

/// Whether the tick of the tag is replaced by that of the clock: the tag did
/// not move the clock or asks to be stamped, and it is not forced.
pub open spec fn tag_corrected(clock_updated: bool, tag: ClockTag) -> bool {
    (!clock_updated || tag.clock_tick == 0) && !tag.force
}

/// The tag after the clock map was advanced by it: with the tick of the clock
/// where the tag is put right, else as it came.
pub open spec fn corrected_tag(clocks: Map<(PeerId, u32), u64>, tag: ClockTag) -> ClockTag {
    let key = (tag.peer_id, tag.clock_id);
    if tag_corrected(moves(clocks, key, tag.clock_tick), tag) {
        ClockTag { clock_tick: advanced(clocks, key, tag.clock_tick)[key], ..tag }
    } else {
        tag
    }
}

/// The ticks of the clocks of a shard at one moment.
#[derive(Debug)]
pub struct RecoveryPoint {
    clocks: HashMap<u128, u64>,
}

impl View for RecoveryPoint {
    type V = Map<(PeerId, u32), u64>;

    /// For each clock its tick.
    closed spec fn view(&self) -> Map<(PeerId, u32), u64> {
        Map::new(
            |key: (PeerId, u32)| self.clocks@.contains_key(key_code(key.0, key.1)),
            |key: (PeerId, u32)| self.clocks@[key_code(key.0, key.1)],
        )
    }
}

/// The clocks of a shard.
#[derive(Debug)]
pub struct ClockMap {
    clocks: HashMap<u128, Clock>,
}

impl View for ClockMap {
    type V = Map<(PeerId, u32), u64>;

    /// For each clock its tick.
    closed spec fn view(&self) -> Map<(PeerId, u32), u64> {
        Map::new(
            |key: (PeerId, u32)| self.clocks@.contains_key(key_code(key.0, key.1)),
            |key: (PeerId, u32)| self.clocks@[key_code(key.0, key.1)].tick(),
        )
    }
}

impl Default for ClockMap {
    /// No clocks.
    fn default() -> (r: Self)
        ensures
            r.wf(),
            r@ == Map::<(PeerId, u32), u64>::empty(),
    {
        let r = ClockMap { clocks: HashMap::new() };
        assert(r@ =~= Map::<(PeerId, u32), u64>::empty());
        r
    }
}

impl ClockMap {
    /// Every number that a clock is kept under is the code of a key. This
    /// holds of every clock map that was made and changed by the functions
    /// of this type.
    pub closed spec fn wf(&self) -> bool {
        forall|code: u128| #[trigger] self.clocks@.contains_key(code) ==> is_key_code(code)
    }

    /// What loading the clock map of a shard comes to, given what reading
    /// its file gave: a file that is not there stands for a shard without
    /// clocks; any other outcome is handed on as it is.
    pub fn load_or_default(loaded: Result<ClockMap, Error>) -> (r: Result<ClockMap, Error>)
        ensures
            match loaded {
                Err(error) if is_not_found(error) => r matches Ok(clock_map) && clock_map@
                    == Map::<(PeerId, u32), u64>::empty() && clock_map.wf(),
                _ => r == loaded,
            },
    {
        if let Err(Error::Io { kind: IoErrorKind::NotFound, .. }) = &loaded {
            return Ok(Self::default());
        }
        loaded
    }

    /// Advances the clock that the tag speaks of to the tick of the tag.
    /// Answers whether the clock moved, and the tick it stands at now.
    fn advance_clock_impl(&mut self, clock_tag: &ClockTag) -> (r: (bool, u64))
        ensures
            final(self)@ == advanced(
                old(self)@,
                (clock_tag.peer_id, clock_tag.clock_id),
                clock_tag.clock_tick,
            ),
            r.0 == moves(old(self)@, (clock_tag.peer_id, clock_tag.clock_id), clock_tag.clock_tick),
            r.1 == final(self)@[(clock_tag.peer_id, clock_tag.clock_id)],
            final(self)@.contains_key((clock_tag.peer_id, clock_tag.clock_id)),
            old(self).wf() ==> final(self).wf(),
    {
        let key = Key::from_tag(clock_tag);
        let new_tick = clock_tag.clock_tick;
        let code = key.code();
        let r = match self.clocks.entry(code) {
            Entry::Occupied(mut entry) => entry.get_mut().advance_to(new_tick),
            Entry::Vacant(entry) => {
                entry.insert(Clock::new(new_tick));
                (true, new_tick)
            },
        };
        proof {
            let before = old(self)@;
            let want = advanced(before, (key.peer_id, key.clock_id), new_tick);
            assert forall|k: (PeerId, u32)| self@.contains_key(k) <==> want.contains_key(k) by {
                if key_code(k.0, k.1) == code {
                    lemma_key_code_injective(Key { peer_id: k.0, clock_id: k.1 }, key);
                }
            }
            assert forall|k: (PeerId, u32)| self@.contains_key(k) implies self@[k] == want[k] by {
                if key_code(k.0, k.1) == code {
                    lemma_key_code_injective(Key { peer_id: k.0, clock_id: k.1 }, key);
                }
            }
            assert(self@ =~= want);
        }
        r
    }

    /// Advances the clock that the tag speaks of and puts the tag right:
    /// where the tag did not move the clock or asks to be stamped with tick
    /// 0, and is not forced, its tick becomes that of the clock. Answers
    /// whether the shard takes the operation.
    #[must_use]
    pub fn advance_clock_and_check_tag(&mut self, clock_tag: &mut ClockTag) -> (accepted: bool)
        ensures
            final(self)@ == advanced(
                old(self)@,
                (old(clock_tag).peer_id, old(clock_tag).clock_id),
                old(clock_tag).clock_tick,
            ),
            accepted == operation_accepted(
                moves(
                    old(self)@,
                    (old(clock_tag).peer_id, old(clock_tag).clock_id),
                    old(clock_tag).clock_tick,
                ),
                *old(clock_tag),
            ),
            *final(clock_tag) == corrected_tag(old(self)@, *old(clock_tag)),
            old(self).wf() ==> final(self).wf(),
    {
        let (clock_updated, current_tick) = self.advance_clock_impl(clock_tag);
        // An operation is accepted if its tick is newer than the one the clock stood at.
        // One that is not has its tag put right, so that it can be echoed back to the node.
        // An operation with tick 0 is always accepted and always has its tag put right.
        let operation_accepted = clock_updated || clock_tag.clock_tick == 0 || clock_tag.force;
        let update_tag = (!clock_updated || clock_tag.clock_tick == 0) && !clock_tag.force;
        if update_tag {
            clock_tag.clock_tick = current_tick;
        }
        operation_accepted
    }

    /// Advances the clock that the tag speaks of and puts the tag right, as
    /// `advance_clock_and_check_tag` does. Every operation is taken: the
    /// answer is `true` whatever the tag.
    #[must_use]
    pub fn advance_clock_and_correct_tag(&mut self, clock_tag: &mut ClockTag) -> (accepted: bool)
        ensures
            final(self)@ == advanced(
                old(self)@,
                (old(clock_tag).peer_id, old(clock_tag).clock_id),
                old(clock_tag).clock_tick,
            ),
            *final(clock_tag) == corrected_tag(old(self)@, *old(clock_tag)),
            accepted,
            old(self).wf() ==> final(self).wf(),
    {
        let _operation_accepted = self.advance_clock_and_check_tag(clock_tag);
        true
    }

    /// The tick that the clock of `peer_id` and `clock_id` stands at.
    pub fn current_tick(&self, peer_id: PeerId, clock_id: u32) -> (tick: Option<u64>)
        ensures
            tick == if self@.contains_key((peer_id, clock_id)) {
                Some(self@[(peer_id, clock_id)])
            } else {
                None
            },
    {
        let code = Key::new(peer_id, clock_id).code();
        match self.clocks.get(&code) {
            Some(clock) => Some(clock.current_tick()),
            None => None,
        }
    }

    /// The ticks of all clocks as they stand.
    pub fn to_recovery_point(&self) -> (r: RecoveryPoint)
        ensures
            r@ == self@,
            self.wf() ==> r.wf(),
    {
        let mut clocks: HashMap<u128, u64> = HashMap::new();
        for pair in it: self.clocks.iter()
            invariant
                forall|code: u128| #[trigger]
                    clocks@.contains_key(code) ==> self.clocks@.contains_key(code) && clocks@[code]
                        == self.clocks@[code].tick(),
                forall|i: int|
                    0 <= i < it.index() ==> clocks@.contains_key(*(#[trigger] it.seq()[i]).0),
        {
            let (code, clock) = pair;
            clocks.insert(*code, clock.current_tick());
        }
        let r = RecoveryPoint { clocks };
        proof {
            assert(r@ =~= self@);
        }
        r
    }

    /// Advances the clock that the tag speaks of to the tick of the tag.
    pub fn advance_clock(&mut self, clock_tag: &ClockTag)
        ensures
            final(self)@ == advanced(
                old(self)@,
                (clock_tag.peer_id, clock_tag.clock_id),
                clock_tag.clock_tick,
            ),
            old(self).wf() ==> final(self).wf(),
    {
        let _ = self.advance_clock_impl(clock_tag);
    }
}

/// The largest code that a key can have.
pub open spec fn is_key_code(code: u128) -> bool {
    code < 0x1_0000_0000_0000_0000_0000_0000
}

/// The clocks that a list of tags stands for: each tag sets the tick of its
/// clock, a later tag for the same clock replacing an earlier one.
pub open spec fn tags_map(tags: Seq<ClockTag>) -> Map<(PeerId, u32), u64>
    decreases tags.len(),
{
    if tags.len() == 0 {
        Map::empty()
    } else {
        tags_map(tags.drop_last()).insert(
            (tags.last().peer_id, tags.last().clock_id),
            tags.last().clock_tick,
        )
    }
}

/// The tags list the clocks one by one: each tag gives the tick of its
/// clock, no clock has two tags, and none is left out.
pub open spec fn lists_clocks(tags: Seq<ClockTag>, clocks: Map<(PeerId, u32), u64>) -> bool {
    &&& forall|i: int|
        0 <= i < tags.len() ==> {
            let tag = #[trigger] tags[i];
            clocks.contains_key((tag.peer_id, tag.clock_id)) && clocks[(tag.peer_id, tag.clock_id)]
                == tag.clock_tick && !tag.force
        }
    &&& forall|i: int, j: int|
        0 <= i < j < tags.len() ==> !(tags[i].peer_id == tags[j].peer_id && tags[i].clock_id
            == tags[j].clock_id)
    &&& forall|key: (PeerId, u32)|
        clocks.contains_key(key) ==> exists|i: int|
            0 <= i < tags.len() && (#[trigger] tags[i]).peer_id == key.0 && tags[i].clock_id
                == key.1
}

impl Default for RecoveryPoint {
    /// No clocks.
    fn default() -> (r: Self)
        ensures
            r.wf(),
            r@ == Map::<(PeerId, u32), u64>::empty(),
    {
        let r = RecoveryPoint { clocks: HashMap::new() };
        assert(r@ =~= Map::<(PeerId, u32), u64>::empty());
        r
    }
}

impl Clone for RecoveryPoint {
    fn clone(&self) -> (r: Self)
        ensures
            r@ == self@,
            self.wf() ==> r.wf(),
    {
        let r = RecoveryPoint { clocks: self.clocks.clone() };
        assert(r@ =~= self@);
        r
    }
}

impl RecoveryPoint {
    /// Every number that a tick is kept under is the code of a key. This
    /// holds of every recovery point that was made and changed by the
    /// functions of this type.
    pub closed spec fn wf(&self) -> bool {
        forall|code: u128| #[trigger] self.clocks@.contains_key(code) ==> is_key_code(code)
    }

    /// The tick that the recovery point holds for the clock of `peer_id` and
    /// `clock_id`.
    pub fn get(&self, peer_id: PeerId, clock_id: u32) -> (tick: Option<u64>)
        ensures
            tick == if self@.contains_key((peer_id, clock_id)) {
                Some(self@[(peer_id, clock_id)])
            } else {
                None
            },
    {
        let code = Key::new(peer_id, clock_id).code();
        match self.clocks.get(&code) {
            Some(tick) => Some(*tick),
            None => None,
        }
    }

    /// Adds the clocks of `clock_map` that the recovery point does not hold
    /// yet, at the tick they stand at. A clock that it holds keeps its tick,
    /// whatever the clock map says.
    pub fn extend_with_missing_clocks(&mut self, clock_map: &ClockMap)
        ensures
            final(self)@ == clock_map@.union_prefer_right(old(self)@),
            old(self).wf() && clock_map.wf() ==> final(self).wf(),
    {
        for pair in it: clock_map.clocks.iter()
            invariant
                forall|code: u128| #[trigger]
                    self.clocks@.contains_key(code) ==> old(self).clocks@.contains_key(code)
                        || clock_map.clocks@.contains_key(code),
                forall|code: u128| #[trigger]
                    old(self).clocks@.contains_key(code) ==> self.clocks@.contains_key(code)
                        && self.clocks@[code] == old(self).clocks@[code],
                forall|code: u128|
                    #[trigger] self.clocks@.contains_key(code) && !old(self).clocks@.contains_key(
                        code,
                    ) ==> self.clocks@[code] == clock_map.clocks@[code].tick(),
                forall|i: int|
                    0 <= i < it.index() ==> self.clocks@.contains_key(
                        *(#[trigger] it.seq()[i]).0,
                    ),
        {
            let (code, clock) = pair;
            if !self.clocks.contains_key(code) {
                self.clocks.insert(*code, clock.current_tick());
            }
        }
        proof {
            assert(self@ =~= clock_map@.union_prefer_right(old(self)@));
        }
    }

    /// The recovery point that a list of clock tags stands for. Where two
    /// tags speak of one clock, the later one counts.
    pub fn from_clock_tags(tags: &Vec<ClockTag>) -> (r: Self)
        ensures
            r.wf(),
            r@ == tags_map(tags@),
    {
        let mut clocks: HashMap<u128, u64> = HashMap::new();
        let mut i: usize = 0;
        let ghost mut built = RecoveryPoint { clocks };
        assert(tags@.take(0) =~= Seq::<ClockTag>::empty());
        assert(built@ =~= Map::<(PeerId, u32), u64>::empty());
        while i < tags.len()
            invariant
                i <= tags@.len(),
                built.clocks == clocks,
                built.wf(),
                built@ == tags_map(tags@.take(i as int)),
            decreases tags@.len() - i,
        {
            let tag = tags[i];
            let key = Key::new(tag.peer_id, tag.clock_id);
            let ghost before = built@;
            clocks.insert(key.code(), tag.clock_tick);
            proof {
                built = RecoveryPoint { clocks };
                let upto = tags@.take(i + 1);
                assert(upto.drop_last() =~= tags@.take(i as int));
                assert(upto.last() == tag);
                let want = before.insert((tag.peer_id, tag.clock_id), tag.clock_tick);
                assert forall|k: (PeerId, u32)| built@.contains_key(k) <==> want.contains_key(
                    k,
                ) by {
                    if key_code(k.0, k.1) == key_code(tag.peer_id, tag.clock_id) {
                        lemma_key_code_injective(Key { peer_id: k.0, clock_id: k.1 }, key);
                    }
                }
                assert forall|k: (PeerId, u32)| built@.contains_key(k) implies built@[k]
                    == want[k] by {
                    if key_code(k.0, k.1) == key_code(tag.peer_id, tag.clock_id) {
                        lemma_key_code_injective(Key { peer_id: k.0, clock_id: k.1 }, key);
                    }
                }
                assert(built@ =~= want);
            }
            i += 1;
        }
        assert(tags@.take(i as int) =~= tags@);
        RecoveryPoint { clocks }
    }

    /// The clocks of the recovery point as a list of tags, one for each
    /// clock, in no particular order.
    pub fn to_clock_tags(&self) -> (tags: Vec<ClockTag>)
        requires
            self.wf(),
        ensures
            lists_clocks(tags@, self@),
    {
        let mut tags: Vec<ClockTag> = Vec::new();
        let ghost all = self.clocks.iter().remaining();
        for pair in it: self.clocks.iter()
            invariant
                self.wf(),
                it.seq() == all,
                tags@.len() == it.index(),
                forall|i: int|
                    0 <= i < it.index() ==> {
                        let tag = #[trigger] tags@[i];
                        key_code(tag.peer_id, tag.clock_id) == *it.seq()[i].0 && tag.clock_tick
                            == *it.seq()[i].1 && !tag.force
                    },
        {
            let (code, tick) = pair;
            assert(self.clocks@.contains_key(*code));
            let peer_id: PeerId = (*code / 0x1_0000_0000) as PeerId;
            let clock_id: u32 = (*code % 0x1_0000_0000) as u32;
            tags.push(ClockTag::new(peer_id, clock_id, *tick));
        }
        proof {
            assert forall|i: int, j: int| 0 <= i < j < tags@.len() implies !(tags@[i].peer_id
                == tags@[j].peer_id && tags@[i].clock_id == tags@[j].clock_id) by {
                if tags@[i].peer_id == tags@[j].peer_id && tags@[i].clock_id == tags@[j].clock_id {
                    assert(*all[i].0 == *all[j].0);
                    assert(*all[i].1 == self.clocks@[*all[i].0]);
                    assert(*all[j].1 == self.clocks@[*all[j].0]);
                    assert(all[i] == all[j]);
                }
            }
            assert forall|key: (PeerId, u32)| self@.contains_key(key) implies exists|i: int|
                0 <= i < tags@.len() && (#[trigger] tags@[i]).peer_id == key.0 && tags@[i].clock_id
                    == key.1 by {
                let code = key_code(key.0, key.1);
                assert(self.clocks@.contains_key(code));
                assert(all.contains((&code, &self.clocks@[code])));
                let i = choose|i: int| 0 <= i < all.len() && all[i] == (&code, &self.clocks@[code]);
                lemma_key_code_injective(
                    Key { peer_id: tags@[i].peer_id, clock_id: tags@[i].clock_id },
                    Key { peer_id: key.0, clock_id: key.1 },
                );
            }
        }
        tags
    }
}

/// What went wrong with a file that holds a clock map.
#[derive(Debug)]
pub enum IoErrorKind {
    /// There is no such file.
    NotFound,
    /// Any other failure of the file system.
    Other,
}

/// Why a clock map could not be loaded or stored.
#[derive(Debug)]
pub enum Error {
    /// The file system failed.
    Io { kind: IoErrorKind, message: String },
    /// The file does not hold a clock map.
    SerdeJson { message: String },
}

impl Error {
    /// What the error says, as text.
    pub fn message(&self) -> (text: &String)
        ensures
            match *self {
                Error::Io { message, .. } => text == message,
                Error::SerdeJson { message } => text == message,
            },
    {
        match self {
            Error::Io { message, .. } => message,
            Error::SerdeJson { message } => message,
        }
    }
}

/// Whether the error says that the file is not there.
pub open spec fn is_not_found(error: Error) -> bool {
    error matches Error::Io { kind: IoErrorKind::NotFound, .. }
}

/// Advancing a clock by the ticks one after the other.
pub open spec fn advanced_by_all(
    clocks: Map<(PeerId, u32), u64>,
    key: (PeerId, u32),
    ticks: Seq<u64>,
) -> Map<(PeerId, u32), u64>
    decreases ticks.len(),
{
    if ticks.len() == 0 {
        clocks
    } else {
        advanced(advanced_by_all(clocks, key, ticks.drop_last()), key, ticks.last())
    }
}

/// Monotonicity: after a clock was advanced by any ticks in any order, it
/// stands at the largest of them and of where it stood before; no tick that
/// was seen is beyond it, and no other clock has moved.
pub proof fn lemma_advance_is_monotone(
    clocks: Map<(PeerId, u32), u64>,
    key: (PeerId, u32),
    ticks: Seq<u64>,
)
    requires
        ticks.len() > 0,
    ensures
        advanced_by_all(clocks, key, ticks).contains_key(key),
        forall|i: int| 0 <= i < ticks.len() ==> ticks[i] <= advanced_by_all(clocks, key, ticks)[key],
        clocks.contains_key(key) ==> clocks[key] <= advanced_by_all(clocks, key, ticks)[key],
        (exists|i: int| 0 <= i < ticks.len() && ticks[i] == advanced_by_all(clocks, key, ticks)[key])
            || (clocks.contains_key(key) && clocks[key] == advanced_by_all(clocks, key, ticks)[key]),
        forall|other: (PeerId, u32)|
            other != key ==> (#[trigger] advanced_by_all(clocks, key, ticks).contains_key(other)
                <==> clocks.contains_key(other)),
        forall|other: (PeerId, u32)|
            other != key && clocks.contains_key(other) ==> #[trigger] advanced_by_all(
                clocks,
                key,
                ticks,
            )[other] == clocks[other],
    decreases ticks.len(),
{
    let before = advanced_by_all(clocks, key, ticks.drop_last());
    let after = advanced_by_all(clocks, key, ticks);
    let top = ticks.len() - 1;
    assert(ticks[top] == ticks.last());
    if ticks.len() == 1 {
        assert(ticks.drop_last() =~= Seq::<u64>::empty());
        assert(before == clocks);
    } else {
        lemma_advance_is_monotone(clocks, key, ticks.drop_last());
        assert forall|i: int| 0 <= i < ticks.len() implies ticks[i] <= after[key] by {
            if i < top {
                assert(ticks.drop_last()[i] == ticks[i]);
            }
        }
    }
    if after[key] == ticks[top] {
        assert(exists|i: int| 0 <= i < ticks.len() && ticks[i] == after[key]);
    } else if ticks.len() > 1 {
        assert(after[key] == before[key]);
        if exists|i: int| 0 <= i < top && ticks.drop_last()[i] == before[key] {
            let i = choose|i: int| 0 <= i < top && ticks.drop_last()[i] == before[key];
            assert(ticks[i] == after[key]);
            assert(exists|i: int| 0 <= i < ticks.len() && ticks[i] == after[key]);
        }
    }
}

/// Tag correction: a tag that is not forced and asks to be stamped with
/// tick 0 leaves with the tick that the clock stands at; a forced tag
/// leaves as it came.
pub proof fn lemma_tag_correction(clocks: Map<(PeerId, u32), u64>, tag: ClockTag)
    ensures
        tag.clock_tick == 0 && !tag.force ==> corrected_tag(clocks, tag).clock_tick == advanced(
            clocks,
            (tag.peer_id, tag.clock_id),
            tag.clock_tick,
        )[(tag.peer_id, tag.clock_id)],
        tag.force ==> corrected_tag(clocks, tag) == tag,
        corrected_tag(clocks, tag).peer_id == tag.peer_id,
        corrected_tag(clocks, tag).clock_id == tag.clock_id,
        corrected_tag(clocks, tag).force == tag.force,
{
}

/// A stale tag that is not forced is answered with the tick of the clock.
pub proof fn lemma_stale_tag_is_echoed(clocks: Map<(PeerId, u32), u64>, tag: ClockTag)
    requires
        clocks.contains_key((tag.peer_id, tag.clock_id)),
        tag.clock_tick <= clocks[(tag.peer_id, tag.clock_id)],
        !tag.force,
    ensures
        corrected_tag(clocks, tag).clock_tick == clocks[(tag.peer_id, tag.clock_id)],
{
}

/// The tags of a recovery point stand for the recovery point.
pub proof fn lemma_tags_round_trip(tags: Seq<ClockTag>, clocks: Map<(PeerId, u32), u64>)
    requires
        lists_clocks(tags, clocks),
    ensures
        tags_map(tags) == clocks,
{
    lemma_tags_map_holds(tags);
    assert forall|key: (PeerId, u32)| tags_map(tags).contains_key(key) <==> clocks.contains_key(
        key,
    ) by {
        if clocks.contains_key(key) {
            let i = choose|i: int|
                0 <= i < tags.len() && (#[trigger] tags[i]).peer_id == key.0 && tags[i].clock_id
                    == key.1;
        }
    }
    assert forall|key: (PeerId, u32)| tags_map(tags).contains_key(key) implies tags_map(tags)[key]
        == clocks[key] by {
        let j = choose|j: int|
            0 <= j < tags.len() && (tags[j].peer_id, tags[j].clock_id) == key && tags_map(tags)[key]
                == (#[trigger] tags[j]).clock_tick;
    }
    assert(tags_map(tags) =~= clocks);
}

/// Advancing clocks by the tags one after the other.
pub open spec fn replayed(clocks: Map<(PeerId, u32), u64>, tags: Seq<ClockTag>) -> Map<
    (PeerId, u32),
    u64,
>
    decreases tags.len(),
{
    if tags.len() == 0 {
        clocks
    } else {
        advanced(
            replayed(clocks, tags.drop_last()),
            (tags.last().peer_id, tags.last().clock_id),
            tags.last().clock_tick,
        )
    }
}

/// Clocks that are listed as tags and advanced by these tags from nothing
/// stand where they stood: what is written out and read back in is, tick by
/// tick, what it was.
pub proof fn lemma_replay_restores(tags: Seq<ClockTag>, clocks: Map<(PeerId, u32), u64>)
    requires
        lists_clocks(tags, clocks),
    ensures
        replayed(Map::empty(), tags) == clocks,
{
    lemma_tags_round_trip(tags, clocks);
    lemma_replay_is_tags_map(tags);
}

/// Where no two tags speak of one clock, advancing by them from nothing
/// sets each clock to the tick of its tag.
pub proof fn lemma_replay_is_tags_map(tags: Seq<ClockTag>)
    requires
        forall|i: int, j: int|
            0 <= i < j < tags.len() ==> !(tags[i].peer_id == tags[j].peer_id && tags[i].clock_id
                == tags[j].clock_id),
    ensures
        replayed(Map::empty(), tags) == tags_map(tags),
    decreases tags.len(),
{
    if tags.len() > 0 {
        let rest = tags.drop_last();
        let last = tags.last();
        assert forall|i: int, j: int| 0 <= i < j < rest.len() implies !(rest[i].peer_id
            == rest[j].peer_id && rest[i].clock_id == rest[j].clock_id) by {
            assert(rest[i] == tags[i] && rest[j] == tags[j]);
        }
        lemma_replay_is_tags_map(rest);
        lemma_tags_map_holds(rest);
        let key = (last.peer_id, last.clock_id);
        if tags_map(rest).contains_key(key) {
            let j = choose|j: int|
                0 <= j < rest.len() && (rest[j].peer_id, rest[j].clock_id) == key && tags_map(
                    rest,
                )[key] == (#[trigger] rest[j]).clock_tick;
            assert(tags[j] == rest[j]);
            assert(tags[tags.len() - 1] == last);
        }
    }
}

/// Every clock of the map of a list of tags has a tag that gives its tick,
/// and every tag has its clock in the map.
pub proof fn lemma_tags_map_holds(tags: Seq<ClockTag>)
    ensures
        forall|i: int|
            0 <= i < tags.len() ==> tags_map(tags).contains_key(
                ((#[trigger] tags[i]).peer_id, tags[i].clock_id),
            ),
        forall|key: (PeerId, u32)|
            tags_map(tags).contains_key(key) ==> exists|j: int|
                0 <= j < tags.len() && (tags[j].peer_id, tags[j].clock_id) == key && tags_map(
                    tags,
                )[key] == (#[trigger] tags[j]).clock_tick,
    decreases tags.len(),
{
    if tags.len() > 0 {
        let rest = tags.drop_last();
        lemma_tags_map_holds(rest);
        let last = tags.last();
        assert forall|i: int| 0 <= i < tags.len() implies tags_map(tags).contains_key(
            ((#[trigger] tags[i]).peer_id, tags[i].clock_id),
        ) by {
            if i < tags.len() - 1 {
                assert(rest[i] == tags[i]);
            }
        }
        assert forall|key: (PeerId, u32)| tags_map(tags).contains_key(key) implies exists|j: int|
            0 <= j < tags.len() && (tags[j].peer_id, tags[j].clock_id) == key && tags_map(tags)[key]
                == (#[trigger] tags[j]).clock_tick by {
            if key == (last.peer_id, last.clock_id) {
                assert(tags[tags.len() - 1] == last);
            } else {
                let j = choose|j: int|
                    0 <= j < rest.len() && (rest[j].peer_id, rest[j].clock_id) == key && tags_map(
                        rest,
                    )[key] == (#[trigger] rest[j]).clock_tick;
                assert(tags[j] == rest[j]);
            }
        }
    }
}

} // verus!
