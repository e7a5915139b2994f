//! Sequence-number machinery: the monotonic id generator, the client-side
//! id filter for state packets, and the server-side arranger that restores
//! in-order, at-most-once delivery of commands.

use vstd::prelude::*;
use crate::entities::CommandPacket;
use crate::entities::Exception;

verus! {

/// Id gap beyond which a stream is considered desynchronised and the
/// arranger resets.  The missing-report bitmap is exactly this wide.
pub const MAX_ID_BREAK: u32 = 32;

/// Most packets the arranger keeps pending before dropping the lower half.
pub const MAX_SAVED: usize = 128;

/// Most ids the arranger remembers for deduplication before dropping the
/// older half.
pub const MAX_RECEIVED: usize = 128;

/// Emits 1, 2, 3, ...; wraps modulo 2^32, though a session is never
/// expected to reach the wrap.
pub struct Generator {
    pub id: u32,
}

impl Generator {
    pub fn new(start: u32) -> (r: Generator)
        ensures
            r.id == start,
    {
        Generator { id: start }
    }

    /// Returns the current id and advances to the next one.
    pub fn generate(&mut self) -> (r: u32)
        ensures
            r == old(self).id,
            final(self).id == if old(self).id == u32::MAX { 0u32 } else { (old(self).id + 1) as u32 },
    {
        let result = self.id;
        self.id = self.id.wrapping_add(1);
        result
    }
}

/// Client-side gate for state ids: a state is taken only when its id moves
/// forward, or when it falls so far back that the stream must have been
/// reset.
pub struct Filter {
    pub id: u32,
}

impl Filter {
    /// Whether a state with id `id` passes when `last` was the last
    /// accepted one.
    pub open spec fn spec_accepts(last: u32, id: u32) -> bool {
        id > last || last - id > MAX_ID_BREAK
    }

    pub fn new(start: u32) -> (r: Filter)
        ensures
            r.id == start,
    {
        Filter { id: start }
    }

    /// Accepts forward ids and far-back ids (a resynchronisation after a
    /// reset or a long stall); everything else is dropped as out of order.
    pub fn filter(&mut self, id: u32) -> (r: Result<(), Exception>)
        ensures
            Self::spec_accepts(old(self).id, id) ==> r is Ok && final(self).id == id,
            !Self::spec_accepts(old(self).id, id) ==> (
                r is Err && r->Err_0 == Exception::NotOrderedPacketError
                && final(self).id == old(self).id
            ),
    {
        if id > self.id || self.id - id > MAX_ID_BREAK {
            self.id = id;
            Ok(())
        } else {
            Err(Exception::NotOrderedPacketError)
        }
    }
}

/// The arranger's state as a mathematical value: the pending packets as a
/// sequence sorted by id, and the deduplication window as the sequence of
/// recently accepted ids in arrival order.
#[verifier::ext_equal]
pub struct ArrangerModel {
    /// Highest id already handed to the application.
    pub last_released: u32,
    /// Highest id ever accepted.
    pub last_received: u32,
    /// Accepted, not yet released packets, sorted by ascending id.
    pub pending: Seq<CommandPacket>,
    /// Recently accepted ids, oldest first.
    pub recent: Seq<u32>,
}

/// The state of a freshly constructed arranger.
pub open spec fn empty_model() -> ArrangerModel {
    ArrangerModel {
        last_released: 0u32,
        last_received: 0u32,
        pending: Seq::empty(),
        recent: Seq::empty(),
    }
}

/// Whether some packet in `ps` carries `id`.
pub open spec fn contains_id(ps: Seq<CommandPacket>, id: u32) -> bool {
    exists|i: int| 0 <= i < ps.len() && #[trigger] ps[i].id == id
}

/// Strictly ascending ids.
pub open spec fn sorted_by_id(ps: Seq<CommandPacket>) -> bool {
    forall|i: int, j: int| 0 <= i < j < ps.len() ==> #[trigger] ps[i].id < #[trigger] ps[j].id
}

/// The arranger's invariant: pending is sorted, every pending id lies in
/// the window between the last released and the last received id, and
/// both buffers respect their bounds.
pub open spec fn model_wf(m: ArrangerModel) -> bool {
    &&& sorted_by_id(m.pending)
    &&& forall|i: int| 0 <= i < m.pending.len()
        ==> m.last_released < #[trigger] m.pending[i].id <= m.last_received
    &&& m.last_released <= m.last_received
    &&& m.pending.len() <= MAX_SAVED
    &&& m.recent.len() <= MAX_RECEIVED
}

/// Whether an incoming id jumps so far ahead of everything received that
/// the stream counts as desynchronised and the arranger starts over.
pub open spec fn add_resets(m: ArrangerModel, id: u32) -> bool {
    id > m.last_received + MAX_ID_BREAK
}

/// Whether the arranger takes a packet with id `id`: a desynchronising
/// jump always restarts and is taken; otherwise duplicates, ids older
/// than the report window, and ids already released are dropped.
pub open spec fn add_accepts(m: ArrangerModel, id: u32) -> bool {
    if add_resets(m, id) {
        true
    } else {
        !m.recent.contains(id) && !(id + MAX_ID_BREAK < m.last_received) && id > m.last_released
    }
}

/// `ps` with `p` inserted before the first packet of larger id.
pub open spec fn insert_by_id(ps: Seq<CommandPacket>, p: CommandPacket) -> Seq<CommandPacket>
    decreases ps.len(),
{
    if ps.len() == 0 {
        seq![p]
    } else if ps.last().id < p.id {
        ps.push(p)
    } else {
        insert_by_id(ps.drop_last(), p).push(ps.last())
    }
}

/// The arranger state after taking an accepted packet `p`: reset on a
/// desynchronising jump, insertion into the sorted pending buffer and the
/// deduplication window, and a half-drop of either buffer that outgrew
/// its bound.
pub open spec fn add_step(m: ArrangerModel, p: CommandPacket) -> ArrangerModel {
    let m0 = if add_resets(m, p.id) {
        ArrangerModel {
            last_released: (p.id - 1) as u32,
            last_received: m.last_received,
            pending: Seq::empty(),
            recent: Seq::empty(),
        }
    } else {
        m
    };
    let pend1 = if contains_id(m0.pending, p.id) {
        m0.pending
    } else {
        insert_by_id(m0.pending, p)
    };
    let rec1 = m0.recent.push(p.id);
    let lr1 = if p.id > m0.last_received { p.id } else { m0.last_received };
    let pend2 = if pend1.len() > MAX_SAVED { pend1.skip(MAX_SAVED as int / 2) } else { pend1 };
    let lv2 = if pend1.len() > MAX_SAVED { (pend2[0].id - 1) as u32 } else { m0.last_released };
    let rec2 = if rec1.len() > MAX_RECEIVED { rec1.skip(MAX_RECEIVED as int / 2) } else { rec1 };
    ArrangerModel { last_released: lv2, last_received: lr1, pending: pend2, recent: rec2 }
}

/// The arranger state after offering packet `p`, whether or not it is
/// taken.
pub open spec fn apply_add(m: ArrangerModel, p: CommandPacket) -> ArrangerModel {
    if add_accepts(m, p.id) {
        add_step(m, p)
    } else {
        m
    }
}

/// Length of the contiguous run `from + 1, from + 2, ...` at the head of
/// `ps`.
pub open spec fn run_len(ps: Seq<CommandPacket>, from: u32) -> int
    decreases ps.len(),
{
    if ps.len() == 0 {
        0
    } else if ps[0].id == from + 1 {
        1 + run_len(ps.skip(1), (from + 1) as u32)
    } else {
        0
    }
}

/// The packets a release hands to the application: the contiguous prefix
/// of pending ids that follows the last released id.
pub open spec fn arrange_out(m: ArrangerModel) -> Seq<CommandPacket> {
    m.pending.take(run_len(m.pending, m.last_released))
}

/// The arranger state after a release.
pub open spec fn arrange_step(m: ArrangerModel) -> ArrangerModel {
    let k = run_len(m.pending, m.last_released);
    ArrangerModel {
        last_released: if k == 0 { m.last_released } else { m.pending[k - 1].id },
        last_received: m.last_received,
        pending: m.pending.skip(k),
        recent: m.recent,
    }
}

/// Whether id `idv` belongs in the missing report: a positive id not yet
/// released and not pending, so the peer should send it again.
pub open spec fn missing_id(m: ArrangerModel, idv: int) -> bool {
    1 <= idv && m.last_released < idv && !contains_id(m.pending, idv as u32)
}

/// Whether bit `j` of the missing-report bitmap is set: it stands for the
/// id `j + 1` places below the last received one.
pub open spec fn report_bit(m: ArrangerModel, j: int) -> bool {
    missing_id(m, m.last_received - 1 - j)
}


/// Inserting a fresh id into a sorted buffer keeps it sorted, grows it by
/// one, and adds exactly that packet.
pub proof fn lemma_insert_by_id_props(ps: Seq<CommandPacket>, p: CommandPacket)
    requires
        sorted_by_id(ps),
        !contains_id(ps, p.id),
    ensures
        sorted_by_id(insert_by_id(ps, p)),
        insert_by_id(ps, p).len() == ps.len() + 1,
        forall|i: int| 0 <= i < insert_by_id(ps, p).len()
            ==> contains_id(ps, #[trigger] insert_by_id(ps, p)[i].id) || insert_by_id(ps, p)[i] == p,
        forall|id: u32| #[trigger] contains_id(insert_by_id(ps, p), id)
            <==> contains_id(ps, id) || id == p.id,
    decreases ps.len(),
{
    let r = insert_by_id(ps, p);
    if ps.len() == 0 {
        assert(r == seq![p]);
        assert forall|id: u32| #[trigger] contains_id(r, id)
            implies contains_id(ps, id) || id == p.id by {
            let i = choose|i: int| 0 <= i < r.len() && #[trigger] r[i].id == id;
            assert(r[i] == p);
        }
        assert(contains_id(r, p.id)) by {
            assert(r[0].id == p.id);
        }
    } else if ps.last().id < p.id {
        assert(r == ps.push(p));
        assert forall|i: int, j: int| 0 <= i < j < r.len()
            implies #[trigger] r[i].id < #[trigger] r[j].id by {
            if j < ps.len() {
                assert(r[i] == ps[i] && r[j] == ps[j]);
            } else {
                assert(r[j] == p);
                assert(r[i] == ps[i]);
                if i < ps.len() - 1 {
                    assert(ps[i].id < ps[ps.len() - 1].id);
                }
            }
        }
        assert forall|i: int| 0 <= i < r.len()
            implies contains_id(ps, #[trigger] r[i].id) || r[i] == p by {
            if i < ps.len() {
                assert(r[i] == ps[i]);
                assert(contains_id(ps, ps[i].id));
            } else {
                assert(r[i] == p);
            }
        }
        assert forall|id: u32| #[trigger] contains_id(r, id)
            implies contains_id(ps, id) || id == p.id by {
            let i = choose|i: int| 0 <= i < r.len() && #[trigger] r[i].id == id;
            if i < ps.len() {
                assert(ps[i].id == id);
            } else {
                assert(r[i] == p);
            }
        }
        assert forall|id: u32| contains_id(ps, id) || id == p.id
            implies #[trigger] contains_id(r, id) by {
            if contains_id(ps, id) {
                let i = choose|i: int| 0 <= i < ps.len() && #[trigger] ps[i].id == id;
                assert(r[i].id == id);
            } else {
                assert(r[ps.len() as int].id == id);
            }
        }
    } else {
        let head = ps.drop_last();
        let tail = ps.last();
        assert forall|i: int, j: int| 0 <= i < j < head.len()
            implies #[trigger] head[i].id < #[trigger] head[j].id by {
            assert(head[i] == ps[i] && head[j] == ps[j]);
        }
        assert(!contains_id(head, p.id)) by {
            if contains_id(head, p.id) {
                let i = choose|i: int| 0 <= i < head.len() && #[trigger] head[i].id == p.id;
                assert(ps[i].id == p.id);
                assert(contains_id(ps, p.id));
            }
        }
        lemma_insert_by_id_props(head, p);
        let ri = insert_by_id(head, p);
        assert(r == ri.push(tail));
        assert(tail.id != p.id) by {
            assert(ps[ps.len() - 1].id == tail.id);
            assert(contains_id(ps, tail.id));
        }
        assert(p.id < tail.id);
        assert forall|i: int| 0 <= i < ri.len() implies #[trigger] ri[i].id < tail.id by {
            if contains_id(head, ri[i].id) {
                let j = choose|j: int| 0 <= j < head.len() && #[trigger] head[j].id == ri[i].id;
                assert(ps[j].id == ri[i].id);
                assert(ps[j].id < ps[ps.len() - 1].id);
            } else {
                assert(ri[i] == p);
            }
        }
        assert forall|i: int, j: int| 0 <= i < j < r.len()
            implies #[trigger] r[i].id < #[trigger] r[j].id by {
            if j < ri.len() {
                assert(r[i] == ri[i] && r[j] == ri[j]);
            } else {
                assert(r[j] == tail);
                assert(r[i] == ri[i]);
            }
        }
        assert forall|i: int| 0 <= i < r.len()
            implies contains_id(ps, #[trigger] r[i].id) || r[i] == p by {
            if i < ri.len() {
                assert(r[i] == ri[i]);
                if contains_id(head, ri[i].id) {
                    let j = choose|j: int| 0 <= j < head.len() && #[trigger] head[j].id == ri[i].id;
                    assert(ps[j].id == r[i].id);
                    assert(contains_id(ps, r[i].id));
                }
            } else {
                assert(r[i] == tail);
                assert(ps[ps.len() - 1].id == tail.id);
                assert(contains_id(ps, r[i].id));
            }
        }
        assert forall|id: u32| #[trigger] contains_id(r, id)
            implies contains_id(ps, id) || id == p.id by {
            let i = choose|i: int| 0 <= i < r.len() && #[trigger] r[i].id == id;
            if i < ri.len() {
                assert(ri[i].id == id);
                assert(contains_id(ri, id));
                if contains_id(head, id) {
                    let j = choose|j: int| 0 <= j < head.len() && #[trigger] head[j].id == id;
                    assert(ps[j].id == id);
                    assert(contains_id(ps, id));
                }
            } else {
                assert(r[i] == tail);
                assert(ps[ps.len() - 1].id == id);
                assert(contains_id(ps, id));
            }
        }
        assert forall|id: u32| contains_id(ps, id) || id == p.id
            implies #[trigger] contains_id(r, id) by {
            if contains_id(ps, id) {
                let i = choose|i: int| 0 <= i < ps.len() && #[trigger] ps[i].id == id;
                if i < head.len() {
                    assert(head[i].id == id);
                    assert(contains_id(head, id));
                    assert(contains_id(ri, id));
                    let j = choose|j: int| 0 <= j < ri.len() && #[trigger] ri[j].id == id;
                    assert(r[j].id == id);
                } else {
                    assert(ps[i] == tail);
                    assert(r[r.len() - 1].id == id);
                }
            } else {
                assert(contains_id(ri, p.id));
                let j = choose|j: int| 0 <= j < ri.len() && #[trigger] ri[j].id == p.id;
                assert(r[j].id == p.id);
            }
        }
    }
}

/// Properties of the contiguous head run: its members are exactly the ids
/// `from + 1 .. from + k`, and everything behind it sits strictly beyond
/// the run.
pub proof fn lemma_run_len_props(ps: Seq<CommandPacket>, from: u32)
    requires
        sorted_by_id(ps),
        forall|i: int| 0 <= i < ps.len() ==> #[trigger] ps[i].id > from,
    ensures
        0 <= run_len(ps, from) <= ps.len(),
        forall|j: int| 0 <= j < run_len(ps, from) ==> #[trigger] ps[j].id == from + 1 + j,
        forall|j: int| run_len(ps, from) <= j < ps.len()
            ==> #[trigger] ps[j].id > from + 1 + run_len(ps, from),
    decreases ps.len(),
{
    let k = run_len(ps, from);
    if ps.len() == 0 {
    } else if ps[0].id == from + 1 {
        let rest = ps.skip(1);
        assert forall|i: int, j: int| 0 <= i < j < rest.len()
            implies #[trigger] rest[i].id < #[trigger] rest[j].id by {
            assert(rest[i] == ps[i + 1] && rest[j] == ps[j + 1]);
        }
        assert forall|i: int| 0 <= i < rest.len() implies #[trigger] rest[i].id > from + 1 by {
            assert(rest[i] == ps[i + 1]);
            assert(ps[0].id < ps[i + 1].id);
        }
        lemma_run_len_props(rest, (from + 1) as u32);
        assert(k == 1 + run_len(rest, (from + 1) as u32));
        assert forall|j: int| 0 <= j < k implies #[trigger] ps[j].id == from + 1 + j by {
            if j > 0 {
                assert(rest[j - 1].id == from + 2 + (j - 1));
                assert(ps[j] == rest[j - 1]);
            }
        }
        assert forall|j: int| k <= j < ps.len()
            implies #[trigger] ps[j].id > from + 1 + k by {
            assert(ps[j] == rest[j - 1]);
            assert(rest[j - 1].id > from + 1 + 1 + (k - 1));
        }
    } else {
        assert(k == 0);
        assert forall|j: int| 0 <= j < ps.len() implies #[trigger] ps[j].id > from + 1 by {
            if j > 0 {
                assert(ps[0].id < ps[j].id);
            }
        }
    }
}

/// The arranger invariant survives any offered packet, taken or dropped.
/// In particular the pending and deduplication buffers stay within
/// `MAX_SAVED` and `MAX_RECEIVED` after every operation.
pub proof fn lemma_apply_add_preserves_wf(m: ArrangerModel, p: CommandPacket)
    requires
        model_wf(m),
    ensures
        model_wf(apply_add(m, p)),
{
    if add_accepts(m, p.id) {
        let m0 = if add_resets(m, p.id) {
            ArrangerModel {
                last_released: (p.id - 1) as u32,
                last_received: m.last_received,
                pending: Seq::<CommandPacket>::empty(),
                recent: Seq::<u32>::empty(),
            }
        } else {
            m
        };
        let pend1 = if contains_id(m0.pending, p.id) {
            m0.pending
        } else {
            insert_by_id(m0.pending, p)
        };
        let rec1 = m0.recent.push(p.id);
        let lr1: u32 = if p.id > m0.last_received { p.id } else { m0.last_received };
        let pend2 = if pend1.len() > MAX_SAVED { pend1.skip(MAX_SAVED as int / 2) } else { pend1 };
        let lv2: u32 = if pend1.len() > MAX_SAVED {
            (pend2[0].id - 1) as u32
        } else {
            m0.last_released
        };
        let rec2 = if rec1.len() > MAX_RECEIVED { rec1.skip(MAX_RECEIVED as int / 2) } else { rec1 };
        let r = add_step(m, p);
        assert(r == ArrangerModel {
            last_released: lv2,
            last_received: lr1,
            pending: pend2,
            recent: rec2,
        });
        if add_resets(m, p.id) {
            assert(!contains_id(m0.pending, p.id));
            assert(pend1 == seq![p]);
            assert(pend2 == pend1);
            assert(forall|i: int| 0 <= i < pend2.len() ==> pend2[i] == p);
            assert(model_wf(r));
        } else {
            assert(m0 == m);
            if !contains_id(m0.pending, p.id) {
                lemma_insert_by_id_props(m0.pending, p);
            }
            assert forall|i: int| 0 <= i < pend1.len()
                implies m0.last_released < #[trigger] pend1[i].id <= lr1 by {
                if contains_id(m0.pending, pend1[i].id) {
                    let j = choose|j: int|
                        0 <= j < m0.pending.len() && #[trigger] m0.pending[j].id == pend1[i].id;
                    assert(m0.last_released < m0.pending[j].id <= m0.last_received);
                } else {
                    assert(pend1[i] == p);
                }
            }
            assert(sorted_by_id(pend1));
            if pend1.len() > MAX_SAVED {
                let h = MAX_SAVED as int / 2;
                assert forall|i: int, j: int| 0 <= i < j < pend2.len()
                    implies #[trigger] pend2[i].id < #[trigger] pend2[j].id by {
                    assert(pend2[i] == pend1[i + h] && pend2[j] == pend1[j + h]);
                }
                assert forall|i: int| 0 <= i < pend2.len()
                    implies lv2 < #[trigger] pend2[i].id <= lr1 by {
                    assert(pend2[i] == pend1[i + h]);
                    assert(pend2[0] == pend1[h]);
                    if i > 0 {
                        assert(pend1[h].id < pend1[i + h].id);
                    }
                }
                assert(lv2 <= lr1) by {
                    assert(pend2[0] == pend1[h]);
                }
            }
            assert(model_wf(r));
        }
    }
}

/// A release preserves the invariant, and what it hands out is the
/// contiguous id run right after the last released id: in id order,
/// without duplicates and without gaps.
pub proof fn lemma_arrange_props(m: ArrangerModel)
    requires
        model_wf(m),
    ensures
        model_wf(arrange_step(m)),
        arrange_out(m).len() == run_len(m.pending, m.last_released),
        forall|j: int| 0 <= j < arrange_out(m).len()
            ==> #[trigger] arrange_out(m)[j].id == m.last_released + 1 + j,
        arrange_step(m).last_released == m.last_released + arrange_out(m).len(),
        arrange_step(m).last_received == m.last_received,
        arrange_step(m).recent == m.recent,
{
    lemma_run_len_props(m.pending, m.last_released);
    let k = run_len(m.pending, m.last_released);
    let out = arrange_out(m);
    assert(forall|j: int| 0 <= j < k ==> out[j] == m.pending[j]);
    let r = arrange_step(m);
    if k == 0 {
        assert(r.pending == m.pending.skip(0));
        assert(r.pending =~= m.pending);
        assert(model_wf(r));
    } else {
        assert(r.last_released == m.pending[k - 1].id);
        assert(m.pending[k - 1].id == m.last_released + k);
        assert forall|i: int, j: int| 0 <= i < j < r.pending.len()
            implies #[trigger] r.pending[i].id < #[trigger] r.pending[j].id by {
            assert(r.pending[i] == m.pending[i + k] && r.pending[j] == m.pending[j + k]);
        }
        assert forall|i: int| 0 <= i < r.pending.len()
            implies r.last_released < #[trigger] r.pending[i].id <= r.last_received by {
            assert(r.pending[i] == m.pending[i + k]);
            assert(m.pending[i + k].id > m.last_released + 1 + k);
        }
        assert(r.last_released <= r.last_received) by {
            assert(m.pending[k - 1].id <= m.last_received);
        }
        assert(model_wf(r));
    }
}


/// Whether bit `j` of `bits` is set.
pub open spec fn bit_set(bits: u32, j: int) -> bool {
    ((bits >> (j as u32)) & 1u32) == 1u32
}

proof fn lemma_bit_zero()
    by (bit_vector)
    ensures
        forall|k: u32| k < 32 ==> #[trigger] ((0u32 >> k) & 1u32) == 0u32,
{
}

proof fn lemma_bit_or_one(bits: u32, j: u32)
    by (bit_vector)
    requires
        j < 32,
    ensures
        (((bits | (1u32 << j)) >> j) & 1u32) == 1u32,
        forall|k: u32| k < 32 && k != j
            ==> #[trigger] (((bits | (1u32 << j)) >> k) & 1u32) == ((bits >> k) & 1u32),
{
}

/// Linear scan for an id among the pending packets.
fn contains_packet_id(v: &Vec<CommandPacket>, id: u32) -> (r: bool)
    ensures
        r == contains_id(v@, id),
{
    let mut i: usize = 0;
    while i < v.len()
        invariant
            i <= v@.len(),
            forall|j: int| 0 <= j < i ==> #[trigger] v@[j].id != id,
        decreases v@.len() - i,
    {
        if v[i].id == id {
            assert(contains_id(v@, id)) by {
                assert(v@[i as int].id == id);
            }
            return true;
        }
        i += 1;
    }
    proof {
        if contains_id(v@, id) {
            let j = choose|j: int| 0 <= j < v@.len() && #[trigger] v@[j].id == id;
            assert(false);
        }
    }
    false
}

/// Linear scan for an id in the deduplication window.
fn contains_u32(v: &Vec<u32>, x: u32) -> (r: bool)
    ensures
        r == v@.contains(x),
{
    let mut i: usize = 0;
    while i < v.len()
        invariant
            i <= v@.len(),
            forall|j: int| 0 <= j < i ==> v@[j] != x,
        decreases v@.len() - i,
    {
        if v[i] == x {
            assert(v@[i as int] == x);
            return true;
        }
        i += 1;
    }
    proof {
        if v@.contains(x) {
            let j = choose|j: int| 0 <= j < v@.len() && v@[j] == x;
            assert(false);
        }
    }
    false
}

/// Index of the first packet whose id is not below `id` in a sorted
/// buffer.
fn find_insert_idx(v: &Vec<CommandPacket>, id: u32) -> (r: usize)
    requires
        sorted_by_id(v@),
    ensures
        r <= v@.len(),
        forall|i: int| 0 <= i < r ==> #[trigger] v@[i].id < id,
        r < v@.len() ==> v@[r as int].id >= id,
{
    let mut i: usize = 0;
    while i < v.len()
        invariant
            i <= v@.len(),
            forall|j: int| 0 <= j < i ==> #[trigger] v@[j].id < id,
        decreases v@.len() - i,
    {
        if v[i].id >= id {
            return i;
        }
        i += 1;
    }
    i
}

/// Removes the first `k` elements.
pub(crate) fn drop_front<T>(v: &mut Vec<T>, k: usize)
    requires
        k <= old(v)@.len(),
    ensures
        final(v)@ == old(v)@.skip(k as int),
{
    let tail = v.split_off(k);
    *v = tail;
    assert(v@ =~= old(v)@.skip(k as int));
}

/// `insert_by_id` is insertion at the position a sorted scan finds.
proof fn lemma_insert_by_id_at(ps: Seq<CommandPacket>, p: CommandPacket, idx: int)
    requires
        sorted_by_id(ps),
        0 <= idx <= ps.len(),
        forall|i: int| 0 <= i < idx ==> #[trigger] ps[i].id < p.id,
        idx < ps.len() ==> ps[idx].id > p.id,
    ensures
        insert_by_id(ps, p) == ps.insert(idx, p),
    decreases ps.len(),
{
    if ps.len() == 0 {
        assert(ps.insert(0, p) =~= seq![p]);
    } else if ps.last().id < p.id {
        assert(idx == ps.len()) by {
            if idx < ps.len() {
                if idx < ps.len() - 1 {
                    assert(ps[idx].id < ps[ps.len() - 1].id);
                }
            }
        }
        assert(ps.insert(ps.len() as int, p) =~= ps.push(p));
    } else {
        let head = ps.drop_last();
        let tail = ps.last();
        assert(idx < ps.len()) by {
            if idx == ps.len() {
                assert(ps[ps.len() - 1].id < p.id);
            }
        }
        assert(idx <= head.len());
        assert forall|i: int, j: int| 0 <= i < j < head.len()
            implies #[trigger] head[i].id < #[trigger] head[j].id by {
            assert(head[i] == ps[i] && head[j] == ps[j]);
        }
        assert forall|i: int| 0 <= i < idx implies #[trigger] head[i].id < p.id by {
            assert(head[i] == ps[i]);
        }
        assert(idx < head.len() ==> head[idx].id > p.id) by {
            if idx < head.len() {
                assert(head[idx] == ps[idx]);
            }
        }
        lemma_insert_by_id_at(head, p, idx);
        assert(insert_by_id(ps, p) == insert_by_id(head, p).push(tail));
        assert(head.insert(idx, p).push(tail) =~= ps.insert(idx, p));
    }
}

/// Server-side receive buffer: holds out-of-order commands from one peer,
/// releases the contiguous prefix, reports what is missing, and resets on
/// a desynchronised jump.
pub struct Arranger {
    /// Highest id already handed to the application.
    pub last_valid_packet_id: u32,
    /// Pending packets, sorted by ascending id.
    pub packets: Vec<CommandPacket>,
    /// Highest id ever accepted.
    pub last_received_packet_id: u32,
    /// Recently accepted ids, oldest first, for deduplication.
    pub received: Vec<u32>,
}

impl Arranger {
    /// The arranger as a mathematical value.
    pub open spec fn model(&self) -> ArrangerModel {
        ArrangerModel {
            last_released: self.last_valid_packet_id,
            last_received: self.last_received_packet_id,
            pending: self.packets@,
            recent: self.received@,
        }
    }

    pub open spec fn wf(&self) -> bool {
        model_wf(self.model())
    }

    /// A fresh arranger whose released and received marks both start at
    /// `last_id`: it waits for id `last_id + 1`, releases nothing and
    /// reports nothing missing until something arrives.
    pub fn new(last_id: u32) -> (r: Arranger)
        ensures
            r.model() == (ArrangerModel {
                last_released: last_id,
                last_received: last_id,
                pending: Seq::<CommandPacket>::empty(),
                recent: Seq::<u32>::empty(),
            }),
            r.wf(),
    {
        let r = Arranger {
            last_valid_packet_id: last_id,
            packets: Vec::new(),
            last_received_packet_id: last_id,
            received: Vec::new(),
        };
        proof {
            assert(r.model() =~= (ArrangerModel {
                last_released: last_id,
                last_received: last_id,
                pending: Seq::<CommandPacket>::empty(),
                recent: Seq::<u32>::empty(),
            }));
        }
        r
    }

    /// Offers one packet.  A desynchronising jump clears all state and is
    /// then taken; duplicates, ids behind the report window and ids
    /// already released are dropped; anything else is filed into the
    /// pending buffer, with a half-drop of a buffer that outgrew its
    /// bound.
    pub fn add(&mut self, data: CommandPacket) -> (r: Result<(), Exception>)
        requires
            old(self).wf(),
        ensures
            final(self).wf(),
            final(self).model() == apply_add(old(self).model(), data),
            r is Ok <==> add_accepts(old(self).model(), data.id),
            r is Err ==> r->Err_0 == Exception::NotOrderedPacketError,
    {
        let ghost m = old(self).model();
        proof {
            lemma_apply_add_preserves_wf(m, data);
        }
        let id = data.id;
        let resets = id as u64 > self.last_received_packet_id as u64 + MAX_ID_BREAK as u64;
        assert(resets == add_resets(m, id));
        if resets {
            self.packets = Vec::new();
            self.received = Vec::new();
            self.last_valid_packet_id = id - 1;
        }
        let ghost m0 = if add_resets(m, id) {
            ArrangerModel {
                last_released: (id - 1) as u32,
                last_received: m.last_received,
                pending: Seq::<CommandPacket>::empty(),
                recent: Seq::<u32>::empty(),
            }
        } else {
            m
        };
        assert(self.packets@ == m0.pending);
        assert(self.received@ == m0.recent);
        assert(self.last_valid_packet_id == m0.last_released);
        if contains_u32(&self.received, id) {
            return Err(Exception::NotOrderedPacketError);
        }
        if (id as u64 + MAX_ID_BREAK as u64) < self.last_received_packet_id as u64 {
            return Err(Exception::NotOrderedPacketError);
        }
        if id <= self.last_valid_packet_id {
            return Err(Exception::NotOrderedPacketError);
        }
        assert(add_accepts(m, id));
        assert(sorted_by_id(self.packets@));
        let idx = find_insert_idx(&self.packets, id);
        let ghost pend1 = if contains_id(m0.pending, id) {
            m0.pending
        } else {
            insert_by_id(m0.pending, data)
        };
        if idx < self.packets.len() && self.packets[idx].id == id {
            proof {
                assert(contains_id(m0.pending, id)) by {
                    assert(m0.pending[idx as int].id == id);
                }
                assert(self.packets@ == pend1);
            }
        } else {
            proof {
                assert(!contains_id(m0.pending, id)) by {
                    if contains_id(m0.pending, id) {
                        let j = choose|j: int|
                            0 <= j < m0.pending.len() && #[trigger] m0.pending[j].id == id;
                        if j < idx {
                        } else if j == idx {
                        } else {
                            assert(m0.pending[idx as int].id < m0.pending[j].id);
                        }
                    }
                }
                lemma_insert_by_id_at(m0.pending, data, idx as int);
                lemma_insert_by_id_props(m0.pending, data);
            }
            self.packets.insert(idx, data);
            assert(self.packets@ == pend1);
        }
        self.received.push(id);
        if id > self.last_received_packet_id {
            self.last_received_packet_id = id;
        }
        assert(self.received@ == m0.recent.push(id));
        if self.packets.len() > MAX_SAVED {
            proof {
                assert(!add_resets(m, id));
                assert(m0 == m);
                assert forall|i: int| 0 <= i < pend1.len()
                    implies #[trigger] pend1[i].id >= 1 by {
                    if contains_id(m0.pending, pend1[i].id) {
                        let j = choose|j: int|
                            0 <= j < m0.pending.len()
                                && #[trigger] m0.pending[j].id == pend1[i].id;
                        assert(m0.pending[j].id > m0.last_released);
                    } else {
                        assert(pend1[i] == data);
                    }
                }
            }
            drop_front(&mut self.packets, MAX_SAVED / 2);
            assert(self.packets@ == pend1.skip(MAX_SAVED as int / 2));
            self.last_valid_packet_id = self.packets[0].id - 1;
        }
        if self.received.len() > MAX_RECEIVED {
            drop_front(&mut self.received, MAX_RECEIVED / 2);
        }
        proof {
            assert(self.model() =~= add_step(m, data));
        }
        Ok(())
    }

    /// Releases the contiguous prefix of pending commands that follows
    /// the last released id, in id order with no duplicates and no gaps.
    pub fn arrange(&mut self) -> (r: Vec<CommandPacket>)
        requires
            old(self).wf(),
        ensures
            final(self).wf(),
            r@ == arrange_out(old(self).model()),
            final(self).model() == arrange_step(old(self).model()),
    {
        let ghost m = old(self).model();
        proof {
            lemma_arrange_props(m);
        }
        let ghost k = run_len(m.pending, m.last_released);
        let mut n: usize = 0;
        while n < self.packets.len()
            && self.packets[n].id as u64 == self.last_valid_packet_id as u64 + 1 + n as u64
            invariant
                *self == *old(self),
                self.packets@ == m.pending,
                self.last_valid_packet_id == m.last_released,
                model_wf(m),
                k == run_len(m.pending, m.last_released),
                0 <= n <= m.pending.len(),
                n <= k,
            decreases m.pending.len() - n,
        {
            proof {
                lemma_run_len_props(m.pending, m.last_released);
                assert(m.pending[n as int].id == m.last_released + 1 + n);
                if n >= k {
                    assert(m.pending[n as int].id > m.last_released + 1 + k);
                }
            }
            n += 1;
        }
        proof {
            lemma_run_len_props(m.pending, m.last_released);
            assert(n == k) by {
                if n < k {
                    assert(m.pending[n as int].id == m.last_released + 1 + n);
                }
            }
        }
        let mut released: Vec<CommandPacket> = Vec::new();
        let mut i: usize = 0;
        while i < n
            invariant
                0 <= i <= n,
                n == k,
                k <= m.pending.len(),
                self.packets@ == m.pending.skip(i as int),
                released@ == m.pending.subrange(0, i as int),
                self.last_valid_packet_id == m.last_released,
                self.last_received_packet_id == m.last_received,
                self.received@ == m.recent,
            decreases n - i,
        {
            let p = self.packets.remove(0);
            released.push(p);
            i += 1;
            assert(self.packets@ =~= m.pending.skip(i as int));
            assert(released@ =~= m.pending.subrange(0, i as int));
        }
        assert(released@ == arrange_out(m)) by {
            assert(m.pending.subrange(0, k) =~= arrange_out(m));
        }
        if n > 0 {
            let last_id = released[n - 1].id;
            self.last_valid_packet_id = last_id;
        }
        proof {
            assert(self.model() =~= arrange_step(m));
        }
        released
    }

    /// The missing report: the last received id, and a bitmap whose bit
    /// `j` says that the positive id `j + 1` places below it was neither
    /// released nor is pending, so the peer should send it again.
    pub fn get_lost(&self) -> (r: (u32, u32))
        requires
            self.wf(),
        ensures
            r.1 == self.model().last_received,
            forall|j: int| 0 <= j < 32 ==> (bit_set(r.0, j) <==> report_bit(self.model(), j)),
    {
        let mut bits: u32 = 0;
        proof {
            lemma_bit_zero();
        }
        let mut j: u32 = 0;
        while j < 32
            invariant
                j <= 32,
                forall|jj: int| 0 <= jj < j
                    ==> (bit_set(bits, jj) <==> report_bit(self.model(), jj)),
                forall|jj: u32| j <= jj < 32 ==> ((bits >> jj) & 1u32) == 0u32,
            decreases 32 - j,
        {
            let ghost old_bits = bits;
            let lr = self.last_received_packet_id;
            let mut set_bit = false;
            if lr as u64 >= j as u64 + 2 {
                let idv = lr - 1 - j;
                if idv > self.last_valid_packet_id && !contains_packet_id(&self.packets, idv) {
                    set_bit = true;
                }
            }
            proof {
                assert(set_bit == report_bit(self.model(), j as int)) by {
                    let idvs = self.model().last_received - 1 - (j as int);
                    if !(self.model().last_received >= j + 2) {
                        assert(idvs < 1);
                    }
                }
            }
            if set_bit {
                proof {
                    lemma_bit_or_one(bits, j);
                }
                bits = bits | (1u32 << j);
            }
            proof {
                if set_bit {
                    assert(bits == (old_bits | (1u32 << j)));
                    assert(bit_set(bits, j as int));
                    assert forall|jj: int| 0 <= jj < j
                        implies (bit_set(bits, jj) <==> bit_set(old_bits, jj)) by {
                        assert((((old_bits | (1u32 << j)) >> (jj as u32)) & 1u32)
                            == ((old_bits >> (jj as u32)) & 1u32));
                    }
                    assert forall|jj: u32| j < jj < 32
                        implies ((bits >> jj) & 1u32) == 0u32 by {
                        assert((((old_bits | (1u32 << j)) >> jj) & 1u32)
                            == ((old_bits >> jj) & 1u32));
                    }
                } else {
                    assert(!bit_set(bits, j as int)) by {
                        assert(((bits >> j) & 1u32) == 0u32);
                    }
                }
            }
            j += 1;
        }
        (bits, self.last_received_packet_id)
    }
}


/// The arranger state after offering a whole sequence of packets in
/// order.
pub open spec fn apply_adds(m: ArrangerModel, ps: Seq<CommandPacket>) -> ArrangerModel
    decreases ps.len(),
{
    if ps.len() == 0 {
        m
    } else {
        apply_adds(apply_add(m, ps[0]), ps.skip(1))
    }
}

/// No packet along the way moves the released mark: none forces a
/// desynchronisation reset and none overflows the pending buffer.
pub open spec fn preserves_released(m: ArrangerModel, ps: Seq<CommandPacket>) -> bool
    decreases ps.len(),
{
    ps.len() == 0 || (
        apply_add(m, ps[0]).last_released == m.last_released
        && preserves_released(apply_add(m, ps[0]), ps.skip(1))
    )
}

proof fn lemma_apply_adds_preserves(m: ArrangerModel, ps: Seq<CommandPacket>)
    requires
        model_wf(m),
        preserves_released(m, ps),
    ensures
        model_wf(apply_adds(m, ps)),
        apply_adds(m, ps).last_released == m.last_released,
    decreases ps.len(),
{
    if ps.len() > 0 {
        lemma_apply_add_preserves_wf(m, ps[0]);
        lemma_apply_adds_preserves(apply_add(m, ps[0]), ps.skip(1));
    }
}

/// Released ids climb by exactly one with no repeats: a release hands
/// out the consecutive ids right after the released mark, and after any
/// further packets that neither reset the stream nor overflow the
/// pending buffer, the next release continues exactly one past where the
/// previous one stopped.
pub proof fn lemma_delivery_strictly_increasing(m: ArrangerModel, ps: Seq<CommandPacket>)
    requires
        model_wf(m),
        preserves_released(arrange_step(m), ps),
    ensures
        forall|j: int| 0 <= j < arrange_out(m).len()
            ==> #[trigger] arrange_out(m)[j].id == m.last_released + 1 + j,
        forall|j: int| 0 <= j < arrange_out(apply_adds(arrange_step(m), ps)).len()
            ==> #[trigger] arrange_out(apply_adds(arrange_step(m), ps))[j].id
                == m.last_released + 1 + arrange_out(m).len() + j,
{
    lemma_arrange_props(m);
    lemma_apply_adds_preserves(arrange_step(m), ps);
    lemma_arrange_props(apply_adds(arrange_step(m), ps));
}

/// Bounds hold after every operation: neither buffer ever exceeds its
/// limit.
pub proof fn lemma_buffer_bounds(m: ArrangerModel, p: CommandPacket)
    requires
        model_wf(m),
    ensures
        apply_add(m, p).pending.len() <= MAX_SAVED,
        apply_add(m, p).recent.len() <= MAX_RECEIVED,
        arrange_step(m).pending.len() <= MAX_SAVED,
        arrange_step(m).recent.len() <= MAX_RECEIVED,
{
    lemma_apply_add_preserves_wf(m, p);
    lemma_arrange_props(m);
}

/// A jump past the reset threshold clears the arranger, the packet is
/// taken, and the very next release starts at exactly the jumped-to id.
pub proof fn lemma_reset_redelivery(m: ArrangerModel, p: CommandPacket)
    requires
        model_wf(m),
        p.id > m.last_received + MAX_ID_BREAK,
    ensures
        add_accepts(m, p.id),
        apply_add(m, p).pending == seq![p],
        apply_add(m, p).last_released == p.id - 1,
        apply_add(m, p).last_received == p.id,
        arrange_out(apply_add(m, p)) == seq![p],
{
    let r = apply_add(m, p);
    assert(insert_by_id(Seq::<CommandPacket>::empty(), p) == seq![p]);
    assert(r.pending == seq![p]);
    assert(run_len(r.pending, r.last_released) == 1) by {
        assert(r.pending[0].id == r.last_released + 1);
        let rest = r.pending.skip(1);
        assert(rest =~= Seq::<CommandPacket>::empty());
        assert(rest.len() == 0);
        assert(run_len(rest, (r.last_released + 1) as u32) == 0);
    }
    assert(arrange_out(r) =~= seq![p]);
}

/// An id behind the report window is rejected with no change of state.
pub proof fn lemma_old_id_rejected(m: ArrangerModel, p: CommandPacket)
    requires
        model_wf(m),
        p.id + MAX_ID_BREAK < m.last_received,
    ensures
        !add_accepts(m, p.id),
        apply_add(m, p) == m,
{
}

/// The only thing a state packet can cause on the server is a
/// retransmission, and a retransmission can never disturb delivery: a
/// copy of a command that is still in the deduplication window, already
/// released, or behind the report window leaves the arranger exactly as
/// it was, and whatever any state releases is always the run of
/// consecutive ids right after the released mark.  Dropping state
/// packets therefore only delays retransmissions; it cannot change the
/// order in which the surviving commands are delivered.
pub proof fn lemma_retransmission_cannot_reorder(m: ArrangerModel, p: CommandPacket)
    requires
        model_wf(m),
    ensures
        !add_resets(m, p.id) && m.recent.contains(p.id) ==> apply_add(m, p) == m,
        p.id <= m.last_released ==> apply_add(m, p) == m,
        p.id + MAX_ID_BREAK < m.last_received ==> apply_add(m, p) == m,
        forall|j: int| 0 <= j < arrange_out(apply_add(m, p)).len()
            ==> #[trigger] arrange_out(apply_add(m, p))[j].id
                == apply_add(m, p).last_released + 1 + j,
{
    lemma_apply_add_preserves_wf(m, p);
    lemma_arrange_props(apply_add(m, p));
}

} // verus!
