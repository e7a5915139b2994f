//! The client's send cache: an insertion-ordered, ring-bounded store of
//! recently sent commands, looked up by id when the server reports them
//! missing.

use vstd::prelude::*;
use crate::entities::clone_command;
use crate::entities::pkt_eq;
use crate::entities::CommandPacket;
use crate::id::drop_front;

verus! {

/// Most commands the cache holds; on overflow the older half is
/// discarded.
pub const CACHE_MAX: usize = 200;

/// First packet in `s` carrying `id`, if any.
pub open spec fn cache_lookup(s: Seq<CommandPacket>, id: u32) -> Option<CommandPacket>
    decreases s.len(),
{
    if s.len() == 0 {
        None
    } else if s[0].id == id {
        Some(s[0])
    } else {
        cache_lookup(s.skip(1), id)
    }
}

/// The cache contents after appending one command: the new command goes
/// to the back, and when the store outgrows `CACHE_MAX` only the newest
/// `CACHE_MAX / 2` entries survive.
pub open spec fn cache_push(s: Seq<CommandPacket>, c: CommandPacket) -> Seq<CommandPacket> {
    let p = s.push(c);
    if p.len() > CACHE_MAX {
        p.subrange(p.len() - CACHE_MAX as int / 2, p.len() as int)
    } else {
        p
    }
}

/// The packets found for a list of requested ids, in request order,
/// silently dropping ids that are not cached.
pub open spec fn range_lookup(s: Seq<CommandPacket>, ids: Seq<u32>) -> Seq<CommandPacket>
    decreases ids.len(),
{
    if ids.len() == 0 {
        Seq::empty()
    } else {
        let rest = range_lookup(s, ids.skip(1));
        match cache_lookup(s, ids[0]) {
            Some(p) => seq![p] + rest,
            None => rest,
        }
    }
}

/// The largest cached id, or 0 for an empty cache.
pub open spec fn max_id_of(s: Seq<CommandPacket>) -> u32
    decreases s.len(),
{
    if s.len() == 0 {
        0
    } else {
        let m = max_id_of(s.drop_last());
        if s.last().id > m {
            s.last().id
        } else {
            m
        }
    }
}

/// A `cache_lookup` hit is the first match.
proof fn lemma_cache_lookup_at(s: Seq<CommandPacket>, id: u32, i: int)
    requires
        0 <= i < s.len(),
        s[i].id == id,
        forall|j: int| 0 <= j < i ==> #[trigger] s[j].id != id,
    ensures
        cache_lookup(s, id) == Some(s[i]),
    decreases i,
{
    if i > 0 {
        let rest = s.skip(1);
        assert forall|j: int| 0 <= j < i - 1 implies #[trigger] rest[j].id != id by {
            assert(rest[j] == s[j + 1]);
        }
        assert(rest[i - 1] == s[i]);
        lemma_cache_lookup_at(rest, id, i - 1);
    }
}

/// A `cache_lookup` miss means no entry carries the id.
proof fn lemma_cache_lookup_none(s: Seq<CommandPacket>, id: u32)
    requires
        forall|j: int| 0 <= j < s.len() ==> #[trigger] s[j].id != id,
    ensures
        cache_lookup(s, id) is None,
    decreases s.len(),
{
    if s.len() > 0 {
        let rest = s.skip(1);
        assert forall|j: int| 0 <= j < rest.len() implies #[trigger] rest[j].id != id by {
            assert(rest[j] == s[j + 1]);
        }
        lemma_cache_lookup_none(rest, id);
    }
}

/// Requested ids are looked up one by one: appending an id appends its
/// hit, if any.
proof fn lemma_range_lookup_snoc(s: Seq<CommandPacket>, ids: Seq<u32>, x: u32)
    ensures
        range_lookup(s, ids.push(x)) == range_lookup(s, ids) + (
            match cache_lookup(s, x) {
                Some(p) => seq![p],
                None => Seq::<CommandPacket>::empty(),
            }
        ),
    decreases ids.len(),
{
    let tail = match cache_lookup(s, x) {
        Some(p) => seq![p],
        None => Seq::<CommandPacket>::empty(),
    };
    if ids.len() == 0 {
        assert(ids.push(x)[0] == x);
        assert(ids.push(x).skip(1) =~= Seq::<u32>::empty());
        assert(range_lookup(s, Seq::<u32>::empty()) == Seq::<CommandPacket>::empty());
        assert(range_lookup(s, ids.push(x).skip(1)) == Seq::<CommandPacket>::empty());
        match cache_lookup(s, x) {
            Some(p) => {
                assert(range_lookup(s, ids.push(x)) == seq![p] + Seq::<CommandPacket>::empty());
                assert(seq![p] + Seq::<CommandPacket>::empty() =~= seq![p]);
            },
            None => {
                assert(range_lookup(s, ids.push(x)) == Seq::<CommandPacket>::empty());
            },
        }
        assert(range_lookup(s, ids) + tail =~= tail);
    } else {
        assert(ids.push(x)[0] == ids[0]);
        assert(ids.push(x).skip(1) =~= ids.skip(1).push(x));
        lemma_range_lookup_snoc(s, ids.skip(1), x);
        match cache_lookup(s, ids[0]) {
            Some(p) => {
                assert(range_lookup(s, ids.push(x))
                    == seq![p] + (range_lookup(s, ids.skip(1)) + tail));
                assert(seq![p] + (range_lookup(s, ids.skip(1)) + tail)
                    =~= (seq![p] + range_lookup(s, ids.skip(1))) + tail);
            },
            None => {},
        }
    }
}

pub struct Cache {
    /// Cached commands, oldest first.
    pub data: Vec<CommandPacket>,
}

impl Cache {
    /// The cache never holds more than `CACHE_MAX` entries.
    pub open spec fn wf(&self) -> bool {
        self.data@.len() <= CACHE_MAX
    }

    pub fn new() -> (r: Cache)
        ensures
            r.data@ == Seq::<CommandPacket>::empty(),
            r.wf(),
    {
        Cache { data: Vec::new() }
    }

    /// Appends one command; on overflow only the newest `CACHE_MAX / 2`
    /// entries survive.
    pub fn add(&mut self, command: CommandPacket)
        requires
            old(self).wf(),
        ensures
            final(self).wf(),
            final(self).data@ == cache_push(old(self).data@, command),
    {
        self.data.push(command);
        if self.data.len() > CACHE_MAX {
            let k = self.data.len() - CACHE_MAX / 2;
            drop_front(&mut self.data, k);
            assert(self.data@ =~= old(self).data@.push(command).subrange(
                old(self).data@.push(command).len() - CACHE_MAX as int / 2,
                old(self).data@.push(command).len() as int,
            ));
        }
    }

    /// The largest cached id, or 0 when nothing is cached.
    pub fn get_max_id(&self) -> (r: u32)
        ensures
            r == max_id_of(self.data@),
    {
        let mut m: u32 = 0;
        let mut i: usize = 0;
        while i < self.data.len()
            invariant
                i <= self.data@.len(),
                m == max_id_of(self.data@.subrange(0, i as int)),
            decreases self.data@.len() - i,
        {
            proof {
                let pre = self.data@.subrange(0, i + 1);
                assert(pre.drop_last() =~= self.data@.subrange(0, i as int));
                assert(pre.last() == self.data@[i as int]);
            }
            if self.data[i].id > m {
                m = self.data[i].id;
            }
            i += 1;
        }
        proof {
            assert(self.data@.subrange(0, self.data@.len() as int) =~= self.data@);
        }
        m
    }

    /// A copy of the first cached packet with this id, if any.
    pub fn get(&mut self, id: u32) -> (r: Option<CommandPacket>)
        ensures
            *final(self) == *old(self),
            r is Some <==> cache_lookup(old(self).data@, id) is Some,
            r matches Some(c) ==> pkt_eq(c, cache_lookup(old(self).data@, id)->Some_0),
    {
        let mut i: usize = 0;
        while i < self.data.len()
            invariant
                i <= self.data@.len(),
                forall|j: int| 0 <= j < i ==> #[trigger] self.data@[j].id != id,
            decreases self.data@.len() - i,
        {
            if self.data[i].id == id {
                proof {
                    lemma_cache_lookup_at(self.data@, id, i as int);
                }
                return Some(clone_command(&self.data[i]));
            }
            i += 1;
        }
        proof {
            lemma_cache_lookup_none(self.data@, id);
        }
        None
    }

    /// Copies of the cached packets among the requested ids, in request
    /// order; misses are silently dropped.
    pub fn get_range(&mut self, ids: &Vec<u32>) -> (r: Vec<CommandPacket>)
        ensures
            *final(self) == *old(self),
            r@.len() == range_lookup(old(self).data@, ids@).len(),
            forall|i: int| 0 <= i < r@.len()
                ==> pkt_eq(#[trigger] r@[i], range_lookup(old(self).data@, ids@)[i]),
    {
        let ghost s = self.data@;
        let mut out: Vec<CommandPacket> = Vec::new();
        let mut i: usize = 0;
        while i < ids.len()
            invariant
                *self == *old(self),
                s == self.data@,
                i <= ids@.len(),
                out@.len() == range_lookup(s, ids@.subrange(0, i as int)).len(),
                forall|j: int| 0 <= j < out@.len()
                    ==> pkt_eq(#[trigger] out@[j], range_lookup(s, ids@.subrange(0, i as int))[j]),
            decreases ids@.len() - i,
        {
            let ghost pre = ids@.subrange(0, i as int);
            proof {
                lemma_range_lookup_snoc(s, pre, ids@[i as int]);
                assert(ids@.subrange(0, i + 1) =~= pre.push(ids@[i as int]));
            }
            match self.get(ids[i]) {
                Some(p) => {
                    out.push(p);
                },
                None => {},
            }
            i += 1;
        }
        proof {
            assert(ids@.subrange(0, ids@.len() as int) =~= ids@);
        }
        out
    }
}

/// The cache contents after a run of appends starting from `s`.
pub open spec fn cache_fold(s: Seq<CommandPacket>, cs: Seq<CommandPacket>) -> Seq<CommandPacket>
    decreases cs.len(),
{
    if cs.len() == 0 {
        s
    } else {
        cache_fold(cache_push(s, cs[0]), cs.skip(1))
    }
}

proof fn lemma_cache_fold_snoc(s: Seq<CommandPacket>, cs: Seq<CommandPacket>, c: CommandPacket)
    ensures
        cache_fold(s, cs.push(c)) == cache_push(cache_fold(s, cs), c),
    decreases cs.len(),
{
    if cs.len() == 0 {
        assert(cs.push(c)[0] == c);
        assert(cs.push(c).skip(1) =~= Seq::<CommandPacket>::empty());
        assert(cache_fold(cache_push(s, c), Seq::<CommandPacket>::empty()) == cache_push(s, c));
        assert(cache_fold(s, cs.push(c)) == cache_push(s, c));
        assert(cache_fold(s, cs) == s);
    } else {
        assert(cs.push(c)[0] == cs[0]);
        assert(cs.push(c).skip(1) =~= cs.skip(1).push(c));
        assert(cache_fold(s, cs.push(c))
            == cache_fold(cache_push(s, cs[0]), cs.skip(1).push(c)));
        lemma_cache_fold_snoc(cache_push(s, cs[0]), cs.skip(1), c);
        assert(cache_fold(s, cs) == cache_fold(cache_push(s, cs[0]), cs.skip(1)));
    }
}

/// As long as the bound is not hit, the cache keeps everything in order.
proof fn lemma_cache_fold_no_overflow(s: Seq<CommandPacket>, cs: Seq<CommandPacket>)
    requires
        s.len() + cs.len() <= CACHE_MAX,
    ensures
        cache_fold(s, cs) == s + cs,
    decreases cs.len(),
{
    if cs.len() == 0 {
        assert(s + cs =~= s);
    } else {
        assert(cache_push(s, cs[0]) == s.push(cs[0]));
        lemma_cache_fold_no_overflow(s.push(cs[0]), cs.skip(1));
        assert(s.push(cs[0]) + cs.skip(1) =~= s + cs);
    }
}

/// Filling an empty cache with one command more than `CACHE_MAX` leaves
/// exactly the newest `CACHE_MAX / 2` commands, in order.
pub proof fn lemma_cache_overflow(cs: Seq<CommandPacket>)
    requires
        cs.len() == CACHE_MAX + 1,
    ensures
        cache_fold(Seq::empty(), cs)
            == cs.subrange(cs.len() - CACHE_MAX as int / 2, cs.len() as int),
{
    let head = cs.take(CACHE_MAX as int);
    let last = cs[CACHE_MAX as int];
    assert(cs =~= head.push(last));
    lemma_cache_fold_snoc(Seq::empty(), head, last);
    lemma_cache_fold_no_overflow(Seq::empty(), head);
    assert(Seq::<CommandPacket>::empty() + head =~= head);
    assert(cache_fold(Seq::empty(), cs) == cache_push(head, last));
    assert(head.push(last).subrange(
        head.push(last).len() - CACHE_MAX as int / 2,
        head.push(last).len() as int,
    ) =~= cs.subrange(cs.len() - CACHE_MAX as int / 2, cs.len() as int));
}

} // verus!
