use vstd::prelude::*;

verus! {

/// A buffer lent to a foreign caller: the slot it is registered under and
/// the number of elements it holds. An empty buffer is never registered:
/// nothing was allocated for it, so releasing it does nothing.
#[derive(Clone, Copy, Debug, PartialEq, Eq, Structural)]
pub struct BufferHandle {
    pub slot: usize,
    pub len: usize,
}

/// Status returned across the foreign boundary.
pub const SUCCESS: i32 = 1;

pub const FAILURE: i32 = 0;

/// The buffers currently lent out, each owned here until it is released
/// through its handle. A handle that is stale or foreign is refused rather
/// than trusted.
#[derive(Debug)]
pub struct Registry<T> {
    slots: Vec<Option<Vec<T>>>,
}

/// Handing out `data` turned `before` into `after` and gave `h`.
pub open spec fn acquired<T>(
    before: Map<usize, Seq<T>>,
    data: Seq<T>,
    h: BufferHandle,
    after: Map<usize, Seq<T>>,
) -> bool {
    &&& h.len == data.len()
    &&& if data.len() == 0 {
        after == before
    } else {
        !before.contains_key(h.slot) && after == before.insert(h.slot, data)
    }
}

/// What releasing `h` from `before` returns, and what remains lent out.
pub open spec fn release_spec<T>(before: Map<usize, Seq<T>>, h: BufferHandle) -> (i32, Map<
    usize,
    Seq<T>,
>) {
    if h.len == 0 {
        (SUCCESS, before)
    } else if before.contains_key(h.slot) && before[h.slot].len() == h.len {
        (SUCCESS, before.remove(h.slot))
    } else {
        (FAILURE, before)
    }
}

/// The number of occupied slots.
pub open spec fn occupied<T>(slots: Seq<Option<Vec<T>>>) -> nat
    decreases slots.len(),
{
    if slots.len() == 0 {
        0
    } else {
        occupied(slots.drop_last()) + if slots.last() is Some {
            1nat
        } else {
            0nat
        }
    }
}

impl<T> View for Registry<T> {
    type V = Map<usize, Seq<T>>;

    closed spec fn view(&self) -> Map<usize, Seq<T>> {
        Map::new(
            |i: usize| i < self.slots@.len() && self.slots@[i as int] is Some,
            |i: usize| self.slots@[i as int]->Some_0@,
        )
    }
}

impl<T> Registry<T> {
    /// The number of buffers lent out.
    pub closed spec fn live(&self) -> nat {
        occupied(self.slots@)
    }

    pub fn new() -> (r: Registry<T>)
        ensures
            r@ == Map::<usize, Seq<T>>::empty(),
            r.live() == 0,
    {
        let r = Registry { slots: Vec::new() };
        assert(r@ =~= Map::<usize, Seq<T>>::empty());
        r
    }

    /// The buffer registered under a handle, if it is lent out.
    pub fn get(&self, h: BufferHandle) -> (r: Option<&Vec<T>>)
        ensures
            match r {
                Some(v) => h.len > 0 && self@.contains_key(h.slot) && self@[h.slot] == v@,
                None => h.len == 0 || !self@.contains_key(h.slot),
            },
    {
        if h.len == 0 || h.slot >= self.slots.len() {
            return None;
        }
        match &self.slots[h.slot] {
            Some(v) => Some(v),
            None => None,
        }
    }

    /// The number of buffers lent out.
    pub fn live_count(&self) -> (r: usize)
        ensures
            r == self.live(),
    {
        let mut n: usize = 0;
        let mut i: usize = 0;
        while i < self.slots.len()
            invariant
                i <= self.slots@.len(),
                n == occupied(self.slots@.take(i as int)),
                n <= i,
            decreases self.slots@.len() - i,
        {
            proof {
                assert(self.slots@.take(i + 1).drop_last() =~= self.slots@.take(i as int));
            }
            if self.slots[i].is_some() {
                n = n + 1;
            }
            i = i + 1;
        }
        assert(self.slots@.take(i as int) =~= self.slots@);
        n
    }
}

proof fn lemma_occupied_update<T>(s: Seq<Option<Vec<T>>>, i: int, x: Option<Vec<T>>)
    requires
        0 <= i < s.len(),
    ensures
        occupied(s.update(i, x)) + (if s[i] is Some {
            1nat
        } else {
            0nat
        }) == occupied(s) + (if x is Some {
            1nat
        } else {
            0nat
        }),
    decreases s.len(),
{
    let t = s.update(i, x);
    if i == s.len() - 1 {
        assert(t.drop_last() =~= s.drop_last());
    } else {
        lemma_occupied_update(s.drop_last(), i, x);
        assert(t.drop_last() =~= s.drop_last().update(i, x));
    }
}

/// Hands `data` out to a foreign caller: registers it under a free slot and
/// returns its handle. An empty vector is not registered.
pub fn vec_to_ptr<T>(registry: &mut Registry<T>, data: Vec<T>) -> (h: BufferHandle)
    ensures
        acquired(old(registry)@, data@, h, final(registry)@),
        final(registry).live() == old(registry).live() + if data@.len() == 0 {
            0nat
        } else {
            1nat
        },
{
    let len = data.len();
    if len == 0 {
        return BufferHandle { slot: 0, len: 0 };
    }
    let ghost d = data@;
    let ghost before = registry@;
    let ghost old_slots = registry.slots@;
    let mut i: usize = 0;
    while i < registry.slots.len() && registry.slots[i].is_some()
        invariant
            i <= registry.slots@.len(),
            registry.slots@ == old_slots,
        decreases registry.slots@.len() - i,
    {
        i = i + 1;
    }
    if i < registry.slots.len() {
        registry.slots.set(i, Some(data));
        proof {
            lemma_occupied_update(old_slots, i as int, Some(registry.slots@[i as int]->Some_0));
        }
    } else {
        registry.slots.push(Some(data));
        proof {
            assert(registry.slots@.drop_last() =~= old_slots);
        }
    }
    proof {
        assert(registry@ =~= before.insert(i, d));
    }
    BufferHandle { slot: i, len }
}

/// Releases a buffer through its handle, as the foreign caller's destructor
/// does: `SUCCESS` with the buffer dropped, or `SUCCESS` with nothing done
/// for an empty buffer; `FAILURE`, with nothing done, for a handle that is
/// not lent out (already released, or never handed out) or whose length is
/// not the buffer's.
pub fn destructor<T>(registry: &mut Registry<T>, h: BufferHandle) -> (status: i32)
    ensures
        (status, final(registry)@) == release_spec(old(registry)@, h),
        final(registry).live() == old(registry).live() - if status == SUCCESS && h.len > 0 {
            1int
        } else {
            0int
        },
{
    if h.len == 0 {
        return SUCCESS;
    }
    if h.slot >= registry.slots.len() {
        return FAILURE;
    }
    let matches = match &registry.slots[h.slot] {
        Some(v) => v.len() == h.len,
        None => false,
    };
    if !matches {
        return FAILURE;
    }
    let ghost before = registry@;
    let ghost old_slots = registry.slots@;
    registry.slots.set(h.slot, None);
    proof {
        lemma_occupied_update(old_slots, h.slot as int, None);
        assert(registry@ =~= before.remove(h.slot));
    }
    SUCCESS
}

/// The status code of an outcome: `SUCCESS` for `Ok`, `FAILURE` for `Err`.
pub fn result_to_int<T, E>(result: &Result<T, E>) -> (status: i32)
    ensures
        status == if result is Ok {
            SUCCESS
        } else {
            FAILURE
        },
{
    match result {
        Ok(_) => SUCCESS,
        Err(_) => FAILURE,
    }
}

/// Ownership discipline: a buffer handed out and then released once through
/// its own handle leaves exactly the buffers that were lent out before;
/// nothing of it stays reachable, and the release succeeds.
pub proof fn lemma_release_after_acquire<T>(
    before: Map<usize, Seq<T>>,
    data: Seq<T>,
    h: BufferHandle,
    lent: Map<usize, Seq<T>>,
)
    requires
        acquired(before, data, h, lent),
    ensures
        release_spec(lent, h) == (SUCCESS, before),
{
    if data.len() > 0 {
        assert(lent.remove(h.slot) =~= before);
    }
}

/// Releasing an empty buffer succeeds and changes nothing, however often it
/// is done.
pub proof fn lemma_release_empty<T>(lent: Map<usize, Seq<T>>, h: BufferHandle)
    requires
        h.len == 0,
    ensures
        release_spec(lent, h) == (SUCCESS, lent),
        release_spec(release_spec(lent, h).1, h) == (SUCCESS, lent),
{
}

/// A second release through the same handle is refused and changes nothing.
pub proof fn lemma_second_release_refused<T>(lent: Map<usize, Seq<T>>, h: BufferHandle)
    requires
        h.len > 0,
        release_spec(lent, h).0 == SUCCESS,
    ensures
        release_spec(release_spec(lent, h).1, h) == (FAILURE, release_spec(lent, h).1),
{
}

} // verus!
