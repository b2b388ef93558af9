//! Thread-specific data keys. A table hands out keys and remembers each
//! key's destructor; each thread keeps, per key, the value it stored and the
//! epoch the key had then. A key handed out again after deletion gets a new
//! epoch, so a value stored under its earlier life reads as null.

use vstd::prelude::*;

verus! {

/// The number of keys.
pub const PTHREAD_KEYS_MAX: u32 = 1024;

/// How many rounds of destructors run at thread exit.
pub const PTHREAD_DESTRUCTOR_ITERATIONS: u8 = 4;

/// The key table: the next never-used key, and each key's destructor
/// (`None` while the key is free).
pub struct KeyTable<D> {
    next_key: u32,
    destructors: Vec<Option<D>>,
}

impl<D> KeyTable<D> {
    /// The next key never handed out.
    pub closed spec fn next(&self) -> nat {
        self.next_key as nat
    }

    /// Each key's destructor, `None` while the key is free.
    pub closed spec fn slots(&self) -> Seq<Option<D>> {
        self.destructors@
    }

    /// The table is well formed: one slot per key, and no key at or past
    /// the next never-used one is taken.
    pub closed spec fn wf(&self) -> bool {
        &&& self.destructors.len() == PTHREAD_KEYS_MAX
        &&& self.next_key <= PTHREAD_KEYS_MAX
        &&& forall|k: int| self.next_key <= k < PTHREAD_KEYS_MAX ==> self.destructors@[k] is None
    }

    /// An empty table.
    pub fn new() -> (r: Self)
        ensures
            r.wf(),
            r.next() == 0,
            forall|k: int| 0 <= k < PTHREAD_KEYS_MAX ==> r.slots()[k] is None,
    {
        let mut destructors: Vec<Option<D>> = Vec::new();
        let mut k: u32 = 0;
        while k < PTHREAD_KEYS_MAX
            invariant
                k <= PTHREAD_KEYS_MAX,
                destructors.len() == k,
                forall|m: int| 0 <= m < k ==> destructors@[m] is None,
            decreases PTHREAD_KEYS_MAX - k,
        {
            destructors.push(None);
            k = k + 1;
        }
        KeyTable { next_key: 0, destructors }
    }

    /// Hand out a key with destructor `dtor`: the next never-used key while
    /// there is one, else the lowest free key, whose epoch the caller must
    /// then advance (the `bool`). `EAGAIN` when every key is taken. The key
    /// handed out was free.
    pub fn create(&mut self, dtor: D) -> (r: Result<(u32, bool), i32>)
        requires
            old(self).wf(),
        ensures
            final(self).wf(),
            old(self).next() < PTHREAD_KEYS_MAX ==> r == Ok::<(u32, bool), i32>((old(self).next() as u32, false))
                && final(self).next() == old(self).next() + 1,
            old(self).next() == PTHREAD_KEYS_MAX ==> final(self).next() == old(self).next(),
            old(self).next() == PTHREAD_KEYS_MAX && (forall|k: int| 0 <= k < PTHREAD_KEYS_MAX ==> old(self).slots()[k] is Some)
                ==> r == Err::<(u32, bool), i32>(crate::sync::EAGAIN) && final(self).slots() == old(self).slots(),
            old(self).next() == PTHREAD_KEYS_MAX && (exists|k: int| 0 <= k < PTHREAD_KEYS_MAX && old(self).slots()[k] is None)
                ==> (r matches Ok((key, true)) && old(self).slots()[key as int] is None
                    && forall|k: int| 0 <= k < key ==> old(self).slots()[k] is Some),
            r matches Ok((key, _)) ==> (key < PTHREAD_KEYS_MAX && old(self).slots()[key as int] is None
                && final(self).slots() == old(self).slots().update(key as int, Some(dtor))),
    {
        if self.next_key < PTHREAD_KEYS_MAX {
            let key = self.next_key;
            self.next_key = key + 1;
            self.destructors.set(key as usize, Some(dtor));
            return Ok((key, false));
        }
        let mut k: usize = 0;
        while k < self.destructors.len()
            invariant
                self.wf(),
                self.next_key == PTHREAD_KEYS_MAX,
                old(self).next_key == PTHREAD_KEYS_MAX,
                self.destructors@ == old(self).destructors@,
                k <= PTHREAD_KEYS_MAX,
                forall|m: int| 0 <= m < k ==> self.destructors@[m] is Some,
            decreases PTHREAD_KEYS_MAX - k,
        {
            if self.destructors[k].is_none() {
                self.destructors.set(k, Some(dtor));
                return Ok((k as u32, true));
            }
            k = k + 1;
        }
        Err(crate::sync::EAGAIN)
    }

    /// Free `key`.
    pub fn delete(&mut self, key: u32)
        requires
            old(self).wf(),
            key < PTHREAD_KEYS_MAX,
        ensures
            final(self).wf(),
            final(self).next() == old(self).next(),
            final(self).slots() == old(self).slots().update(key as int, None),
    {
        self.destructors.set(key as usize, None);
    }
}

impl<D: Copy> KeyTable<D> {
    /// The destructor of `key`, `None` when the key is free.
    pub fn destructor(&self, key: u32) -> (r: Option<D>)
        requires
            self.wf(),
            key < PTHREAD_KEYS_MAX,
        ensures
            r == self.slots()[key as int],
    {
        self.destructors[key as usize]
    }
}

/// A thread's value under one key: the key's epoch when it was stored, and
/// the value (a pointer, 0 for null).
#[derive(Debug, Copy, Clone, PartialEq, Eq, Structural)]
pub struct Slot {
    pub epoch: u32,
    pub data: usize,
}

/// A thread's values, one per key.
pub struct ThreadValues {
    values: Vec<Slot>,
}

/// What a thread reads under a key from its slot, given the key's current
/// epoch: null when the value was stored under an earlier epoch.
pub open spec fn read_slot(s: Slot, latest_epoch: u32) -> usize {
    if s.epoch < latest_epoch {
        0
    } else {
        s.data
    }
}

impl ThreadValues {
    /// The thread's slots, one per key.
    pub closed spec fn slots(&self) -> Seq<Slot> {
        self.values@
    }

    /// One slot per key.
    pub closed spec fn wf(&self) -> bool {
        self.values.len() == PTHREAD_KEYS_MAX
    }

    /// A thread's values before it stores any: null under every key, at
    /// epoch 0.
    pub fn new() -> (r: Self)
        ensures
            r.wf(),
            forall|k: int| 0 <= k < PTHREAD_KEYS_MAX ==> r.slots()[k] == (Slot { epoch: 0, data: 0 }),
    {
        Self::from_buffer(Vec::new())
    }

    /// The same, built in `values`, an empty buffer the caller allocated
    /// (so that it can report a failed allocation).
    pub fn from_buffer(values: Vec<Slot>) -> (r: Self)
        requires
            values@.len() == 0,
        ensures
            r.wf(),
            forall|k: int| 0 <= k < PTHREAD_KEYS_MAX ==> r.slots()[k] == (Slot { epoch: 0, data: 0 }),
    {
        let mut values = values;
        let mut k: u32 = 0;
        while k < PTHREAD_KEYS_MAX
            invariant
                k <= PTHREAD_KEYS_MAX,
                values.len() == k,
                forall|m: int| 0 <= m < k ==> values@[m] == (Slot { epoch: 0, data: 0 }),
            decreases PTHREAD_KEYS_MAX - k,
        {
            values.push(Slot { epoch: 0, data: 0 });
            k = k + 1;
        }
        ThreadValues { values }
    }

    /// Store `data` under `key` at the key's current epoch.
    pub fn set(&mut self, key: u32, latest_epoch: u32, data: usize)
        requires
            old(self).wf(),
            key < PTHREAD_KEYS_MAX,
        ensures
            final(self).wf(),
            final(self).slots() == old(self).slots().update(key as int, Slot { epoch: latest_epoch, data }),
    {
        self.values.set(key as usize, Slot { epoch: latest_epoch, data });
    }

    /// What the thread reads under `key` at the key's current epoch.
    pub fn get(&self, key: u32, latest_epoch: u32) -> (r: usize)
        requires
            self.wf(),
            key < PTHREAD_KEYS_MAX,
        ensures
            r == read_slot(self.slots()[key as int], latest_epoch),
    {
        let s = self.values[key as usize];
        if s.epoch < latest_epoch {
            0
        } else {
            s.data
        }
    }
}

/// `pthread_getspecific`: null for a key out of range (no epoch) or for a
/// thread that has stored nothing yet (no values), else what its slot reads.
pub fn get_specific(values: Option<&ThreadValues>, key: u32, latest_epoch: Option<u32>) -> (r: usize)
    requires
        values matches Some(v) ==> v.wf(),
    ensures
        r == match (values, latest_epoch) {
            (Some(v), Some(e)) => if key < PTHREAD_KEYS_MAX {
                read_slot(v.slots()[key as int], e)
            } else {
                0
            },
            _ => 0,
        },
{
    match (values, latest_epoch) {
        (Some(v), Some(e)) => if key < PTHREAD_KEYS_MAX {
            v.get(key, e)
        } else {
            0
        },
        _ => 0,
    }
}

/// `pthread_setspecific` once the thread's values exist: store `data` under
/// `key`, or `EINVAL` for a key out of range (no epoch).
pub fn set_specific(values: &mut ThreadValues, key: u32, latest_epoch: Option<u32>, data: usize) -> (r: i32)
    requires
        old(values).wf(),
    ensures
        final(values).wf(),
        latest_epoch is Some && key < PTHREAD_KEYS_MAX ==> r == 0 && final(values).slots()
            == old(values).slots().update(key as int, Slot { epoch: latest_epoch.unwrap(), data }),
        !(latest_epoch is Some && key < PTHREAD_KEYS_MAX) ==> r == crate::sync::EINVAL && final(values).slots()
            == old(values).slots(),
{
    match latest_epoch {
        Some(e) => if key < PTHREAD_KEYS_MAX {
            values.set(key, e, data);
            0
        } else {
            crate::sync::EINVAL
        },
        None => crate::sync::EINVAL,
    }
}

/// A thread reads back the value it stored under a key while the key's
/// epoch stays where it was; once the key is handed out again (a later
/// epoch) the value reads as null; and storing under one key leaves every
/// other key's slot as it was.
pub proof fn law_get_after_set(
    before: ThreadValues,
    after: ThreadValues,
    key: u32,
    epoch: u32,
    data: usize,
    other: u32,
    later: u32,
)
    requires
        before.wf(),
        key < PTHREAD_KEYS_MAX,
        other < PTHREAD_KEYS_MAX,
        after.slots() == before.slots().update(key as int, Slot { epoch, data }),
    ensures
        read_slot(after.slots()[key as int], epoch) == data,
        later > epoch ==> read_slot(after.slots()[key as int], later) == 0,
        other != key ==> after.slots()[other as int] == before.slots()[other as int],
{
}

/// A thread that has stored nothing and one whose values were just made
/// read alike: every key reads as null, whatever its epoch.
pub proof fn law_fresh_values_read_null(v: ThreadValues, key: u32, epoch: u32)
    requires
        v.wf(),
        key < PTHREAD_KEYS_MAX,
        forall|k: int| 0 <= k < PTHREAD_KEYS_MAX ==> v.slots()[k] == (Slot { epoch: 0, data: 0 }),
    ensures
        read_slot(v.slots()[key as int], epoch) == 0,
{
}

/// A reused key's next epoch: one more than `epoch`, or `None` when the
/// epoch counter is at its largest and would overflow.
pub fn next_epoch(epoch: u32) -> (r: Option<u32>)
    ensures
        r == if epoch == u32::MAX { None::<u32> } else { Some((epoch + 1) as u32) },
{
    if epoch == u32::MAX {
        None
    } else {
        Some(epoch + 1)
    }
}

} // verus!
