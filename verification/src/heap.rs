//! Where a running program's values live, and how they stop living.
//!
//! Four spaces, because four kinds of thing allocate and none of them is the others:
//! arrays, pieces of text, exact numbers and decimals. A handle is an index into one of
//! them, which is what makes it a handle rather than a pointer: nothing generated ever
//! holds an address, so nothing generated has to be told when one moves. Nothing moves
//! here either.
//!
//! A slot is an `i64` whatever is in it. Nothing about the bits says whether a slot of an
//! array is a number to leave alone or a handle to follow, so every array carries what it
//! holds, [`Elements`], and how many allocations lie under it. That is the whole object
//! header.
//!
//! A root is everything a running program could still reach: the slots of every frame on
//! the call stack whose type is a reference, and everything the module was written with.
//! The second is permanent: a constant array or a written piece of text outlives every
//! collection.

use vstd::prelude::*;

verus! {

/// One space of one kind of thing, with the slots nothing is using any more.
struct Space<T> {
    held: Vec<Option<T>>,
    free: Vec<usize>,
    /// How many at the front were laid out before the program ran. Never collected: they
    /// are what the program was written with rather than what it made.
    written: usize,
}

/// How many of `slots` hold something.
pub open spec fn live_count<T>(slots: Seq<Option<T>>) -> nat
    decreases slots.len(),
{
    if slots.len() == 0 {
        0
    } else {
        live_count(slots.drop_last()) + if slots.last() is Some {
            1nat
        } else {
            0nat
        }
    }
}

/// How many slots from `written` on hold something and are not marked.
pub open spec fn unmarked_count<T>(slots: Seq<Option<T>>, marked: Seq<bool>, written: int) -> nat
    decreases slots.len(),
{
    if slots.len() == 0 || slots.len() <= written {
        0
    } else {
        let i = slots.len() - 1;
        unmarked_count(slots.drop_last(), marked, written) + if slots.last() is Some
            && !marked[i] {
            1nat
        } else {
            0nat
        }
    }
}

/// What a sweep leaves of `slots`: everything marked or written, and nothing else.
pub open spec fn swept<T>(slots: Seq<Option<T>>, marked: Seq<bool>, written: int) -> Seq<
    Option<T>,
> {
    Seq::new(
        slots.len(),
        |i: int|
            if i >= written && !marked[i] {
                None
            } else {
                slots[i]
            },
    )
}

proof fn lemma_live_count_bounded<T>(slots: Seq<Option<T>>)
    ensures
        live_count(slots) <= slots.len(),
    decreases slots.len(),
{
    if slots.len() > 0 {
        lemma_live_count_bounded(slots.drop_last());
    }
}

impl<T> Space<T> {
    spec fn wf(&self) -> bool {
        &&& self.written <= self.held@.len()
        &&& self.held@.len() < i64::MAX
        &&& forall|i: int| 0 <= i < self.written ==> (#[trigger] self.held@[i]) is Some
        &&& forall|k: int|
            0 <= k < self.free@.len() ==> {
                &&& self.written <= #[trigger] self.free@[k] < self.held@.len()
                &&& self.held@[self.free@[k] as int] is None
            }
        &&& self.free@.no_duplicates()
        &&& forall|i: int|
            self.written <= i < self.held@.len() && (#[trigger] self.held@[i]) is None
                ==> self.free@.contains(i as usize)
    }

    fn empty() -> (s: Space<T>)
        ensures
            s.wf(),
            s.held@.len() == 0,
            s.written == 0,
    {
        Space { held: Vec::new(), free: Vec::new(), written: 0 }
    }

    fn new(start: Vec<T>) -> (s: Space<T>)
        requires
            start@.len() < i64::MAX,
        ensures
            s.wf(),
            s.held@ == start@.map_values(|v: T| Some(v)),
            s.written == start@.len(),
    {
        let written = start.len();
        let mut held: Vec<Option<T>> = Vec::new();
        let mut rest = start;
        let ghost all = rest@;
        let ghost mut taken: int = 0;
        // Taken from the back, so that each one moves rather than being copied.
        let mut backwards: Vec<T> = Vec::new();
        while rest.len() > 0
            invariant
                rest@ + backwards@.reverse() == all,
            decreases rest.len(),
        {
            let v = rest.pop().unwrap();
            let ghost before = backwards@;
            backwards.push(v);
            assert(backwards@.reverse() =~= seq![v] + before.reverse());
        }
        assert(backwards@.reverse() =~= all);
        while backwards.len() > 0
            invariant
                held@ + backwards@.reverse().map_values(|v: T| Some(v)) == all.map_values(
                    |v: T| Some(v),
                ),
            decreases backwards.len(),
        {
            let v = backwards.pop().unwrap();
            let ghost after = backwards@;
            held.push(Some(v));
            assert(held@ + after.reverse().map_values(|v: T| Some(v)) =~= all.map_values(
                |v: T| Some(v),
            ));
        }
        assert(held@ =~= all.map_values(|v: T| Some(v)));
        Space { held, free: Vec::new(), written }
    }

    /// Keep `value`, in a freed slot if there is one and on the end if not.
    fn put(&mut self, value: T) -> (at: i64)
        requires
            old(self).wf(),
            old(self).held@.len() + 1 < i64::MAX,
        ensures
            final(self).wf(),
            final(self).written == old(self).written,
            0 <= at,
            ({
                let a = at as int;
                ||| (a < old(self).held@.len() && a >= old(self).written && old(self).held@[a] is None
                    && final(self).held@ == old(self).held@.update(a, Some(value)))
                ||| (a == old(self).held@.len() && final(self).held@ == old(self).held@.push(
                    Some(value),
                ))
            }),
    {
        match self.free.pop() {
            Some(at) => {
                proof {
                    assert(old(self).free@.last() == at);
                    assert(old(self).free@ == self.free@.push(at));
                    assert(self.free@.no_duplicates());
                    assert(!self.free@.contains(at)) by {
                        if self.free@.contains(at) {
                            let k = choose|k: int| 0 <= k < self.free@.len() && self.free@[k] == at;
                            assert(old(self).free@[k] == old(self).free@[old(self).free@.len() - 1]);
                        }
                    }
                }
                self.held.set(at, Some(value));
                proof {
                    assert forall|i: int|
                        self.written <= i < self.held@.len() && (#[trigger] self.held@[i]) is None
                        implies self.free@.contains(i as usize) by {
                        assert(i != at);
                        assert(0 <= i < old(self).held@.len() < i64::MAX);
                        assert(i as usize as int == i);
                        assert(old(self).free@.contains(i as usize));
                        let k = choose|k: int| 0 <= k < old(self).free@.len() && old(self).free@[k] == i as usize;
                        if k == old(self).free@.len() - 1 {
                            assert(old(self).free@[k] == at);
                            assert(i == at as int);
                        }
                        assert(self.free@[k] == i as usize);
                    }
                }
                at as i64
            },
            None => {
                self.held.push(Some(value));
                proof {
                    assert forall|i: int|
                        self.written <= i < self.held@.len() && (#[trigger] self.held@[i]) is None
                        implies self.free@.contains(i as usize) by {
                        assert(i < old(self).held@.len());
                        assert(old(self).held@[i] is None);
                    }
                }
                (self.held.len() - 1) as i64
            },
        }
    }

    fn get(&self, at: i64) -> (r: &T)
        requires
            0 <= at < self.held@.len(),
            self.held@[at as int] is Some,
        ensures
            *r == self.held@[at as int]->0,
    {
        let n = self.held.len();
        let i = at as usize;
        assert(i == at);
        self.held[i].as_ref().unwrap()
    }

    fn get_mut(&mut self, at: i64) -> (r: &mut T)
        requires
            0 <= at < old(self).held@.len(),
            old(self).held@[at as int] is Some,
        ensures
            *r == old(self).held@[at as int]->0,
            final(self).held@ == old(self).held@.update(at as int, Some(*final(r))),
            final(self).free == old(self).free,
            final(self).written == old(self).written,
    {
        let n = self.held.len();
        let i = at as usize;
        assert(i == at);
        self.held[i].as_mut().unwrap()
    }

    /// Let go of everything unmarked, and remember where it was.
    fn sweep(&mut self, marked: &Vec<bool>) -> (freed: usize)
        requires
            old(self).wf(),
            marked@.len() >= old(self).held@.len(),
        ensures
            final(self).wf(),
            final(self).written == old(self).written,
            final(self).held@ == swept(old(self).held@, marked@, old(self).written as int),
            freed == unmarked_count(old(self).held@, marked@, old(self).written as int),
    {
        let mut freed: usize = 0;
        let mut at: usize = self.written;
        let ghost start = self.held@;
        assert(start.take(self.written as int) =~= start.take(self.written as int));
        while at < self.held.len()
            invariant
                self.wf(),
                self.written == old(self).written,
                old(self).written <= at <= self.held@.len(),
                self.held@.len() == start.len(),
                start == old(self).held@,
                marked@.len() >= start.len(),
                forall|i: int|
                    0 <= i < start.len() ==> #[trigger] self.held@[i] == if i < at && i >= self.written
                        && !marked@[i] {
                        None
                    } else {
                        start[i]
                    },
                freed == unmarked_count(start.take(at as int), marked@, self.written as int),
                freed <= at,
            decreases start.len() - at,
        {
            proof {
                assert(start.take(at + 1).drop_last() =~= start.take(at as int));
            }
            if !marked[at] && self.held[at].is_some() {
                proof {
                    assert(!self.free@.contains(at)) by {
                        if self.free@.contains(at) {
                            let k = choose|k: int| 0 <= k < self.free@.len() && self.free@[k] == at;
                            assert(self.held@[self.free@[k] as int] is None);
                        }
                    }
                }
                let ghost pre_free = self.free@;
                let ghost pre_held = self.held@;
                self.held.set(at, None);
                self.free.push(at);
                proof {
                    assert(self.free@.no_duplicates()) by {
                        let f = self.free@;
                        assert forall|a: int, b: int| 0 <= a < b < f.len() implies f[a] != f[b] by {
                            if b == f.len() - 1 {
                                assert(f.drop_last().contains(f[a]) || f[a] != at);
                            }
                        }
                    }
                    assert forall|i: int|
                        self.written <= i < self.held@.len() && (#[trigger] self.held@[i]) is None
                        implies self.free@.contains(i as usize) by {
                        if i == at {
                            assert(self.free@[self.free@.len() - 1] == at);
                        } else {
                            assert(pre_held[i] is None);
                            assert(pre_free.contains(i as usize));
                            let k = choose|k: int| 0 <= k < pre_free.len() && pre_free[k] == i as usize;
                            assert(self.free@[k] == i as usize);
                        }
                    }
                }
                freed = freed + 1;
            }
            at = at + 1;
        }
        proof {
            assert(start.take(at as int) =~= start);
            assert(self.held@ =~= swept(start, marked@, self.written as int));
        }
        freed
    }

    /// How many are alive.
    fn live(&self) -> (n: usize)
        ensures
            n == live_count(self.held@),
    {
        let mut n: usize = 0;
        let mut i: usize = 0;
        assert(self.held@.take(0) =~= Seq::<Option<T>>::empty());
        while i < self.held.len()
            invariant
                i <= self.held@.len(),
                n == live_count(self.held@.take(i as int)),
                n <= i,
            decreases self.held.len() - i,
        {
            assert(self.held@.take(i + 1).drop_last() =~= self.held@.take(i as int));
            if self.held[i].is_some() {
                n = n + 1;
            }
            i = i + 1;
        }
        assert(self.held@.take(i as int) =~= self.held@);
        n
    }
}


/// Which space a handle is an index into.
#[derive(Clone, Copy, PartialEq, Eq, Debug, Structural)]
pub enum Kind {
    /// An array.
    Handle,
    /// A piece of text.
    Text,
    /// An exact number.
    Exact,
    /// A decimal.
    Decimal,
    /// A value that is not a handle at all.
    Plain,
}

/// What the slots of an array hold, when nothing lies under it.
#[derive(Clone, Copy, PartialEq, Eq, Debug, Structural)]
pub enum Elements {
    /// Numbers and flags: nothing to follow.
    Values,
    /// Handles to pieces of text.
    Text,
    /// Handles to exact numbers.
    Exact,
    /// Handles to decimals.
    Decimal,
}

impl Elements {
    /// Whether a slot holding one of these is a handle into another space.
    pub fn is_a_reference(self) -> (b: bool)
        ensures
            b == (self != Elements::Values),
    {
        !matches!(self, Elements::Values)
    }
}

/// Which space a handle is an index into, packed into the top byte of a root.
///
/// Compiled code has no types to hand at run time, so the space rides along in bits
/// nothing else uses. A handle is an index into a list, and no list is going to have
/// `2^56` things in it.
pub const SPACE_SHIFT: u32 = 56;

/// The bits of a packed root that hold the handle.
pub const HANDLE_BITS: i64 = 0x00ff_ffff_ffff_ffff;

/// The number a space is packed as.
pub open spec fn space_number(kind: Kind) -> i64 {
    match kind {
        Kind::Handle => 1,
        Kind::Text => 2,
        Kind::Exact => 3,
        Kind::Decimal => 4,
        Kind::Plain => 0,
    }
}

/// A handle and its space as one number.
pub open spec fn packed(kind: Kind, handle: i64) -> i64 {
    (space_number(kind) << 56u32) | (handle & HANDLE_BITS)
}

/// A packed root read back, when its top byte names a space.
pub open spec fn unpacked(root: i64) -> Option<(Kind, i64)> {
    let handle = root & HANDLE_BITS;
    let space = root >> 56u32;
    if space == 1 {
        Some((Kind::Handle, handle))
    } else if space == 2 {
        Some((Kind::Text, handle))
    } else if space == 3 {
        Some((Kind::Exact, handle))
    } else if space == 4 {
        Some((Kind::Decimal, handle))
    } else {
        None
    }
}

/// Turn a handle and its space into one number, for compiled code to store.
pub fn rooted(kind: Kind, handle: i64) -> (r: i64)
    ensures
        r == packed(kind, handle),
{
    let space: i64 = match kind {
        Kind::Handle => 1,
        Kind::Text => 2,
        Kind::Exact => 3,
        Kind::Decimal => 4,
        Kind::Plain => 0,
    };
    assert((1i64 << 56u32) - 1 == HANDLE_BITS) by (bit_vector);
    assert(0 <= space <= 4);
    assert(space << 56u32 == space * 0x0100_0000_0000_0000) by (bit_vector)
        requires
            0 <= space <= 4,
    ;
    (space << SPACE_SHIFT) | (handle & ((1i64 << SPACE_SHIFT) - 1))
}

/// And back again, for the collector to read.
pub fn unrooted(root: i64) -> (r: Option<(Kind, i64)>)
    ensures
        r == unpacked(root),
{
    assert((1i64 << 56u32) - 1 == HANDLE_BITS) by (bit_vector);
    let handle = root & ((1i64 << SPACE_SHIFT) - 1);
    let space = root >> SPACE_SHIFT;
    if space == 1 {
        Some((Kind::Handle, handle))
    } else if space == 2 {
        Some((Kind::Text, handle))
    } else if space == 3 {
        Some((Kind::Exact, handle))
    } else if space == 4 {
        Some((Kind::Decimal, handle))
    } else {
        None
    }
}

/// A handle that fits below the space byte, packed with a space, reads back as that
/// handle and that space; packed as no space, it reads back as nothing.
pub proof fn law_a_packed_root_reads_back(kind: Kind, handle: i64)
    requires
        0 <= handle < 0x0100_0000_0000_0000,
    ensures
        kind != Kind::Plain ==> unpacked(packed(kind, handle)) == Some((kind, handle)),
        kind == Kind::Plain ==> unpacked(packed(kind, handle)) is None,
{
    let s = space_number(kind);
    let p = packed(kind, handle);
    assert(0 <= s <= 4);
    assert(p & HANDLE_BITS == handle && p >> 56u32 == s) by (bit_vector)
        requires
            0 <= handle < 0x0100_0000_0000_0000,
            0 <= s <= 4,
            p == (s << 56u32) | (handle & HANDLE_BITS),
    ;
}

/// One array on the heap, with the header that says what its slots are.
#[derive(Clone, PartialEq, Eq, Debug)]
pub struct Object {
    pub holds: Elements,
    /// How many allocations lie under this one. Nought when its slots hold values.
    pub depth: i64,
    pub values: Vec<i64>,
}

/// Whether an object's slots are handles to follow rather than values.
pub open spec fn points_somewhere(o: Object) -> bool {
    o.depth > 0 || o.holds != Elements::Values
}

impl Object {
    /// Whether this object's slots are handles to follow rather than values.
    pub fn points_somewhere(&self) -> (b: bool)
        ensures
            b == points_somewhere(*self),
    {
        self.depth > 0 || self.holds.is_a_reference()
    }
}

/// The index a slot or a root names, as the collector reads it.
pub open spec fn index_of(v: i64) -> int {
    (v as usize) as int
}


/// How many allocations to let by before the first collection.
pub const FIRST: usize = 256;

/// Everything a running program has made, and everything it was written with.
///
/// What an exact number and a decimal are is not the collector's business: it keeps them
/// and lets them go, and never looks inside.
pub struct Heap<E, D> {
    arrays: Space<Object>,
    texts: Space<String>,
    exacts: Space<E>,
    decimals: Space<D>,
    /// How many things have been made since the last collection.
    since: usize,
    /// How many to allow before collecting again. Grows with the live set, so a program
    /// that genuinely holds a lot does not collect on every allocation.
    allow: usize,
    /// How many collections have happened, for a test to look at.
    pub collections: usize,
}

/// What `put` did: kept `value` in a slot that was free, or on the end.
pub open spec fn put_into<T>(before: Seq<Option<T>>, after: Seq<Option<T>>, written: int, at: int, value: T) -> bool {
    ||| (written <= at < before.len() && before[at] is None && after == before.update(at, Some(value)))
    ||| (at == before.len() && after == before.push(Some(value)))
}

impl<E, D> Heap<E, D> {
    /// Every array slot, by handle: what is there, or nothing once it was let go.
    pub closed spec fn arrays(&self) -> Seq<Option<Object>> {
        self.arrays.held@
    }

    /// Every piece of text, by handle.
    pub closed spec fn texts(&self) -> Seq<Option<String>> {
        self.texts.held@
    }

    /// Every exact number, by handle.
    pub closed spec fn exacts(&self) -> Seq<Option<E>> {
        self.exacts.held@
    }

    /// Every decimal, by handle.
    pub closed spec fn decimals(&self) -> Seq<Option<D>> {
        self.decimals.held@
    }

    /// How many arrays the program was written with: the first ones, never collected.
    pub closed spec fn arrays_written(&self) -> int {
        self.arrays.written as int
    }

    /// How many pieces of text the program was written with.
    pub closed spec fn texts_written(&self) -> int {
        self.texts.written as int
    }

    /// How many things have been made since the last collection.
    pub closed spec fn since(&self) -> int {
        self.since as int
    }

    /// How many to allow before collecting again.
    pub closed spec fn allow(&self) -> int {
        self.allow as int
    }

    /// How many collections have happened.
    pub closed spec fn collections_made(&self) -> int {
        self.collections as int
    }

    /// Whether the heap is in order: every space keeps its free list true, and nothing
    /// numbers or decimals were written with.
    pub closed spec fn wf(&self) -> bool {
        &&& self.arrays.wf()
        &&& self.texts.wf()
        &&& self.exacts.wf()
        &&& self.decimals.wf()
        &&& self.exacts.written == 0
        &&& self.decimals.written == 0
    }

    /// A heap laid out with what the module was written with, before anything runs: each
    /// table an array of plain values, and each piece of text.
    pub fn laid_out(tables: &[Vec<i64>], text: &[String]) -> (h: Heap<E, D>)
        requires
            tables@.len() < i64::MAX,
            text@.len() < i64::MAX,
        ensures
            h.wf(),
            h.arrays().len() == tables@.len(),
            forall|i: int|
                0 <= i < tables@.len() ==> {
                    &&& (#[trigger] h.arrays()[i]) is Some
                    &&& h.arrays()[i]->0.holds == Elements::Values
                    &&& h.arrays()[i]->0.depth == 0
                    &&& h.arrays()[i]->0.values@ == tables@[i]@
                },
            h.texts() == text@.map_values(|t: String| Some(t)),
            h.exacts().len() == 0,
            h.decimals().len() == 0,
            h.arrays_written() == tables@.len(),
            h.texts_written() == text@.len(),
            h.since() == 0,
            h.allow() == FIRST,
            h.collections_made() == 0,
    {
        let mut objects: Vec<Object> = Vec::new();
        let mut i: usize = 0;
        while i < tables.len()
            invariant
                i <= tables@.len(),
                objects@.len() == i,
                forall|j: int|
                    0 <= j < i ==> {
                        &&& (#[trigger] objects@[j]).holds == Elements::Values
                        &&& objects@[j].depth == 0
                        &&& objects@[j].values@ == tables@[j]@
                    },
            decreases tables.len() - i,
        {
            let values = tables[i].clone();
            assert(values@ =~= tables@[i as int]@);
            objects.push(Object { holds: Elements::Values, depth: 0, values });
            i = i + 1;
        }
        let mut written: Vec<String> = Vec::new();
        let mut j: usize = 0;
        while j < text.len()
            invariant
                j <= text@.len(),
                written@ == text@.take(j as int),
            decreases text.len() - j,
        {
            written.push(text[j].clone());
            assert(written@ =~= text@.take(j + 1));
            j = j + 1;
        }
        assert(written@ =~= text@);
        let arrays = Space::new(objects);
        let texts = Space::new(written);
        Heap {
            arrays,
            texts,
            exacts: Space::empty(),
            decimals: Space::empty(),
            since: 0,
            allow: FIRST,
            collections: 0,
        }
    }

    /// A new array.
    pub fn make(&mut self, holds: Elements, depth: i64, values: Vec<i64>) -> (at: i64)
        requires
            old(self).wf(),
            old(self).since() < usize::MAX,
            old(self).arrays().len() + 1 < i64::MAX,
        ensures
            final(self).wf(),
            final(self).since() == old(self).since() + 1,
            exists|o: Object|
                o.holds == holds && o.depth == depth && o.values@ == values@ && put_into(
                    old(self).arrays(),
                    final(self).arrays(),
                    old(self).arrays_written(),
                    at as int,
                    o,
                ),
            final(self).arrays_written() == old(self).arrays_written(),
            final(self).texts() == old(self).texts(),
            final(self).texts_written() == old(self).texts_written(),
            final(self).exacts() == old(self).exacts(),
            final(self).decimals() == old(self).decimals(),
            final(self).allow() == old(self).allow(),
            final(self).collections_made() == old(self).collections_made(),
    {
        self.since = self.since + 1;
        let ghost values_view = values@;
        let o = Object { holds, depth, values };
        let ghost kept = o;
        let at = self.arrays.put(o);
        assert(kept.holds == holds && kept.depth == depth && kept.values@ == values@ && put_into(
            old(self).arrays(),
            self.arrays(),
            old(self).arrays_written(),
            at as int,
            kept,
        ));
        at
    }

    /// A new piece of text.
    pub fn text(&mut self, value: String) -> (at: i64)
        requires
            old(self).wf(),
            old(self).since() < usize::MAX,
            old(self).texts().len() + 1 < i64::MAX,
        ensures
            final(self).wf(),
            final(self).since() == old(self).since() + 1,
            put_into(old(self).texts(), final(self).texts(), old(self).texts_written(), at as int, value),
            final(self).texts_written() == old(self).texts_written(),
            final(self).arrays() == old(self).arrays(),
            final(self).arrays_written() == old(self).arrays_written(),
            final(self).exacts() == old(self).exacts(),
            final(self).decimals() == old(self).decimals(),
            final(self).allow() == old(self).allow(),
            final(self).collections_made() == old(self).collections_made(),
    {
        self.since = self.since + 1;
        self.texts.put(value)
    }

    /// A new exact number.
    pub fn exact(&mut self, value: E) -> (at: i64)
        requires
            old(self).wf(),
            old(self).since() < usize::MAX,
            old(self).exacts().len() + 1 < i64::MAX,
        ensures
            final(self).wf(),
            final(self).since() == old(self).since() + 1,
            put_into(old(self).exacts(), final(self).exacts(), 0, at as int, value),
            final(self).arrays() == old(self).arrays(),
            final(self).arrays_written() == old(self).arrays_written(),
            final(self).texts() == old(self).texts(),
            final(self).texts_written() == old(self).texts_written(),
            final(self).decimals() == old(self).decimals(),
            final(self).allow() == old(self).allow(),
            final(self).collections_made() == old(self).collections_made(),
    {
        self.since = self.since + 1;
        self.exacts.put(value)
    }

    /// A new decimal.
    pub fn decimal(&mut self, value: D) -> (at: i64)
        requires
            old(self).wf(),
            old(self).since() < usize::MAX,
            old(self).decimals().len() + 1 < i64::MAX,
        ensures
            final(self).wf(),
            final(self).since() == old(self).since() + 1,
            put_into(old(self).decimals(), final(self).decimals(), 0, at as int, value),
            final(self).arrays() == old(self).arrays(),
            final(self).arrays_written() == old(self).arrays_written(),
            final(self).texts() == old(self).texts(),
            final(self).texts_written() == old(self).texts_written(),
            final(self).exacts() == old(self).exacts(),
            final(self).allow() == old(self).allow(),
            final(self).collections_made() == old(self).collections_made(),
    {
        self.since = self.since + 1;
        self.decimals.put(value)
    }

    /// The decimal a handle names.
    pub fn decimally(&self, at: i64) -> (d: &D)
        requires
            0 <= at < self.decimals().len(),
            self.decimals()[at as int] is Some,
        ensures
            *d == self.decimals()[at as int]->0,
    {
        self.decimals.get(at)
    }

    /// The array a handle names.
    pub fn at(&self, handle: i64) -> (o: &Object)
        requires
            0 <= handle < self.arrays().len(),
            self.arrays()[handle as int] is Some,
        ensures
            *o == self.arrays()[handle as int]->0,
    {
        self.arrays.get(handle)
    }

    /// The array a handle names, to change.
    pub fn at_mut(&mut self, handle: i64) -> (o: &mut Object)
        requires
            old(self).wf(),
            0 <= handle < old(self).arrays().len(),
            old(self).arrays()[handle as int] is Some,
        ensures
            *o == old(self).arrays()[handle as int]->0,
            final(self).wf(),
            final(self).arrays() == old(self).arrays().update(handle as int, Some(*final(o))),
            final(self).arrays_written() == old(self).arrays_written(),
            final(self).texts() == old(self).texts(),
            final(self).texts_written() == old(self).texts_written(),
            final(self).exacts() == old(self).exacts(),
            final(self).decimals() == old(self).decimals(),
            final(self).since() == old(self).since(),
            final(self).allow() == old(self).allow(),
            final(self).collections_made() == old(self).collections_made(),
    {
        self.arrays.get_mut(handle)
    }

    /// The text a handle names.
    pub fn said(&self, at: i64) -> (t: &str)
        requires
            0 <= at < self.texts().len(),
            self.texts()[at as int] is Some,
        ensures
            t@ == self.texts()[at as int]->0@,
    {
        self.texts.get(at).as_str()
    }

    /// The exact number a handle names.
    pub fn exactly(&self, at: i64) -> (e: &E)
        requires
            0 <= at < self.exacts().len(),
            self.exacts()[at as int] is Some,
        ensures
            *e == self.exacts()[at as int]->0,
    {
        self.exacts.get(at)
    }

    /// Whether enough has been made to be worth looking.
    pub fn worth_collecting(&self) -> (b: bool)
        ensures
            b == (self.since() >= self.allow()),
    {
        self.since >= self.allow
    }

    /// How many things are alive: arrays, pieces of text, and numbers of both kinds.
    pub fn live(&self) -> (n: (usize, usize, usize))
        requires
            live_count(self.exacts()) + live_count(self.decimals()) <= usize::MAX,
        ensures
            n.0 == live_count(self.arrays()),
            n.1 == live_count(self.texts()),
            n.2 == live_count(self.exacts()) + live_count(self.decimals()),
    {
        (self.arrays.live(), self.texts.live(), self.exacts.live() + self.decimals.live())
    }
}

impl<E, D> Default for Heap<E, D> {
    /// A heap with nothing in it, and nothing allowed before the first collection.
    fn default() -> (h: Heap<E, D>)
        ensures
            h.wf(),
            h.arrays().len() == 0,
            h.texts().len() == 0,
            h.exacts().len() == 0,
            h.decimals().len() == 0,
            h.since() == 0,
            h.allow() == 0,
            h.collections_made() == 0,
    {
        Heap {
            arrays: Space::empty(),
            texts: Space::empty(),
            exacts: Space::empty(),
            decimals: Space::empty(),
            since: 0,
            allow: 0,
            collections: 0,
        }
    }
}


/// Whether the slot holding `v` of the object `o` had what it names marked.
pub open spec fn slot_marked(
    o: Object,
    v: i64,
    am: Seq<bool>,
    tm: Seq<bool>,
    em: Seq<bool>,
    dm: Seq<bool>,
) -> bool {
    let s = index_of(v);
    &&& (o.depth > 0 && s < am.len() ==> am[s])
    &&& (o.depth <= 0 && o.holds == Elements::Text && s < tm.len() ==> tm[s])
    &&& (o.depth <= 0 && o.holds == Elements::Exact && s < em.len() ==> em[s])
    &&& (o.depth <= 0 && o.holds == Elements::Decimal && s < dm.len() ==> dm[s])
}

/// Whether a root had what it names marked.
pub open spec fn root_marked(
    root: (Kind, i64),
    am: Seq<bool>,
    tm: Seq<bool>,
    em: Seq<bool>,
    dm: Seq<bool>,
) -> bool {
    let s = index_of(root.1);
    match root.0 {
        Kind::Handle => s < am.len() ==> am[s],
        Kind::Text => s < tm.len() ==> tm[s],
        Kind::Exact => s < em.len() ==> em[s],
        Kind::Decimal => s < dm.len() ==> dm[s],
        Kind::Plain => true,
    }
}

/// Whether slot `s` of a space was kept through a collection, as it was.
pub open spec fn kept<T>(before: Seq<Option<T>>, after: Seq<Option<T>>, s: int) -> bool {
    0 <= s < before.len() ==> after[s] == before[s]
}

/// Whether what the slot holding `v` of the object `o` names was kept.
pub open spec fn slot_kept<E, D>(o: Object, v: i64, before: Heap<E, D>, after: Heap<E, D>) -> bool {
    let s = index_of(v);
    &&& (o.depth > 0 ==> kept(before.arrays(), after.arrays(), s))
    &&& (o.depth <= 0 && o.holds == Elements::Text ==> kept(before.texts(), after.texts(), s))
    &&& (o.depth <= 0 && o.holds == Elements::Exact ==> kept(before.exacts(), after.exacts(), s))
    &&& (o.depth <= 0 && o.holds == Elements::Decimal ==> kept(
        before.decimals(),
        after.decimals(),
        s,
    ))
}

/// Whether what a root names was kept.
pub open spec fn root_kept<E, D>(root: (Kind, i64), before: Heap<E, D>, after: Heap<E, D>) -> bool {
    let s = index_of(root.1);
    match root.0 {
        Kind::Handle => kept(before.arrays(), after.arrays(), s),
        Kind::Text => kept(before.texts(), after.texts(), s),
        Kind::Exact => kept(before.exacts(), after.exacts(), s),
        Kind::Decimal => kept(before.decimals(), after.decimals(), s),
        Kind::Plain => true,
    }
}

/// A space after a collection: as long as before, and every slot either as it was or let
/// go.
pub open spec fn thinned<T>(before: Seq<Option<T>>, after: Seq<Option<T>>, written: int) -> bool {
    &&& after.len() == before.len()
    &&& forall|i: int|
        0 <= i < before.len() ==> (#[trigger] after[i] == before[i] || after[i] is None)
    &&& forall|i: int| 0 <= i < written && i < before.len() ==> #[trigger] after[i] == before[i]
}

/// The array at `from` is one the program made, an array of arrays, and one of its slots
/// holds a handle to `to`.
pub open spec fn step(arrays: Seq<Option<Object>>, written: int, from: int, to: int) -> bool {
    &&& written <= from < arrays.len()
    &&& arrays[from] is Some
    &&& arrays[from]->0.depth > 0
    &&& exists|k: int|
        0 <= k < arrays[from]->0.values@.len() && index_of(#[trigger] arrays[from]->0.values@[k])
            == to
}

/// Every array along `path` holds a handle to the next.
pub open spec fn links_on(arrays: Seq<Option<Object>>, written: int, path: Seq<int>) -> bool {
    forall|j: int| 0 <= j < path.len() - 1 ==> step(arrays, written, #[trigger] path[j], path[j + 1])
}

/// Some root of `kind` names slot `s`.
pub open spec fn rooted_at(roots: Seq<(Kind, i64)>, kind: Kind, s: int) -> bool {
    exists|r: int| 0 <= r < roots.len() && (#[trigger] roots[r]).0 == kind && index_of(roots[r].1) == s
}

/// `path` starts at an array a root names and follows handles from array to array.
pub open spec fn reaches(arrays: Seq<Option<Object>>, written: int, roots: Seq<(Kind, i64)>, path: Seq<int>) -> bool {
    &&& path.len() > 0
    &&& rooted_at(roots, Kind::Handle, path[0])
    &&& links_on(arrays, written, path)
}

/// Some chain from a root ends at the array `i`.
pub open spec fn reached(arrays: Seq<Option<Object>>, written: int, roots: Seq<(Kind, i64)>, i: int) -> bool {
    exists|path: Seq<int>| #[trigger] reaches(arrays, written, roots, path) && path.last() == i
}

/// Slot `t` of another space is named by a root of `kind`, or held by a reached array the
/// program made whose slots hold `holds`.
pub open spec fn named(
    arrays: Seq<Option<Object>>,
    written: int,
    roots: Seq<(Kind, i64)>,
    kind: Kind,
    holds: Elements,
    t: int,
) -> bool {
    ||| rooted_at(roots, kind, t)
    ||| exists|g: int, k: int|
        #![trigger reached(arrays, written, roots, g), arrays[g]->0.values@[k]]
        {
            &&& reached(arrays, written, roots, g)
            &&& written <= g < arrays.len()
            &&& arrays[g] is Some
            &&& arrays[g]->0.depth <= 0
            &&& arrays[g]->0.holds == holds
            &&& 0 <= k < arrays[g]->0.values@.len()
            &&& index_of(arrays[g]->0.values@[k]) == t
        }
}

/// What a collection from `roots` leaves of a heap.
///
/// Every space is thinned, what it was written with stays, everything a root names stays,
/// and everything a surviving array that the program made points at stays.
pub open spec fn collected<E, D>(before: Heap<E, D>, after: Heap<E, D>, roots: Seq<(Kind, i64)>) -> bool {
    &&& thinned(before.arrays(), after.arrays(), before.arrays_written())
    &&& thinned(before.texts(), after.texts(), before.texts_written())
    &&& thinned(before.exacts(), after.exacts(), 0)
    &&& thinned(before.decimals(), after.decimals(), 0)
    &&& after.arrays_written() == before.arrays_written()
    &&& after.texts_written() == before.texts_written()
    &&& forall|r: int| 0 <= r < roots.len() ==> root_kept(#[trigger] roots[r], before, after)
    &&& forall|i: int, k: int|
        before.arrays_written() <= i < after.arrays().len() && after.arrays()[i] is Some && 0 <= k
            < after.arrays()[i]->0.values@.len() ==> slot_kept(
            after.arrays()[i]->0,
            #[trigger] after.arrays()[i]->0.values@[k],
            before,
            after,
        )
    &&& forall|i: int|
        before.arrays_written() <= i < after.arrays().len() && (#[trigger] after.arrays()[i]) is Some
            ==> reached(before.arrays(), before.arrays_written(), roots, i)
    &&& forall|t: int|
        before.texts_written() <= t < after.texts().len() && (#[trigger] after.texts()[t]) is Some
            ==> named(before.arrays(), before.arrays_written(), roots, Kind::Text, Elements::Text, t)
    &&& forall|t: int|
        0 <= t < after.exacts().len() && (#[trigger] after.exacts()[t]) is Some ==> named(
            before.arrays(),
            before.arrays_written(),
            roots,
            Kind::Exact,
            Elements::Exact,
            t,
        )
    &&& forall|t: int|
        0 <= t < after.decimals().len() && (#[trigger] after.decimals()[t]) is Some ==> named(
            before.arrays(),
            before.arrays_written(),
            roots,
            Kind::Decimal,
            Elements::Decimal,
            t,
        )
}

fn marks(n: usize, written: usize) -> (m: Vec<bool>)
    requires
        written <= n,
    ensures
        m@.len() == n,
        forall|j: int| 0 <= j < n ==> m@[j] == (j < written),
{
    let mut m: Vec<bool> = Vec::new();
    let mut i: usize = 0;
    while i < n
        invariant
            i <= n,
            written <= n,
            m@.len() == i,
            forall|j: int| 0 <= j < i ==> m@[j] == (j < written),
        decreases n - i,
    {
        m.push(i < written);
        i = i + 1;
    }
    m
}

proof fn lemma_push_contains(s: Seq<usize>, x: usize, j: usize)
    ensures
        s.push(x).contains(j) == (s.contains(j) || j == x),
{
    if s.contains(j) {
        let q = choose|q: int| 0 <= q < s.len() && s[q] == j;
        assert(s.push(x)[q] == j);
    }
    if j == x {
        assert(s.push(x)[s.len() as int] == j);
    }
    if s.push(x).contains(j) {
        let q = choose|q: int| 0 <= q < s.push(x).len() && s.push(x)[q] == j;
        if q < s.len() {
            assert(s[q] == j);
        }
    }
}

/// How many of `m` are not set.
pub open spec fn unset(m: Seq<bool>) -> nat
    decreases m.len(),
{
    if m.len() == 0 {
        0
    } else {
        unset(m.drop_last()) + if m.last() {
            0nat
        } else {
            1nat
        }
    }
}

proof fn lemma_unset_after_setting(m: Seq<bool>, i: int)
    requires
        0 <= i < m.len(),
        !m[i],
    ensures
        unset(m.update(i, true)) + 1 == unset(m),
    decreases m.len(),
{
    if i < m.len() - 1 {
        assert(m.update(i, true).drop_last() =~= m.drop_last().update(i, true));
        lemma_unset_after_setting(m.drop_last(), i);
    } else {
        assert(m.update(i, true).drop_last() =~= m.drop_last());
    }
}

impl<E, D> Heap<E, D> {
    /// Mark from these roots, then let go of everything else.
    ///
    /// Nothing moves, so no handle anywhere has to be corrected afterwards. What the
    /// program was written with is always reachable: it is in the artefact.
    pub fn collect(&mut self, roots: &[(Kind, i64)])
        requires
            old(self).wf(),
            old(self).collections_made() < usize::MAX,
            2 * (old(self).arrays().len() + old(self).texts().len() + old(self).exacts().len()
                + old(self).decimals().len()) <= usize::MAX,
        ensures
            final(self).wf(),
            collected(*old(self), *final(self), roots@),
            final(self).since() == 0,
            final(self).allow() == ({
                let live = 2 * (live_count(final(self).arrays()) + live_count(final(self).texts())
                    + live_count(final(self).exacts()) + live_count(final(self).decimals()));
                if live > FIRST {
                    live as int
                } else {
                    FIRST as int
                }
            }),
            final(self).collections_made() == old(self).collections_made() + 1,
    {
        broadcast use vstd::seq_lib::group_seq_properties;

        let ghost a0 = self.arrays.held@;
        let na = self.arrays.held.len();
        let nt = self.texts.held.len();
        let ne = self.exacts.held.len();
        let nd = self.decimals.held.len();
        let wa = self.arrays.written;
        let mut am = marks(na, wa);
        let mut tm = marks(nt, self.texts.written);
        let mut em = marks(ne, 0);
        let mut dm = marks(nd, 0);
        let mut grey: Vec<usize> = Vec::new();

        let mut r: usize = 0;
        while r < roots.len()
            invariant
                self.arrays.held@ == a0,
                self.wf(),
                *self == *old(self),
                na == a0.len(),
                wa == self.arrays.written,
                am@.len() == na,
                tm@.len() == nt,
                em@.len() == ne,
                dm@.len() == nd,
                nt == self.texts.held@.len(),
                ne == self.exacts.held@.len(),
                nd == self.decimals.held@.len(),
                forall|j: int| 0 <= j < wa ==> am@[j],
                forall|j: int| 0 <= j < self.texts.written ==> tm@[j],
                forall|q: int|
                    0 <= q < grey@.len() ==> wa <= #[trigger] grey@[q] < na && am@[grey@[q] as int],
                grey@.no_duplicates(),
                forall|j: int| wa <= j < na && am@[j] ==> grey@.contains(j as usize),
                forall|q: int| 0 <= q < r ==> root_marked(#[trigger] roots@[q], am@, tm@, em@, dm@),
                r <= roots@.len(),
                forall|j: int| wa <= j < na && am@[j] ==> reached(a0, wa as int, roots@, j),
                forall|t: int|
                    self.texts.written <= t < nt && tm@[t] ==> named(a0, wa as int, roots@, Kind::Text, Elements::Text, t),
                forall|t: int| 0 <= t < ne && em@[t] ==> named(a0, wa as int, roots@, Kind::Exact, Elements::Exact, t),
                forall|t: int| 0 <= t < nd && dm@[t] ==> named(a0, wa as int, roots@, Kind::Decimal, Elements::Decimal, t),
            decreases roots.len() - r,
        {
            let (kind, value) = roots[r];
            let at = value as usize;
            match kind {
                Kind::Handle => {
                    if at < na && !am[at] {
                        let ghost grey_before = grey@;
                        proof {
                            let path = seq![at as int];
                            assert(roots@[r as int].0 == Kind::Handle && index_of(roots@[r as int].1) == at);
                            assert(rooted_at(roots@, Kind::Handle, path[0]));
                            assert(reaches(a0, wa as int, roots@, path));
                        }
                        am.set(at, true);
                        grey.push(at);
                        proof {
                            assert forall|j: int| wa <= j < na && am@[j] implies grey@.contains(
                                j as usize,
                            ) by {
                                lemma_push_contains(grey_before, at, j as usize);
                            }
                            assert(grey@.no_duplicates()) by {
                                lemma_push_contains(grey_before, at, at);
                                assert forall|a: int, b: int| 0 <= a < b < grey@.len() implies grey@[a]
                                    != grey@[b] by {
                                    if b == grey@.len() - 1 {
                                        assert(grey_before[a] == grey@[a]);
                                    }
                                }
                            }
                        }
                    }
                },
                Kind::Text => {
                    if at < nt {
                        proof {
                            assert(roots@[r as int].0 == Kind::Text && index_of(roots@[r as int].1) == at);
                        }
                        tm.set(at, true);
                    }
                },
                Kind::Exact => {
                    if at < ne {
                        proof {
                            assert(roots@[r as int].0 == Kind::Exact && index_of(roots@[r as int].1) == at);
                        }
                        em.set(at, true);
                    }
                },
                Kind::Decimal => {
                    if at < nd {
                        proof {
                            assert(roots@[r as int].0 == Kind::Decimal && index_of(roots@[r as int].1) == at);
                        }
                        dm.set(at, true);
                    }
                },
                Kind::Plain => {},
            }
            r = r + 1;
        }

        // An array of arrays is the only thing with edges to follow, and an array of text or
        // of numbers the only thing that reaches the other spaces.
        while grey.len() > 0
            invariant
                self.arrays.held@ == a0,
                self.wf(),
                *self == *old(self),
                na == a0.len(),
                wa == self.arrays.written,
                am@.len() == na,
                tm@.len() == nt,
                em@.len() == ne,
                dm@.len() == nd,
                nt == self.texts.held@.len(),
                ne == self.exacts.held@.len(),
                nd == self.decimals.held@.len(),
                forall|j: int| 0 <= j < wa ==> am@[j],
                forall|j: int| 0 <= j < self.texts.written ==> tm@[j],
                forall|q: int|
                    0 <= q < grey@.len() ==> wa <= #[trigger] grey@[q] < na && am@[grey@[q] as int],
                grey@.no_duplicates(),
                forall|j: int, k: int|
                    wa <= j < na && am@[j] && !grey@.contains(j as usize) && a0[j] is Some && 0 <= k
                        < a0[j]->0.values@.len() ==> slot_marked(
                        a0[j]->0,
                        #[trigger] a0[j]->0.values@[k],
                        am@,
                        tm@,
                        em@,
                        dm@,
                    ),
                forall|q: int| 0 <= q < roots@.len() ==> root_marked(#[trigger] roots@[q], am@, tm@, em@, dm@),
                forall|j: int| wa <= j < na && am@[j] ==> reached(a0, wa as int, roots@, j),
                forall|t: int|
                    self.texts.written <= t < nt && tm@[t] ==> named(a0, wa as int, roots@, Kind::Text, Elements::Text, t),
                forall|t: int| 0 <= t < ne && em@[t] ==> named(a0, wa as int, roots@, Kind::Exact, Elements::Exact, t),
                forall|t: int| 0 <= t < nd && dm@[t] ==> named(a0, wa as int, roots@, Kind::Decimal, Elements::Decimal, t),
            decreases unset(am@) + grey@.len(),
        {
            let ghost grey_before = grey@;
            let g = grey.pop().unwrap();
            proof {
                assert(grey_before == grey@.push(g));
                assert(!grey@.contains(g)) by {
                    if grey@.contains(g) {
                        let q = choose|q: int| 0 <= q < grey@.len() && grey@[q] == g;
                        assert(grey_before[q] == grey_before[grey_before.len() - 1]);
                    }
                }
            }
            let ghost measure = unset(am@) + grey@.len();
            if self.arrays.held[g].is_some() {
                let object = self.arrays.held[g].as_ref().unwrap();
                if object.points_somewhere() {
                    let depth = object.depth;
                    let holds = object.holds;
                    let mut k: usize = 0;
                    while k < object.values.len()
                        invariant
                            self.arrays.held@ == a0,
                            *self == *old(self),
                            *object == a0[g as int]->0,
                            a0[g as int] is Some,
                            depth == object.depth,
                            holds == object.holds,
                            0 <= g < na,
                            wa <= g,
                            am@[g as int],
                            !grey@.contains(g),
                            na == a0.len(),
                            wa == self.arrays.written,
                            am@.len() == na,
                            tm@.len() == nt,
                            em@.len() == ne,
                            dm@.len() == nd,
                            self.wf(),
                            nt == self.texts.held@.len(),
                            ne == self.exacts.held@.len(),
                            nd == self.decimals.held@.len(),
                            forall|j: int| 0 <= j < wa ==> am@[j],
                            forall|j: int| 0 <= j < self.texts.written ==> tm@[j],
                            forall|q: int|
                                0 <= q < grey@.len() ==> wa <= #[trigger] grey@[q] < na && am@[grey@[q] as int],
                            grey@.no_duplicates(),
                            forall|j: int, k2: int|
                                wa <= j < na && am@[j] && !grey@.contains(j as usize) && j != g
                                    && a0[j] is Some && 0 <= k2 < a0[j]->0.values@.len() ==> slot_marked(
                                    a0[j]->0,
                                    #[trigger] a0[j]->0.values@[k2],
                                    am@,
                                    tm@,
                                    em@,
                                    dm@,
                                ),
                            forall|k2: int|
                                0 <= k2 < k ==> slot_marked(
                                    a0[g as int]->0,
                                    #[trigger] a0[g as int]->0.values@[k2],
                                    am@,
                                    tm@,
                                    em@,
                                    dm@,
                                ),
                            forall|q: int| 0 <= q < roots@.len() ==> root_marked(#[trigger] roots@[q], am@, tm@, em@, dm@),
                            unset(am@) + grey@.len() <= measure,
                            forall|j: int| wa <= j < na && am@[j] ==> reached(a0, wa as int, roots@, j),
                            forall|t: int|
                                self.texts.written <= t < nt && tm@[t] ==> named(a0, wa as int, roots@, Kind::Text, Elements::Text, t),
                            forall|t: int| 0 <= t < ne && em@[t] ==> named(a0, wa as int, roots@, Kind::Exact, Elements::Exact, t),
                            forall|t: int| 0 <= t < nd && dm@[t] ==> named(a0, wa as int, roots@, Kind::Decimal, Elements::Decimal, t),
                            reached(a0, wa as int, roots@, g as int),
                            k <= object.values@.len(),
                        decreases object.values.len() - k,
                    {
                        let at = object.values[k] as usize;
                        if depth > 0 {
                            if at < na && !am[at] {
                                proof {
                                    lemma_unset_after_setting(am@, at as int);
                                }
                                let ghost grey_before = grey@;
                                let ghost am_before = am@;
                                proof {
                                    let p = choose|p: Seq<int>| #[trigger] reaches(a0, wa as int, roots@, p) && p.last() == g as int;
                                    let q = p.push(at as int);
                                    assert(index_of(a0[g as int]->0.values@[k as int]) == at);
                                    assert(step(a0, wa as int, g as int, at as int));
                                    assert forall|j: int| 0 <= j < q.len() - 1 implies step(a0, wa as int, #[trigger] q[j], q[j + 1]) by {
                                        if j < p.len() - 1 {
                                            assert(step(a0, wa as int, p[j], p[j + 1]));
                                        } else {
                                            assert(q[j] == g as int);
                                        }
                                    }
                                    assert(q[0] == p[0]);
                                    assert(reaches(a0, wa as int, roots@, q));
                                }
                                am.set(at, true);
                                grey.push(at);
                                proof {
                                    lemma_push_contains(grey_before, at, g);
                                    assert forall|j: int, k2: int|
                                        wa <= j < na && am@[j] && !grey@.contains(j as usize) && j != g
                                            && a0[j] is Some && 0 <= k2 < a0[j]->0.values@.len()
                                        implies slot_marked(
                                        a0[j]->0,
                                        #[trigger] a0[j]->0.values@[k2],
                                        am@,
                                        tm@,
                                        em@,
                                        dm@,
                                    ) by {
                                        lemma_push_contains(grey_before, at, j as usize);
                                        assert(slot_marked(a0[j]->0, a0[j]->0.values@[k2], am_before, tm@, em@, dm@));
                                    }
                                    assert(grey@.no_duplicates()) by {
                                        lemma_push_contains(grey_before, at, at);
                                        assert forall|a: int, b: int| 0 <= a < b < grey@.len() implies grey@[a]
                                            != grey@[b] by {
                                            if b == grey@.len() - 1 {
                                                assert(grey_before[a] == grey@[a]);
                                            }
                                        }
                                    }
                                }
                            }
                        } else {
                            proof {
                                assert(index_of(a0[g as int]->0.values@[k as int]) == at);
                            }
                            match holds {
                                Elements::Text => {
                                    if at < nt {
                                        tm.set(at, true);
                                    }
                                },
                                Elements::Exact => {
                                    if at < ne {
                                        em.set(at, true);
                                    }
                                },
                                Elements::Decimal => {
                                    if at < nd {
                                        dm.set(at, true);
                                    }
                                },
                                Elements::Values => {},
                            }
                        }
                        k = k + 1;
                    }
                }
            }
        }

        let ghost t0 = self.texts.held@;
        let ghost e0 = self.exacts.held@;
        let ghost d0 = self.decimals.held@;
        self.arrays.sweep(&am);
        self.texts.sweep(&tm);
        self.exacts.sweep(&em);
        self.decimals.sweep(&dm);

        proof {
            lemma_live_count_bounded(self.arrays.held@);
            lemma_live_count_bounded(self.texts.held@);
            lemma_live_count_bounded(self.exacts.held@);
            lemma_live_count_bounded(self.decimals.held@);
        }
        let (a, t, e) = self.live();
        let total = (a + t + e) * 2;
        self.allow = if total > FIRST {
            total
        } else {
            FIRST
        };
        self.since = 0;
        self.collections = self.collections + 1;
        proof {
            assert forall|i: int, k: int|
                old(self).arrays_written() <= i < self.arrays().len() && self.arrays()[i] is Some
                    && 0 <= k < self.arrays()[i]->0.values@.len() implies slot_kept(
                self.arrays()[i]->0,
                #[trigger] self.arrays()[i]->0.values@[k],
                *old(self),
                *self,
            ) by {
                assert(am@[i]);
                assert(self.arrays()[i] == a0[i]);
                assert(slot_marked(a0[i]->0, a0[i]->0.values@[k], am@, tm@, em@, dm@));
            }
            assert forall|q: int| 0 <= q < roots@.len() implies root_kept(
                #[trigger] roots@[q],
                *old(self),
                *self,
            ) by {
                assert(root_marked(roots@[q], am@, tm@, em@, dm@));
            }
            assert forall|i: int|
                old(self).arrays_written() <= i < self.arrays().len() && (#[trigger] self.arrays()[i]) is Some
                implies reached(old(self).arrays(), old(self).arrays_written(), roots@, i) by {
                assert(am@[i]);
            }
            assert forall|t: int|
                old(self).texts_written() <= t < self.texts().len() && (#[trigger] self.texts()[t]) is Some
                implies named(old(self).arrays(), old(self).arrays_written(), roots@, Kind::Text, Elements::Text, t) by {
                assert(tm@[t]);
            }
            assert forall|t: int|
                0 <= t < self.exacts().len() && (#[trigger] self.exacts()[t]) is Some
                implies named(old(self).arrays(), old(self).arrays_written(), roots@, Kind::Exact, Elements::Exact, t) by {
                assert(em@[t]);
            }
            assert forall|t: int|
                0 <= t < self.decimals().len() && (#[trigger] self.decimals()[t]) is Some
                implies named(old(self).arrays(), old(self).arrays_written(), roots@, Kind::Decimal, Elements::Decimal, t) by {
                assert(dm@[t]);
            }
        }
    }
}


/// The roots a list of packed roots stands for: each one that names a space, in order.
pub open spec fn unpacked_roots(packed: Seq<i64>) -> Seq<(Kind, i64)>
    decreases packed.len(),
{
    if packed.len() == 0 {
        Seq::empty()
    } else {
        let rest = unpacked_roots(packed.drop_last());
        match unpacked(packed.last()) {
            Some(root) => rest.push(root),
            None => rest,
        }
    }
}

impl<E, D> Heap<E, D> {
    /// Everything a set of packed roots reaches. What compiled code hands over.
    pub fn collect_packed(&mut self, packed: &[i64])
        requires
            old(self).wf(),
            old(self).collections_made() < usize::MAX,
            2 * (old(self).arrays().len() + old(self).texts().len() + old(self).exacts().len()
                + old(self).decimals().len()) <= usize::MAX,
        ensures
            final(self).wf(),
            collected(*old(self), *final(self), unpacked_roots(packed@)),
            final(self).since() == 0,
            final(self).allow() == ({
                let live = 2 * (live_count(final(self).arrays()) + live_count(final(self).texts())
                    + live_count(final(self).exacts()) + live_count(final(self).decimals()));
                if live > FIRST {
                    live as int
                } else {
                    FIRST as int
                }
            }),
            final(self).collections_made() == old(self).collections_made() + 1,
    {
        let mut roots: Vec<(Kind, i64)> = Vec::new();
        let mut i: usize = 0;
        assert(packed@.take(0) =~= Seq::<i64>::empty());
        while i < packed.len()
            invariant
                i <= packed@.len(),
                roots@ == unpacked_roots(packed@.take(i as int)),
            decreases packed.len() - i,
        {
            assert(packed@.take(i + 1).drop_last() =~= packed@.take(i as int));
            match unrooted(packed[i]) {
                Some(root) => roots.push(root),
                None => {},
            }
            i = i + 1;
        }
        assert(packed@.take(i as int) =~= packed@);
        self.collect(roots.as_slice());
    }
}

/// `path` is a chain of arrays the program made, each an array of arrays holding a handle
/// to the next.
pub open spec fn chain<E, D>(h: Heap<E, D>, path: Seq<int>) -> bool {
    links_on(h.arrays(), h.arrays_written(), path)
}

/// Nothing a root reaches is let go: every array at the end of a chain of made arrays that
/// starts at a root is still there after a collection, as it was.
pub proof fn law_nothing_reachable_is_freed<E, D>(
    before: Heap<E, D>,
    after: Heap<E, D>,
    roots: Seq<(Kind, i64)>,
    r: int,
    path: Seq<int>,
)
    requires
        collected(before, after, roots),
        0 <= r < roots.len(),
        roots[r].0 == Kind::Handle,
        path.len() > 0,
        path[0] == index_of(roots[r].1),
        chain(before, path),
    ensures
        forall|j: int| 0 <= j < path.len() ==> kept(before.arrays(), after.arrays(), #[trigger] path[j]),
{
    assert forall|j: int| 0 <= j < path.len() implies kept(
        before.arrays(),
        after.arrays(),
        #[trigger] path[j],
    ) by {
        lemma_chain_kept(before, after, roots, r, path, j);
    }
}

proof fn lemma_chain_kept<E, D>(
    before: Heap<E, D>,
    after: Heap<E, D>,
    roots: Seq<(Kind, i64)>,
    r: int,
    path: Seq<int>,
    j: int,
)
    requires
        collected(before, after, roots),
        0 <= r < roots.len(),
        roots[r].0 == Kind::Handle,
        path.len() > 0,
        path[0] == index_of(roots[r].1),
        chain(before, path),
        0 <= j < path.len(),
    ensures
        kept(before.arrays(), after.arrays(), path[j]),
    decreases j,
{
    if j == 0 {
        assert(root_kept(roots[r], before, after));
    } else {
        lemma_chain_kept(before, after, roots, r, path, j - 1);
        let a = path[j - 1];
        assert(step(before.arrays(), before.arrays_written(), path[j - 1], path[j - 1 + 1]));
        assert(j - 1 + 1 == j);
        assert(before.arrays_written() <= a < before.arrays().len());
        let o = before.arrays()[a]->0;
        let k = choose|k: int|
            0 <= k < before.arrays()[a]->0.values@.len() && index_of(
                #[trigger] before.arrays()[a]->0.values@[k],
            ) == path[j];
        assert(after.arrays()[a] == before.arrays()[a]);
        assert(slot_kept(after.arrays()[a]->0, after.arrays()[a]->0.values@[k], before, after));
    }
}


/// A collection lets go of exactly what nothing reaches: an array the program made, and
/// that was there, is there afterwards if and only if some chain from a root reaches it.
pub proof fn law_a_made_array_survives_exactly_when_reached<E, D>(
    before: Heap<E, D>,
    after: Heap<E, D>,
    roots: Seq<(Kind, i64)>,
    i: int,
)
    requires
        collected(before, after, roots),
        before.arrays_written() <= i < before.arrays().len(),
        before.arrays()[i] is Some,
    ensures
        after.arrays()[i] is Some <==> reached(before.arrays(), before.arrays_written(), roots, i),
{
    if reached(before.arrays(), before.arrays_written(), roots, i) {
        let path = choose|path: Seq<int>|
            #[trigger] reaches(before.arrays(), before.arrays_written(), roots, path) && path.last()
                == i;
        let r = choose|r: int|
            0 <= r < roots.len() && (#[trigger] roots[r]).0 == Kind::Handle && index_of(roots[r].1)
                == path[0];
        law_nothing_reachable_is_freed(before, after, roots, r, path);
        assert(kept(before.arrays(), after.arrays(), path[path.len() - 1]));
    }
}

} // verus!
