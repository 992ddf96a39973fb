//! Deferred commands: per-thread buffers of encoded commands, and the handles that systems use to
//! queue work on entities that may not exist yet.

use vstd::prelude::*;

use crate::entity::Entity;
use crate::handle::{EntityHandle, EntityIndex};

verus! {

/// Calls `Vec::capacity`.
///
/// Claimed, as `Vec` documents: the capacity is at least the length, and a vector of bytes never
/// holds more than `isize::MAX` bytes. The capacity itself is what the allocator handed out and
/// is not stated.
#[verifier::external_body]
fn vec_capacity(v: &Vec<u8>) -> (r: usize)
    ensures
        r >= v@.len(),
        r <= isize::MAX,
{
    v.capacity()
}

/// The byte offset of command `i`: the sum of the strides before it.
pub open spec fn offset(strides: Seq<usize>, i: int) -> int
    decreases i,
{
    if i <= 0 {
        0
    } else {
        offset(strides, i - 1) + strides[i - 1]
    }
}

/// Offsets grow along the commands, and appending a stride keeps the earlier offsets.
proof fn lemma_offset(strides: Seq<usize>, x: usize, i: int, j: int)
    requires
        0 <= i <= j <= strides.len(),
    ensures
        0 <= offset(strides, i) <= offset(strides, j),
        offset(strides.push(x), i) == offset(strides, i),
    decreases j,
{
    if i < j {
        lemma_offset(strides, x, i, j - 1);
    } else if i > 0 {
        lemma_offset(strides, x, i - 1, i - 1);
        assert(strides.push(x)[i - 1] == strides[i - 1]);
    }
}

/// A thread's buffer of commands, stored back to back as bytes, together with the counter that
/// numbers entities spawned by those commands.
///
/// Each command is an encoded record whose length is its stride: the number of bytes from its
/// start to the start of the next one.
pub struct LocalCommandBuffer {
    /// The next deferred entity number.
    next_deferred_id: u32,
    /// The encoded commands.
    commands: Vec<u8>,
    /// The stride of each command, in order.
    strides: Vec<usize>,
}

impl LocalCommandBuffer {
    /// The next deferred entity number.
    pub closed spec fn next_id(&self) -> u32 {
        self.next_deferred_id
    }

    /// The encoded commands, back to back.
    pub closed spec fn view(&self) -> Seq<u8> {
        self.commands@
    }

    /// The pending commands, each as its record.
    pub closed spec fn pending(&self) -> Seq<Seq<u8>> {
        Seq::new(
            self.strides@.len(),
            |i: int|
                self.commands@.subrange(
                    offset(self.strides@, i),
                    offset(self.strides@, i) + self.strides@[i],
                ),
        )
    }

    /// The strides add up to the bytes held.
    pub closed spec fn wf(&self) -> bool {
        offset(self.strides@, self.strides@.len() as int) == self.commands@.len()
    }

    /// Creates an empty buffer.
    pub fn new() -> (r: LocalCommandBuffer)
        ensures
            r.wf(),
            r.next_id() == 0,
            r@ == Seq::<u8>::empty(),
            r.pending() == Seq::<Seq<u8>>::empty(),
    {
        let r = LocalCommandBuffer { next_deferred_id: 0, commands: Vec::new(), strides: Vec::new() };
        assert(r.pending() =~= Seq::<Seq<u8>>::empty());
        r
    }

    /// Takes the pending commands out, in order, each as its record; the buffer is left empty.
    pub fn take_commands(&mut self) -> (r: Vec<Vec<u8>>)
        requires
            old(self).wf(),
        ensures
            final(self).wf(),
            r.deep_view() == old(self).pending(),
            final(self).pending() == Seq::<Seq<u8>>::empty(),
            final(self)@ == Seq::<u8>::empty(),
            final(self).next_id() == old(self).next_id(),
    {
        let ghost pend = self.pending();
        let ghost strides = self.strides@;
        let ghost bytes = self.commands@;
        let total = self.commands.len();
        let mut out: Vec<Vec<u8>> = Vec::new();
        let mut off: usize = 0;
        let mut i: usize = 0;
        while i < self.strides.len()
            invariant
                0 <= i <= strides.len(),
                self.strides@ == strides,
                self.commands@ == bytes,
                self.next_deferred_id == old(self).next_deferred_id,
                offset(strides, strides.len() as int) == bytes.len(),
                total == bytes.len(),
                pend == self.pending(),
                off == offset(strides, i as int),
                out@.len() == i,
                forall|j: int| 0 <= j < i ==> (#[trigger] out@[j])@ == pend[j],
            decreases strides.len() - i,
        {
            proof {
                lemma_offset(strides, 0, i as int + 1, strides.len() as int);
            }
            let stride = self.strides[i];
            let mut record: Vec<u8> = Vec::new();
            let mut k: usize = 0;
            while k < stride
                invariant
                    0 <= k <= stride,
                    self.commands@ == bytes,
                    off + stride <= bytes.len(),
                    total == bytes.len(),
                    record@ == bytes.subrange(off as int, off + k),
                decreases stride - k,
            {
                record.push(self.commands[off + k]);
                k = k + 1;
                assert(record@ =~= bytes.subrange(off as int, off + k));
            }
            out.push(record);
            off = off + stride;
            i = i + 1;
        }
        self.commands.clear();
        self.strides.clear();
        proof {
            assert forall|j: int| 0 <= j < out@.len() implies #[trigger] out.deep_view()[j] == pend[j] by {
                assert(out.deep_view()[j] =~= out@[j]@);
            }
            assert(out.deep_view() =~= pend);
            assert(self.pending() =~= Seq::<Seq<u8>>::empty());
        }
        out
    }

    /// Resets the buffer: the pending commands are handed back, in order, to be dropped without
    /// running, and deferred entities are numbered from zero again.
    pub fn reset(&mut self) -> (r: Vec<Vec<u8>>)
        requires
            old(self).wf(),
        ensures
            final(self).wf(),
            final(self).next_id() == 0,
            r.deep_view() == old(self).pending(),
            final(self).pending() == Seq::<Seq<u8>>::empty(),
            final(self)@ == Seq::<u8>::empty(),
    {
        self.next_deferred_id = 0;
        self.take_commands()
    }

    /// Makes room for `bytes` more bytes of commands.
    pub fn reserve(&mut self, bytes: usize)
        ensures
            final(self)@ == old(self)@,
            final(self).pending() == old(self).pending(),
            final(self).wf() == old(self).wf(),
            final(self).next_id() == old(self).next_id(),
    {
        self.commands.reserve(bytes);
    }

    /// Hands out the next deferred entity number.
    ///
    /// The counter must not be at `u32::MAX`.
    pub fn allocate_deferred_id(&mut self) -> (r: EntityIndex)
        requires
            old(self).next_id() < u32::MAX,
        ensures
            r.0 == old(self).next_id(),
            final(self).next_id() == old(self).next_id() + 1,
            final(self)@ == old(self)@,
            final(self).pending() == old(self).pending(),
            final(self).wf() == old(self).wf(),
    {
        let id = self.next_deferred_id;
        self.next_deferred_id = self.next_deferred_id + 1;
        EntityIndex(id)
    }

    /// The number of pending commands.
    pub fn pending_count(&self) -> (r: usize)
        ensures
            r == self.pending().len(),
    {
        self.strides.len()
    }

    /// The number of bytes that can be pushed before the buffer has to grow. How much room the
    /// allocator gave is not known; whatever it is, the bytes held and the spare room together
    /// stay within `isize::MAX`.
    pub fn spare_capacity_len(&self) -> (r: usize)
        ensures
            self@.len() + r <= isize::MAX,
    {
        vec_capacity(&self.commands) - self.commands.len()
    }

    /// Appends an encoded command record, whose length is its stride; where the spare room is
    /// too small, the buffer first grows by at least the record's size. The record is neither
    /// run nor dropped.
    pub fn push(&mut self, command: &[u8])
        requires
            old(self).wf(),
        ensures
            final(self).wf(),
            final(self)@ == old(self)@ + command@,
            final(self).pending() == old(self).pending().push(command@),
            final(self).next_id() == old(self).next_id(),
    {
        let size = command.len();
        if self.spare_capacity_len() < size {
            self.reserve(size);
        }
        let ghost before = self.commands@;
        let ghost old_pending = self.pending();
        let ghost strides = self.strides@;
        let ghost id = self.next_deferred_id;
        let mut i: usize = 0;
        while i < size
            invariant
                0 <= i <= size,
                self.next_deferred_id == id,
                self.strides@ == strides,
                size == command@.len(),
                self.commands@ == before + command@.subrange(0, i as int),
            decreases size - i,
        {
            self.commands.push(command[i]);
            i = i + 1;
            assert(self.commands@ =~= before + command@.subrange(0, i as int));
        }
        assert(command@.subrange(0, size as int) =~= command@);
        self.strides.push(size);
        proof {
            let n = strides.len() as int;
            lemma_offset(strides, size, n, n);
            assert(self.strides@[n] == size);
            assert forall|j: int| 0 <= j < n implies #[trigger] self.pending()[j] == old_pending[j] by {
                lemma_offset(strides, size, j, n);
                lemma_offset(strides, size, j + 1, n);
                assert(self.strides@[j] == strides[j]);
                assert(self.commands@.subrange(offset(strides, j), offset(strides, j) + strides[j])
                    =~= before.subrange(offset(strides, j), offset(strides, j) + strides[j]));
            }
            assert(self.pending()[n] =~= command@);
            assert(self.pending() =~= old_pending.push(command@));
        }
    }
}

impl Default for LocalCommandBuffer {
    fn default() -> (r: LocalCommandBuffer)
        ensures
            r.wf(),
            r.next_id() == 0,
            r@ == Seq::<u8>::empty(),
            r.pending() == Seq::<Seq<u8>>::empty(),
    {
        LocalCommandBuffer::new()
    }
}

/// A position in a command buffer.
pub struct CommandCursor<'b> {
    cursor: usize,
    buffer: &'b mut LocalCommandBuffer,
}

impl<'b> CommandCursor<'b> {
    /// A cursor at the start of `buffer`.
    pub fn from(buffer: &'b mut LocalCommandBuffer) -> (r: CommandCursor<'b>)
        ensures
            r.position() == 0,
    {
        CommandCursor { cursor: 0, buffer }
    }

    /// The byte offset of the cursor.
    pub closed spec fn position(&self) -> usize {
        self.cursor
    }
}

/// A system's access to its thread's command buffer.
pub struct Commands<'state>(pub(crate) &'state mut LocalCommandBuffer);

impl<'s> Commands<'s> {
    /// The buffer the commands go to.
    pub closed spec fn buffer(&self) -> LocalCommandBuffer {
        *self.0
    }

    /// A system's access to `buffer`.
    pub fn new(buffer: &'s mut LocalCommandBuffer) -> (r: Commands<'s>)
        ensures
            r.buffer() == *old(buffer),
    {
        Commands(buffer)
    }

    /// Starts commands for a new entity, numbered by the buffer's deferred counter.
    pub fn spawn_empty(&mut self) -> (r: EntityCommandsHandle)
        requires
            old(self).buffer().next_id() < u32::MAX,
        ensures
            r == EntityCommandsHandle::Deferred(EntityIndex(old(self).buffer().next_id())),
            final(self).buffer().next_id() == old(self).buffer().next_id() + 1,
            final(self).buffer()@ == old(self).buffer()@,
    {
        let id = self.0.allocate_deferred_id();
        EntityCommandsHandle::Deferred(id)
    }

    /// Starts commands for an existing entity.
    pub fn entity(&self, entity: Entity) -> (r: EntityCommandsHandle)
        ensures
            r == EntityCommandsHandle::Spawned(entity),
    {
        EntityCommandsHandle::Spawned(entity)
    }

    /// A diagnostic hook that does nothing.
    pub fn test(&self) {
    }
}

/// The entity that queued commands apply to.
#[derive(Debug, Clone, PartialEq, Eq, Structural)]
pub enum EntityCommandsHandle {
    /// An entity that exists.
    Spawned(Entity),
    /// An entity that is spawned by a command of this tick and has only a deferred number yet.
    Deferred(EntityIndex),
}

impl EntityCommandsHandle {
    /// Whether the entity is still to be spawned.
    pub fn deferred(&self) -> (r: bool)
        ensures
            r == (*self is Deferred),
    {
        match self {
            EntityCommandsHandle::Deferred(_) => true,
            EntityCommandsHandle::Spawned(_) => false,
        }
    }

    /// The handle of the entity, where it exists.
    pub fn handle(&self) -> (r: Option<EntityHandle>)
        ensures
            r == (match *self {
                EntityCommandsHandle::Spawned(e) => Some(e.handle),
                EntityCommandsHandle::Deferred(_) => None,
            }),
    {
        match self {
            EntityCommandsHandle::Spawned(e) => Some(e.handle),
            EntityCommandsHandle::Deferred(_) => None,
        }
    }
}

/// Metadata of an encoded command.
pub struct CommandMeta {}

/// A queue of encoded commands.
#[derive(Debug, Default)]
pub struct CommandQueue {
    bytes: Vec<u8>,
}

} // verus!
