//! Where the bytes come from.

use crate::error::IoFault;
use vstd::prelude::*;
use vstd::slice::slice_to_vec;

verus! {

/// What a source does when it is asked for `len` of the bytes `before`: it
/// hands over the first `len` and keeps the others, or, where fewer are left,
/// reports that it has ended and keeps them all.
pub open spec fn hands_over(
    before: Seq<u8>,
    len: nat,
    taken: Result<Seq<u8>, IoFault>,
    after: Option<Seq<u8>>,
) -> bool {
    if len <= before.len() {
        taken == Ok::<Seq<u8>, IoFault>(before.take(len as int)) && after == Some(
            before.skip(len as int),
        )
    } else {
        taken == Err::<Seq<u8>, IoFault>(IoFault::UnexpectedEof) && after == Some(before)
    }
}

/// The bytes of a read, or the fault that it ended in.
pub open spec fn taken_view(taken: Result<Vec<u8>, IoFault>) -> Result<Seq<u8>, IoFault> {
    match taken {
        Ok(bytes) => Ok(bytes@),
        Err(fault) => Err(fault),
    }
}

/// The byte of a read of one, or the fault that it ended in.
pub open spec fn byte_view(taken: Result<u8, IoFault>) -> Result<Seq<u8>, IoFault> {
    match taken {
        Ok(byte) => Ok(seq![byte]),
        Err(fault) => Err(fault),
    }
}

/// A source of bytes that are read once, front to back.
///
/// A source whose bytes are known beforehand says so in `pending`, and its
/// reads are then held to `hands_over`: a read that fails takes no byte. A
/// source that cannot know what will come, a socket for one, keeps the
/// `pending` given here: nothing is stated of what it returns, and the
/// decoder makes no assumption about it.
pub trait ByteSource {
    /// The bytes still to be read, where the source knows them.
    open spec fn pending(&self) -> Option<Seq<u8>> {
        None
    }

    /// Reads one byte.
    fn read_u8(&mut self) -> (byte: Result<u8, IoFault>)
        ensures
            old(self).pending() matches Some(before) ==> hands_over(
                before,
                1,
                byte_view(byte),
                final(self).pending(),
            ),
    ;

    /// Reads exactly `len` bytes, or fails.
    fn read_exact(&mut self, len: usize) -> (taken: Result<Vec<u8>, IoFault>)
        ensures
            old(self).pending() matches Some(before) ==> hands_over(
                before,
                len as nat,
                taken_view(taken),
                final(self).pending(),
            ),
    ;
}

/// A source over bytes held in memory. A read that asks for more bytes than
/// are left fails and takes none.
#[derive(Debug)]
pub struct Buffer {
    data: Vec<u8>,
    position: usize,
}

impl Buffer {
    #[verifier::type_invariant]
    spec fn in_bounds(self) -> bool {
        self.position <= self.data.len()
    }

    /// The bytes not yet read.
    pub closed spec fn unread(&self) -> Seq<u8> {
        self.data@.skip(self.position as int)
    }

    /// A source that will hand over `data`, first byte first.
    pub fn new(data: Vec<u8>) -> (buffer: Self)
        ensures
            buffer.unread() == data@,
    {
        Buffer { data, position: 0 }
    }

    /// A source that will hand over a copy of `data`.
    pub fn from_slice(data: &[u8]) -> (buffer: Self)
        ensures
            buffer.unread() == data@,
    {
        Buffer { data: slice_to_vec(data), position: 0 }
    }

    /// The number of bytes not yet read.
    pub fn remaining(&self) -> (count: usize)
        ensures
            count == self.unread().len(),
    {
        proof {
            use_type_invariant(self);
        }
        self.data.len() - self.position
    }
}

impl ByteSource for Buffer {
    open spec fn pending(&self) -> Option<Seq<u8>> {
        Some(self.unread())
    }

    fn read_u8(&mut self) -> (byte: Result<u8, IoFault>) {
        proof {
            use_type_invariant(&*self);
        }
        if self.position < self.data.len() {
            let byte = self.data[self.position];
            self.position = self.position + 1;
            proof {
                assert(old(self).unread().take(1) =~= seq![byte]);
                assert(self.unread() =~= old(self).unread().skip(1));
            }
            Ok(byte)
        } else {
            Err(IoFault::UnexpectedEof)
        }
    }

    fn read_exact(&mut self, len: usize) -> (taken: Result<Vec<u8>, IoFault>) {
        proof {
            use_type_invariant(&*self);
        }
        if len > self.data.len() - self.position {
            return Err(IoFault::UnexpectedEof);
        }
        let end = self.position + len;
        let mut taken: Vec<u8> = Vec::new();
        let mut i = self.position;
        while i < end
            invariant
                self.position <= i <= end <= self.data.len(),
                taken@ == self.data@.subrange(self.position as int, i as int),
            decreases end - i,
        {
            taken.push(self.data[i]);
            i = i + 1;
        }
        self.position = end;
        proof {
            assert(taken@ =~= old(self).unread().take(len as int));
            assert(self.unread() =~= old(self).unread().skip(len as int));
        }
        Ok(taken)
    }
}

} // verus!
