//! The compressed form of a register array.
use crate::opcodes::{
    accepted, compress, compress_registers, compress_zeros, expand, expand_opcodes,
    lemma_expand_compress, MAX_CODED_RANK,
};
use crate::registers::{
    bounded, count_zeros, lemma_zero_count_bound, lemma_zeroed_statistics, zero_count, zeroed,
};
use vstd::prelude::*;

verus! {

/// A register array kept as an opcode stream, with the number of registers it covers and
/// the number of them that are not zero.
#[derive(Debug)]
pub struct CompressedList {
    count: u32,
    last: u32,
    bytes: Vec<u8>,
}

impl View for CompressedList {
    type V = Seq<u8>;

    /// The register array that the list stands for.
    open spec fn view(&self) -> Seq<u8> {
        match expand(self.encoded()) {
            Some(regs) => regs,
            None => Seq::empty(),
        }
    }
}

impl CompressedList {
    /// The opcode stream.
    pub closed spec fn encoded(&self) -> Seq<u8> {
        self.bytes@
    }

    /// The recorded number of registers.
    pub closed spec fn covered(&self) -> nat {
        self.last as nat
    }

    /// The recorded number of registers that are not zero.
    pub closed spec fn occupied(&self) -> nat {
        self.count as nat
    }

    /// The list holds the one opcode stream that `compress` gives for its array, and its
    /// two counters agree with that array.
    pub open spec fn wf(&self) -> bool {
        &&& bounded(self@, MAX_CODED_RANK as int)
        &&& self.encoded() == compress(self@)
        &&& self.covered() == self@.len()
        &&& self.occupied() + zero_count(self@) == self@.len()
    }

    /// A list of `size` registers that are all zero.
    pub fn new(size: usize) -> (list: CompressedList)
        requires
            size <= u32::MAX,
        ensures
            list.wf(),
            list@ == zeroed(size as nat),
    {
        let bytes = compress_zeros(size);
        proof {
            assert(bounded(zeroed(size as nat), MAX_CODED_RANK as int));
            lemma_expand_compress(zeroed(size as nat));
            lemma_zeroed_statistics(size as nat);
        }
        CompressedList { count: 0, last: size as u32, bytes }
    }

    /// The list that stands for `regs`.
    pub fn from_registers(regs: &[u8]) -> (list: CompressedList)
        requires
            regs.len() <= u32::MAX,
            bounded(regs@, MAX_CODED_RANK as int),
        ensures
            list.wf(),
            list@ == regs@,
    {
        let bytes = compress_registers(regs);
        let zeros = count_zeros(regs);
        proof {
            lemma_expand_compress(regs@);
            lemma_zero_count_bound(regs@);
        }
        CompressedList { count: (regs.len() - zeros) as u32, last: regs.len() as u32, bytes }
    }

    /// The register array that the list stands for.
    pub fn to_registers(&self) -> (regs: Vec<u8>)
        requires
            self.wf(),
        ensures
            regs@ == self@,
    {
        proof {
            lemma_expand_compress(self@);
            assert(accepted(self.encoded(), self.covered(), MAX_CODED_RANK as int) == Some(self@));
        }
        match expand_opcodes(self.bytes.as_slice(), self.last as usize, MAX_CODED_RANK) {
            Some(regs) => regs,
            None => Vec::new(),
        }
    }

    /// The opcode stream.
    pub fn as_bytes(&self) -> (bytes: &[u8])
        ensures
            bytes@ == self.encoded(),
    {
        self.bytes.as_slice()
    }

    /// The length of the opcode stream in bytes.
    pub fn encoded_len(&self) -> (len: usize)
        ensures
            len == self.encoded().len(),
    {
        self.bytes.len()
    }

    /// The number of registers.
    pub fn register_count(&self) -> (n: u32)
        requires
            self.wf(),
        ensures
            n == self@.len(),
    {
        self.last
    }

    /// The number of registers that hold 0.
    pub fn zeros(&self) -> (n: u32)
        requires
            self.wf(),
        ensures
            n == zero_count(self@),
    {
        proof {
            lemma_zero_count_bound(self@);
        }
        self.last - self.count
    }
}

} // verus!
