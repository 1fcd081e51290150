//! The byte encoding of an estimator.
//!
//! Two header bytes, the precision and the mode (`0` dense, `1` sparse), are followed by
//! the body: in dense mode one byte per register in register order, in sparse mode the
//! opcode stream of the register array.
use crate::bits::{lemma_index_bounds, max_rank, register_count, valid_precision};
use crate::bits::{MAX_PRECISION, MIN_PRECISION};
use crate::hll::{lemma_raised_nothing, Hll, HllError};
use crate::opcodes::{accepted, compress, expand_opcodes, lemma_expand_compress, MAX_CODED_RANK};
use crate::registers::{bounded, within};
use vstd::prelude::*;
use vstd::slice::slice_subrange;

verus! {

/// The mode byte of a dense estimator.
pub const DENSE_MODE: u8 = 0;

/// The mode byte of a sparse estimator.
pub const SPARSE_MODE: u8 = 1;

/// The encoding of an estimator of precision `p` that holds `regs`, in the given mode.
pub open spec fn wire(p: u8, dense: bool, regs: Seq<u8>) -> Seq<u8> {
    if dense {
        seq![p, DENSE_MODE] + regs
    } else {
        seq![p, SPARSE_MODE] + compress(regs)
    }
}

/// What a reader takes from `bytes`: the precision, whether the mode is dense, and the
/// register array. `None` where `bytes` is no encoding: the header is cut short, the
/// precision or the mode is out of range, the body does not stand for exactly `2^p`
/// registers, or a register exceeds the largest rank of that precision.
pub open spec fn parsed(bytes: Seq<u8>) -> Option<(u8, bool, Seq<u8>)> {
    if bytes.len() < 2 || !valid_precision(bytes[0]) {
        None
    } else if bytes[1] == DENSE_MODE {
        let body = bytes.skip(2);
        if body.len() == register_count(bytes[0]) && bounded(body, max_rank(bytes[0])) {
            Some((bytes[0], true, body))
        } else {
            None
        }
    } else if bytes[1] == SPARSE_MODE {
        match accepted(bytes.skip(2), register_count(bytes[0]), max_rank(bytes[0])) {
            Some(regs) => Some((bytes[0], false, regs)),
            None => None,
        }
    } else {
        None
    }
}

/// Reading an encoding gives back the precision, the mode and every register.
pub proof fn lemma_parsed_wire(p: u8, dense: bool, regs: Seq<u8>)
    requires
        valid_precision(p),
        regs.len() == register_count(p),
        bounded(regs, max_rank(p)),
    ensures
        parsed(wire(p, dense, regs)) == Some((p, dense, regs)),
{
    let bytes = wire(p, dense, regs);
    if dense {
        assert(bytes.skip(2) =~= regs);
    } else {
        assert(bytes.skip(2) =~= compress(regs));
        assert forall|i: int| 0 <= i < regs.len() implies #[trigger] regs[i]
            <= MAX_CODED_RANK by {
            assert(regs[i] <= max_rank(p));
        }
        lemma_expand_compress(regs);
    }
}

impl Hll {
    /// What a reader makes of `bytes`: an estimator of the precision and with the registers
    /// that `bytes` encode, with nothing pending, dense where the encoding is dense or
    /// where the compressed array is not smaller than the flat one.
    pub open spec fn decodes_to(bytes: Seq<u8>, out: Hll) -> bool {
        &&& parsed(bytes) matches Some((p, dense, regs))
        &&& out.p() == p
        &&& out@ == regs
        &&& out.pending() == Map::<u32, u8>::empty()
        &&& out.dense() <==> dense || compress(regs).len() >= register_count(p)
    }

    /// Flushes the estimator and writes it as bytes.
    pub fn encode(&mut self) -> (out: Vec<u8>)
        requires
            old(self).wf(),
        ensures
            final(self).wf(),
            final(self)@ == old(self)@,
            Hll::flushes_to(*old(self), *final(self)),
            out@ == wire(final(self).p(), final(self).dense(), final(self)@),
    {
        self.flush();
        let mut out: Vec<u8> = Vec::new();
        out.push(self.precision());
        match self {
            Hll::Sparse { list, .. } => {
                out.push(SPARSE_MODE);
                out.extend_from_slice(list.as_bytes());
            },
            Hll::Dense { registers, .. } => {
                out.push(DENSE_MODE);
                out.extend_from_slice(registers.as_slice());
            },
        }
        proof {
            assert(out@ =~= wire(self.p(), self.dense(), self@));
        }
        out
    }

    /// Reads an estimator from its bytes.
    ///
    /// A dense encoding gives a dense estimator. A sparse encoding gives a sparse one unless
    /// its compressed array is not smaller than the flat one: then the estimator is dense.
    pub fn decode(bytes: &[u8]) -> (out: Result<Hll, HllError>)
        ensures
            match out {
                Ok(hll) => hll.wf() && Hll::decodes_to(bytes@, hll),
                Err(e) => parsed(bytes@) is None && e == HllError::MalformedEncoding,
            },
    {
        if bytes.len() < 2 {
            return Err(HllError::MalformedEncoding);
        }
        let p: u8 = bytes[0];
        if p > MAX_PRECISION || p < MIN_PRECISION {
            return Err(HllError::MalformedEncoding);
        }
        let mode: u8 = bytes[1];
        proof {
            lemma_index_bounds(0, p);
            vstd::bits::lemma_u32_shl_is_mul(1, p as u32);
            assert(bytes@.skip(2) =~= bytes@.subrange(2, bytes@.len() as int));
        }
        let m: u32 = 1u32 << p as u32;
        let limit: u8 = 65 - p;
        let body = slice_subrange(bytes, 2, bytes.len());
        if mode == DENSE_MODE {
            if body.len() != m as usize || !within(body, limit) {
                return Err(HllError::MalformedEncoding);
            }
            let registers = vstd::slice::slice_to_vec(body);
            proof {
                lemma_raised_nothing(registers@);
            }
            Ok(Hll::Dense { m, p, registers })
        } else if mode == SPARSE_MODE {
            match expand_opcodes(body, m as usize, limit) {
                Some(regs) => {
                    proof {
                        lemma_raised_nothing(regs@);
                    }
                    Ok(Hll::hold(p, m, regs))
                },
                None => Err(HllError::MalformedEncoding),
            }
        } else {
            Err(HllError::MalformedEncoding)
        }
    }
}

} // verus!
