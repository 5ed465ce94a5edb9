//! Newline framing of a client's byte stream: reads are cut wherever the
//! transport delivers them, so bytes are buffered across reads and handed on
//! one line at a time. A line that grows to `BUF_SIZE` bytes without a
//! newline is handed on as it stands, so the buffer stays bounded.

use vstd::prelude::*;
use crate::session::BUF_SIZE;

verus! {

/// One framed line: it ends at its first newline, or it is `BUF_SIZE` bytes
/// holding none.
pub open spec fn is_line(l: Seq<u8>) -> bool {
    ||| {
        &&& 0 < l.len() <= BUF_SIZE
        &&& l.last() == 10u8
        &&& forall|i: int| 0 <= i < l.len() - 1 ==> l[i] != 10u8
    }
    ||| {
        &&& l.len() == BUF_SIZE
        &&& forall|i: int| 0 <= i < l.len() ==> l[i] != 10u8
    }
}

/// Bytes still waiting for the end of their line.
pub open spec fn is_partial(p: Seq<u8>) -> bool {
    &&& p.len() < BUF_SIZE
    &&& forall|i: int| 0 <= i < p.len() ==> p[i] != 10u8
}

/// The lines put back together.
pub open spec fn joined(ls: Seq<Vec<u8>>) -> Seq<u8>
    decreases ls.len(),
{
    if ls.len() == 0 {
        Seq::empty()
    } else {
        joined(ls.drop_last()) + ls.last()@
    }
}

/// Buffers the bytes of one connection until a line is complete.
pub struct LineFramer {
    pending: Vec<u8>,
}

impl LineFramer {
    pub closed spec fn pending(self) -> Seq<u8> {
        self.pending@
    }

    pub open spec fn wf(self) -> bool {
        is_partial(self.pending())
    }

    pub fn new() -> (r: LineFramer)
        ensures
            r.wf(),
            r.pending() == Seq::<u8>::empty(),
    {
        LineFramer { pending: Vec::new() }
    }

    /// Takes the bytes of one read and returns the lines they complete, in
    /// order. The lines followed by what stays pending are exactly the bytes
    /// that were pending followed by `chunk`.
    pub fn push(&mut self, chunk: &[u8]) -> (lines: Vec<Vec<u8>>)
        requires
            old(self).wf(),
        ensures
            final(self).wf(),
            joined(lines@) + final(self).pending() == old(self).pending() + chunk@,
            forall|i: int| 0 <= i < lines@.len() ==> is_line(#[trigger] lines@[i]@),
    {
        let ghost input = self.pending@ + chunk@;
        let mut cur: Vec<u8> = Vec::new();
        std::mem::swap(&mut cur, &mut self.pending);
        let mut lines: Vec<Vec<u8>> = Vec::new();
        let mut k: usize = 0;
        proof {
            assert(input.subrange(0, old(self).pending@.len() as int) =~= cur@);
        }
        while k < chunk.len()
            invariant
                k <= chunk@.len(),
                input == old(self).pending@ + chunk@,
                is_partial(cur@),
                joined(lines@) + cur@ == input.subrange(0, old(self).pending@.len() + k),
                forall|i: int| 0 <= i < lines@.len() ==> is_line(#[trigger] lines@[i]@),
            decreases chunk@.len() - k,
        {
            let b = chunk[k];
            let ghost before = cur@;
            cur.push(b);
            proof {
                assert(input.subrange(0, old(self).pending@.len() + k + 1)
                    =~= input.subrange(0, old(self).pending@.len() + k).push(b));
                assert(joined(lines@) + cur@ =~= (joined(lines@) + before).push(b));
            }
            if b == 10u8 || cur.len() == BUF_SIZE {
                let ghost old_lines = lines@;
                let mut line: Vec<u8> = Vec::new();
                std::mem::swap(&mut line, &mut cur);
                lines.push(line);
                proof {
                    assert(lines@.drop_last() =~= old_lines);
                    assert(joined(lines@) == joined(old_lines) + line@);
                    assert(cur@ =~= Seq::<u8>::empty());
                    assert(joined(lines@) + cur@ =~= joined(old_lines) + line@);
                    assert forall|i: int| 0 <= i < lines@.len() implies is_line(#[trigger] lines@[i]@) by {
                        if i < old_lines.len() {
                            assert(lines@[i] == old_lines[i]);
                        }
                    };
                }
            }
            k = k + 1;
        }
        self.pending = cur;
        proof {
            assert(input.subrange(0, input.len() as int) =~= input);
        }
        lines
    }

    /// Hands back what is pending, once the stream has ended, and empties
    /// the buffer.
    pub fn finish(&mut self) -> (rest: Vec<u8>)
        requires
            old(self).wf(),
        ensures
            final(self).wf(),
            rest@ == old(self).pending(),
            final(self).pending() == Seq::<u8>::empty(),
    {
        let mut rest: Vec<u8> = Vec::new();
        std::mem::swap(&mut rest, &mut self.pending);
        rest
    }
}

} // verus!
