//! Batching decisions of a span-sending client.
//!
//! An instrumented process buffers the spans it finishes and ships them in
//! batches: a batch goes out as soon as it reaches the configured size, and
//! whatever is buffered goes out on a timer tick or at shutdown. The
//! decisions live here; the I/O loop around them (channels, timers, the
//! actual send) belongs to the client shell driving this type.

use vstd::prelude::*;

use crate::model::Span;
use crate::trace::views_of;

verus! {

/// The buffer between finished spans and the wire.
#[derive(Debug)]
pub struct SpanBatcher {
    /// A batch is shipped as soon as it holds this many spans.
    batch_size: usize,
    buf: Vec<Span>,
}

impl SpanBatcher {
    /// The buffer never reaches the batch size between calls.
    pub open spec fn wf(&self) -> bool {
        &&& self.spec_batch_size() >= 1
        &&& self.buffered().len() < self.spec_batch_size()
    }

    /// The configured batch size.
    pub closed spec fn spec_batch_size(&self) -> usize {
        self.batch_size
    }

    /// The spans buffered so far, in arrival order.
    pub closed spec fn buffered(&self) -> Seq<crate::model::SpanV> {
        views_of(self.buf@)
    }

    /// An empty batcher shipping batches of the given size.
    pub fn new(batch_size: usize) -> (r: SpanBatcher)
        requires
            batch_size >= 1,
        ensures
            r.wf(),
            r.spec_batch_size() == batch_size,
            r.buffered() == Seq::<crate::model::SpanV>::empty(),
    {
        let r = SpanBatcher { batch_size, buf: Vec::new() };
        proof {
            assert(r.buffered() =~= Seq::<crate::model::SpanV>::empty());
        }
        r
    }

    /// Buffer one span; hands back a full batch, in arrival order, the
    /// moment the buffer reaches the batch size.
    pub fn push(&mut self, span: Span) -> (r: Option<Vec<Span>>)
        requires
            old(self).wf(),
        ensures
            final(self).wf(),
            final(self).spec_batch_size() == old(self).spec_batch_size(),
            match r {
                Some(batch) => views_of(batch@) == old(self).buffered().push(span@)
                    && batch@.len() == old(self).spec_batch_size() && final(self).buffered()
                    == Seq::<crate::model::SpanV>::empty(),
                None => final(self).buffered() == old(self).buffered().push(span@)
                    && final(self).buffered().len() < old(self).spec_batch_size(),
            },
    {
        let ghost b0 = self.buffered();
        self.buf.push(span);
        proof {
            assert(self.buffered() =~= b0.push(span@));
        }
        if self.buf.len() >= self.batch_size {
            let mut out: Vec<Span> = Vec::new();
            core::mem::swap(&mut out, &mut self.buf);
            proof {
                assert(self.buffered() =~= Seq::<crate::model::SpanV>::empty());
            }
            Some(out)
        } else {
            None
        }
    }

    /// Ship whatever is buffered — the timer tick and the shutdown flush —
    /// or nothing when the buffer is empty.
    pub fn flush(&mut self) -> (r: Option<Vec<Span>>)
        requires
            old(self).wf(),
        ensures
            final(self).wf(),
            final(self).spec_batch_size() == old(self).spec_batch_size(),
            final(self).buffered() == Seq::<crate::model::SpanV>::empty(),
            match r {
                Some(batch) => views_of(batch@) == old(self).buffered() && batch@.len() > 0,
                None => old(self).buffered().len() == 0,
            },
    {
        if self.buf.len() == 0 {
            proof {
                assert(self.buffered() =~= Seq::<crate::model::SpanV>::empty());
            }
            return None;
        }
        let mut out: Vec<Span> = Vec::new();
        core::mem::swap(&mut out, &mut self.buf);
        proof {
            assert(self.buffered() =~= Seq::<crate::model::SpanV>::empty());
        }
        Some(out)
    }
}

} // verus!
