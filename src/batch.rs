//! The ID plan: the ID space is cut into batches of a fixed span; batch `b`
//! covers the half-open range `[b * span, b * span + span)`, and ID 0 is
//! never asked for.
use vstd::prelude::*;

verus! {

/// Number of IDs in one batch.
pub const BATCH_SPAN: u32 = 10000;

/// Number of batches that a full run launches.
pub const BATCH_COUNT: u32 = 110;

/// The IDs of `[lo, hi)` in increasing order, with ID 0 left out.
pub open spec fn ids_between(lo: int, hi: int) -> Seq<int> {
    let start = if lo == 0 { 1 } else { lo };
    if start < hi {
        Seq::new((hi - start) as nat, |i: int| start + i)
    } else {
        Seq::empty()
    }
}

/// The IDs that batch `b` asks for, in the order it asks for them.
pub open spec fn batch_ids_spec(b: nat, span: nat) -> Seq<int> {
    ids_between((b * span) as int, (b * span + span) as int)
}

/// The batch that owns `id`, for a positive span.
pub open spec fn batch_of(id: nat, span: nat) -> nat
    recommends
        span > 0,
{
    id / span
}

/// Position of a batch's loop: the batch, its span, and the next offset.
pub struct BatchCursor {
    pub batch: u32,
    pub span: u32,
    pub offset: u32,
}

impl BatchCursor {
    /// First ID of the batch.
    pub open spec fn base(&self) -> int {
        self.batch as int * self.span as int
    }

    /// The batch's range fits in `u32` and the offset stays within it.
    pub open spec fn wf(&self) -> bool {
        &&& self.base() + self.span <= u32::MAX
        &&& self.offset <= self.span
    }

    /// The IDs still to be asked for, in order.
    pub open spec fn pending(&self) -> Seq<int> {
        ids_between(self.base() + self.offset, self.base() + self.span)
    }

    /// A cursor at the start of batch `batch`.
    pub fn new(batch: u32, span: u32) -> (r: BatchCursor)
        requires
            batch as int * span as int + span as int <= u32::MAX,
        ensures
            r.wf(),
            r.batch == batch,
            r.span == span,
            r.pending() == batch_ids_spec(batch as nat, span as nat),
    {
        BatchCursor { batch, span, offset: 0 }
    }

    /// The next ID to fetch, or `None` once the batch is done. The cursor
    /// moves past the returned ID whatever became of an earlier fetch.
    pub fn next_id(&mut self) -> (r: Option<u32>)
        requires
            old(self).wf(),
        ensures
            final(self).wf(),
            final(self).batch == old(self).batch,
            final(self).span == old(self).span,
            old(self).pending().len() == 0 ==> r.is_none() && final(self).pending().len() == 0,
            old(self).pending().len() > 0 ==> r == Some(old(self).pending()[0] as u32)
                && final(self).pending() == old(self).pending().drop_first(),
    {
        proof {
            assert(self.base() <= u32::MAX) by (nonlinear_arith)
                requires
                    self.base() + self.span <= u32::MAX,
                    self.span >= 0,
            ;
        }
        let base: u32 = self.batch * self.span;
        if self.offset < self.span && base + self.offset == 0 {
            self.offset = 1;
        }
        if self.offset >= self.span {
            proof {
                assert(self.pending() =~= Seq::<int>::empty());
            }
            return None;
        }
        let id: u32 = base + self.offset;
        let ghost before = old(self).pending();
        self.offset = self.offset + 1;
        proof {
            assert(self.pending() =~= before.drop_first());
        }
        Some(id)
    }
}

/// Every ID of a batch in the order the batch asks for them.
pub fn batch_ids(batch: u32, span: u32) -> (r: Vec<u32>)
    requires
        batch as int * span as int + span as int <= u32::MAX,
    ensures
        r@.len() == batch_ids_spec(batch as nat, span as nat).len(),
        forall|i: int| 0 <= i < r@.len() ==> r@[i] as int == batch_ids_spec(batch as nat, span as nat)[i],
{
    let mut c = BatchCursor::new(batch, span);
    let mut out: Vec<u32> = Vec::new();
    let ghost all = batch_ids_spec(batch as nat, span as nat);
    loop
        invariant
            all == batch_ids_spec(batch as nat, span as nat),
            c.wf(),
            c.batch == batch,
            c.span == span,
            out@.len() + c.pending().len() == all.len(),
            forall|i: int| 0 <= i < out@.len() ==> out@[i] as int == all[i],
            forall|i: int| 0 <= i < c.pending().len() ==> c.pending()[i] == all[out@.len() + i],
        decreases c.pending().len(),
    {
        let ghost p = c.pending();
        match c.next_id() {
            None => {
                return out;
            },
            Some(id) => {
                out.push(id);
                proof {
                    assert forall|i: int| 0 <= i < c.pending().len() implies c.pending()[i]
                        == all[out@.len() + i] by {
                        assert(c.pending()[i] == p[i + 1]);
                    }
                }
            },
        }
    }
}

/// An ID is asked for by batch `b` exactly when it lies in the batch's
/// range and is not 0.
pub proof fn lemma_batch_contains(b: nat, span: nat, id: int)
    ensures
        batch_ids_spec(b, span).contains(id) <==> (b * span <= id < b * span + span && id != 0),
{
    let s = batch_ids_spec(b, span);
    let lo = (b * span) as int;
    let start = if lo == 0 { 1 } else { lo };
    if lo <= id < lo + span && id != 0 {
        assert(s[id - start] == id);
    }
}

/// Within a batch the IDs come in strictly increasing order, each one
/// more than the one before it: once `x` has been asked for, whatever its
/// fetch gave, the next ID asked for is `x + 1`, up to the batch's end.
pub proof fn lemma_attempts_continue(b: nat, span: nat, k: int)
    requires
        0 <= k,
        k + 1 < batch_ids_spec(b, span).len(),
    ensures
        batch_ids_spec(b, span)[k + 1] == batch_ids_spec(b, span)[k] + 1,
        forall|i: int, j: int|
            0 <= i < j < batch_ids_spec(b, span).len() ==> batch_ids_spec(b, span)[i] < batch_ids_spec(
                b,
                span,
            )[j],
{
}

/// Over `batches` batches of a positive span, the IDs asked for are exactly
/// `1 .. batches * span`, each by one batch only (the batch `id / (span as int)`).
pub proof fn lemma_batches_partition(batches: nat, span: nat, id: int)
    requires
        span > 0,
    ensures
        (exists|b: nat| b < batches && #[trigger] batch_ids_spec(b, span).contains(id)) <==> (1 <= id
            < batches * span),
        forall|b: nat| #[trigger] batch_ids_spec(b, span).contains(id) ==> b == batch_of(id as nat, span),
{
    assert forall|b: nat| #[trigger] batch_ids_spec(b, span).contains(id) implies (b == batch_of(
        id as nat,
        span,
    ) && (b < batches <==> id < batches * span) && id > 0) by {
        lemma_batch_contains(b, span, id);
        let q = id / (span as int);
        assert(b * span <= id < b * span + span);
        assert(q * span <= id < q * span + span) by (nonlinear_arith)
            requires
                q == id / (span as int),
                span > 0,
                id >= 0,
        ;
        assert(b == q) by (nonlinear_arith)
            requires
                b * span <= id < b * span + span,
                q * span <= id < q * span + span,
                span > 0,
        ;
        assert(b < batches <==> id < batches * span) by (nonlinear_arith)
            requires
                b * span <= id < b * span + span,
                span > 0,
        ;
    }
    if 1 <= id < batches * span {
        let q = (id / (span as int)) as nat;
        assert(q * span <= id < q * span + span) by (nonlinear_arith)
            requires
                q == id / (span as int),
                span > 0,
                id >= 0,
        ;
        assert(q < batches) by (nonlinear_arith)
            requires
                q * span <= id,
                id < batches * span,
                span > 0,
        ;
        lemma_batch_contains(q, span, id);
        assert(q < batches && batch_ids_spec(q, span).contains(id));
    }
    if exists|b: nat| b < batches && #[trigger] batch_ids_spec(b, span).contains(id) {
        let b = choose|b: nat| b < batches && #[trigger] batch_ids_spec(b, span).contains(id);
        lemma_batch_contains(b, span, id);
    }
}

} // verus!
