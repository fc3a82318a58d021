//! User buffers as the address translator hands them to the syscall layer: a
//! caller's logical byte run, split into contiguous kernel-visible ranges
//! (one per page crossing). Assembling them in order must be lossless.

use vstd::prelude::*;

verus! {

/// A translated user buffer: the ranges, in the order of the caller's
/// logical addresses.
pub struct UserBuffer {
    pub ranges: Vec<Vec<u8>>,
}

/// A list of byte ranges, as a sequence of byte sequences.
pub open spec fn ranges_view(rs: Seq<Vec<u8>>) -> Seq<Seq<u8>> {
    Seq::new(rs.len(), |i: int| rs[i]@)
}

impl View for UserBuffer {
    type V = Seq<Seq<u8>>;

    open spec fn view(&self) -> Seq<Seq<u8>> {
        ranges_view(self.ranges@)
    }
}

impl UserBuffer {
    /// The buffer's logical contents: the ranges in order, as one sequence.
    pub open spec fn flat(self) -> Seq<u8> {
        self@.flatten()
    }

    /// Wraps the translator's ranges.
    pub fn new(ranges: Vec<Vec<u8>>) -> (r: UserBuffer)
        ensures
            r@ == ranges_view(ranges@),
    {
        UserBuffer { ranges }
    }
}

/// Peeling one range off the flattening of a suffix.
pub proof fn lemma_flatten_skip_step(s: Seq<Seq<u8>>, i: int)
    requires
        0 <= i < s.len(),
    ensures
        s.skip(i).flatten() == s[i] + s.skip(i + 1).flatten(),
{
    assert(s.skip(i).len() > 0);
    assert(s.skip(i).first() == s[i]);
    assert(s.skip(i).drop_first() =~= s.skip(i + 1));
}

/// Copies a buffer's ranges, in order, into one contiguous byte vector.
pub fn flatten_buffer(buf: &UserBuffer) -> (r: Vec<u8>)
    ensures
        r@ == buf.flat(),
{
    let mut r: Vec<u8> = Vec::new();
    let mut i: usize = 0;
    proof {
        assert(buf@.take(0) =~= Seq::<Seq<u8>>::empty());
        assert(buf@.take(0).flatten() =~= Seq::<u8>::empty());
    }
    while i < buf.ranges.len()
        invariant
            i <= buf.ranges.len(),
            r@ == buf@.take(i as int).flatten(),
        decreases buf.ranges.len() - i,
    {
        let range = &buf.ranges[i];
        let mut j: usize = 0;
        while j < range.len()
            invariant
                i < buf.ranges.len(),
                j <= range.len(),
                range == &buf.ranges[i as int],
                r@ == buf@.take(i as int).flatten() + range@.take(j as int),
            decreases range.len() - j,
        {
            r.push(range[j]);
            j += 1;
            assert(range@.take(j as int) =~= range@.take(j - 1).push(range@[j - 1]));
        }
        proof {
            buf@.lemma_take_succ_push(i as int);
            buf@.take(i as int).lemma_flatten_push(buf@[i as int]);
            assert(range@.take(range@.len() as int) =~= range@);
            assert(buf@[i as int] == range@);
        }
        i += 1;
    }
    proof {
        assert(buf@.take(buf@.len() as int) =~= buf@);
    }
    r
}

} // verus!
