//! Cutting a sample stream into overlapping frames of fixed size.

use vstd::prelude::*;

verus! {

/// Why a framer cannot be built from a pair of sizes.
#[derive(Clone, Copy, Debug, PartialEq, Eq, Structural)]
pub enum ConfigurationError {
    /// The frame size is zero.
    EmptyFrame,
    /// The hop is zero, or longer than a frame.
    HopOutOfRange,
}

/// Whether frames of `frame` samples can be cut every `hop` samples.
pub open spec fn valid_sizes(frame: nat, hop: nat) -> bool {
    0 < hop <= frame
}

/// The frames that a stream holds: one frame of `frame` samples at every
/// multiple of `hop`, as long as a whole frame fits.
pub open spec fn frames_of(stream: Seq<i16>, frame: nat, hop: nat) -> Seq<Seq<i16>>
    decreases stream.len(),
{
    if valid_sizes(frame, hop) && stream.len() >= frame {
        seq![stream.take(frame as int)] + frames_of(stream.skip(hop as int), frame, hop)
    } else {
        Seq::empty()
    }
}

/// What is left of a stream once its frames are cut: the samples from the
/// start of the first frame that is not yet complete.
pub open spec fn leftover(stream: Seq<i16>, frame: nat, hop: nat) -> Seq<i16>
    decreases stream.len(),
{
    if valid_sizes(frame, hop) && stream.len() >= frame {
        leftover(stream.skip(hop as int), frame, hop)
    } else {
        stream
    }
}

/// How many frames a stream of `len` samples holds.
pub open spec fn frame_count(len: nat, frame: nat, hop: nat) -> nat {
    if valid_sizes(frame, hop) && len >= frame {
        ((len - frame) / (hop as int) + 1) as nat
    } else {
        0
    }
}

/// The contents of a list of frames.
pub open spec fn frame_views(frames: Seq<Vec<i16>>) -> Seq<Seq<i16>> {
    frames.map_values(|f: Vec<i16>| f@)
}

/// A stream shorter than a frame holds no frame and is left over whole.
pub proof fn lemma_short_stream(stream: Seq<i16>, frame: nat, hop: nat)
    requires
        stream.len() < frame || !valid_sizes(frame, hop),
    ensures
        frames_of(stream, frame, hop) == Seq::<Seq<i16>>::empty(),
        leftover(stream, frame, hop) == stream,
{
}

/// What is left over is always shorter than a frame.
pub proof fn lemma_leftover_short(stream: Seq<i16>, frame: nat, hop: nat)
    requires
        valid_sizes(frame, hop),
    ensures
        leftover(stream, frame, hop).len() < frame,
    decreases stream.len(),
{
    if stream.len() >= frame {
        lemma_leftover_short(stream.skip(hop as int), frame, hop);
    }
}

/// A stream of exactly one frame holds exactly that frame.
pub proof fn lemma_one_frame(stream: Seq<i16>, frame: nat, hop: nat)
    requires
        valid_sizes(frame, hop),
        stream.len() == frame,
    ensures
        frames_of(stream, frame, hop) == seq![stream],
{
    lemma_short_stream(stream.skip(hop as int), frame, hop);
    assert(stream.take(frame as int) =~= stream);
    assert(frames_of(stream, frame, hop) =~= seq![stream]);
}

/// Streaming equivalence: cutting `head` and then, with what was left over,
/// `tail`, gives the frames of `head + tail` in the same order, and leaves
/// the same samples over.
pub proof fn lemma_streaming(head: Seq<i16>, tail: Seq<i16>, frame: nat, hop: nat)
    requires
        valid_sizes(frame, hop),
    ensures
        frames_of(head + tail, frame, hop) == frames_of(head, frame, hop) + frames_of(
            leftover(head, frame, hop) + tail,
            frame,
            hop,
        ),
        leftover(head + tail, frame, hop) == leftover(
            leftover(head, frame, hop) + tail,
            frame,
            hop,
        ),
    decreases head.len(),
{
    if head.len() >= frame {
        let whole = head + tail;
        lemma_streaming(head.skip(hop as int), tail, frame, hop);
        assert(whole.take(frame as int) =~= head.take(frame as int));
        assert(whole.skip(hop as int) =~= head.skip(hop as int) + tail);
        assert(frames_of(whole, frame, hop) =~= frames_of(head, frame, hop) + frames_of(
            leftover(head, frame, hop) + tail,
            frame,
            hop,
        ));
    } else {
        assert(frames_of(head, frame, hop) + frames_of(head + tail, frame, hop) =~= frames_of(
            head + tail,
            frame,
            hop,
        ));
    }
}

/// The number of frames depends on the stream's length alone.
pub proof fn lemma_frame_count(stream: Seq<i16>, frame: nat, hop: nat)
    ensures
        frames_of(stream, frame, hop).len() == frame_count(stream.len(), frame, hop),
    decreases stream.len(),
{
    if valid_sizes(frame, hop) && stream.len() >= frame {
        let rest = stream.skip(hop as int);
        lemma_frame_count(rest, frame, hop);
        let x = stream.len() - frame;
        let d = hop as int;
        if rest.len() >= frame {
            assert(x / d == (x - d) / d + 1) by (nonlinear_arith)
                requires
                    d > 0,
                    x >= d,
            ;
        } else {
            assert(x / d == 0) by (nonlinear_arith)
                requires
                    0 <= x < d,
            ;
        }
    }
}

/// Frames come in stream order: frame `k` starts `k` hops into the stream
/// and lies wholly within it.
pub proof fn lemma_frame_at(stream: Seq<i16>, frame: nat, hop: nat, k: nat)
    requires
        k < frames_of(stream, frame, hop).len(),
    ensures
        k * hop + frame <= stream.len(),
        frames_of(stream, frame, hop)[k as int] == stream.subrange(
            (k * hop) as int,
            (k * hop + frame) as int,
        ),
    decreases k,
{
    if k == 0 {
        assert(stream.take(frame as int) =~= stream.subrange(0, frame as int));
    } else {
        let rest = stream.skip(hop as int);
        lemma_frame_at(rest, frame, hop, (k - 1) as nat);
        assert((k - 1) * hop + hop == k * hop) by (nonlinear_arith);
        assert(rest.subrange((k - 1) * hop, (k - 1) * hop + frame) =~= stream.subrange(
            (k * hop) as int,
            (k * hop + frame) as int,
        ));
    }
}

/// What is left over starts where the first incomplete frame would start.
pub proof fn lemma_leftover_at(stream: Seq<i16>, frame: nat, hop: nat)
    ensures
        frame_count(stream.len(), frame, hop) * hop <= stream.len(),
        leftover(stream, frame, hop) == stream.skip(
            (frame_count(stream.len(), frame, hop) * hop) as int,
        ),
    decreases stream.len(),
{
    if valid_sizes(frame, hop) && stream.len() >= frame {
        let rest = stream.skip(hop as int);
        lemma_leftover_at(rest, frame, hop);
        lemma_frame_count(stream, frame, hop);
        lemma_frame_count(rest, frame, hop);
        let c = frame_count(rest.len(), frame, hop);
        assert((c + 1) * hop == c * hop + hop) by (nonlinear_arith);
        assert(rest.skip((c * hop) as int) =~= stream.skip(((c + 1) * hop) as int));
    } else {
        assert(0 * hop == 0) by (nonlinear_arith);
        assert(stream.skip(0) =~= stream);
    }
}

/// Buffers incoming samples and cuts them into overlapping frames.
///
/// The samples that belong to no complete frame yet are kept from one call to
/// the next, so a stream may arrive in chunks of any length.
pub struct Framer {
    frame_size: usize,
    hop_size: usize,
    pending: Vec<i16>,
}

impl Framer {
    /// The sizes are valid, and fewer samples than a frame wait.
    #[verifier::type_invariant]
    spec fn wf(&self) -> bool {
        &&& valid_sizes(self.frame_size as nat, self.hop_size as nat)
        &&& self.pending@.len() < self.frame_size
    }

    /// Samples in one frame.
    pub closed spec fn frame(&self) -> nat {
        self.frame_size as nat
    }

    /// Samples from the start of one frame to the start of the next.
    pub closed spec fn hop(&self) -> nat {
        self.hop_size as nat
    }

    /// The samples received so far that belong to no complete frame yet.
    pub closed spec fn pending(&self) -> Seq<i16> {
        self.pending@
    }

    /// A framer with nothing buffered, or the reason why the sizes allow none.
    pub fn new(frame_size: usize, hop_size: usize) -> (made: Result<Framer, ConfigurationError>)
        ensures
            match made {
                Ok(framer) => {
                    &&& valid_sizes(frame_size as nat, hop_size as nat)
                    &&& framer.frame() == frame_size
                    &&& framer.hop() == hop_size
                    &&& framer.pending() == Seq::<i16>::empty()
                },
                Err(ConfigurationError::EmptyFrame) => frame_size == 0,
                Err(ConfigurationError::HopOutOfRange) => frame_size > 0 && !(0 < hop_size
                    <= frame_size),
            },
    {
        if frame_size == 0 {
            Err(ConfigurationError::EmptyFrame)
        } else if hop_size == 0 || hop_size > frame_size {
            Err(ConfigurationError::HopOutOfRange)
        } else {
            Ok(Framer { frame_size, hop_size, pending: Vec::new() })
        }
    }

    /// Samples in one frame.
    pub fn frame_size(&self) -> (n: usize)
        ensures
            n == self.frame(),
            n > 0,
    {
        proof {
            use_type_invariant(self);
        }
        self.frame_size
    }

    /// Samples from the start of one frame to the start of the next.
    pub fn hop_size(&self) -> (n: usize)
        ensures
            n == self.hop(),
            valid_sizes(self.frame(), self.hop()),
    {
        proof {
            use_type_invariant(self);
        }
        self.hop_size
    }

    /// How many samples wait for their frame to complete.
    pub fn pending_len(&self) -> (n: usize)
        ensures
            n == self.pending().len(),
            n < self.frame(),
    {
        proof {
            use_type_invariant(self);
        }
        self.pending.len()
    }

    /// The frames, in stream order, that the next samples of the stream
    /// complete, and the framer as it is once it has taken them. This framer
    /// stays as it was.
    pub fn advance(&self, samples: &[i16]) -> (out: (Vec<Vec<i16>>, Framer))
        ensures
            out.1.frame() == self.frame(),
            out.1.hop() == self.hop(),
            frame_views(out.0@) == frames_of(self.pending() + samples@, self.frame(), self.hop()),
            out.1.pending() == leftover(self.pending() + samples@, self.frame(), self.hop()),
            out.0@.len() == frame_count(
                self.pending().len() + samples@.len(),
                self.frame(),
                self.hop(),
            ),
            forall|k: int| 0 <= k < out.0@.len() ==> (#[trigger] out.0@[k])@.len() == self.frame(),
            samples@.len() == 0 ==> out.0@.len() == 0 && out.1.pending() == self.pending(),
    {
        proof {
            use_type_invariant(self);
            if samples@.len() == 0 {
                assert(self.pending@ + samples@ =~= self.pending@);
                lemma_short_stream(self.pending@, self.frame_size as nat, self.hop_size as nat);
            }
        }
        let mut stream = copy_range(&self.pending, 0, self.pending.len());
        append(&mut stream, samples);
        assert(stream@ =~= self.pending@ + samples@);
        let (frames, kept) = cut_frames(&stream, self.frame_size, self.hop_size);
        proof {
            lemma_leftover_short(stream@, self.frame_size as nat, self.hop_size as nat);
        }
        (frames, Framer { frame_size: self.frame_size, hop_size: self.hop_size, pending: kept })
    }

    /// Takes the next samples of the stream and returns, in stream order, the
    /// frames that they complete.
    pub fn process(&mut self, samples: &[i16]) -> (frames: Vec<Vec<i16>>)
        ensures
            final(self).frame() == old(self).frame(),
            final(self).hop() == old(self).hop(),
            frame_views(frames@) == frames_of(
                old(self).pending() + samples@,
                old(self).frame(),
                old(self).hop(),
            ),
            final(self).pending() == leftover(
                old(self).pending() + samples@,
                old(self).frame(),
                old(self).hop(),
            ),
            frames@.len() == frame_count(
                old(self).pending().len() + samples@.len(),
                old(self).frame(),
                old(self).hop(),
            ),
            forall|k: int|
                0 <= k < frames@.len() ==> (#[trigger] frames@[k])@.len() == old(self).frame(),
            samples@.len() == 0 ==> frames@.len() == 0 && final(self).pending() == old(
                self,
            ).pending(),
    {
        let (frames, next) = self.advance(samples);
        *self = next;
        frames
    }
}

/// Cuts the frames of `stream`, in order, and copies what is left over.
fn cut_frames(stream: &Vec<i16>, frame_size: usize, hop_size: usize) -> (out: (
    Vec<Vec<i16>>,
    Vec<i16>,
))
    requires
        valid_sizes(frame_size as nat, hop_size as nat),
    ensures
        frame_views(out.0@) == frames_of(stream@, frame_size as nat, hop_size as nat),
        out.1@ == leftover(stream@, frame_size as nat, hop_size as nat),
        out.0@.len() == frame_count(stream@.len(), frame_size as nat, hop_size as nat),
        forall|k: int| 0 <= k < out.0@.len() ==> (#[trigger] out.0@[k])@.len() == frame_size,
{
    let ghost n = frame_size as nat;
    let ghost h = hop_size as nat;
    let total: usize = stream.len();
    let mut frames: Vec<Vec<i16>> = Vec::new();
    let mut start: usize = 0;
    proof {
        assert(stream@.skip(0) =~= stream@);
        assert(frame_views(frames@) + frames_of(stream@, n, h) =~= frames_of(stream@, n, h));
    }
    while total - start >= frame_size
        invariant
            start <= total,
            total == stream@.len(),
            n == frame_size,
            h == hop_size,
            valid_sizes(n, h),
            frame_views(frames@) + frames_of(stream@.skip(start as int), n, h) == frames_of(
                stream@,
                n,
                h,
            ),
            leftover(stream@.skip(start as int), n, h) == leftover(stream@, n, h),
        decreases total - start,
    {
        let frame = copy_range(stream, start, start + frame_size);
        let ghost cut = frame_views(frames@);
        let ghost rest = stream@.skip(start as int);
        frames.push(frame);
        proof {
            assert(rest.take(n as int) =~= stream@.subrange(start as int, start + n));
            assert(rest.skip(h as int) =~= stream@.skip(start + h));
            assert(frame_views(frames@) =~= cut.push(frame@));
            assert(cut.push(frame@) + frames_of(rest.skip(h as int), n, h) =~= cut + frames_of(
                rest,
                n,
                h,
            ));
        }
        start = start + hop_size;
    }
    let kept = copy_range(stream, start, total);
    proof {
        assert(kept@ =~= stream@.skip(start as int));
        lemma_short_stream(kept@, n, h);
        lemma_frame_count(stream@, n, h);
        assert(frame_views(frames@).len() == frames@.len());
        assert forall|k: int| 0 <= k < frames@.len() implies (#[trigger] frames@[k])@.len()
            == n by {
            lemma_frame_at(stream@, n, h, k as nat);
            assert(frame_views(frames@)[k] == frames@[k]@);
        }
    }
    (frames, kept)
}

/// Appends a copy of `more` to `buffer`.
fn append(buffer: &mut Vec<i16>, more: &[i16])
    ensures
        final(buffer)@ == old(buffer)@ + more@,
{
    let mut i: usize = 0;
    while i < more.len()
        invariant
            i <= more@.len(),
            buffer@ == old(buffer)@ + more@.take(i as int),
        decreases more@.len() - i,
    {
        buffer.push(more[i]);
        assert(more@.take(i + 1) =~= more@.take(i as int).push(more@[i as int]));
        assert(buffer@ =~= old(buffer)@ + more@.take(i + 1));
        i = i + 1;
    }
    assert(more@.take(i as int) =~= more@);
}

/// A copy of the samples of `source` from `from` up to `to`.
fn copy_range(source: &Vec<i16>, from: usize, to: usize) -> (copy: Vec<i16>)
    requires
        from <= to <= source@.len(),
    ensures
        copy@ == source@.subrange(from as int, to as int),
{
    let mut copy: Vec<i16> = Vec::with_capacity(to - from);
    let mut i: usize = from;
    while i < to
        invariant
            from <= i <= to <= source@.len(),
            copy@ == source@.subrange(from as int, i as int),
        decreases to - i,
    {
        copy.push(source[i]);
        assert(copy@ =~= source@.subrange(from as int, i + 1));
        i = i + 1;
    }
    copy
}

} // verus!
