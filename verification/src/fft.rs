//! The analysis pipeline in its fixed configuration: which frames a stream
//! gives, and which bins of a frame's spectrum are kept.

use vstd::prelude::*;
use crate::framer::{
    frame_count, frame_views, frames_of, leftover, lemma_one_frame, lemma_streaming, Framer,
};

verus! {

/// Samples in one frame.
pub const FRAME_SIZE: usize = 4096;

/// Samples that two consecutive frames share.
pub const OVERLAP: usize = FRAME_SIZE - FRAME_SIZE / 3;

/// Samples from the start of one frame to the start of the next.
pub open spec fn hop() -> nat {
    (FRAME_SIZE - OVERLAP) as nat
}

/// The frames that the pipeline cuts from a stream.
pub open spec fn stream_frames(stream: Seq<i16>) -> Seq<Seq<i16>> {
    frames_of(stream, FRAME_SIZE as nat, hop())
}

/// The samples that the pipeline keeps for the next call.
pub open spec fn stream_rest(stream: Seq<i16>) -> Seq<i16> {
    leftover(stream, FRAME_SIZE as nat, hop())
}

/// Bins that remain of a spectrum of `len` bins: those up to the middle one.
pub open spec fn folded_len(len: nat) -> nat {
    len / 2 + 1
}

/// Streaming equivalence: with `pending` samples waiting, a stream fed as
/// `first` and then `second` gives the frames, in the same order, that it
/// gives fed whole, and leaves the same samples waiting.
pub proof fn lemma_chunks_agree(pending: Seq<i16>, first: Seq<i16>, second: Seq<i16>)
    ensures
        stream_frames(pending + (first + second)) == stream_frames(pending + first)
            + stream_frames(stream_rest(pending + first) + second),
        stream_rest(pending + (first + second)) == stream_rest(
            stream_rest(pending + first) + second,
        ),
{
    assert(pending + (first + second) =~= (pending + first) + second);
    lemma_streaming(pending + first, second, FRAME_SIZE as nat, hop());
}

/// With nothing waiting, exactly `FRAME_SIZE` samples give exactly one frame,
/// the samples themselves, and its folded spectrum has `FRAME_SIZE / 2 + 1`
/// bins.
pub proof fn lemma_whole_frame(data: Seq<i16>)
    requires
        data.len() == FRAME_SIZE,
    ensures
        stream_frames(Seq::<i16>::empty() + data) == seq![data],
        folded_len(data.len()) == FRAME_SIZE / 2 + 1,
{
    assert(Seq::<i16>::empty() + data =~= data);
    lemma_one_frame(data, FRAME_SIZE as nat, hop());
}

/// With less than a frame waiting, feeding no sample gives no frame and
/// leaves what waits as it is.
pub proof fn lemma_nothing_fed(pending: Seq<i16>)
    requires
        pending.len() < FRAME_SIZE,
    ensures
        stream_frames(pending + Seq::<i16>::empty()) == Seq::<Seq<i16>>::empty(),
        stream_rest(pending + Seq::<i16>::empty()) == pending,
{
    assert(pending + Seq::<i16>::empty() =~= pending);
}

/// The folded spectrum as a sequence: for each bin up to the middle one, in
/// order, what `power` makes of it. A spectrum without bins folds to the one
/// value `silent`.
pub open spec fn folded<B, P>(spectrum: Seq<B>, power: spec_fn(B) -> P, silent: P) -> Seq<P> {
    Seq::new(
        folded_len(spectrum.len()),
        |i: int|
            if i < spectrum.len() {
                power(spectrum[i])
            } else {
                silent
            },
    )
}

/// A spectrum read in the other direction of frequency: bin 0 stays, and bin
/// `i` changes places with bin `len - i`.
pub open spec fn mirrored<B>(spectrum: Seq<B>) -> Seq<B> {
    Seq::new(spectrum.len(), |i: int| spectrum[(spectrum.len() - i) % (spectrum.len() as int)])
}

/// Where the power of a bin is a function `value` of the bin, the output of
/// `fold_output` is the folded spectrum under that function.
pub proof fn lemma_fold_by_function<B, P, F: Fn(&B) -> P>(
    spectrum: Seq<B>,
    power: F,
    value: spec_fn(B) -> P,
    silent: P,
    output: Seq<P>,
)
    requires
        output.len() == folded_len(spectrum.len()),
        forall|i: int|
            0 <= i < output.len() && i < spectrum.len() ==> call_ensures(
                power,
                (&spectrum[i],),
                #[trigger] output[i],
            ),
        spectrum.len() == 0 ==> output[0] == silent,
        forall|bin: B, p: P| call_ensures(power, (&bin,), p) ==> p == value(bin),
    ensures
        output == folded(spectrum, value, silent),
{
    assert(output =~= folded(spectrum, value, silent));
}

/// Folding does not depend on the direction of frequency: where every bin
/// has the power of the bin opposite to it, as in the spectrum of real
/// samples, the spectrum and its mirror image fold to the same output.
pub proof fn lemma_fold_mirrored<B, P>(spectrum: Seq<B>, power: spec_fn(B) -> P, silent: P)
    requires
        forall|i: int|
            0 < i < spectrum.len() ==> power(#[trigger] spectrum[i]) == power(
                spectrum[spectrum.len() - i],
            ),
    ensures
        folded(mirrored(spectrum), power, silent) == folded(spectrum, power, silent),
{
    let len = spectrum.len() as int;
    assert forall|i: int| 0 <= i < folded_len(spectrum.len()) && i < len implies power(
        mirrored(spectrum)[i],
    ) == power(spectrum[i]) by {
        if i == 0 {
            assert((len - 0) % len == 0) by (nonlinear_arith)
                requires
                    len > 0,
            ;
        } else {
            assert((len - i) % len == len - i) by (nonlinear_arith)
                requires
                    0 < i < len,
            ;
            assert(power(spectrum[i]) == power(spectrum[len - i]));
        }
    }
    assert(folded(mirrored(spectrum), power, silent) =~= folded(spectrum, power, silent));
}

/// Folding does not depend on the sign convention of the transform: where a
/// bin and its conjugate, `conj` of it, have the same power, a spectrum and
/// the spectrum of its conjugates fold to the same output.
pub proof fn lemma_fold_conjugated<B, P>(
    spectrum: Seq<B>,
    conj: spec_fn(B) -> B,
    power: spec_fn(B) -> P,
    silent: P,
)
    requires
        forall|bin: B| power(#[trigger] conj(bin)) == power(bin),
    ensures
        folded(spectrum.map_values(conj), power, silent) == folded(spectrum, power, silent),
{
    assert(folded(spectrum.map_values(conj), power, silent) =~= folded(spectrum, power, silent));
}

/// The spectrum of real samples folds alike in both directions of frequency:
/// where each bin is the conjugate, `conj`, of the bin opposite to it, and a
/// bin and its conjugate have the same power, the spectrum and its mirror
/// image fold to the same output.
pub proof fn lemma_fold_real_frame<B, P>(
    spectrum: Seq<B>,
    conj: spec_fn(B) -> B,
    power: spec_fn(B) -> P,
    silent: P,
)
    requires
        forall|bin: B| power(#[trigger] conj(bin)) == power(bin),
        forall|i: int|
            0 <= i < spectrum.len() ==> spectrum[(spectrum.len() - i) % (spectrum.len() as int)]
                == conj(#[trigger] spectrum[i]),
    ensures
        folded(mirrored(spectrum), power, silent) == folded(spectrum, power, silent),
{
    let len = spectrum.len() as int;
    assert forall|i: int| 0 < i < len implies power(#[trigger] spectrum[i]) == power(
        spectrum[len - i],
    ) by {
        assert((len - i) % len == len - i) by (nonlinear_arith)
            requires
                0 < i < len,
        ;
        assert(spectrum[len - i] == conj(spectrum[i]));
    }
    lemma_fold_mirrored(spectrum, power, silent);
}

/// The streaming front of the analysis: it takes samples in chunks of any
/// length and hands out each frame of `FRAME_SIZE` samples as soon as it is
/// complete.
pub struct Fft {
    framer: Framer,
}

impl Fft {
    /// The framer has the fixed sizes.
    #[verifier::type_invariant]
    spec fn wf(&self) -> bool {
        &&& self.framer.frame() == FRAME_SIZE
        &&& self.framer.hop() == hop()
    }

    /// The samples received so far that belong to no complete frame yet.
    pub closed spec fn pending(&self) -> Seq<i16> {
        self.framer.pending()
    }

    /// A pipeline that has seen no sample yet.
    pub fn new() -> (fft: Fft)
        ensures
            fft.pending() == Seq::<i16>::empty(),
    {
        match Framer::new(FRAME_SIZE, FRAME_SIZE - OVERLAP) {
            Ok(framer) => Fft { framer },
            Err(_) => vstd::pervasive::unreached(),
        }
    }

    /// How many samples wait for their frame to complete.
    pub fn pending_len(&self) -> (n: usize)
        ensures
            n == self.pending().len(),
            n < FRAME_SIZE,
    {
        proof {
            use_type_invariant(self);
        }
        self.framer.pending_len()
    }

    /// Takes the next samples of the stream and returns, in stream order, the
    /// frames that they complete. Nothing is returned before `FRAME_SIZE`
    /// samples have arrived; what belongs to no complete frame yet waits for
    /// the next call.
    pub fn consume(&mut self, data: &[i16]) -> (frames: Vec<Vec<i16>>)
        ensures
            frame_views(frames@) == stream_frames(old(self).pending() + data@),
            final(self).pending() == stream_rest(old(self).pending() + data@),
            frames@.len() == frame_count(
                old(self).pending().len() + data@.len(),
                FRAME_SIZE as nat,
                hop(),
            ),
            forall|k: int| 0 <= k < frames@.len() ==> (#[trigger] frames@[k])@.len() == FRAME_SIZE,
            data@.len() == 0 ==> frames@.len() == 0 && final(self).pending() == old(
                self,
            ).pending(),
            old(self).pending().len() == 0 && data@.len() == FRAME_SIZE ==> frames@.len() == 1
                && frames@[0]@ == data@,
    {
        let ghost stream = self.framer.pending() + data@;
        proof {
            use_type_invariant(&*self);
        }
        let (frames, next) = self.framer.advance(data);
        self.framer = next;
        proof {
            if old(self).pending().len() == 0 && data@.len() == FRAME_SIZE {
                assert(stream =~= data@);
                lemma_one_frame(stream, FRAME_SIZE as nat, hop());
                assert(frame_views(frames@)[0] == frames@[0]@);
            }
        }
        frames
    }
}

/// Folds a spectrum to its power spectrum: for each bin up to the middle one,
/// in order, the value that `power` gives for it. The bins above the middle
/// are dropped. The output has one value more than half as many bins as the
/// spectrum, so a spectrum without bins folds to one value: `silent`.
pub fn fold_output<B, P, F: Fn(&B) -> P>(fft: &[B], power: F, silent: P) -> (output: Vec<P>)
    requires
        forall|i: int|
            0 <= i < fft@.len() && i < folded_len(fft@.len()) ==> call_requires(
                power,
                (&fft@[i],),
            ),
    ensures
        output@.len() == folded_len(fft@.len()),
        forall|i: int|
            0 <= i < output@.len() && i < fft@.len() ==> call_ensures(
                power,
                (&fft@[i],),
                #[trigger] output@[i],
            ),
        fft@.len() == 0 ==> output@[0] == silent,
{
    let half_input: usize = fft.len() / 2;
    let mut output: Vec<P> = Vec::with_capacity(half_input + 1);
    if fft.len() == 0 {
        output.push(silent);
        return output;
    }
    let mut idx: usize = 0;
    while idx <= half_input
        invariant
            half_input == fft@.len() / 2,
            fft@.len() > 0,
            idx <= half_input + 1,
            output@.len() == idx,
            forall|i: int|
                0 <= i < fft@.len() && i < folded_len(fft@.len()) ==> call_requires(
                    power,
                    (&fft@[i],),
                ),
            forall|i: int|
                0 <= i < idx ==> call_ensures(power, (&fft@[i],), #[trigger] output@[i]),
        decreases half_input + 1 - idx,
    {
        let bin = power(&fft[idx]);
        output.push(bin);
        idx = idx + 1;
    }
    output
}

} // verus!
