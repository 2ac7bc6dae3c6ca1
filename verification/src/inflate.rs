//! MCCP v2 inflation: the server's output after compression starts is one
//! zlib stream that runs on across every chunk the connection delivers.

use vstd::prelude::*;
use std::io::Write;
use vstd::slice::slice_to_vec;

verus! {

/// A zlib stream decoder that writes what it inflates into a byte buffer
/// (`flate2::write::ZlibDecoder<Vec<u8>>`), held opaque; the names below say
/// what it holds.
#[verifier::external_body]
pub struct ZlibStream {
    decoder: flate2::write::ZlibDecoder<Vec<u8>>,
}

/// Every byte written into the decoder so far.
pub uninterp spec fn zlib_stream_input(s: ZlibStream) -> Seq<u8>;

/// Every byte the decoder has put into its output buffer so far, taken or not.
pub uninterp spec fn zlib_stream_delivered(s: ZlibStream) -> Seq<u8>;

/// The bytes its output buffer holds now.
pub uninterp spec fn zlib_stream_pending(s: ZlibStream) -> Seq<u8>;

/// A write or flush on the decoder has reported an error.
pub uninterp spec fn zlib_stream_broken(s: ZlibStream) -> bool;

/// A zlib decoder takes in every one of these bytes without an error: they
/// are the start of one sound zlib stream (no corrupt data, no preset
/// dictionary, nothing after the stream's end).
pub uninterp spec fn zlib_accepts(input: Seq<u8>) -> bool;

/// What a zlib decoder has put out in all once it has been fed exactly the
/// bytes `input` (a prefix of a zlib stream) and flushed: every byte those
/// bytes decode to.
pub uninterp spec fn zlib_inflated_prefix(input: Seq<u8>) -> Seq<u8>;

/// `flate2::write::ZlibDecoder::new` over an empty `Vec<u8>`: nothing fed,
/// nothing put out, and that is what the empty input decodes to.
#[verifier::external_body]
fn zlib_stream_new() -> (s: ZlibStream)
    ensures
        zlib_stream_input(s) == Seq::<u8>::empty(),
        zlib_stream_delivered(s) == Seq::<u8>::empty(),
        zlib_stream_pending(s) == Seq::<u8>::empty(),
        zlib_inflated_prefix(zlib_stream_input(s)) == zlib_stream_delivered(s),
        !zlib_stream_broken(s),
        zlib_accepts(zlib_stream_input(s)),
{
    ZlibStream { decoder: flate2::write::ZlibDecoder::new(Vec::new()) }
}

/// `Write::write_all` on the decoder. On a decoder that has reported no
/// error, it succeeds exactly when the decoder accepts its input so far with
/// `chunk` after it. On `Ok` every byte of `chunk` has been taken in, and
/// whatever it put out meanwhile was appended to its buffer; on an error the
/// decoder counts as broken, and nothing more is claimed.
#[verifier::external_body]
fn zlib_stream_write_all(s: &mut ZlibStream, chunk: &[u8]) -> (ok: bool)
    ensures
        !zlib_stream_broken(*old(s)) ==> (ok <==> zlib_accepts(zlib_stream_input(*old(s)) + chunk@)),
        ok ==> zlib_stream_broken(*final(s)) == zlib_stream_broken(*old(s)),
        !ok ==> zlib_stream_broken(*final(s)),
        ok ==> zlib_stream_input(*final(s)) == zlib_stream_input(*old(s)) + chunk@,
        ok ==> exists|delta: Seq<u8>|
            zlib_stream_delivered(*final(s)) == zlib_stream_delivered(*old(s)) + delta
                && zlib_stream_pending(*final(s)) == zlib_stream_pending(*old(s)) + delta,
{
    s.decoder.write_all(chunk).is_ok()
}

/// `Write::flush` on the decoder: it drains the inflater until nothing more
/// comes out. On `Ok` nothing new was taken in, what came out was appended
/// to the buffer, and all put out so far is what the input decodes to. On a
/// decoder that has reported no error and accepts its input, it succeeds (the
/// buffer is a `Vec`, whose writes do not fail). After an error the decoder
/// counts as broken, and nothing more is claimed.
#[verifier::external_body]
fn zlib_stream_flush(s: &mut ZlibStream) -> (ok: bool)
    ensures
        !zlib_stream_broken(*old(s)) && zlib_accepts(zlib_stream_input(*old(s))) ==> ok,
        ok ==> zlib_stream_broken(*final(s)) == zlib_stream_broken(*old(s)),
        !ok ==> zlib_stream_broken(*final(s)),
        ok ==> zlib_stream_input(*final(s)) == zlib_stream_input(*old(s)),
        ok ==> exists|delta: Seq<u8>|
            zlib_stream_delivered(*final(s)) == zlib_stream_delivered(*old(s)) + delta
                && zlib_stream_pending(*final(s)) == zlib_stream_pending(*old(s)) + delta,
        ok ==> zlib_stream_delivered(*final(s)) == zlib_inflated_prefix(zlib_stream_input(*final(s))),
{
    s.decoder.flush().is_ok()
}

/// `ZlibDecoder::get_mut`, emptied: the buffered output is handed out and
/// the buffer left empty; the decoder itself is untouched.
#[verifier::external_body]
fn zlib_stream_take(s: &mut ZlibStream) -> (out: Vec<u8>)
    ensures
        out@ == zlib_stream_pending(*old(s)),
        zlib_stream_pending(*final(s)) == Seq::<u8>::empty(),
        zlib_stream_input(*final(s)) == zlib_stream_input(*old(s)),
        zlib_stream_delivered(*final(s)) == zlib_stream_delivered(*old(s)),
        zlib_stream_broken(*final(s)) == zlib_stream_broken(*old(s)),
{
    std::mem::take(s.decoder.get_mut())
}

/// The inflater of one connection: a zlib stream decoder, and whether it is
/// still usable (a corrupt stream makes it unusable for good).
pub struct MccpInflater {
    stream: ZlibStream,
    healthy: bool,
}

impl MccpInflater {
    /// The decoder is usable: it has reported no error, accepts its input,
    /// holds no output, and has put out exactly what its input decodes to.
    pub closed spec fn wf(&self) -> bool {
        self.healthy ==> {
            &&& !zlib_stream_broken(self.stream)
            &&& zlib_accepts(zlib_stream_input(self.stream))
            &&& zlib_stream_pending(self.stream) == Seq::<u8>::empty()
            &&& zlib_stream_delivered(self.stream) == zlib_inflated_prefix(zlib_stream_input(self.stream))
        }
    }

    /// The compressed bytes inflated so far, or `None` once the stream broke.
    pub closed spec fn fed(&self) -> Option<Seq<u8>> {
        if self.healthy {
            Some(zlib_stream_input(self.stream))
        } else {
            None
        }
    }

    /// A fresh inflater, at the start of a stream.
    pub fn new() -> (r: Self)
        ensures
            r.wf(),
            r.fed() == Some(Seq::<u8>::empty()),
            zlib_inflated_prefix(r.fed().unwrap()) == Seq::<u8>::empty(),
    {
        MccpInflater { stream: zlib_stream_new(), healthy: true }
    }

    /// Inflate the next chunk of the stream. The stream stays sound exactly
    /// when the decoder accepts all bytes fed so far with the chunk after
    /// them; then the result is what the chunk adds to the decoded stream.
    /// Once it is broken (now or before) the chunk comes back unchanged.
    pub fn inflate(&mut self, chunk: &[u8]) -> (r: Vec<u8>)
        requires
            old(self).wf(),
        ensures
            final(self).wf(),
            old(self).fed() matches Some(fed) ==> (final(self).fed() is Some <==> zlib_accepts(fed + chunk@)),
            match old(self).fed() {
                None => r@ == chunk@ && final(self).fed() is None,
                Some(fed) => match final(self).fed() {
                    Some(fed2) => fed2 == fed + chunk@ && zlib_inflated_prefix(fed2) == zlib_inflated_prefix(fed)
                        + r@,
                    None => r@ == chunk@,
                },
            },
    {
        if !self.healthy {
            return slice_to_vec(chunk);
        }
        let ghost before = self.stream;
        if !zlib_stream_write_all(&mut self.stream, chunk) {
            self.healthy = false;
            return slice_to_vec(chunk);
        }
        let ghost written = self.stream;
        if !zlib_stream_flush(&mut self.stream) {
            self.healthy = false;
            return slice_to_vec(chunk);
        }
        let ghost flushed = self.stream;
        let out = zlib_stream_take(&mut self.stream);
        proof {
            let d1 = choose|delta: Seq<u8>|
                zlib_stream_delivered(written) == zlib_stream_delivered(before) + delta
                    && zlib_stream_pending(written) == zlib_stream_pending(before) + delta;
            let d2 = choose|delta: Seq<u8>|
                zlib_stream_delivered(flushed) == zlib_stream_delivered(written) + delta
                    && zlib_stream_pending(flushed) == zlib_stream_pending(written) + delta;
            assert(zlib_stream_pending(before) + d1 =~= d1);
            assert(out@ == d1 + d2);
            assert(zlib_stream_delivered(flushed) =~= zlib_stream_delivered(before) + (d1 + d2));
        }
        out
    }
}

/// The chunks of a stream joined end to end.
pub open spec fn joined(parts: Seq<Seq<u8>>) -> Seq<u8>
    decreases parts.len(),
{
    if parts.len() == 0 {
        Seq::empty()
    } else {
        joined(parts.drop_last()) + parts.last()
    }
}

/// Inflating the chunks of one stream one after another, each step as
/// `MccpInflater::inflate` states it (what the stream fed so far decodes to
/// grows by that step's output), the outputs joined are what the whole
/// stream decodes to beyond what was decoded before the first chunk.
pub proof fn law_mccp_outputs_join_to_the_stream(fed0: Seq<u8>, chunks: Seq<Seq<u8>>, outs: Seq<Seq<u8>>)
    requires
        chunks.len() == outs.len(),
        forall|k: int|
            0 <= k < chunks.len() ==> zlib_inflated_prefix(fed0 + joined(chunks.take(k + 1))) == zlib_inflated_prefix(
                fed0 + joined(chunks.take(k)),
            ) + #[trigger] outs[k],
    ensures
        zlib_inflated_prefix(fed0 + joined(chunks)) == zlib_inflated_prefix(fed0) + joined(outs),
    decreases chunks.len(),
{
    if chunks.len() == 0 {
        assert(fed0 + joined(chunks) =~= fed0);
        assert(zlib_inflated_prefix(fed0) + joined(outs) =~= zlib_inflated_prefix(fed0));
    } else {
        let n = chunks.len() - 1;
        let c2 = chunks.drop_last();
        let o2 = outs.drop_last();
        assert forall|k: int| 0 <= k < c2.len() implies zlib_inflated_prefix(fed0 + joined(c2.take(k + 1)))
            == zlib_inflated_prefix(fed0 + joined(c2.take(k))) + #[trigger] o2[k] by {
            assert(c2.take(k + 1) =~= chunks.take(k + 1));
            assert(c2.take(k) =~= chunks.take(k));
            assert(o2[k] == outs[k]);
        }
        law_mccp_outputs_join_to_the_stream(fed0, c2, o2);
        assert(chunks.take(n + 1) =~= chunks);
        assert(chunks.take(n) =~= c2);
        assert(outs[n] == outs.last());
        assert(zlib_inflated_prefix(fed0 + joined(chunks)) == zlib_inflated_prefix(fed0 + joined(c2)) + outs[n]);
        assert(zlib_inflated_prefix(fed0) + joined(outs) =~= (zlib_inflated_prefix(fed0) + joined(o2)) + outs.last());
    }
}

} // verus!
