//! The streaming decoder over an externally owned segment sequence.

use vstd::prelude::*;
use vstd::math::min;
use crate::Fault;
use crate::types::{Schema, FieldModel, schema_supported};
use crate::column::{BatchModel, RecordBatch};
use crate::channel::{ByteChannel, ReadableByteChannelReader};
use crate::codec::{
    decode_batch_payload, decode_schema_payload, parse_avail, parse_schema_frame, parse_stream,
};
use vstd::bytes::u64_from_le_bytes;
use vstd::slice::slice_subrange;

verus! {

/// Decode strategy per segment.
#[derive(Debug, Clone, Copy)]
pub enum IpcReadMode {
    /// Same-process channels: no compression on the wire.
    ChannelUncompressed,
    /// Cross-process channels: compressed wire format.
    Channel,
    /// Channels or file regions, both with compression on.
    ChannelAndFileSegment,
}

/// Whether a mode reads the compressed wire format.
pub open spec fn mode_compressed(mode: IpcReadMode) -> bool {
    match mode {
        IpcReadMode::ChannelUncompressed => false,
        IpcReadMode::Channel => true,
        IpcReadMode::ChannelAndFileSegment => true,
    }
}

/// One externally supplied unit of serialized batch data: a readable
/// channel, or a channel positioned at a file region bounded to
/// `length` bytes.
pub enum Segment<C: ByteChannel> {
    Channel(C),
    FileRegion(C, u64),
}

impl<C: ByteChannel> Segment<C> {
    /// The handle may still be read.
    pub open spec fn wf(&self) -> bool {
        match *self {
            Segment::Channel(c) => c.is_open(),
            Segment::FileRegion(c, _) => c.is_open(),
        }
    }

    /// The bytes this segment will deliver: a file region delivers at
    /// most its length.
    pub open spec fn bytes(&self) -> Seq<u8> {
        match *self {
            Segment::Channel(c) => c.remaining(),
            Segment::FileRegion(c, l) => c.remaining().take(
                min(l as int, c.remaining().len() as int),
            ),
        }
    }
}

/// An externally owned, ordered sequence of segments, consumed
/// strictly in order; `segments` models the bytes each remaining
/// segment will deliver.
pub trait SegmentSource<C: ByteChannel>: Sized {
    spec fn segments(&self) -> Seq<Seq<u8>>;

    spec fn wf(&self) -> bool;

    fn has_next(&mut self) -> (r: Result<bool, Fault>)
        requires
            old(self).wf(),
        ensures
            final(self).wf(),
            final(self).segments() == old(self).segments(),
            r matches Ok(b) ==> b == (old(self).segments().len() > 0),
            r matches Err(e) ==> e == Fault::External || e == Fault::Io,
    ;

    fn next(&mut self) -> (r: Result<Segment<C>, Fault>)
        requires
            old(self).wf(),
            old(self).segments().len() > 0,
        ensures
            final(self).wf(),
            r matches Ok(s) ==> s.wf() && s.bytes() == old(self).segments()[0] && final(self).segments() == old(self).segments().skip(1),
            r matches Err(e) ==> (e == Fault::External || e == Fault::Io) && final(self).segments()
                == old(self).segments(),
    ;
}

/// An in-memory segment sequence, handed out front to back.
pub struct VecSegmentSource<C: ByteChannel> {
    pub segs: Vec<Segment<C>>,
    pub next_idx: usize,
}

impl<C: ByteChannel> VecSegmentSource<C> {
    pub fn new(segs: Vec<Segment<C>>) -> (r: VecSegmentSource<C>)
        ensures
            r.segs@ == segs@,
            r.next_idx == 0,
            (forall|i: int| 0 <= i < segs@.len() ==> (#[trigger] segs@[i]).wf()) ==> r.wf(),
            r.wf() ==> r.segments() == segs@.map(|i: int, s: Segment<C>| s.bytes()),
    {
        let r = VecSegmentSource { segs, next_idx: 0 };
        proof {
            if r.wf() {
                assert(r.segments() =~= r.segs@.map(|i: int, s: Segment<C>| s.bytes()));
            }
        }
        r
    }
}

impl<C: ByteChannel> SegmentSource<C> for VecSegmentSource<C> {
    open spec fn segments(&self) -> Seq<Seq<u8>> {
        self.segs@.skip(self.next_idx as int).map(|i: int, s: Segment<C>| s.bytes())
    }

    open spec fn wf(&self) -> bool {
        &&& self.next_idx <= self.segs@.len()
        &&& forall|i: int|
            self.next_idx <= i < self.segs@.len() ==> (#[trigger] self.segs@[i]).wf()
    }

    fn has_next(&mut self) -> (r: Result<bool, Fault>) {
        Ok(self.next_idx < self.segs.len())
    }

    fn next(&mut self) -> (r: Result<Segment<C>, Fault>) {
        let ghost pre = *self;
        let s = self.segs.remove(self.next_idx);
        proof {
            assert(pre.segs@.skip(pre.next_idx as int)[0] == s);
            assert(self.segs@.skip(self.next_idx as int) =~= pre.segs@.skip(
                pre.next_idx as int,
            ).skip(1));
            assert(self.segments() =~= pre.segments().skip(1));
            assert(s.bytes() == pre.segments()[0]);
        }
        Ok(s)
    }
}

/// Decodes the frames of one byte source into record batches.
///
/// The schema every batch follows is either supplied at construction
/// or, when absent, recovered there from the stream's own leading
/// schema message.
#[derive(Debug)]
pub struct RecordBatchReader<C: ByteChannel> {
    pub input: ReadableByteChannelReader<C>,
    pub schema: Schema,
    pub compress: bool,
}

impl<C: ByteChannel> RecordBatchReader<C> {
    pub open spec fn wf(&self) -> bool {
        self.input.wf()
    }

    /// The batches this reader can still emit.
    pub open spec fn avail(&self) -> Seq<BatchModel> {
        parse_avail(self.input.remaining(), self.schema@, self.compress)
    }

    /// Whether the rest of the source is well-formed to its end.
    pub open spec fn clean(&self) -> bool {
        parse_stream(self.input.remaining(), self.schema@, self.compress) is Some
    }

    /// A reader over a source whose schema is known in advance.
    pub fn with_schema(input: ReadableByteChannelReader<C>, schema: Schema, compress: bool) -> (r:
        RecordBatchReader<C>)
        requires
            input.wf(),
        ensures
            r.wf(),
            r.input == input,
            r.schema == schema,
            r.compress == compress,
    {
        RecordBatchReader { input, schema, compress }
    }

    /// A reader over a source with an optional expected schema: when
    /// it is absent, the schema is recovered from the stream's own
    /// leading schema message, consuming that frame. A malformed or
    /// missing leading schema message is a `Decode` fault; a channel
    /// fault is propagated unchanged.
    pub fn new(
        input: ReadableByteChannelReader<C>,
        schema: Option<Schema>,
        compress: bool,
    ) -> (r: Result<RecordBatchReader<C>, Fault>)
        requires
            input.wf(),
        ensures
            schema matches Some(s) ==> (r matches Ok(rd) && rd.wf() && rd.input == input
                && rd.schema == s && rd.compress == compress),
            schema is None ==> (r matches Ok(rd) ==> {
                &&& rd.wf()
                &&& rd.compress == compress
                &&& (parse_schema_frame(input.remaining(), compress) matches Some((sm, rest))
                    && rd.schema@ == sm && rd.input.remaining() == rest)
            }),
            schema is None && r == Err::<RecordBatchReader<C>, Fault>(Fault::Decode)
                ==> parse_schema_frame(input.remaining(), compress) is None,
            r matches Err(e) ==> schema is None && (e == Fault::Decode || e == Fault::External
                || e == Fault::Io),
    {
        match schema {
            Option::Some(s) => {
                return Ok(RecordBatchReader { input, schema: s, compress });
            },
            Option::None => {},
        }
        let ghost r0 = input.remaining();
        let mut input = input;
        let header = match input.read_fully(9) {
            Ok(v) => v,
            Err(e) => {
                return Err(e);
            },
        };
        if header.len() < 9 {
            return Err(Fault::Decode);
        }
        let flag = header[0];
        let want: u8 = if compress {
            1
        } else {
            0
        };
        proof {
            assert(header@[0] == r0[0]);
        }
        if flag != want {
            return Err(Fault::Decode);
        }
        let plen64 = u64_from_le_bytes(slice_subrange(header.as_slice(), 1, 9));
        proof {
            assert(header@.subrange(1, 9) =~= r0.subrange(1, 9));
        }
        if plen64 > (usize::MAX - 9) as u64 {
            return Err(Fault::Decode);
        }
        let plen = plen64 as usize;
        let payload = match input.read_fully(plen) {
            Ok(v) => v,
            Err(e) => {
                return Err(e);
            },
        };
        if payload.len() < plen {
            proof {
                assert(9 + plen > r0.len());
            }
            return Err(Fault::Decode);
        }
        proof {
            assert(payload@ =~= r0.subrange(9, 9 + plen as int));
            assert(input.remaining() =~= r0.skip(9 + plen as int));
        }
        match decode_schema_payload(&payload) {
            Ok(recovered) => Ok(RecordBatchReader { input, schema: recovered, compress }),
            Err(_) => Err(Fault::Decode),
        }
    }

    /// Releases the source; any further call does nothing at all.
    pub fn close(&mut self) -> (r: Result<(), Fault>)
        requires
            old(self).wf(),
        ensures
            final(self).wf(),
            final(self).input.closed,
            final(self).schema == old(self).schema,
            final(self).compress == old(self).compress,
            old(self).input.closed ==> *final(self) == *old(self) && r is Ok,
            r matches Err(e) ==> e == Fault::External || e == Fault::Io,
    {
        self.input.close()
    }

    /// The next decoded batch, or `None` at clean end-of-data, which
    /// is terminal. Malformed or truncated bytes are a `Decode` fault,
    /// never a silently skipped or partial batch; an expected schema
    /// outside the supported matrix is an `UnsupportedType` fault; a
    /// channel fault is propagated unchanged.
    pub fn next_batch(&mut self) -> (r: Result<Option<RecordBatch>, Fault>)
        requires
            old(self).wf(),
        ensures
            final(self).wf(),
            final(self).schema == old(self).schema,
            final(self).compress == old(self).compress,
            r matches Ok(Some(b)) ==> {
                &&& old(self).avail().len() > 0
                &&& b@ == old(self).avail()[0]
                &&& b.wf()
                &&& b@.schema == old(self).schema@
                &&& final(self).avail() == old(self).avail().skip(1)
                &&& final(self).clean() == old(self).clean()
            },
            r matches Ok(None) ==> old(self).avail() == Seq::<BatchModel>::empty()
                && old(self).clean() && final(self).avail() == Seq::<BatchModel>::empty()
                && final(self).clean() && final(self).input.closed,
            old(self).input.closed ==> r matches Ok(None),
            r == Err::<Option<RecordBatch>, Fault>(Fault::Decode) ==> old(self).avail() == Seq::<
                BatchModel,
            >::empty() && !old(self).clean(),
            r == Err::<Option<RecordBatch>, Fault>(Fault::UnsupportedType) ==> !schema_supported(
                old(self).schema@,
            ),
            r matches Err(e) ==> e != Fault::TypeMismatch,
    {
        let ghost r0 = old(self).input.remaining();
        let header = match self.input.read_fully(9) {
            Ok(v) => v,
            Err(e) => {
                return Err(e);
            },
        };
        if header.len() == 0 {
            proof {
                assert(r0.len() == 0);
                assert(r0 =~= Seq::<u8>::empty());
                assert(self.input.remaining() =~= Seq::<u8>::empty());
            }
            return Ok(None);
        }
        if header.len() < 9 {
            return Err(Fault::Decode);
        }
        let flag = header[0];
        let expected: u8 = if self.compress {
            1
        } else {
            0
        };
        proof {
            assert(header@[0] == r0[0]);
        }
        if flag != expected {
            return Err(Fault::Decode);
        }
        let plen64 = u64_from_le_bytes(slice_subrange(header.as_slice(), 1, 9));
        proof {
            assert(header@.subrange(1, 9) =~= r0.subrange(1, 9));
        }
        if plen64 > (usize::MAX - 9) as u64 {
            return Err(Fault::Decode);
        }
        let plen = plen64 as usize;
        let ghost r1 = self.input.remaining();
        let payload = match self.input.read_fully(plen) {
            Ok(v) => v,
            Err(e) => {
                return Err(e);
            },
        };
        if payload.len() < plen {
            proof {
                assert(9 + plen > r0.len());
            }
            return Err(Fault::Decode);
        }
        proof {
            assert(payload@ =~= r0.subrange(9, 9 + plen as int));
            assert(self.input.remaining() =~= r0.skip(9 + plen as int));
        }
        match decode_batch_payload(&payload, &self.schema) {
            Ok(b) => {
                proof {
                    assert(old(self).avail() =~= seq![b@] + parse_avail(
                        self.input.remaining(),
                        self.schema@,
                        self.compress,
                    ));
                    assert(final(self).avail() =~= old(self).avail().skip(1));
                }
                Ok(Some(b))
            },
            Err(e) => Err(e),
        }
    }
}

/// A reader over one channel segment: the schema is expected, the
/// compression capability as given.
pub fn get_channel_reader<C: ByteChannel>(schema: Schema, channel: C, compressed: bool) -> (r:
    RecordBatchReader<C>)
    requires
        channel.is_open(),
    ensures
        r.wf(),
        r.input.remaining() == channel.remaining(),
        r.schema == schema,
        r.compress == compressed,
{
    RecordBatchReader::with_schema(
        ReadableByteChannelReader::new(channel, Option::None),
        schema,
        compressed,
    )
}

/// A reader over one file-region segment: the channel stands at the
/// region's offset, reads are bounded to `length` bytes, and the
/// compressed wire format is forced on.
pub fn get_file_segment_reader<C: ByteChannel>(schema: Schema, channel: C, length: u64) -> (r:
    RecordBatchReader<C>)
    requires
        channel.is_open(),
    ensures
        r.wf(),
        r.input.remaining() == channel.remaining().take(
            min(length as int, channel.remaining().len() as int),
        ),
        r.schema == schema,
        r.compress == true,
{
    RecordBatchReader::with_schema(
        ReadableByteChannelReader::new(channel, Option::Some(length)),
        schema,
        true,
    )
}

/// The batches still to come from a sequence of segments: every batch
/// of each well-formed segment, in order, up to and including the
/// readable front of the first malformed one.
pub open spec fn segs_avail(segs: Seq<Seq<u8>>, schema: Seq<FieldModel>, compress: bool) -> Seq<
    BatchModel,
>
    decreases segs.len(),
{
    if segs.len() == 0 {
        Seq::empty()
    } else {
        let a = parse_avail(segs[0], schema, compress);
        if parse_stream(segs[0], schema, compress) is Some {
            a + segs_avail(segs.skip(1), schema, compress)
        } else {
            a
        }
    }
}

/// Every segment is well-formed to its end.
pub open spec fn segs_clean(segs: Seq<Seq<u8>>, schema: Seq<FieldModel>, compress: bool) -> bool {
    forall|i: int|
        0 <= i < segs.len() ==> parse_stream(#[trigger] segs[i], schema, compress) is Some
}

/// The streaming decoder: drives an externally owned ordered sequence
/// of segments, one decoder per segment, and concatenates their
/// batches into one logical sequence. Once exhausted it stays
/// exhausted.
pub struct IpcReaderStream<C: ByteChannel, S: SegmentSource<C>> {
    pub schema: Schema,
    pub mode: IpcReadMode,
    pub segments: S,
    pub reader: Option<RecordBatchReader<C>>,
}

impl<C: ByteChannel, S: SegmentSource<C>> IpcReaderStream<C, S> {
    pub open spec fn wf(&self) -> bool {
        &&& self.segments.wf()
        &&& match self.reader {
            Option::Some(rd) => rd.wf() && rd.schema@ == self.schema@ && rd.compress
                == mode_compressed(self.mode),
            Option::None => true,
        }
    }

    /// The batches this stream can still emit.
    pub open spec fn avail(&self) -> Seq<BatchModel> {
        match self.reader {
            Option::Some(rd) => if rd.clean() {
                rd.avail() + segs_avail(
                    self.segments.segments(),
                    self.schema@,
                    mode_compressed(self.mode),
                )
            } else {
                rd.avail()
            },
            Option::None => segs_avail(
                self.segments.segments(),
                self.schema@,
                mode_compressed(self.mode),
            ),
        }
    }

    /// Whether the active decoder and every remaining segment are
    /// well-formed to their ends.
    pub open spec fn clean(&self) -> bool {
        &&& match self.reader {
            Option::Some(rd) => rd.clean(),
            Option::None => true,
        }
        &&& segs_clean(self.segments.segments(), self.schema@, mode_compressed(self.mode))
    }

    pub fn new(schema: Schema, segments: S, mode: IpcReadMode) -> (r: IpcReaderStream<C, S>)
        requires
            segments.wf(),
        ensures
            r.wf(),
            r.schema == schema,
            r.mode == mode,
            r.segments == segments,
            r.reader is None,
    {
        IpcReaderStream { schema, mode, segments, reader: Option::None }
    }

    /// The schema every emitted batch follows.
    pub fn schema(&self) -> (r: Schema)
        ensures
            r@ == self.schema@,
    {
        self.schema.duplicate()
    }

    /// One step: the next batch of the logical sequence, or `None` at
    /// end-of-stream, which is terminal for arbitrarily many further
    /// steps. A decode fault aborts the step; the stream does not
    /// advance past a corrupt segment.
    pub fn next(&mut self) -> (r: Result<Option<RecordBatch>, Fault>)
        requires
            old(self).wf(),
        ensures
            final(self).wf(),
            final(self).schema == old(self).schema,
            final(self).mode == old(self).mode,
            r matches Ok(Some(b)) ==> {
                &&& old(self).avail().len() > 0
                &&& b@ == old(self).avail()[0]
                &&& b.wf()
                &&& b@.schema == old(self).schema@
                &&& final(self).avail() == old(self).avail().skip(1)
                &&& final(self).clean() == old(self).clean()
            },
            r matches Ok(None) ==> old(self).avail() == Seq::<BatchModel>::empty()
                && old(self).clean() && final(self).avail() == Seq::<BatchModel>::empty()
                && final(self).clean() && final(self).reader is None
                && final(self).segments.segments() == Seq::<Seq<u8>>::empty(),
            r is Err && (old(self).reader matches Some(rd) && !rd.clean()) ==> final(self).reader
                is Some && final(self).segments.segments() == old(self).segments.segments(),
            r == Err::<Option<RecordBatch>, Fault>(Fault::Decode) ==> old(self).avail() == Seq::<
                BatchModel,
            >::empty() && !old(self).clean(),
            r == Err::<Option<RecordBatch>, Fault>(Fault::UnsupportedType) ==> !schema_supported(
                old(self).schema@,
            ),
            r matches Err(e) ==> e != Fault::TypeMismatch,
    {
        let ghost a0 = old(self).avail();
        let ghost c0 = old(self).clean();
        loop
            invariant
                self.wf(),
                self.schema == old(self).schema,
                self.mode == old(self).mode,
                a0 == old(self).avail(),
                c0 == old(self).clean(),
                self.avail() == a0,
                self.clean() == c0,
                (old(self).reader matches Some(rd) && !rd.clean()) ==> self.reader is Some
                    && self.segments.segments() == old(self).segments.segments()
                    && (self.reader matches Some(rd2) ==> !rd2.clean()),
            decreases
                    self.segments.segments().len(),
                    (if self.reader is Some {
                        1int
                    } else {
                        0int
                    }),
        {
            let mut ended = false;
            if let Option::Some(rd) = &mut self.reader {
                let ghost rd0 = *rd;
                let res = rd.next_batch();
                match res {
                    Ok(Option::Some(b)) => {
                        proof {
                            if rd0.clean() {
                                assert((rd0.avail() + segs_avail(
                                    self.segments.segments(),
                                    self.schema@,
                                    mode_compressed(self.mode),
                                ))[0] == rd0.avail()[0]);
                                assert(self.avail() =~= a0.skip(1));
                            } else {
                                assert(self.avail() =~= a0.skip(1));
                            }
                        }
                        return Ok(Option::Some(b));
                    },
                    Ok(Option::None) => {
                        ended = true;
                    },
                    Err(e) => {
                        proof {
                            if e == Fault::Decode {
                                assert(a0 =~= Seq::<BatchModel>::empty());
                            }
                        }
                        return Err(e);
                    },
                }
            } else {
                let more = match self.segments.has_next() {
                    Ok(b) => b,
                    Err(e) => {
                        return Err(e);
                    },
                };
                if !more {
                    proof {
                        assert(a0 =~= Seq::<BatchModel>::empty());
                        assert(self.segments.segments() =~= Seq::<Seq<u8>>::empty());
                    }
                    return Ok(Option::None);
                }
                let ghost segs0 = self.segments.segments();
                let ghost comp = mode_compressed(self.mode);
                let seg = match self.segments.next() {
                    Ok(s) => s,
                    Err(e) => {
                        return Err(e);
                    },
                };
                let compressed = match self.mode {
                    IpcReadMode::ChannelUncompressed => false,
                    IpcReadMode::Channel => true,
                    IpcReadMode::ChannelAndFileSegment => true,
                };
                let ghost segbytes = seg.bytes();
                let src = match seg {
                    Segment::Channel(c) => ReadableByteChannelReader::new(c, Option::None),
                    Segment::FileRegion(c, l) => ReadableByteChannelReader::new(c, Option::Some(l)),
                };
                proof {
                    assert(src.remaining() == segbytes);
                }
                let schema = self.schema.duplicate();
                self.reader = Option::Some(RecordBatchReader::with_schema(src, schema, compressed));
                proof {
                    if parse_stream(segs0[0], self.schema@, comp) is Some && segs_clean(
                        segs0.skip(1),
                        self.schema@,
                        comp,
                    ) {
                        assert forall|i: int| 0 <= i < segs0.len() implies parse_stream(
                            #[trigger] segs0[i],
                            self.schema@,
                            comp,
                        ) is Some by {
                            if i > 0 {
                                assert(segs0.skip(1)[i - 1] == segs0[i]);
                            }
                        }
                    }
                    if segs_clean(segs0, self.schema@, comp) {
                        assert forall|i: int| 0 <= i < segs0.skip(1).len() implies parse_stream(
                            #[trigger] segs0.skip(1)[i],
                            self.schema@,
                            comp,
                        ) is Some by {
                            assert(segs0.skip(1)[i] == segs0[i + 1]);
                        }
                    }
                    assert(self.avail() =~= a0);
                    assert(self.clean() == c0);
                }
            }
            if ended {
                self.reader = Option::None;
                proof {
                    assert(self.avail() =~= a0);
                }
            }
        }
    }

    /// Releases the active decoder's handle, if one is open; any
    /// further call does nothing at all. Called on teardown whatever
    /// the exit path.
    pub fn close(&mut self) -> (r: Result<(), Fault>)
        requires
            old(self).wf(),
        ensures
            final(self).wf(),
            final(self).reader matches Some(rd) ==> rd.input.closed,
            final(self).schema == old(self).schema,
            final(self).mode == old(self).mode,
            (match old(self).reader {
                Option::Some(rd) => rd.input.closed,
                Option::None => true,
            }) ==> *final(self) == *old(self) && r is Ok,
            r matches Err(e) ==> e == Fault::External || e == Fault::Io,
    {
        match &mut self.reader {
            Option::Some(rd) => {
                if rd.input.closed {
                    return Ok(());
                }
                rd.close()
            },
            Option::None => Ok(()),
        }
    }
}

/// Law: a stream over `k` segments that hold the batch sequences
/// `batches[0] .. batches[k-1]` has exactly their concatenation still
/// to come, in order, and every segment is clean; with the step
/// contract of [`IpcReaderStream::next`], the stream therefore yields
/// that concatenation and then answers end-of-stream to every further
/// step.
pub proof fn lemma_segments_concatenation(
    segs: Seq<Seq<u8>>,
    schema: Seq<FieldModel>,
    compress: bool,
    batches: Seq<Seq<BatchModel>>,
)
    requires
        segs.len() == batches.len(),
        forall|i: int|
            0 <= i < segs.len() ==> parse_stream(#[trigger] segs[i], schema, compress)
                == Some::<Seq<BatchModel>>(batches[i]),
    ensures
        segs_avail(segs, schema, compress) == batches.flatten(),
        segs_clean(segs, schema, compress),
    decreases segs.len(),
{
    if segs.len() == 0 {
        assert(segs_avail(segs, schema, compress) =~= batches.flatten());
    } else {
        crate::codec::lemma_parse_avail_of_clean(segs[0], schema, compress);
        assert forall|i: int| 0 <= i < segs.skip(1).len() implies parse_stream(
            #[trigger] segs.skip(1)[i],
            schema,
            compress,
        ) == Some::<Seq<BatchModel>>(batches.skip(1)[i]) by {
            assert(segs.skip(1)[i] == segs[i + 1]);
            assert(batches.skip(1)[i] == batches[i + 1]);
        }
        lemma_segments_concatenation(segs.skip(1), schema, compress, batches.skip(1));
        assert(batches.flatten() == batches[0] + batches.skip(1).flatten()) by {
            assert(batches.drop_first() == batches.skip(1));
            assert(batches.first() == batches[0]);
        }
        assert(segs_clean(segs, schema, compress));
    }
}

/// Law: what a reader decodes depends on the bytes its source
/// delivers alone, never on the kind of source. In particular a
/// file-region reader over `length` bytes at some offset and a channel
/// reader handed those same bytes have the same batches still to come
/// and agree on well-formedness.
pub proof fn lemma_source_kind_irrelevant<C1: ByteChannel, C2: ByteChannel>(
    r1: RecordBatchReader<C1>,
    r2: RecordBatchReader<C2>,
)
    requires
        r1.input.remaining() == r2.input.remaining(),
        r1.schema@ == r2.schema@,
        r1.compress == r2.compress,
    ensures
        r1.avail() == r2.avail(),
        r1.clean() == r2.clean(),
{
}

} // verus!
