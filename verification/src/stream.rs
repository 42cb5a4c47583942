//! The chunked streamer: point records of one scan are accumulated into
//! parallel position/color buffers, a full buffer is flushed as one bulk
//! chunk, and the remainder is flushed when the scan is exhausted.

use vstd::prelude::*;
use crate::scan::ScanMeta;

verus! {

broadcast use vstd::prelude::Seq::lemma_flatten_push;

/// A coordinate triple. Each component carries the 32-bit encoding of a
/// coordinate value as an opaque word: the caller encodes its component
/// values to bits before handing them in and decodes them at the sink.
#[derive(Clone, Copy, PartialEq, Eq, Debug)]
pub struct Vec3 {
    pub x: u32,
    pub y: u32,
    pub z: u32,
}

/// An 8-bit-per-channel color.
#[derive(Clone, Copy, PartialEq, Eq, Debug)]
pub struct Rgb {
    pub r: u8,
    pub g: u8,
    pub b: u8,
}

/// A point's coordinate as the source reports it: either a valid
/// Cartesian triple or an invalid/missing marker.
#[derive(Clone, Copy, PartialEq, Eq, Debug)]
pub enum Cartesian {
    Valid(Vec3),
    Missing,
}

/// One decoded point record: a tagged coordinate plus an optional color,
/// already mapped to 8-bit channels.
#[derive(Clone, Copy, PartialEq, Eq, Debug)]
pub struct PointRecord {
    pub cartesian: Cartesian,
    pub color: Option<Rgb>,
}

/// The color a record contributes: its own, or opaque white if it
/// declares none.
pub open spec fn applied_color(c: Option<Rgb>) -> Rgb {
    match c {
        Some(rgb) => rgb,
        None => Rgb { r: 255, g: 255, b: 255 },
    }
}

impl PointRecord {
    /// A record contributes to the buffers iff its coordinate is valid.
    pub open spec fn is_kept(self) -> bool {
        self.cartesian is Valid
    }

    pub open spec fn position(self) -> Vec3 {
        match self.cartesian {
            Cartesian::Valid(p) => p,
            Cartesian::Missing => Vec3 { x: 0, y: 0, z: 0 },
        }
    }

    pub open spec fn mapped_color(self) -> Rgb {
        applied_color(self.color)
    }
}

/// Positions of the records with a valid coordinate, in input order.
pub open spec fn kept_positions(rs: Seq<PointRecord>) -> Seq<Vec3>
    decreases rs.len(),
{
    if rs.len() == 0 {
        Seq::empty()
    } else if rs.last().is_kept() {
        kept_positions(rs.drop_last()).push(rs.last().position())
    } else {
        kept_positions(rs.drop_last())
    }
}

/// Mapped colors of the records with a valid coordinate, in input order.
pub open spec fn kept_colors(rs: Seq<PointRecord>) -> Seq<Rgb>
    decreases rs.len(),
{
    if rs.len() == 0 {
        Seq::empty()
    } else if rs.last().is_kept() {
        kept_colors(rs.drop_last()).push(rs.last().mapped_color())
    } else {
        kept_colors(rs.drop_last())
    }
}

/// The kept position and color sequences stay in lockstep.
pub proof fn lemma_kept_lengths(rs: Seq<PointRecord>)
    ensures
        kept_positions(rs).len() == kept_colors(rs).len(),
    decreases rs.len(),
{
    if rs.len() > 0 {
        lemma_kept_lengths(rs.drop_last());
    }
}

/// A sequence split into consecutive chunks of `cap` elements, the last
/// chunk holding the remainder.
pub open spec fn chunked<T>(s: Seq<T>, cap: int) -> Seq<Seq<T>>
    recommends
        1 <= cap,
    decreases s.len() when 1 <= cap
{
    if s.len() == 0 {
        Seq::empty()
    } else if s.len() <= cap {
        seq![s]
    } else {
        seq![s.take(cap)] + chunked(s.skip(cap), cap)
    }
}

/// Chunking at a positive capacity emits exactly the ceiling of
/// `len / cap` chunks: none for an empty input, else `(len - 1) / cap + 1`.
pub proof fn lemma_chunked_count<T>(s: Seq<T>, cap: int)
    requires
        1 <= cap,
    ensures
        chunked(s, cap).len() == if s.len() == 0 { 0int } else { (s.len() - 1) / cap + 1 },
    decreases s.len(),
{
    if s.len() == 0 {
    } else if s.len() <= cap {
        vstd::arithmetic::div_mod::lemma_basic_div(s.len() - 1, cap);
    } else {
        lemma_chunked_count(s.skip(cap), cap);
        vstd::arithmetic::div_mod::lemma_div_plus_one(s.len() - cap - 1, cap);
    }
}

/// Concatenating the chunks, in emission order, restores exactly the
/// input sequence in its original order.
pub proof fn lemma_chunked_concat<T>(s: Seq<T>, cap: int)
    requires
        1 <= cap,
    ensures
        chunked(s, cap).flatten() == s,
    decreases s.len(),
{
    if s.len() == 0 {
        assert(chunked(s, cap).flatten() =~= s);
    } else if s.len() <= cap {
        seq![s].lemma_flatten_singleton();
    } else {
        lemma_chunked_concat(s.skip(cap), cap);
        vstd::seq_lib::lemma_flatten_concat(seq![s.take(cap)], chunked(s.skip(cap), cap));
        seq![s.take(cap)].lemma_flatten_singleton();
        assert(chunked(s, cap).flatten() =~= s.take(cap) + s.skip(cap));
        assert(s.take(cap) + s.skip(cap) =~= s);
    }
}

/// Every chunk is non-empty and holds at most `cap` elements, and every
/// chunk but the last holds exactly `cap`.
pub proof fn lemma_chunked_shape<T>(s: Seq<T>, cap: int)
    requires
        1 <= cap,
    ensures
        forall|k: int| 0 <= k < chunked(s, cap).len() ==> 1 <= (#[trigger] chunked(s, cap)[k]).len() <= cap,
        forall|k: int| 0 <= k < chunked(s, cap).len() - 1 ==> (#[trigger] chunked(s, cap)[k]).len() == cap,
    decreases s.len(),
{
    if s.len() == 0 {
    } else if s.len() <= cap {
    } else {
        lemma_chunked_shape(s.skip(cap), cap);
        assert forall|k: int| 0 <= k < chunked(s, cap).len() implies 1 <= (#[trigger] chunked(s, cap)[k]).len() <= cap by {
            if k > 0 {
                assert(chunked(s, cap)[k] == chunked(s.skip(cap), cap)[k - 1]);
            }
        }
        assert forall|k: int| 0 <= k < chunked(s, cap).len() - 1 implies (#[trigger] chunked(s, cap)[k]).len() == cap by {
            if k > 0 {
                assert(chunked(s, cap)[k] == chunked(s.skip(cap), cap)[k - 1]);
            }
        }
    }
}

/// Chunking a sequence made of full chunks followed by a short remainder
/// gives back exactly those chunks, with the remainder as the final
/// chunk when it is non-empty.
pub proof fn lemma_chunked_of_full_concat<T>(cs: Seq<Seq<T>>, rem: Seq<T>, cap: int)
    requires
        1 <= cap,
        forall|k: int| 0 <= k < cs.len() ==> (#[trigger] cs[k]).len() == cap,
        rem.len() < cap,
    ensures
        chunked(cs.flatten() + rem, cap) == cs + (if rem.len() == 0 { Seq::<Seq<T>>::empty() } else { seq![rem] }),
    decreases cs.len(),
{
    let s = cs.flatten() + rem;
    if cs.len() == 0 {
        assert(cs.flatten() == Seq::<T>::empty());
        assert(s =~= rem);
        if rem.len() == 0 {
            assert(chunked(s, cap) =~= cs + Seq::<Seq<T>>::empty());
        } else {
            assert(chunked(s, cap) == seq![rem]);
            assert(cs + seq![rem] =~= seq![rem]);
        }
    } else {
        let c0 = cs.first();
        let rest = cs.drop_first();
        assert(cs.flatten() == c0 + rest.flatten());
        assert forall|k: int| 0 <= k < rest.len() implies (#[trigger] rest[k]).len() == cap by {
            assert(rest[k] == cs[k + 1]);
        }
        lemma_chunked_of_full_concat(rest, rem, cap);
        let tail = rest.flatten() + rem;
        assert(s =~= c0 + tail);
        if tail.len() == 0 {
            if rest.len() > 0 {
                assert(rest.flatten() == rest.first() + rest.drop_first().flatten());
                assert(false);
            }
            assert(s =~= c0);
            assert(s.len() == cap);
            assert(chunked(s, cap) == seq![s]);
            assert(cs =~= seq![c0]);
            assert(cs + Seq::<Seq<T>>::empty() =~= chunked(s, cap));
        } else {
            assert(s.len() > cap);
            assert(s.take(cap) =~= c0);
            assert(s.skip(cap) =~= tail);
            assert(chunked(s, cap) == seq![s.take(cap)] + chunked(tail, cap));
            assert(seq![s.take(cap)] + (rest + (if rem.len() == 0 { Seq::<Seq<T>>::empty() } else { seq![rem] }))
                =~= cs + (if rem.len() == 0 { Seq::<Seq<T>>::empty() } else { seq![rem] }));
            assert(seq![s.take(cap)] + chunked(tail, cap)
                =~= seq![s.take(cap)] + (rest + (if rem.len() == 0 { Seq::<Seq<T>>::empty() } else { seq![rem] })));
        }
    }
}

/// One bulk chunk: up to `cap` positions and as many colors, flushed to
/// the sink as a single visualization record.
#[derive(Clone, PartialEq, Eq, Debug)]
pub struct Chunk {
    pub index: usize,
    pub positions: Vec<Vec3>,
    pub colors: Vec<Rgb>,
}

/// The bounded accumulator for one scan: parallel position and color
/// buffers, reused across chunk boundaries, plus the index of the next
/// chunk to flush.
pub struct ChunkBuffer {
    positions: Vec<Vec3>,
    colors: Vec<Rgb>,
    next_chunk: usize,
    capacity: usize,
}

impl ChunkBuffer {
    pub closed spec fn pending_positions(self) -> Seq<Vec3> {
        self.positions@
    }

    pub closed spec fn pending_colors(self) -> Seq<Rgb> {
        self.colors@
    }

    pub closed spec fn chunks_emitted(self) -> nat {
        self.next_chunk as nat
    }

    pub closed spec fn cap(self) -> nat {
        self.capacity as nat
    }

    /// The buffers hold equally many positions and colors and never
    /// reach the flush threshold between calls.
    pub open spec fn wf(self) -> bool {
        &&& self.pending_positions().len() == self.pending_colors().len()
        &&& self.pending_positions().len() < self.cap()
        &&& 1 <= self.cap()
    }

    pub fn new(capacity: usize) -> (b: ChunkBuffer)
        requires
            1 <= capacity,
        ensures
            b.wf(),
            b.cap() == capacity as nat,
            b.pending_positions() == Seq::<Vec3>::empty(),
            b.pending_colors() == Seq::<Rgb>::empty(),
            b.chunks_emitted() == 0,
    {
        ChunkBuffer { positions: Vec::new(), colors: Vec::new(), next_chunk: 0, capacity }
    }

    /// How many chunks this buffer has flushed so far.
    pub fn next_chunk_index(&self) -> (n: usize)
        ensures
            n as nat == self.chunks_emitted(),
    {
        self.next_chunk
    }

    /// Feed one record. A record with a missing coordinate contributes
    /// to neither buffer; a kept record appends its position and its
    /// mapped color, and when the buffer reaches capacity it is flushed
    /// as a full chunk and cleared.
    pub fn push(&mut self, record: PointRecord) -> (flushed: Option<Chunk>)
        requires
            old(self).wf(),
            old(self).chunks_emitted() < usize::MAX,
        ensures
            final(self).wf(),
            final(self).cap() == old(self).cap(),
            !record.is_kept() ==> {
                &&& flushed is None
                &&& final(self).pending_positions() == old(self).pending_positions()
                &&& final(self).pending_colors() == old(self).pending_colors()
                &&& final(self).chunks_emitted() == old(self).chunks_emitted()
            },
            record.is_kept() && old(self).pending_positions().len() + 1 < old(self).cap() ==> {
                &&& flushed is None
                &&& final(self).pending_positions() == old(self).pending_positions().push(record.position())
                &&& final(self).pending_colors() == old(self).pending_colors().push(record.mapped_color())
                &&& final(self).chunks_emitted() == old(self).chunks_emitted()
            },
            record.is_kept() && old(self).pending_positions().len() + 1 == old(self).cap() ==> (
                flushed matches Some(c)
                && c.index as nat == old(self).chunks_emitted()
                && c.positions@ == old(self).pending_positions().push(record.position())
                && c.colors@ == old(self).pending_colors().push(record.mapped_color())
                && final(self).pending_positions() == Seq::<Vec3>::empty()
                && final(self).pending_colors() == Seq::<Rgb>::empty()
                && final(self).chunks_emitted() == old(self).chunks_emitted() + 1
            ),
    {
        match record.cartesian {
            Cartesian::Missing => None,
            Cartesian::Valid(p) => {
                self.positions.push(p);
                let color = match record.color {
                    Some(c) => c,
                    None => Rgb { r: 255, g: 255, b: 255 },
                };
                self.colors.push(color);
                if self.positions.len() == self.capacity {
                    let mut ps: Vec<Vec3> = Vec::new();
                    let mut cs: Vec<Rgb> = Vec::new();
                    core::mem::swap(&mut ps, &mut self.positions);
                    core::mem::swap(&mut cs, &mut self.colors);
                    let chunk = Chunk { index: self.next_chunk, positions: ps, colors: cs };
                    self.next_chunk = self.next_chunk + 1;
                    Some(chunk)
                } else {
                    None
                }
            }
        }
    }

    /// End of scan: flush whatever remains, as a final short chunk at
    /// the current chunk index, or nothing if the buffers are empty.
    pub fn finish(self) -> (flushed: Option<Chunk>)
        requires
            self.wf(),
        ensures
            self.pending_positions().len() == 0 ==> flushed is None,
            self.pending_positions().len() > 0 ==> (
                flushed matches Some(c)
                && c.index as nat == self.chunks_emitted()
                && c.positions@ == self.pending_positions()
                && c.colors@ == self.pending_colors()
            ),
    {
        if self.positions.len() == 0 {
            None
        } else {
            Some(Chunk { index: self.next_chunk, positions: self.positions, colors: self.colors })
        }
    }
}

/// One visualization record emitted for a scan: the transform marker
/// point, or one bulk chunk of positions and colors.
#[derive(Clone, PartialEq, Eq, Debug)]
pub enum VisRecord {
    Marker { translation: Vec3 },
    Bulk { chunk: Chunk },
}

/// What one eligible scan sends to the sink, in order: when the scan
/// declares a transform, its marker stands first; every following
/// record is the bulk chunk of the corresponding slice of the kept
/// records, chunked at `cap`, with chunk indices counted from zero and
/// positions and colors in lockstep.
pub open spec fn scan_emissions_spec(
    scan: ScanMeta,
    records: Seq<PointRecord>,
    cap: int,
    out: Seq<VisRecord>,
) -> bool {
    let kp = kept_positions(records);
    let kc = kept_colors(records);
    let m: int = if scan.transform is Some { 1int } else { 0int };
    &&& out.len() == m + chunked(kp, cap).len()
    &&& (scan.transform matches Some(t) ==> out[0] == (VisRecord::Marker { translation: t }))
    &&& forall|j: int| m <= j < out.len() ==> (
            (#[trigger] out[j]) matches VisRecord::Bulk { chunk }
            && chunk.index as int == j - m
            && chunk.positions@ == chunked(kp, cap)[j - m]
            && chunk.colors@ == chunked(kc, cap)[j - m]
            && chunk.positions@.len() == chunk.colors@.len()
        )
}

/// The bulk position payloads of an emission list, in order, skipping
/// the `m` leading marker records.
pub open spec fn bulk_position_chunks(out: Seq<VisRecord>, m: int) -> Seq<Seq<Vec3>> {
    Seq::new((out.len() - m) as nat, |k: int| match out[m + k] {
        VisRecord::Bulk { chunk } => chunk.positions@,
        VisRecord::Marker { .. } => Seq::empty(),
    })
}

/// A scan whose records keep N positions emits exactly
/// `ceil(N / cap)` bulk chunks — none when N is zero, else
/// `(N - 1) / cap + 1` — and concatenating the chunks' positions, in
/// emission order, restores exactly those N positions in their
/// original order.
pub proof fn lemma_scan_emission_shape(scan: ScanMeta, records: Seq<PointRecord>, cap: int, out: Seq<VisRecord>)
    requires
        1 <= cap,
        scan_emissions_spec(scan, records, cap, out),
    ensures
        ({
            let n = kept_positions(records).len();
            let m: int = if scan.transform is Some { 1int } else { 0int };
            &&& out.len() - m == (if n == 0 { 0int } else { (n - 1) / cap + 1 })
            &&& bulk_position_chunks(out, m).flatten() == kept_positions(records)
        }),
{
    let kp = kept_positions(records);
    let m: int = if scan.transform is Some { 1int } else { 0int };
    lemma_chunked_count(kp, cap);
    lemma_chunked_concat(kp, cap);
    assert(bulk_position_chunks(out, m) =~= chunked(kp, cap));
}

/// Everything one eligible scan sends to the sink, in order: the
/// transform marker first when the scan declares a transform, then the
/// bulk chunks of its kept records, chunked at `capacity`.
pub fn scan_emissions(scan: &ScanMeta, records: &Vec<PointRecord>, capacity: usize) -> (out: Vec<VisRecord>)
    requires
        1 <= capacity,
    ensures
        scan_emissions_spec(*scan, records@, capacity as int, out@),
{
    let ghost cap = capacity as int;
    let ghost m: int = if scan.transform is Some { 1int } else { 0int };
    let mut out: Vec<VisRecord> = Vec::new();
    match scan.transform {
        Some(t) => {
            out.push(VisRecord::Marker { translation: t });
        }
        None => {}
    }
    let mut buf = ChunkBuffer::new(capacity);
    let ghost mut fullp: Seq<Seq<Vec3>> = Seq::empty();
    let ghost mut fullc: Seq<Seq<Rgb>> = Seq::empty();
    let mut i: usize = 0;
    while i < records.len()
        invariant
            i <= records.len(),
            1 <= capacity,
            m == if scan.transform is Some { 1int } else { 0int },
            buf.wf(),
            buf.cap() == capacity as nat,
            buf.chunks_emitted() <= i,
            fullp.len() == buf.chunks_emitted(),
            fullc.len() == fullp.len(),
            out@.len() == m + fullp.len(),
            forall|k: int| 0 <= k < fullp.len() ==> (#[trigger] fullp[k]).len() == capacity as int,
            forall|k: int| 0 <= k < fullc.len() ==> (#[trigger] fullc[k]).len() == capacity as int,
            fullp.flatten() + buf.pending_positions() == kept_positions(records@.take(i as int)),
            fullc.flatten() + buf.pending_colors() == kept_colors(records@.take(i as int)),
            scan.transform matches Some(t) ==> out@[0] == (VisRecord::Marker { translation: t }),
            forall|j: int| m <= j < out@.len() ==> (
                (#[trigger] out@[j]) matches VisRecord::Bulk { chunk }
                && chunk.index as int == j - m
                && chunk.positions@ == fullp[j - m]
                && chunk.colors@ == fullc[j - m]
                && chunk.positions@.len() == chunk.colors@.len()
            ),
        decreases records.len() - i,
    {
        let r = records[i];
        proof {
            assert(records@.take(i + 1).drop_last() =~= records@.take(i as int));
            assert(records@.take(i + 1).last() == records@[i as int]);
        }
        let flushed = buf.push(r);
        match flushed {
            Some(c) => {
                proof {
                    fullp = fullp.push(c.positions@);
                    fullc = fullc.push(c.colors@);
                    assert(fullp.flatten() + buf.pending_positions()
                        =~= kept_positions(records@.take(i + 1)));
                    assert(fullc.flatten() + buf.pending_colors()
                        =~= kept_colors(records@.take(i + 1)));
                }
                out.push(VisRecord::Bulk { chunk: c });
            }
            None => {
                proof {
                    if r.is_kept() {
                        assert(fullp.flatten() + buf.pending_positions()
                            =~= kept_positions(records@.take(i + 1)));
                        assert(fullc.flatten() + buf.pending_colors()
                            =~= kept_colors(records@.take(i + 1)));
                    }
                }
            }
        }
        i = i + 1;
    }
    proof {
        assert(records@.take(records@.len() as int) =~= records@);
        lemma_chunked_of_full_concat(fullp, buf.pending_positions(), cap);
        lemma_chunked_of_full_concat(fullc, buf.pending_colors(), cap);
    }
    let flushed = buf.finish();
    match flushed {
        Some(c) => {
            out.push(VisRecord::Bulk { chunk: c });
        }
        None => {}
    }
    out
}

} // verus!
