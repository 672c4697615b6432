//! The chunked file reader: a cursor that walks a byte source in fixed steps.
//!
//! The reader does not touch the source. It says which byte range the host is
//! to slice and decode next, and moves its cursor on. The step is larger than
//! the window that is read, so the last bytes of every step are skipped.

use vstd::prelude::*;

verus! {

/// The number of bytes that one chunk asks for.
pub const WINDOW_SIZE: u64 = 120;

/// The number of bytes by which the cursor moves after every chunk.
pub const STEP_SIZE: u64 = 128;

/// What the core knows of a byte source that the user picked.
#[derive(Clone, Debug, PartialEq, Eq)]
pub struct FileSource {
    /// The name of the source.
    pub name: String,
    /// The length of the source in bytes.
    pub byte_length: u64,
}

/// A byte range of the source for the host to slice and decode: the bytes
/// from `start` up to, not including, `end`. The source cuts the range off at
/// its own end.
#[derive(Clone, Copy, Debug, PartialEq, Eq, Structural)]
pub struct ChunkRequest {
    /// The offset of the first byte of the range.
    pub start: u64,
    /// The offset just behind the last byte of the range.
    pub end: u64,
}

/// What a reader holds, as plain values.
pub struct ReaderView {
    /// The source that is being read, if one was set.
    pub source: Option<FileSource>,
    /// The offset at which the next chunk starts.
    pub cursor_offset: nat,
}

impl ReaderView {
    /// The reader without a source.
    pub open spec fn idle() -> ReaderView {
        ReaderView { source: None, cursor_offset: 0 }
    }

    /// Where the chunk that is read at this cursor starts.
    pub open spec fn window_start(self) -> nat {
        self.cursor_offset
    }

    /// The offset just behind the chunk that is read at this cursor.
    pub open spec fn window_end(self) -> nat {
        self.cursor_offset + WINDOW_SIZE as nat
    }

    /// The reader after one read: with a source the cursor is one step on,
    /// without one nothing has changed.
    pub open spec fn advanced(self) -> ReaderView {
        if self.source is Some {
            ReaderView { cursor_offset: self.cursor_offset + STEP_SIZE as nat, ..self }
        } else {
            self
        }
    }

    /// The reader after `n` reads.
    pub open spec fn after_reads(self, n: nat) -> ReaderView
        decreases n,
    {
        if n == 0 {
            self
        } else {
            self.after_reads((n - 1) as nat).advanced()
        }
    }

    /// The reader after `source` was set: it reads that source from its
    /// first byte.
    pub open spec fn with_source(self, source: FileSource) -> ReaderView {
        ReaderView { source: Some(source), cursor_offset: 0 }
    }
}

/// The cursor over the source that the user picked.
pub struct ChunkedFileReader {
    source: Option<FileSource>,
    cursor_offset: u64,
}

impl View for ChunkedFileReader {
    type V = ReaderView;

    closed spec fn view(&self) -> ReaderView {
        ReaderView { source: self.source, cursor_offset: self.cursor_offset as nat }
    }
}

impl ChunkedFileReader {
    /// A reader without a source.
    pub fn new() -> (reader: Self)
        ensures
            reader@ == ReaderView::idle(),
    {
        ChunkedFileReader { source: None, cursor_offset: 0 }
    }

    /// Whether a source was set.
    pub fn has_source(&self) -> (has: bool)
        ensures
            has == (self@.source is Some),
    {
        self.source.is_some()
    }

    /// The source that is being read, if one was set.
    pub fn source(&self) -> (source: &Option<FileSource>)
        ensures
            *source == self@.source,
    {
        &self.source
    }

    /// The offset at which the next chunk starts.
    pub fn cursor_offset(&self) -> (offset: u64)
        ensures
            offset == self@.cursor_offset,
    {
        self.cursor_offset
    }

    /// Whether the cursor can take one more step without leaving the range
    /// of `u64`.
    pub fn can_advance(&self) -> (can: bool)
        ensures
            can == (self@.cursor_offset + STEP_SIZE <= u64::MAX),
    {
        self.cursor_offset <= u64::MAX - STEP_SIZE
    }

    /// Replaces the source and puts the cursor back to the first byte.
    pub fn set_source(&mut self, source: FileSource)
        ensures
            final(self)@ == old(self)@.with_source(source),
    {
        self.source = Some(source);
        self.cursor_offset = 0;
    }

    /// Asks for the next chunk.
    ///
    /// Without a source this does nothing and asks for nothing. With one it
    /// asks for the window of bytes that starts at the cursor and then moves
    /// the cursor one step on, whatever comes of the read.
    pub fn read_next_chunk(&mut self) -> (request: Option<ChunkRequest>)
        requires
            old(self)@.source is Some ==> old(self)@.cursor_offset + STEP_SIZE <= u64::MAX,
        ensures
            final(self)@ == old(self)@.advanced(),
            request is Some <==> old(self)@.source is Some,
            request matches Some(range) ==> range.start == old(self)@.window_start() && range.end
                == old(self)@.window_end(),
    {
        if self.source.is_none() {
            return None;
        }
        let start: u64 = self.cursor_offset;
        let end: u64 = start + WINDOW_SIZE;
        self.cursor_offset = start + STEP_SIZE;
        Some(ChunkRequest { start, end })
    }
}

/// Whether a chunk that is read at cursor `cursor` asks for the byte at
/// `offset`.
pub open spec fn window_covers(cursor: nat, offset: nat) -> bool {
    cursor <= offset < cursor + WINDOW_SIZE as nat
}

/// With a source, `n` reads move the cursor `n` steps on and leave the source
/// alone; without one they change nothing.
pub proof fn lemma_reads_advance(reader: ReaderView, n: nat)
    ensures
        reader.after_reads(n).source == reader.source,
        reader.source is Some ==> reader.after_reads(n).cursor_offset == reader.cursor_offset + n
            * STEP_SIZE,
        reader.source is None ==> reader.after_reads(n) == reader,
    decreases n,
{
    if n > 0 {
        lemma_reads_advance(reader, (n - 1) as nat);
        assert(n * STEP_SIZE == (n - 1) * STEP_SIZE + STEP_SIZE) by (nonlinear_arith);
    }
}

/// The last bytes of every step are never asked for: of a source that is read
/// from its first byte, no read covers an offset that lies behind the window
/// of some step and before the next step.
pub proof fn lemma_gap_is_never_read(reader: ReaderView, step: nat, offset: nat, n: nat)
    requires
        reader.source is Some,
        reader.cursor_offset == 0,
        step * STEP_SIZE + WINDOW_SIZE <= offset < (step + 1) * STEP_SIZE,
    ensures
        !window_covers(reader.after_reads(n).cursor_offset, offset),
{
    lemma_reads_advance(reader, n);
    if n <= step {
        assert(n * STEP_SIZE <= step * STEP_SIZE) by (nonlinear_arith)
            requires
                n <= step,
        ;
    } else {
        assert(n * STEP_SIZE >= (step + 1) * STEP_SIZE) by (nonlinear_arith)
            requires
                n >= step + 1,
        ;
    }
}

} // verus!
