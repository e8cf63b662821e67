use vstd::prelude::*;

use crate::carved_file::CarvedFile;
use crate::constants::DEFAULT_CHUNK_SIZE;
use crate::error::CarverError;
use crate::source::{lemma_read_range_len, read_range, ByteSource};

verus! {

/// Copies the bytes of a [`CarvedFile`] from a byte source to a destination,
/// reading in fixed-size chunks.
pub struct Extractor {
    chunk_size: usize,
}

/// The chunk size actually used: the configured one, or the default when it is 0.
pub open spec fn effective_chunk(chunk_size: int) -> int {
    if chunk_size == 0 { DEFAULT_CHUNK_SIZE as int } else { chunk_size }
}

/// Where an extraction stands: how many bytes are still to copy and how many
/// have been written, for the file starting at `offset_start`.
#[derive(Debug, Clone, Copy, PartialEq, Eq, Structural)]
pub struct ExtractProgress {
    pub remaining: u64,
    pub total_written: u64,
    pub offset_start: u64,
}

impl ExtractProgress {
    /// Whether every byte of the file has been copied.
    pub fn is_done(&self) -> (res: bool)
        ensures
            res == (self.remaining == 0),
    {
        self.remaining == 0
    }

    /// Accounts for a read that returned `bytes_read` bytes: a read of 0
    /// bytes means the source ended early and is an error.
    pub fn record(&mut self, bytes_read: u64) -> (res: Result<(), CarverError>)
        requires
            bytes_read <= old(self).remaining,
            old(self).total_written + old(self).remaining <= u64::MAX,
        ensures
            bytes_read == 0 ==> res == Err::<(), CarverError>(
                Extractor::unexpected_eof_spec(old(self).remaining, old(self).offset_start),
            ) && *final(self) == *old(self),
            bytes_read > 0 ==> res is Ok && *final(self) == (ExtractProgress {
                remaining: (old(self).remaining - bytes_read) as u64,
                total_written: (old(self).total_written + bytes_read) as u64,
                offset_start: old(self).offset_start,
            }),
    {
        if bytes_read == 0 {
            return Err(Extractor::unexpected_eof_error(self.remaining, self.offset_start));
        }
        self.total_written = self.total_written + bytes_read;
        self.remaining = self.remaining - bytes_read;
        Ok(())
    }
}

/// What `extract` appends to the destination: the bytes of `[start, end)`
/// that the source holds.
pub open spec fn available_bytes(data: Seq<u8>, start: int, end: int) -> Seq<u8> {
    read_range(data, start, end - start)
}

impl Default for Extractor {
    /// An extractor with the default chunk size.
    fn default() -> (res: Self)
        ensures
            res.chunk() == DEFAULT_CHUNK_SIZE,
    {
        Extractor { chunk_size: DEFAULT_CHUNK_SIZE }
    }
}

impl Extractor {
    pub closed spec fn chunk(&self) -> int {
        self.chunk_size as int
    }

    pub open spec fn unexpected_eof_spec(remaining: u64, offset_start: u64) -> CarverError {
        CarverError::ExtractionFailed { remaining, offset_start }
    }

    /// An extractor with the default chunk size.
    pub fn new() -> (res: Self)
        ensures
            res.chunk() == DEFAULT_CHUNK_SIZE,
    {
        Extractor { chunk_size: DEFAULT_CHUNK_SIZE }
    }

    /// Overrides the number of bytes read from the source per iteration.
    pub fn with_chunk_size(self, chunk_size: usize) -> (res: Self)
        ensures
            res.chunk() == chunk_size,
    {
        Extractor { chunk_size }
    }

    /// The chunk size to use: the configured one, or [`DEFAULT_CHUNK_SIZE`]
    /// when it is zero.
    pub fn effective_chunk_size(&self) -> (res: usize)
        ensures
            res == effective_chunk(self.chunk()),
            res > 0,
    {
        if self.chunk_size == 0 {
            DEFAULT_CHUNK_SIZE
        } else {
            self.chunk_size
        }
    }

    /// How many bytes to read next: the smaller of the effective chunk size
    /// and the bytes still remaining.
    pub fn bytes_to_read(&self, remaining: u64) -> (res: usize)
        ensures
            res == (if effective_chunk(self.chunk()) <= remaining {
                effective_chunk(self.chunk())
            } else {
                remaining as int
            }),
    {
        let chunk = self.effective_chunk_size();
        if (chunk as u64) <= remaining {
            chunk
        } else {
            remaining as usize
        }
    }

    /// Checks that `carved` has a non-empty, well-ordered byte range.
    pub fn validate_range(carved: &CarvedFile) -> (res: Result<(), CarverError>)
        ensures
            carved.offset_end <= carved.offset_start ==> res == Err::<(), CarverError>(
                CarverError::InvalidRange { start: carved.offset_start, end: carved.offset_end },
            ),
            carved.offset_end > carved.offset_start ==> res is Ok,
    {
        if carved.offset_end <= carved.offset_start {
            return Err(
                CarverError::InvalidRange { start: carved.offset_start, end: carved.offset_end },
            );
        }
        Ok(())
    }

    /// The error returned when the source ends before every expected byte
    /// has been read.
    pub fn unexpected_eof_error(remaining: u64, offset_start: u64) -> (res: CarverError)
        ensures
            res == Self::unexpected_eof_spec(remaining, offset_start),
    {
        CarverError::ExtractionFailed { remaining, offset_start }
    }

    /// The progress of an extraction of `carved` that has not started yet,
    /// or the range error when `carved` is empty or inverted.
    pub fn begin(carved: &CarvedFile) -> (res: Result<ExtractProgress, CarverError>)
        ensures
            carved.offset_end <= carved.offset_start ==> res == Err::<ExtractProgress, CarverError>(
                CarverError::InvalidRange { start: carved.offset_start, end: carved.offset_end },
            ),
            carved.offset_end > carved.offset_start ==> res == Ok::<ExtractProgress, CarverError>(
                ExtractProgress {
                    remaining: (carved.offset_end - carved.offset_start) as u64,
                    total_written: 0,
                    offset_start: carved.offset_start,
                },
            ),
    {
        Self::validate_range(carved)?;
        Ok(ExtractProgress { remaining: carved.size(), total_written: 0, offset_start: carved.offset_start })
    }

    /// Copies the bytes of `carved` from `source` to the end of `dest` and
    /// returns how many were written.
    ///
    /// Errors: [`CarverError::InvalidRange`] when `offset_end <= offset_start`
    /// (nothing is copied); [`CarverError::ExtractionFailed`] when the source
    /// ends before `offset_end` (the bytes it does hold are copied first).
    pub fn extract(&self, source: &mut ByteSource, carved: &CarvedFile, dest: &mut Vec<u8>) -> (res: Result<
        u64,
        CarverError,
    >)
        ensures
            final(source).content() == old(source).content(),
            ({
                let data = old(source).content();
                let start = carved.offset_start as int;
                let end = carved.offset_end as int;
                if end <= start {
                    &&& res == Err::<u64, CarverError>(CarverError::InvalidRange {
                        start: carved.offset_start,
                        end: carved.offset_end,
                    })
                    &&& final(dest)@ == old(dest)@
                    &&& final(source).pos() == old(source).pos()
                } else {
                    &&& final(source).pos() == (if end <= data.len() {
                        end
                    } else if start >= data.len() {
                        start
                    } else {
                        data.len() as int
                    })
                    &&& final(dest)@ == old(dest)@ + available_bytes(data, start, end)
                    &&& end <= data.len() ==> res == Ok::<u64, CarverError>((end - start) as u64)
                    &&& end > data.len() ==> res == Err::<u64, CarverError>(
                        CarverError::ExtractionFailed {
                            remaining: (end - (if start >= data.len() { start } else { data.len() as int })) as u64,
                            offset_start: carved.offset_start,
                        },
                    )
                }
            }),
    {
        let ghost data = source.content();
        let ghost start = carved.offset_start as int;
        let ghost end = carved.offset_end as int;
        let mut progress = Self::begin(carved)?;
        source.seek(carved.offset_start);
        let ghost dest0 = dest@;
        assert(available_bytes(data, start, start) =~= Seq::<u8>::empty());
        assert(dest0 + Seq::<u8>::empty() =~= dest0);
        while !progress.is_done()
            invariant
                end > start,
                source.content() == data,
                progress.offset_start == start,
                progress.total_written + progress.remaining == end - start,
                source.pos() == start + progress.total_written,
                dest@ == dest0 + available_bytes(data, start, source.pos()),
                source.pos() <= data.len() || progress.total_written == 0,
                start == carved.offset_start,
                end == carved.offset_end,
                data == old(source).content(),
                dest0 == old(dest)@,
            decreases progress.remaining,
        {
            let to_read = self.bytes_to_read(progress.remaining);
            let ghost pos = source.pos();
            proof {
                lemma_read_range_len(data, pos, to_read as int);
            }
            let mut chunk = source.read(to_read);
            let n = chunk.len();
            if n == 0 {
                let err = progress.record(0);
                proof {
                    assert(available_bytes(data, start, pos) =~= available_bytes(data, start, end));
                }
                return match err {
                    Ok(()) => Ok(0),
                    Err(e) => Err(e),
                };
            }
            let _ = progress.record(n as u64);
            proof {
                assert(available_bytes(data, start, pos + n) =~= available_bytes(data, start, pos) + chunk@);
            }
            dest.append(&mut chunk);
            assert(dest@ =~= dest0 + available_bytes(data, start, source.pos()));
        }
        proof {
            assert(available_bytes(data, start, source.pos()) == available_bytes(data, start, end));
        }
        Ok(progress.total_written)
    }
}

} // verus!
