//! The output writer with its two forms: plain bytes, and bytes that leave
//! as a gzip stream.

use crate::error::{EncodeError, ErrorKind};
use crate::outside::{gzip_encode, gzip_stream};
use crate::term::append;
use vstd::prelude::*;

verus! {

/// Capacity that a plain writer starts with.
pub const PLAIN_OUTPUT_CAPACITY: usize = 4096;

/// The level of compression where none is asked for.
pub const DEFAULT_GZIP_LEVEL: u32 = 6;

/// Highest level of compression that the encoder knows.
pub const MAX_GZIP_LEVEL: u32 = 10;

/// The level at which the output is compressed when `level` is asked for:
/// a level above the highest is taken as the highest.
pub open spec fn working_level(level: u32) -> u32 {
    if level <= MAX_GZIP_LEVEL {
        level
    } else {
        MAX_GZIP_LEVEL
    }
}

/// The level at which the output is compressed when `level` is asked for.
pub fn gzip_level(level: u32) -> (r: u32)
    ensures
        r == working_level(level),
        r <= MAX_GZIP_LEVEL,
{
    if level <= MAX_GZIP_LEVEL {
        level
    } else {
        MAX_GZIP_LEVEL
    }
}

/// The compression of the output.
#[derive(Clone, Copy, PartialEq, Eq, Debug, Structural)]
pub enum Algs {
    /// The output leaves as it is.
    Uncompressed,
    /// The output leaves as a gzip stream.
    Gzip,
}

/// A writer that ends in the bytes of the output.
pub enum Writer {
    /// The bytes leave as they were written.
    Plain(Vec<u8>),
    /// The bytes leave as a gzip stream of the given level, or of the
    /// default level where none is given.
    Gzip(Option<u32>, Vec<u8>),
}

impl Writer {
    /// The bytes written so far.
    pub open spec fn written(&self) -> Seq<u8> {
        match self {
            Writer::Plain(v) => v@,
            Writer::Gzip(_, v) => v@,
        }
    }

    /// The level of a compressing writer.
    pub open spec fn level(&self) -> Option<u32> {
        match self {
            Writer::Plain(_) => None,
            Writer::Gzip(level, _) => Some(
                match level {
                    Some(l) => *l,
                    None => DEFAULT_GZIP_LEVEL,
                },
            ),
        }
    }

    /// Takes all of `buf`.
    pub fn write(&mut self, buf: &[u8]) -> (r: Result<usize, EncodeError>)
        ensures
            r == Ok::<usize, EncodeError>(buf@.len() as usize),
            final(self).written() == old(self).written() + buf@,
            final(self).level() == old(self).level(),
    {
        match self {
            Writer::Plain(v) => {
                append(v, buf);
            },
            Writer::Gzip(_, v) => {
                append(v, buf);
            },
        }
        Ok(buf.len())
    }

    /// Nothing is held back, so there is nothing to do.
    pub fn flush(&mut self) -> (r: Result<(), EncodeError>)
        ensures
            r is Ok,
            *final(self) == *old(self),
    {
        Ok(())
    }

    /// Takes all of `buf`.
    pub fn write_all(&mut self, buf: &[u8]) -> (r: Result<(), EncodeError>)
        ensures
            r is Ok,
            final(self).written() == old(self).written() + buf@,
            final(self).level() == old(self).level(),
    {
        match self.write(buf) {
            Ok(_) => Ok(()),
            Err(e) => Err(e),
        }
    }

    /// The output: the bytes written, or the gzip stream of them.
    pub fn get_buf(self) -> (r: Result<Vec<u8>, EncodeError>)
        ensures
            r is Ok,
            r.unwrap()@ == finished(self.written(), self.level()),
    {
        match self {
            Writer::Plain(v) => Ok(v),
            Writer::Gzip(level, v) => {
                let level = match level {
                    Some(l) => l,
                    None => DEFAULT_GZIP_LEVEL,
                };
                match gzip_encode(v.as_slice(), gzip_level(level)) {
                    Some(out) => Ok(out),
                    None => Err(EncodeError::new(ErrorKind::IoOrAllocation)),
                }
            },
        }
    }
}

/// What leaves a writer that took `data`: `data` itself, or its gzip stream
/// at the working level of the writer.
pub open spec fn finished(data: Seq<u8>, level: Option<u32>) -> Seq<u8> {
    match level {
        Some(l) => gzip_stream(data, working_level(l)),
        None => data,
    }
}

/// The writer for the compression that is asked for: a compressing one for
/// gzip, at the level that is given, and a plain one otherwise.
pub fn get_writer(opts: Option<(Algs, Option<u32>)>) -> (w: Writer)
    ensures
        w.written() == Seq::<u8>::empty(),
        w.level() == (match opts {
            Some((Algs::Gzip, Some(l))) => Some(l),
            Some((Algs::Gzip, None)) => Some(DEFAULT_GZIP_LEVEL),
            _ => None::<u32>,
        }),
{
    match opts {
        Some((Algs::Gzip, level)) => Writer::Gzip(level, Vec::new()),
        _ => Writer::Plain(Vec::with_capacity(PLAIN_OUTPUT_CAPACITY)),
    }
}

} // verus!
