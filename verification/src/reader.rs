use vstd::prelude::*;

verus! {

/// A buffered reader, with what its last fill made available. Only the
/// wrappers of this module change that record, and only from what
/// `BufRead::fill_buf` returned.
pub struct LineSource<R> {
    reader: R,
    filled: usize,
    last_fill: Option<usize>,
}

impl<R> LineSource<R> {
    /// Bytes the last fill made available that are not consumed yet, as
    /// far as the reader may be asked to consume them.
    pub closed spec fn filled(&self) -> usize {
        self.filled
    }

    /// Whether the last successful fill found the end of the stream
    /// (made no bytes available).
    pub closed spec fn ended(&self) -> bool {
        self.last_fill == Some(0usize)
    }

    /// Reads lines from `reader`.
    pub fn new(reader: R) -> (r: LineSource<R>)
        ensures
            r.filled() == 0,
            !r.ended(),
    {
        LineSource { reader, filled: 0, last_fill: None }
    }
}

/// Copies the bytes `BufRead::fill_buf` makes available (empty at the
/// end of the stream), or returns the read error's message, and records
/// how many bytes it made available. What the reader yields is not
/// stated: it comes from outside.
#[verifier::external_body]
pub(crate) fn fill_available<R: std::io::BufRead>(source: &mut LineSource<R>) -> (r: Result<
    Vec<u8>,
    String,
>)
    ensures
        final(source).filled() == match r {
            Ok(bytes) => bytes@.len(),
            Err(_) => 0,
        },
        match r {
            Ok(bytes) => final(source).ended() == (bytes@.len() == 0),
            Err(_) => final(source).ended() == old(source).ended(),
        },
{
    match source.reader.fill_buf() {
        Ok(available) => {
            source.filled = available.len();
            source.last_fill = Some(available.len());
            Ok(available.to_vec())
        },
        Err(error) => {
            source.filled = 0;
            Err(error.to_string())
        },
    }
}

/// Marks `amount` bytes of the last fill as read, with
/// `BufRead::consume`, which asks for no more than the last fill made
/// available; none may be consumed after that until the next fill.
#[verifier::external_body]
pub(crate) fn consume_bytes<R: std::io::BufRead>(source: &mut LineSource<R>, amount: usize)
    requires
        amount <= old(source).filled(),
    ensures
        final(source).filled() == 0,
        final(source).ended() == old(source).ended(),
{
    source.reader.consume(amount);
    source.filled = 0;
}

} // verus!
