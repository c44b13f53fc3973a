//! What the descriptions of errors and counts say.

use vstd::prelude::*;

use crate::buffer::BufferError;
use crate::chars::CharsError;
use crate::encoded::EncodeError;
use crate::error;
use crate::error::IoError;
use crate::line_count::LineCount;
use crate::lines::LinesError;
use crate::source::SourceError;

verus! {

/// A range that is refused is described with its numbers.
pub proof fn lemma_ranges_are_described(e: IoError, said: String)
    requires
        call_ensures(IoError::to_string, (&e,), said),
    ensures
        e matches IoError::InvertedRange { start, end } ==> said@
            == "normalised_range is inverted: start ("@ + error::decimal(start as nat)
            + ") > end ("@ + error::decimal(end as nat) + ")"@,
        e matches IoError::RangePastView { end, view_len } ==> said@ == "normalised_range.end ("@
            + error::decimal(end as nat) + ") exceeds view length ("@ + error::decimal(
            view_len as nat,
        ) + ")"@,
        e is OutOfBounds ==> said@ == "offset or range exceeds branch length"@,
        e is OffsetOverflow ==> said@ == "offset arithmetic overflowed u64"@,
{
}

/// An error of reading is described after the words that say where it came up.
pub proof fn lemma_read_errors_are_described(
    e: IoError,
    said: String,
    said_of: (String, String, String, String),
)
    requires
        call_ensures(IoError::to_string, (&e,), said),
        call_ensures(BufferError::to_string, (&BufferError::Io(e),), said_of.0),
        call_ensures(LinesError::to_string, (&LinesError::Io(e),), said_of.1),
        call_ensures(CharsError::to_string, (&CharsError::Io(e),), said_of.2),
        call_ensures(SourceError::to_string, (&SourceError::Io(e),), said_of.3),
    ensures
        said_of.0@ == "I/O error in Buffer: "@ + said@,
        said_of.1@ == "I/O error in Lines: "@ + said@,
        said_of.2@ == "I/O error in Chars: "@ + said@,
        said_of.3@ == "I/O error reading source probe: "@ + said@,
{
}

/// What a buffer or a reader refuses is described with its numbers.
pub proof fn lemma_refusals_are_described(
    requested: u64,
    ceiling: u64,
    line: usize,
    total: usize,
    by_buffer: String,
    by_lines: String,
    out_of_range: String,
)
    requires
        call_ensures(
            BufferError::to_string,
            (&BufferError::RangeExceedsCeiling { requested, ceiling },),
            by_buffer,
        ),
        call_ensures(
            LinesError::to_string,
            (&LinesError::RangeExceedsCeiling { requested, ceiling },),
            by_lines,
        ),
        call_ensures(
            BufferError::to_string,
            (&BufferError::LineOutOfRange { line, total },),
            out_of_range,
        ),
    ensures
        by_buffer@ == "byte range ("@ + error::decimal(requested as nat)
            + " bytes) exceeds memory ceiling ("@ + error::decimal(ceiling as nat) + " bytes)"@,
        by_lines@ == by_buffer@,
        out_of_range@ == "line "@ + error::decimal(line as nat) + " is out of range (file has "@
            + error::decimal(total as nat) + " lines)"@,
{
}

/// An encoding that cannot be used is named.
pub proof fn lemma_encodings_are_named(
    encoding_name: &'static str,
    by_source: String,
    by_buffer: String,
    by_encoder: String,
)
    requires
        call_ensures(
            SourceError::to_string,
            (&SourceError::EncodeDecodeAsymmetry { encoding_name },),
            by_source,
        ),
        call_ensures(
            BufferError::to_string,
            (&BufferError::EncodeUnsupported { encoding_name },),
            by_buffer,
        ),
        call_ensures(
            EncodeError::to_string,
            (&EncodeError::Unmappable { encoding_name },),
            by_encoder,
        ),
    ensures
        by_source@ == "encoding '"@ + encoding_name@
            + "' cannot encode text (decode-only encoding)"@,
        by_buffer@ == "encoding '"@ + encoding_name@
            + "' has no usable encoder in encoding_rs; use Source::as_chars or Source::as_lines for read-only access"@,
        by_encoder@ == "one or more characters cannot be encoded in '"@ + encoding_name@ + "'"@,
{
}

/// An estimate is written like an exact count, after a `~`.
pub proof fn lemma_estimates_are_marked(
    known: LineCount,
    guessed: LineCount,
    known_text: String,
    guessed_text: String,
)
    requires
        known.exact,
        !guessed.exact,
        known.value == guessed.value,
        call_ensures(LineCount::to_string, (&known,), known_text),
        call_ensures(LineCount::to_string, (&guessed,), guessed_text),
    ensures
        known_text@ == error::decimal(known.value as nat),
        guessed_text@.len() == known_text@.len() + 1,
        guessed_text@[0] == '~',
        guessed_text@.skip(1) == known_text@,
{
    reveal_strlit("~");
    assert(guessed_text@.skip(1) =~= known_text@);
}

} // verus!
