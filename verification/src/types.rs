//! Common types of the query engine: integer widths, errors, and the
//! option / result records of the search entry points.

use vstd::prelude::*;

verus! {

/// Version byte expected at the start of an index image.
pub const OUTFILE_VERSION: u8 = 4;

/// Byte that terminates the concatenated text of an index.
pub const SENTINEL_CHARACTER: u8 = 36;

/// Width of the integers an index stores for suffix offsets, chosen at
/// build time from the text length.
#[derive(Clone, Copy, Debug, PartialEq, Eq, Structural)]
pub enum IntWidth {
    U32,
    U64,
}

impl IntWidth {
    /// Number of bytes one stored integer occupies.
    pub open spec fn spec_bytes(self) -> nat {
        match self {
            IntWidth::U32 => 4,
            IntWidth::U64 => 8,
        }
    }

    pub fn bytes(self) -> (n: usize)
        ensures
            n == self.spec_bytes(),
    {
        match self {
            IntWidth::U32 => 4,
            IntWidth::U64 => 8,
        }
    }

    /// Whether a value can be stored at this width.
    pub open spec fn fits(self, v: u64) -> bool {
        match self {
            IntWidth::U32 => v <= u32::MAX,
            IntWidth::U64 => true,
        }
    }
}

/// Errors surfaced by the engine.
#[derive(Debug, Clone, PartialEq, Eq)]
pub enum SufrError {
    /// A read or write of an index or cache failed; holds a description.
    IoError(String),
    /// The index image has an unknown version byte or is too short.
    MalformedHeader,
    /// A range request lay outside `[0, count]`.
    InvalidRange(usize, usize),
    /// The trailing headers blob could not be decoded.
    DeserializationError,
}

/// ASCII decimal digits of `x`, most significant first.
pub open spec fn spec_dec(x: nat) -> Seq<u8>
    decreases x,
{
    if x < 10 {
        seq![(48 + x) as u8]
    } else {
        spec_dec(x / 10).push((48 + x % 10) as u8)
    }
}

/// The decimal digits of `x`, as characters.
pub open spec fn spec_dec_chars(x: nat) -> Seq<char> {
    spec_dec(x).map_values(|b: u8| b as char)
}

pub proof fn lemma_spec_dec_ascii(x: nat)
    ensures
        forall|j: int| 0 <= j < spec_dec(x).len() ==> 48 <= #[trigger] spec_dec(x)[j] < 58,
    decreases x,
{
    if x < 10 {
        assert(spec_dec(x) == seq![(48 + x) as u8]);
    } else {
        lemma_spec_dec_ascii(x / 10);
        assert forall|j: int| 0 <= j < spec_dec(x).len() implies 48 <= #[trigger] spec_dec(
            x,
        )[j] < 58 by {
            if j < spec_dec(x).len() - 1 {
                assert(spec_dec(x)[j] == spec_dec(x / 10)[j]);
            }
        }
    }
}

/// Appends the decimal digits of `x` to `out`.
fn push_dec(x: u64, out: &mut Vec<u8>)
    ensures
        final(out)@ == old(out)@ + spec_dec(x as nat),
    decreases x,
{
    if x < 10 {
        out.push(48 + x as u8);
        assert(out@ =~= old(out)@ + spec_dec(x as nat));
    } else {
        push_dec(x / 10, out);
        out.push(48 + (x % 10) as u8);
        assert(out@ =~= old(out)@ + spec_dec(x as nat));
    }
}

/// The decimal rendering of `x`.
pub(crate) fn dec_string(x: u64) -> (r: String)
    ensures
        r@ == spec_dec_chars(x as nat),
{
    let mut out: Vec<u8> = Vec::new();
    push_dec(x, &mut out);
    proof {
        lemma_spec_dec_ascii(x as nat);
        assert(out@ =~= spec_dec(x as nat));
    }
    crate::util::ascii_digits_to_string(out)
}

impl SufrError {
    /// The message of this error, as a character sequence.
    pub open spec fn spec_message(self) -> Seq<char> {
        match self {
            SufrError::IoError(s) => s@,
            SufrError::MalformedHeader => "Malformed header"@,
            SufrError::InvalidRange(a, b) => (
                "Invalid range: "@ + spec_dec(a as nat).map_values(|c: u8| c as char) + ".."@
                    + spec_dec(b as nat).map_values(|c: u8| c as char)
            ),
            SufrError::DeserializationError => "Deserialization error"@,
        }
    }

    /// Renders the error as text, e.g. `Invalid range: 1..100`.
    pub fn message(&self) -> (r: String)
        ensures
            r@ == self.spec_message(),
    {
        match self {
            SufrError::IoError(s) => s.clone(),
            SufrError::MalformedHeader => "Malformed header".to_owned(),
            SufrError::DeserializationError => "Deserialization error".to_owned(),
            SufrError::InvalidRange(a, b) => {
                let left = dec_string(*a as u64);
                let right = dec_string(*b as u64);
                let mut r = "Invalid range: ".to_owned();
                crate::util::append_str(&mut r, left.as_str());
                crate::util::append_str(&mut r, "..");
                crate::util::append_str(&mut r, right.as_str());
                r
            },
        }
    }
}

/// Options of one search batch.
#[derive(Debug, Clone)]
pub struct SearchOptions {
    /// The query strings, answered in submission order.
    pub queries: Vec<String>,
    /// Caller's promised maximum query length; `None` or 0 means the
    /// build-time cap of the index, if any.
    pub max_query_len: Option<usize>,
    /// Serve the suffix array from its stored image instead of memory.
    pub low_memory: bool,
    /// Also report the matching suffix positions, not only the rank range.
    pub find_suffixes: bool,
}

/// The matching ranks and suffix positions of one query.
#[derive(Debug, Clone, PartialEq, Eq)]
pub struct SearchLocations {
    /// First matching rank in the full suffix array.
    pub rank_start: usize,
    /// One past the last matching rank in the full suffix array.
    pub rank_end: usize,
    /// Text positions of the matching suffixes, in rank order.
    pub suffixes: Vec<u64>,
}

/// Result of one query of a batch.
#[derive(Debug, Clone, PartialEq, Eq)]
pub struct SearchResult {
    /// Submission index of the query.
    pub query_num: usize,
    /// The query string itself.
    pub query: String,
    /// Present exactly when matches exist and suffixes were requested.
    pub locations: Option<SearchLocations>,
}

/// One located match, mapped to its sub-sequence.
#[derive(Debug, Clone, PartialEq, Eq)]
pub struct LocatePosition {
    /// Rank in the full suffix array.
    pub rank: usize,
    /// Absolute text position of the matching suffix.
    pub suffix: u64,
    /// Header of the sub-sequence holding the match.
    pub sequence_name: String,
    /// Offset of the match inside its sub-sequence.
    pub sequence_position: u64,
}

/// All located matches of one query.
#[derive(Debug, Clone, PartialEq, Eq)]
pub struct LocateResult {
    pub query_num: usize,
    pub query: String,
    pub positions: Vec<LocatePosition>,
}

/// Options of an extract batch.
#[derive(Debug, Clone)]
pub struct ExtractOptions {
    pub queries: Vec<String>,
    pub max_query_len: Option<usize>,
    pub low_memory: bool,
    /// Context bytes wanted before each match; 0 when absent.
    pub prefix_len: Option<usize>,
    /// Window length from the match start; to the sub-sequence end when absent.
    pub suffix_len: Option<usize>,
}

/// One extracted context window.
#[derive(Debug, Clone, PartialEq, Eq)]
pub struct ExtractSequence {
    pub rank: usize,
    pub suffix: usize,
    pub sequence_name: String,
    /// Start of the half-open context window, relative to the sub-sequence.
    pub context_start: usize,
    /// End of the half-open context window, relative to the sub-sequence.
    pub context_end: usize,
    /// Offset of the match inside the window.
    pub suffix_offset: usize,
}

/// All extracted windows of one query.
#[derive(Debug, Clone, PartialEq, Eq)]
pub struct ExtractResult {
    pub query_num: usize,
    pub query: String,
    pub sequences: Vec<ExtractSequence>,
}

} // verus!
