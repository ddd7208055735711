//! The index descriptor: parsing an index image, integrity checking,
//! suffix-array subsampling, and the count / locate / extract entry points.

use vstd::bytes::{spec_u64_from_le_bytes, spec_u64_to_le_bytes};
use vstd::prelude::*;

use crate::file_access::FileAccess;
use crate::sufr_search::{
    expand_rank, find_range, is_match, lcp_matches, lemma_check_step, lemma_compressed_range,
    lemma_range_unique,
    lemma_kept_props, lemma_mem_sorted, lemma_pair_big_start, lemma_pair_depth_sym,
    pair_depth_from, range_correct, spec_is_less_at, spec_kept, suffix_lcp,
    suffix_order, sa_in_bounds, sa_sorted, Cmp,
};
use crate::types::{
    ExtractOptions, ExtractResult, ExtractSequence, IntWidth, LocatePosition, LocateResult,
    SearchLocations, SearchOptions, SearchResult, SufrError, OUTFILE_VERSION,
};
use crate::util::{le_bytes_of, le_value_at, slice_u8_to_vec};

verus! {

/// What a trailing headers blob decodes to, if anything.  Determined by
/// the bytes alone.
pub uninterp spec fn decoded_headers(bytes: Seq<u8>) -> Option<Seq<Seq<char>>>;

/// Relies on `bincode::deserialize` for `Vec<String>`: whether the blob
/// decodes, and to which strings, is a function of the bytes alone.
#[verifier::external_body]
fn decode_headers(bytes: &[u8]) -> (r: Option<Vec<String>>)
    ensures
        r is Some ==> decoded_headers(bytes@) == Some(r.unwrap().deep_view()),
        r is None ==> decoded_headers(bytes@) is None,
{
    bincode::deserialize(bytes).ok()
}

/// The `idx`-th eight-byte header field of an index image, counting from
/// the text length at byte 4.
pub open spec fn hdr_field(data: Seq<u8>, idx: int) -> u64 {
    spec_u64_from_le_bytes(data.subrange(4 + 8 * idx, 12 + 8 * idx))
}

/// The `cnt` integers of width `w` stored at byte `off` of `data`.
pub open spec fn region_values(data: Seq<u8>, off: int, cnt: int, w: IntWidth) -> Seq<u64> {
    Seq::new(cnt as nat, |i: int| le_value_at(data.subrange(off, off + cnt * w.spec_bytes()), w, i))
}

/// Everything the fixed part of an index image must satisfy for `read`
/// to accept it (the headers blob is judged separately).
pub open spec fn spec_parse_ok(data: Seq<u8>, w: IntWidth) -> bool {
    &&& data.len() >= 60
    &&& data[0] == OUTFILE_VERSION
    &&& hdr_field(data, 0) <= usize::MAX
    &&& hdr_field(data, 1) <= usize::MAX
    &&& hdr_field(data, 2) <= usize::MAX
    &&& hdr_field(data, 3) <= usize::MAX
    &&& hdr_field(data, 4) <= usize::MAX
    &&& hdr_field(data, 5) <= usize::MAX
    &&& hdr_field(data, 6) <= usize::MAX
    &&& hdr_field(data, 6) * w.spec_bytes() <= usize::MAX
    &&& 60 + hdr_field(data, 6) * w.spec_bytes() + hdr_field(data, 0) <= data.len()
    &&& hdr_field(data, 4) * w.spec_bytes() <= usize::MAX
    &&& hdr_field(data, 2) + hdr_field(data, 4) * w.spec_bytes() <= data.len()
    &&& hdr_field(data, 3) + hdr_field(data, 4) * w.spec_bytes() <= data.len()
}

/// An opened index: header fields, the eagerly loaded text and
/// sub-sequence table, and handles on the stored SA and LCP arrays.
#[derive(Debug)]
pub struct SufrFile {
    pub filename: String,
    pub version: u8,
    pub is_dna: bool,
    pub allow_ambiguity: bool,
    pub ignore_softmask: bool,
    pub query_low_memory: bool,
    pub text_pos: usize,
    pub suffix_array_pos: usize,
    pub lcp_pos: usize,
    pub max_query_len: u64,
    pub text_len: u64,
    pub num_suffixes: u64,
    pub num_sequences: u64,
    pub width: IntWidth,
    pub sequence_starts: Vec<u64>,
    pub headers: Vec<String>,
    pub text: Vec<u8>,
    pub suffix_array_mem: Vec<u64>,
    pub suffix_array_mem_mql: Option<usize>,
    pub suffix_array_rank_mem: Vec<usize>,
    pub suffix_array_file: FileAccess,
    pub lcp_file: FileAccess,
}

impl SufrFile {
    /// Structural well-formedness, established by `read`.
    pub open spec fn wf(self) -> bool {
        &&& self.suffix_array_file.wf()
        &&& self.lcp_file.wf()
        &&& self.suffix_array_file@.len() == self.num_suffixes
        &&& self.lcp_file@.len() == self.num_suffixes
        &&& self.text@.len() == self.text_len
        &&& self.text_len <= usize::MAX
        &&& self.num_suffixes <= usize::MAX
        &&& self.max_query_len <= usize::MAX
        &&& self.sequence_starts@.len() == self.num_sequences
        &&& self.headers@.len() == self.num_sequences
    }

    /// The stored suffix array names positions inside the text, in strict
    /// lexicographic order of their suffixes.  Distinctness of the entries
    /// follows from the strict order; which positions a build includes at
    /// all (its skip policy) is decided at build time and is not modelled
    /// here.
    pub open spec fn sa_valid(self) -> bool {
        &&& sa_in_bounds(self.suffix_array_file@, self.text@.len())
        &&& sa_sorted(self.text@, self.suffix_array_file@)
    }

    /// Each stored LCP entry is the longest common prefix of the adjacent
    /// suffixes, with the first entry zero by convention.
    pub open spec fn lcp_valid(self) -> bool {
        &&& self.num_suffixes > 0 ==> self.lcp_file@[0] == 0
        &&& forall|i: int|
            1 <= i < self.lcp_file@.len() ==> self.lcp_file@[i] == suffix_lcp(
                self.text@,
                #[trigger] self.suffix_array_file@[i - 1] as int,
                self.suffix_array_file@[i] as int,
            )
    }

    /// The sub-sequence table: at least one sequence, starting at zero,
    /// strictly ascending, all inside the text.
    pub open spec fn starts_valid(self) -> bool {
        &&& self.sequence_starts@.len() >= 1
        &&& self.sequence_starts@[0] == 0
        &&& forall|i: int, j: int|
            0 <= i < j < self.sequence_starts@.len() ==> #[trigger] self.sequence_starts@[i]
                < #[trigger] self.sequence_starts@[j]
        &&& forall|i: int|
            0 <= i < self.sequence_starts@.len() ==> #[trigger] self.sequence_starts@[i]
                < self.text_len
    }

    /// The data-model invariants of a well-built index.
    pub open spec fn valid_index(self) -> bool {
        &&& self.wf()
        &&& self.sa_valid()
        &&& self.lcp_valid()
        &&& self.starts_valid()
    }

    /// The parts of an index that no operation of this module changes:
    /// everything but the resident suffix array and the file cursors.
    pub open spec fn eq_core(self, other: SufrFile) -> bool {
        &&& other.filename == self.filename
        &&& other.version == self.version
        &&& other.is_dna == self.is_dna
        &&& other.allow_ambiguity == self.allow_ambiguity
        &&& other.ignore_softmask == self.ignore_softmask
        &&& other.text_pos == self.text_pos
        &&& other.suffix_array_pos == self.suffix_array_pos
        &&& other.lcp_pos == self.lcp_pos
        &&& other.max_query_len == self.max_query_len
        &&& other.text_len == self.text_len
        &&& other.num_suffixes == self.num_suffixes
        &&& other.num_sequences == self.num_sequences
        &&& other.width == self.width
        &&& other.sequence_starts == self.sequence_starts
        &&& other.headers == self.headers
        &&& other.text == self.text
        &&& other.suffix_array_file@ == self.suffix_array_file@
        &&& other.suffix_array_file.wf() == self.suffix_array_file.wf()
        &&& other.lcp_file@ == self.lcp_file@
        &&& other.lcp_file.wf() == self.lcp_file.wf()
    }

    /// The resident suffix array is trustworthy: either nothing is loaded,
    /// or the whole stored SA is resident, or the resident array and the
    /// rank table are exactly the subsample for the recorded query length.
    pub open spec fn mem_consistent(self) -> bool {
        if self.suffix_array_rank_mem@.len() == 0 {
            self.suffix_array_mem@.len() == 0 || self.suffix_array_mem@
                == self.suffix_array_file@
        } else {
            &&& self.suffix_array_mem_mql is Some
            &&& self.suffix_array_mem_mql.unwrap() >= 1
            &&& self.suffix_array_rank_mem@.map_values(|x: usize| x as int) == spec_kept(
                self.lcp_file@,
                self.suffix_array_mem_mql.unwrap() as u64,
            )
            &&& self.suffix_array_mem@.len() == self.suffix_array_rank_mem@.len()
            &&& forall|k: int|
                0 <= k < self.suffix_array_mem@.len() ==> #[trigger] self.suffix_array_mem@[k]
                    == self.suffix_array_file@[self.suffix_array_rank_mem@[k] as int]
        }
    }

    /// The query length that subsampling would serve, given the wish
    /// `want` and the build-time cap; 0 means no cap at all.
    pub open spec fn spec_effective_mql(self, want: nat) -> nat {
        if self.max_query_len > 0 {
            if want > 0 && want < self.max_query_len {
                want
            } else {
                self.max_query_len as nat
            }
        } else {
            want
        }
    }

    /// What `set_suffix_array_mem` does: load the whole SA when the wish
    /// reaches the build cap, keep a fitting resident SA, else subsample.
    /// How one load call changes the resident suffix array alone: the
    /// whole stored SA (with no query-length stamp) when the wish reaches
    /// the build cap, the already fitting subsample kept, and a fresh
    /// subsample stamped with its query length otherwise.
    pub open spec fn mem_post(self, post: SufrFile, want: nat) -> bool {
        let eff = self.spec_effective_mql(want);
        if eff == self.max_query_len {
            &&& post.suffix_array_mem@ == self.suffix_array_file@
            &&& post.suffix_array_rank_mem@.len() == 0
            &&& post.suffix_array_mem_mql is None
        } else if self.suffix_array_mem@.len() > 0 && self.suffix_array_mem_mql is Some
            && self.suffix_array_mem_mql.unwrap() == eff {
            &&& post.suffix_array_mem == self.suffix_array_mem
            &&& post.suffix_array_rank_mem == self.suffix_array_rank_mem
            &&& post.suffix_array_mem_mql == self.suffix_array_mem_mql
        } else {
            &&& post.suffix_array_rank_mem@.map_values(|x: usize| x as int) == spec_kept(
                self.lcp_file@,
                eff as u64,
            )
            &&& post.suffix_array_mem@.len() == post.suffix_array_rank_mem@.len()
            &&& (forall|k: int|
                0 <= k < post.suffix_array_mem@.len() ==> #[trigger] post.suffix_array_mem@[k]
                    == self.suffix_array_file@[post.suffix_array_rank_mem@[k] as int])
            &&& post.suffix_array_mem_mql is Some
            &&& post.suffix_array_mem_mql.unwrap() == eff
        }
    }

    /// What `set_suffix_array_mem` does to the whole index state.
    pub open spec fn set_mem_post(self, post: SufrFile, want: nat) -> bool {
        &&& self.eq_core(post)
        &&& post.query_low_memory == self.query_low_memory
        &&& self.mem_post(post, want)
    }

    /// Parses an index image.  The caller picks the offset width the index
    /// was built with; `filename` is kept only as a label.  All multi-byte
    /// integers are read little-endian, so images written on a big-endian
    /// host would misparse — the format is not portable across
    /// endiannesses.
    pub fn read(filename: &str, data: &[u8], width: IntWidth) -> (r: Result<SufrFile, SufrError>)
        ensures
            r is Ok <==> spec_parse_ok(data@, width) && ({
                let blob = decoded_headers(
                    data@.subrange(
                        hdr_field(data@, 3) + hdr_field(data@, 4) * width.spec_bytes() as int,
                        data@.len() as int,
                    ),
                );
                blob is Some && blob.unwrap().len() == hdr_field(data@, 6)
            }),
            r is Err ==> (r.unwrap_err() == SufrError::MalformedHeader || r.unwrap_err()
                == SufrError::DeserializationError),
            r is Err && r.unwrap_err() == SufrError::DeserializationError ==> spec_parse_ok(
                data@,
                width,
            ),
            r is Ok ==> ({
                let f = r.unwrap();
                let ns = hdr_field(data@, 6) as int;
                let wb = width.spec_bytes() as int;
                let text_off = 60 + ns * wb;
                &&& f.wf()
                &&& f.filename@ == filename@
                &&& f.version == data@[0]
                &&& f.is_dna == (data@[1] == 1)
                &&& f.allow_ambiguity == (data@[2] == 1)
                &&& f.ignore_softmask == (data@[3] == 1)
                &&& !f.query_low_memory
                &&& f.width == width
                &&& f.text_len == hdr_field(data@, 0)
                &&& f.text_pos == hdr_field(data@, 1)
                &&& f.suffix_array_pos == hdr_field(data@, 2)
                &&& f.lcp_pos == hdr_field(data@, 3)
                &&& f.num_suffixes == hdr_field(data@, 4)
                &&& f.max_query_len == hdr_field(data@, 5)
                &&& f.num_sequences == hdr_field(data@, 6)
                &&& f.sequence_starts@ == region_values(data@, 60, ns, width)
                &&& f.text@ == data@.subrange(text_off, text_off + f.text_len)
                &&& f.suffix_array_file@ == region_values(
                    data@,
                    f.suffix_array_pos as int,
                    f.num_suffixes as int,
                    width,
                )
                &&& f.lcp_file@ == region_values(
                    data@,
                    f.lcp_pos as int,
                    f.num_suffixes as int,
                    width,
                )
                &&& Some(f.headers.deep_view()) == decoded_headers(
                    data@.subrange(
                        f.lcp_pos + f.num_suffixes * width.spec_bytes() as int,
                        data@.len() as int,
                    ),
                )
                &&& f.suffix_array_mem@.len() == 0
                &&& f.suffix_array_rank_mem@.len() == 0
                &&& f.suffix_array_mem_mql is None
            }),
    {
        let data_len: usize = data.len();
        if data_len < 60 {
            return Err(SufrError::MalformedHeader);
        }
        let version: u8 = *vstd::slice::slice_index_get(data, 0);
        if version != OUTFILE_VERSION {
            return Err(SufrError::MalformedHeader);
        }
        let is_dna: bool = *vstd::slice::slice_index_get(data, 1) == 1;
        let allow_ambiguity: bool = *vstd::slice::slice_index_get(data, 2) == 1;
        let ignore_softmask: bool = *vstd::slice::slice_index_get(data, 3) == 1;

        let text_len_u: u64 = read_hdr_field(data, 0);
        let text_pos_u: u64 = read_hdr_field(data, 1);
        let sa_pos_u: u64 = read_hdr_field(data, 2);
        let lcp_pos_u: u64 = read_hdr_field(data, 3);
        let num_suffixes_u: u64 = read_hdr_field(data, 4);
        let max_query_len_u: u64 = read_hdr_field(data, 5);
        let num_sequences_u: u64 = read_hdr_field(data, 6);

        let umax: u64 = usize::MAX as u64;
        if text_len_u > umax || text_pos_u > umax || sa_pos_u > umax || lcp_pos_u > umax
            || num_suffixes_u > umax || max_query_len_u > umax || num_sequences_u > umax {
            return Err(SufrError::MalformedHeader);
        }
        let text_len: usize = text_len_u as usize;
        let num_suffixes: usize = num_suffixes_u as usize;
        let num_sequences: usize = num_sequences_u as usize;
        let wb: usize = width.bytes();

        // Sub-sequence starts sit right after the fixed header fields.
        let starts_bytes: usize = match num_sequences.checked_mul(wb) {
            Some(v) => v,
            None => {
                return Err(SufrError::MalformedHeader);
            },
        };
        let text_off: usize = match starts_bytes.checked_add(60) {
            Some(v) => v,
            None => {
                return Err(SufrError::MalformedHeader);
            },
        };
        let text_end: usize = match text_off.checked_add(text_len) {
            Some(v) => v,
            None => {
                return Err(SufrError::MalformedHeader);
            },
        };
        if text_end > data_len {
            return Err(SufrError::MalformedHeader);
        }
        let sequence_starts: Vec<u64> = slice_u8_to_vec(
            vstd::slice::slice_subrange(data, 60, 60 + starts_bytes),
            num_sequences,
            width,
        );
        let text: Vec<u8> = vstd::slice::slice_to_vec(
            vstd::slice::slice_subrange(data, text_off, text_end),
        );

        let suffix_array_file: FileAccess = match FileAccess::new(
            data,
            sa_pos_u as usize,
            num_suffixes,
            width,
        ) {
            Ok(f) => f,
            Err(_) => {
                return Err(SufrError::MalformedHeader);
            },
        };
        let lcp_file: FileAccess = match FileAccess::new(
            data,
            lcp_pos_u as usize,
            num_suffixes,
            width,
        ) {
            Ok(f) => f,
            Err(_) => {
                return Err(SufrError::MalformedHeader);
            },
        };

        // The headers are variable in length, so they sit at the end,
        // after the LCP array.
        let blob_start: usize = (lcp_pos_u as usize) + lcp_file.size();
        let headers: Vec<String> = match decode_headers(
            vstd::slice::slice_subrange(data, blob_start, data_len),
        ) {
            Some(h) => h,
            None => {
                return Err(SufrError::DeserializationError);
            },
        };
        if headers.len() != num_sequences {
            return Err(SufrError::DeserializationError);
        }

        let f = SufrFile {
            filename: filename.to_owned(),
            version,
            is_dna,
            allow_ambiguity,
            ignore_softmask,
            query_low_memory: false,
            text_pos: text_pos_u as usize,
            suffix_array_pos: sa_pos_u as usize,
            lcp_pos: lcp_pos_u as usize,
            max_query_len: max_query_len_u,
            text_len: text_len_u,
            num_suffixes: num_suffixes_u,
            num_sequences: num_sequences_u,
            width,
            sequence_starts,
            headers,
            text,
            suffix_array_mem: Vec::new(),
            suffix_array_mem_mql: None,
            suffix_array_rank_mem: Vec::new(),
            suffix_array_file,
            lcp_file,
        };
        proof {
            assert(f.sequence_starts@ =~= region_values(
                data@,
                60,
                num_sequences as int,
                width,
            ));
            assert(f.suffix_array_file@ =~= region_values(
                data@,
                sa_pos_u as int,
                num_suffixes as int,
                width,
            ));
            assert(f.lcp_file@ =~= region_values(
                data@,
                lcp_pos_u as int,
                num_suffixes as int,
                width,
            ));
        }
        Ok(f)
    }

    /// Length of the longest common prefix of the two stretches of text
    /// that start at `start1` and `start2`, looking only at the first
    /// `len` bytes of the text.
    pub fn find_lcp(&self, start1: usize, start2: usize, len: usize) -> (r: usize)
        requires
            len <= self.text@.len(),
        ensures
            r == suffix_lcp(self.text@.take(len as int), start1 as int, start2 as int),
    {
        let ghost t = self.text@.take(len as int);
        let mut k: usize = 0;
        loop
            invariant
                t == self.text@.take(len as int),
                len <= self.text@.len(),
                k <= len,
                start1 + k <= usize::MAX,
                start2 + k <= usize::MAX,
                suffix_lcp(t, start1 as int, start2 as int) == pair_depth_from(
                    t,
                    start1 as int,
                    start2 as int,
                    k as nat,
                ),
            ensures
                suffix_lcp(t, start1 as int, start2 as int) == k,
            decreases len - k,
        {
            if start1 >= len || k >= len - start1 {
                break ;
            }
            if start2 >= len || k >= len - start2 {
                break ;
            }
            let b1: u8 = self.text[start1 + k];
            let b2: u8 = self.text[start2 + k];
            proof {
                assert(t[start1 + k] == self.text@[start1 + k]);
                assert(t[start2 + k] == self.text@[start2 + k]);
            }
            if b1 != b2 {
                break ;
            }
            k = k + 1;
        }
        k
    }

    /// Rank `i` of the index is sound: its stored LCP is the real longest
    /// common prefix of the suffixes at ranks `i - 1` and `i`, and those
    /// suffixes are in ascending order.
    pub open spec fn pair_ok(self, i: int) -> bool {
        let a = self.suffix_array_file@[i - 1] as int;
        let b = self.suffix_array_file@[i] as int;
        &&& self.lcp_file@[i] == suffix_lcp(self.text@, a, b)
        &&& suffix_order(self.text@, a, b) == Cmp::Less
    }

    /// Every adjacent pair of ranks is sound: the order and LCP
    /// invariants of the index hold.
    pub open spec fn adjacent_ok(self) -> bool {
        forall|i: int| 1 <= i < self.num_suffixes ==> #[trigger] self.pair_ok(i)
    }

    /// The report lines `check` produces at rank `i`: one when the stored
    /// LCP is not the real one, and one when the order test at the stored
    /// depth fails.
    pub open spec fn spec_rank_report(self, i: int) -> Seq<Seq<char>> {
        let a = self.suffix_array_file@[i - 1] as int;
        let b = self.suffix_array_file@[i] as int;
        let stored = self.lcp_file@[i];
        let computed = suffix_lcp(self.text@, a, b);
        let lcp_part: Seq<Seq<char>> = if stored == computed {
            Seq::empty()
        } else {
            seq![
                spec_lcp_error_line(
                    self.suffix_array_file@[i] as nat,
                    i as nat,
                    stored as nat,
                    computed,
                ),
            ]
        };
        let order_part: Seq<Seq<char>> = if spec_is_less_at(self.text@, a, b, stored as int) {
            Seq::empty()
        } else {
            seq![spec_order_error_line(self.suffix_array_file@[i] as nat, i as nat)]
        };
        lcp_part + order_part
    }

    /// The whole report of `check` over ranks below `upto`.
    pub open spec fn spec_check_report(self, upto: int) -> Seq<Seq<char>>
        decreases upto,
    {
        if upto <= 1 {
            Seq::empty()
        } else {
            self.spec_check_report(upto - 1) + self.spec_rank_report(upto - 1)
        }
    }

    /// The byte test of `check` at depth `d`, over the whole text.
    fn is_less_test(&self, a: u64, b: u64, d: u64) -> (r: bool)
        requires
            self.wf(),
        ensures
            r == spec_is_less_at(self.text@, a as int, b as int, d as int),
    {
        let tlen: usize = self.text.len();
        let b_in: bool = match b.checked_add(d) {
            Some(s) => s < tlen as u64,
            None => false,
        };
        let a_in: bool = match a.checked_add(d) {
            Some(s) => s < tlen as u64,
            None => false,
        };
        if !b_in {
            false
        } else if !a_in {
            true
        } else {
            self.text[(a + d) as usize] < self.text[(b + d) as usize]
        }
    }

    /// Walks every rank, recomputes the LCP of each adjacent pair of
    /// suffixes and tests their order at the stored LCP depth, and
    /// reports one line per discrepancy.  The report is empty exactly
    /// when the order and LCP invariants hold.
    pub fn check(&self) -> (r: Result<Vec<String>, SufrError>)
        requires
            self.wf(),
        ensures
            r is Ok,
            r.unwrap()@.len() == 0 <==> self.adjacent_ok(),
            r.unwrap().deep_view() == self.spec_check_report(self.num_suffixes as int),
    {
        let mut errors: Vec<String> = Vec::new();
        let n: usize = self.num_suffixes as usize;
        let text_len: usize = self.text.len();
        let umax: u64 = usize::MAX as u64;
        let mut i: usize = 0;
        while i < n
            invariant
                i <= n,
                n == self.num_suffixes,
                self.wf(),
                text_len == self.text@.len(),
                umax == usize::MAX,
                errors@.len() == 0 <==> (forall|j: int| 1 <= j < i ==> #[trigger] self.pair_ok(j)),
                errors.deep_view() == self.spec_check_report(i as int),
            decreases n - i,
        {
            let cur_sa: u64 = self.suffix_array_file.at(i);
            let cur_lcp: u64 = self.lcp_file.at(i);
            if i > 0 {
                let prev_sa: u64 = self.suffix_array_file.at(i - 1);
                let ghost a = prev_sa as int;
                let ghost b = cur_sa as int;
                // Suffix starts past the end of the text are all empty, so
                // clamping them keeps every comparison the same.
                let cur_c: usize = if cur_sa > umax {
                    usize::MAX
                } else {
                    cur_sa as usize
                };
                let prev_c: usize = if prev_sa > umax {
                    usize::MAX
                } else {
                    prev_sa as usize
                };
                let check_lcp: usize = self.find_lcp(cur_c, prev_c, text_len);
                proof {
                    assert(self.text@.take(text_len as int) =~= self.text@);
                    lemma_pair_depth_sym(self.text@, cur_c as int, prev_c as int, 0);
                    if prev_sa > umax {
                        lemma_pair_big_start(self.text@, prev_c as int, a, cur_c as int);
                    }
                    if cur_sa > umax {
                        lemma_pair_big_start(self.text@, cur_c as int, b, a);
                    }
                    assert(check_lcp == suffix_lcp(self.text@, a, b));
                }
                let ghost dv0 = errors.deep_view();
                let lcp_ok: bool = check_lcp as u64 == cur_lcp;
                if !lcp_ok {
                    errors.push(lcp_error_line(cur_sa, i, cur_lcp, check_lcp));
                    proof {
                        assert(errors.deep_view() =~= dv0.push(
                            spec_lcp_error_line(
                                cur_sa as nat,
                                i as nat,
                                cur_lcp as nat,
                                suffix_lcp(self.text@, a, b),
                            ),
                        ));
                    }
                }
                let ghost dv1 = errors.deep_view();
                let less: bool = self.is_less_test(prev_sa, cur_sa, cur_lcp);
                if !less {
                    errors.push(order_error_line(cur_sa, i));
                    proof {
                        assert(errors.deep_view() =~= dv1.push(
                            spec_order_error_line(cur_sa as nat, i as nat),
                        ));
                    }
                }
                proof {
                    lemma_check_step(self.text@, a, b);
                    assert(self.pair_ok(i as int) <==> (lcp_ok && less));
                    assert(errors.deep_view() =~= dv0 + self.spec_rank_report(i as int));
                    assert(self.spec_check_report(i + 1) == self.spec_check_report(i as int)
                        + self.spec_rank_report(i as int));
                }
            }
            i = i + 1;
        }
        Ok(errors)
    }

    /// The stretch of text starting at `pos`, holding `len` bytes or — with
    /// `len` absent or reaching past the end — all bytes to the end, as a
    /// string.  Fails only when those bytes are not valid UTF-8.
    pub fn string_at(&self, pos: usize, len: Option<usize>) -> (r: Result<String, SufrError>)
        requires
            self.wf(),
            pos <= self.text@.len(),
        ensures
            ({
                let end = match len {
                    Some(n) => if pos + n > self.text@.len() {
                        self.text@.len() as int
                    } else {
                        pos + n
                    },
                    None => self.text@.len() as int,
                };
                &&& r is Ok <==> exists|cs: Seq<char>|
                    vstd::utf8::encode_utf8(cs) == self.text@.subrange(pos as int, end)
                &&& r is Ok ==> vstd::utf8::encode_utf8(r.unwrap()@) == self.text@.subrange(
                    pos as int,
                    end,
                )
                &&& (forall|j: int|
                    pos <= j < end ==> #[trigger] self.text@[j] < 128) ==> r is Ok
                    && r.unwrap()@ == self.text@.subrange(pos as int, end).map_values(
                    |b: u8| b as char,
                )
                &&& r is Err ==> r.unwrap_err() == SufrError::DeserializationError
            }),
    {
        let text_len: usize = self.text.len();
        let end: usize = match len {
            Some(n) => {
                match pos.checked_add(n) {
                    Some(e) => if e > text_len {
                        text_len
                    } else {
                        e
                    },
                    None => text_len,
                }
            },
            None => text_len,
        };
        let bytes: Vec<u8> = vstd::slice::slice_to_vec(
            vstd::slice::slice_subrange(self.text.as_slice(), pos, end),
        );
        match crate::util::string_from_utf8(bytes) {
            Some(s) => Ok(s),
            None => Err(SufrError::DeserializationError),
        }
    }

    /// Walks SA and LCP in lockstep and keeps, for each rank whose LCP
    /// lies below `max_query_len`, the suffix and the rank itself.
    pub fn subsample_suffix_array(&mut self, max_query_len: usize) -> (r: (Vec<u64>, Vec<usize>))
        requires
            old(self).wf(),
        ensures
            final(self).wf(),
            old(self).eq_core(*final(self)),
            final(self).query_low_memory == old(self).query_low_memory,
            final(self).suffix_array_mem == old(self).suffix_array_mem,
            final(self).suffix_array_rank_mem == old(self).suffix_array_rank_mem,
            final(self).suffix_array_mem_mql == old(self).suffix_array_mem_mql,
            r.1@.map_values(|x: usize| x as int) == spec_kept(
                old(self).lcp_file@,
                max_query_len as u64,
            ),
            r.0@.len() == r.1@.len(),
            forall|k: int|
                0 <= k < r.0@.len() ==> #[trigger] r.0@[k] == old(self).suffix_array_file@[r.1@[k] as int],
            forall|k: int| 0 <= k < r.1@.len() ==> #[trigger] r.1@[k] < old(self).num_suffixes,
    {
        let mql: u64 = max_query_len as u64;
        // Start both arrays from their first rank.
        self.lcp_file.reset();
        self.suffix_array_file.reset();
        let n: usize = self.suffix_array_file.count();
        let ghost lcpv = self.lcp_file@;
        let ghost sav = self.suffix_array_file@;
        let mut suffix_array: Vec<u64> = Vec::with_capacity(n);
        let mut rank: Vec<usize> = Vec::with_capacity(n);
        let mut i: usize = 0;
        while i < n
            invariant
                i <= n,
                n == sav.len(),
                n == lcpv.len(),
                n <= usize::MAX,
                old(self).eq_core(*self),
                self.query_low_memory == old(self).query_low_memory,
                self.suffix_array_mem == old(self).suffix_array_mem,
                self.suffix_array_rank_mem == old(self).suffix_array_rank_mem,
                self.suffix_array_mem_mql == old(self).suffix_array_mem_mql,
                self.suffix_array_file.wf(),
                self.lcp_file.wf(),
                self.suffix_array_file@ == sav,
                self.lcp_file@ == lcpv,
                sav == old(self).suffix_array_file@,
                lcpv == old(self).lcp_file@,
                self.suffix_array_file.spec_pos() == i,
                self.lcp_file.spec_pos() == i,
                rank@.map_values(|x: usize| x as int) == spec_kept(lcpv.take(i as int), mql),
                suffix_array@.len() == rank@.len(),
                forall|k: int|
                    0 <= k < suffix_array@.len() ==> #[trigger] suffix_array@[k] == sav[rank@[k] as int],
                forall|k: int| 0 <= k < rank@.len() ==> #[trigger] rank@[k] < i,
            decreases n - i,
        {
            let lcp: u64 = match self.lcp_file.next() {
                Some(v) => v,
                None => vstd::pervasive::unreached(),
            };
            let suffix: u64 = match self.suffix_array_file.next() {
                Some(v) => v,
                None => vstd::pervasive::unreached(),
            };
            proof {
                assert(lcpv.take(i + 1).drop_last() =~= lcpv.take(i as int));
                assert(lcpv.take(i + 1).last() == lcpv[i as int]);
            }
            if lcp < mql {
                suffix_array.push(suffix);
                rank.push(i);
                assert(rank@.map_values(|x: usize| x as int) =~= spec_kept(
                    lcpv.take(i + 1),
                    mql,
                ));
            } else {
                assert(rank@.map_values(|x: usize| x as int) =~= spec_kept(
                    lcpv.take(i + 1),
                    mql,
                ));
            }
            i = i + 1;
        }
        proof {
            assert(lcpv.take(n as int) =~= lcpv);
        }
        (suffix_array, rank)
    }

    /// Makes the resident suffix array serve queries up to `max_query_len`
    /// bytes: the whole SA when that reaches the build-time cap, the
    /// already resident subsample when it fits, a fresh subsample else.
    pub fn set_suffix_array_mem(&mut self, max_query_len: usize) -> (r: Result<(), SufrError>)
        requires
            old(self).wf(),
            old(self).mem_consistent(),
        ensures
            r is Ok,
            final(self).wf(),
            final(self).mem_consistent(),
            old(self).set_mem_post(*final(self), max_query_len as nat),
    {
        let mut mql: usize = max_query_len;
        // A build-time cap wins over a larger or absent wish.
        let cap: usize = self.max_query_len as usize;
        if cap > 0 {
            if mql > 0 {
                if mql > cap {
                    mql = cap;
                }
            } else {
                mql = cap;
            }
        }
        if mql == cap {
            // Hold the entire SA resident; there are no ranks.
            self.suffix_array_file.reset();
            let n: usize = self.suffix_array_file.count();
            let ghost sav = self.suffix_array_file@;
            let mut mem: Vec<u64> = Vec::with_capacity(n);
            let mut i: usize = 0;
            while i < n
                invariant
                    i <= n,
                    n == sav.len(),
                    old(self).eq_core(*self),
                    self.query_low_memory == old(self).query_low_memory,
                    self.suffix_array_mem == old(self).suffix_array_mem,
                    self.suffix_array_rank_mem == old(self).suffix_array_rank_mem,
                    self.suffix_array_mem_mql == old(self).suffix_array_mem_mql,
                    self.suffix_array_file.wf(),
                    self.lcp_file.wf(),
                    self.suffix_array_file@ == sav,
                    sav == old(self).suffix_array_file@,
                    self.suffix_array_file.spec_pos() == i,
                    mem@ == sav.take(i as int),
                decreases n - i,
            {
                let v: u64 = match self.suffix_array_file.next() {
                    Some(v) => v,
                    None => vstd::pervasive::unreached(),
                };
                mem.push(v);
                assert(mem@ =~= sav.take(i + 1));
                i = i + 1;
            }
            proof {
                assert(sav.take(n as int) =~= sav);
            }
            self.suffix_array_mem = mem;
            self.suffix_array_rank_mem = Vec::new();
            // The whole SA serves any query length: no subsample stamp.
            self.suffix_array_mem_mql = None;
            return Ok(());
        }
        // Nothing to do when the fitting subsample is already resident.
        let already: bool = if self.suffix_array_mem.len() > 0 {
            match self.suffix_array_mem_mql {
                Some(cur) => cur == mql,
                None => false,
            }
        } else {
            false
        };
        if already {
            return Ok(());
        }
        let (sub_sa, sub_rank) = self.subsample_suffix_array(mql);
        self.suffix_array_mem_mql = Some(mql);
        self.suffix_array_mem = sub_sa;
        self.suffix_array_rank_mem = sub_rank;
        proof {
            crate::sufr_search::lemma_kept_props(self.lcp_file@, mql as u64);
        }
        Ok(())
    }

    /// Depth to which every comparison is truncated: the query length the
    /// resident subsample was built for, else the build-time cap; 0 means
    /// no truncation.
    pub open spec fn spec_cap(self) -> nat {
        if !self.query_low_memory && self.suffix_array_rank_mem@.len() > 0 {
            self.suffix_array_mem_mql.unwrap() as nat
        } else {
            self.max_query_len as nat
        }
    }

    /// The byte form of a query, truncated to the effective cap.
    pub open spec fn spec_query_bytes(self, qchars: Seq<char>) -> Seq<u8> {
        eff_query(vstd::utf8::encode_utf8(qchars), self.spec_cap())
    }

    /// What one answered query looks like: its submission index and text
    /// carried through, and, when matches exist and suffixes were asked
    /// for, exactly the matching rank range of the full suffix array with
    /// the suffix positions it stores there.
    pub open spec fn result_ok(
        self,
        qnum: int,
        qchars: Seq<char>,
        find_suffixes: bool,
        res: SearchResult,
    ) -> bool {
        let qb = self.spec_query_bytes(qchars);
        let sa = self.suffix_array_file@;
        &&& res.query_num == qnum
        &&& res.query@ == qchars
        &&& match res.locations {
            Some(loc) => {
                &&& find_suffixes
                &&& loc.rank_start < loc.rank_end
                &&& range_correct(qb, self.text@, sa, loc.rank_start as int, loc.rank_end as int)
                &&& loc.suffixes@ == sa.subrange(loc.rank_start as int, loc.rank_end as int)
            },
            None => exists|lo: int, hi: int|
                {
                    &&& #[trigger] range_correct(qb, self.text@, sa, lo, hi)
                    &&& (find_suffixes ==> lo == hi)
                },
        }
    }

    /// Answers one query against the current state of the index.
    pub fn search_one(&self, query_num: usize, query: &String, find_suffixes: bool) -> (res:
        SearchResult)
        requires
            self.valid_index(),
            self.mem_consistent(),
            !self.query_low_memory ==> self.suffix_array_mem@.len() > 0 || self.num_suffixes == 0,
        ensures
            self.result_ok(query_num as int, query@, find_suffixes, res),
    {
        let qb: &[u8] = query.as_str().as_bytes();
        let compressed: bool = !self.query_low_memory && self.suffix_array_rank_mem.len() > 0;
        let cap: usize = if compressed {
            match self.suffix_array_mem_mql {
                Some(v) => v,
                None => vstd::pervasive::unreached(),
            }
        } else {
            self.max_query_len as usize
        };
        let q: &[u8] = if cap > 0 && qb.len() > cap {
            vstd::slice::slice_subrange(qb, 0, cap)
        } else {
            qb
        };
        proof {
            assert(q@ =~= self.spec_query_bytes(query@));
        }
        let low = self.query_low_memory;
        proof {
            if !low {
                if self.suffix_array_rank_mem@.len() == 0 {
                    assert(self.suffix_array_mem@ =~= self.suffix_array_file@);
                } else {
                    lemma_mem_sorted(
                        self.text@,
                        self.suffix_array_file@,
                        self.lcp_file@,
                        self.suffix_array_mem@,
                        self.suffix_array_mem_mql.unwrap() as u64,
                    );
                }
            }
        }
        let (l, h) = find_range(q, &self.text, &self.suffix_array_file, &self.suffix_array_mem, low);
        let n_us: usize = self.num_suffixes as usize;
        let nranks: usize = self.suffix_array_rank_mem.len();
        let (rank_start, rank_end) = if !compressed {
            (l, h)
        } else {
            let rl: usize = if l < nranks {
                self.suffix_array_rank_mem[l]
            } else {
                n_us
            };
            let rh: usize = if h < nranks {
                self.suffix_array_rank_mem[h]
            } else {
                n_us
            };
            (rl, rh)
        };
        proof {
            let qv = q@;
            let sa = self.suffix_array_file@;
            if !compressed {
                assert(range_correct(qv, self.text@, sa, rank_start as int, rank_end as int));
            } else {
                let mql = self.suffix_array_mem_mql.unwrap() as u64;
                assert(lcp_matches(self.text@, sa, self.lcp_file@));
                lemma_compressed_range(
                    qv,
                    self.text@,
                    sa,
                    self.lcp_file@,
                    self.suffix_array_mem@,
                    mql,
                    l as int,
                    h as int,
                );
                let kept = spec_kept(self.lcp_file@, mql);
                assert(rank_start == expand_rank(kept, l as int, sa.len() as int));
                assert(rank_end == expand_rank(kept, h as int, sa.len() as int));
            }
        }
        let locations: Option<SearchLocations> = if rank_start < rank_end && find_suffixes {
            let suffixes: Vec<u64> = match self.suffix_array_file.get_range(rank_start, rank_end) {
                Ok(v) => v,
                Err(_) => vstd::pervasive::unreached(),
            };
            Some(SearchLocations { rank_start, rank_end, suffixes })
        } else {
            proof {
                assert(range_correct(
                    q@,
                    self.text@,
                    self.suffix_array_file@,
                    rank_start as int,
                    rank_end as int,
                ));
            }
            None
        };
        SearchResult { query_num, query: query.clone(), locations }
    }

    /// Runs a batch of queries in submission order.  In low-memory mode
    /// the stored suffix array serves every lookup; otherwise the resident
    /// suffix array is first brought up to date for the wished maximum
    /// query length.
    pub fn suffix_search(&mut self, args: &SearchOptions) -> (r: Result<Vec<SearchResult>, SufrError>)
        requires
            old(self).valid_index(),
            old(self).mem_consistent(),
        ensures
            r is Ok,
            old(self).eq_core(*final(self)),
            final(self).valid_index(),
            final(self).mem_consistent(),
            final(self).query_low_memory == args.low_memory,
            args.low_memory ==> final(self).suffix_array_mem == old(self).suffix_array_mem
                && final(self).suffix_array_rank_mem == old(self).suffix_array_rank_mem
                && final(self).suffix_array_mem_mql == old(self).suffix_array_mem_mql,
            !args.low_memory ==> old(self).mem_post(
                *final(self),
                match args.max_query_len {
                    Some(v) => v as nat,
                    None => old(self).max_query_len as nat,
                },
            ),
            r.unwrap()@.len() == args.queries@.len(),
            forall|i: int|
                0 <= i < args.queries@.len() ==> final(self).result_ok(
                    i,
                    args.queries@[i]@,
                    args.find_suffixes,
                    #[trigger] r.unwrap()@[i],
                ),
    {
        self.query_low_memory = args.low_memory;
        if !self.query_low_memory {
            let want: usize = match args.max_query_len {
                Some(v) => v,
                None => self.max_query_len as usize,
            };
            let set_res = self.set_suffix_array_mem(want);
            proof {
                lemma_kept_props(self.lcp_file@, self.spec_effective_mql(want as nat) as u64);
            }
            match set_res {
                Ok(_) => (),
                Err(_) => vstd::pervasive::unreached(),
            }
        }
        let ghost mid_self = *self;
        let mut results: Vec<SearchResult> = Vec::with_capacity(args.queries.len());
        let qn: usize = args.queries.len();
        let mut i: usize = 0;
        while i < qn
            invariant
                i <= qn,
                qn == args.queries@.len(),
                *self == mid_self,
                self.valid_index(),
                self.mem_consistent(),
                !self.query_low_memory ==> self.suffix_array_mem@.len() > 0 || self.num_suffixes
                    == 0,
                results@.len() == i,
                forall|j: int|
                    0 <= j < i ==> self.result_ok(
                        j,
                        args.queries@[j]@,
                        args.find_suffixes,
                        #[trigger] results@[j],
                    ),
            decreases qn - i,
        {
            let res = self.search_one(i, &args.queries[i], args.find_suffixes);
            results.push(res);
            i = i + 1;
        }
        Ok(results)
    }
}

/// A query truncated to a cap; a cap of 0 leaves it whole.
pub open spec fn eff_query(q: Seq<u8>, cap: nat) -> Seq<u8> {
    if cap == 0 || q.len() <= cap {
        q
    } else {
        q.take(cap as int)
    }
}

/// Index of the sub-sequence holding text position `x`: the last start
/// that does not exceed it.
pub open spec fn seq_index_of(starts: Seq<u64>, x: u64) -> int
    decreases starts.len(),
{
    if starts.len() <= 1 {
        0
    } else if starts.last() <= x {
        starts.len() - 1
    } else {
        seq_index_of(starts.drop_last(), x)
    }
}

/// The defining properties of `seq_index_of` under an ascending table.
pub proof fn lemma_seq_index_of_props(starts: Seq<u64>, x: u64)
    requires
        starts.len() >= 1,
        forall|i: int, j: int|
            0 <= i < j < starts.len() ==> #[trigger] starts[i] < #[trigger] starts[j],
        starts[0] <= x,
    ensures
        ({
            let k = seq_index_of(starts, x);
            &&& 0 <= k < starts.len()
            &&& starts[k] <= x
            &&& (k + 1 < starts.len() ==> x < starts[k + 1])
        }),
    decreases starts.len(),
{
    if starts.len() > 1 && starts.last() > x {
        assert(starts.drop_last()[0] == starts[0]);
        lemma_seq_index_of_props(starts.drop_last(), x);
        let k = seq_index_of(starts.drop_last(), x);
        assert(starts.drop_last()[k] == starts[k]);
        if k + 1 < starts.len() - 1 {
            assert(starts.drop_last()[k + 1] == starts[k + 1]);
        }
    }
}

impl SufrFile {
    /// Finds the sub-sequence that holds text position `x`.
    fn sequence_index(&self, x: u64) -> (k: usize)
        requires
            self.starts_valid(),
        ensures
            k == seq_index_of(self.sequence_starts@, x),
            k < self.sequence_starts@.len(),
            self.sequence_starts@[k as int] <= x,
            k + 1 < self.sequence_starts@.len() ==> x < self.sequence_starts@[k + 1],
    {
        let ghost starts = self.sequence_starts@;
        let n: usize = self.sequence_starts.len();
        // Find the first start above x; the wanted index sits just below.
        let mut lo: usize = 0;
        let mut hi: usize = n;
        while lo < hi
            invariant
                lo <= hi <= n,
                n == starts.len(),
                n >= 1,
                starts == self.sequence_starts@,
                self.starts_valid(),
                starts[0] <= x,
                forall|j: int| 0 <= j < lo ==> #[trigger] starts[j] <= x,
                forall|j: int| hi <= j < n ==> x < #[trigger] starts[j],
            decreases hi - lo,
        {
            let mid: usize = lo + (hi - lo) / 2;
            if self.sequence_starts[mid] <= x {
                proof {
                    assert forall|j: int| 0 <= j < mid + 1 implies #[trigger] starts[j] <= x by {
                        if j < mid {
                            assert(starts[j] < starts[mid as int]);
                        }
                    }
                }
                lo = mid + 1;
            } else {
                proof {
                    assert forall|j: int| mid <= j < n implies x < #[trigger] starts[j] by {
                        if mid < j {
                            assert(starts[mid as int] < starts[j]);
                        }
                    }
                }
                hi = mid;
            }
        }
        let k: usize = lo - 1;
        proof {
            lemma_seq_index_of_props(starts, x);
            let ks = seq_index_of(starts, x);
            if ks < k {
                assert(starts[ks + 1] <= starts[k as int]);
            }
            if k < ks {
                assert(starts[k + 1] <= starts[ks]);
            }
        }
        k
    }

    /// One located match: rank and suffix carried over, the suffix mapped
    /// to its sub-sequence name and offset, and — the point of it all —
    /// the query matching the text right there.
    pub open spec fn position_ok(self, qb: Seq<u8>, rank: int, pos: LocatePosition) -> bool {
        let suffix = self.suffix_array_file@[rank];
        let idx = seq_index_of(self.sequence_starts@, suffix);
        &&& pos.rank == rank
        &&& pos.suffix == suffix
        &&& pos.sequence_name@ == self.headers@[idx]@
        &&& pos.sequence_position == suffix - self.sequence_starts@[idx]
        &&& is_match(qb, self.text@, self.sequence_starts@[idx] + pos.sequence_position)
    }

    /// What one answered locate query looks like.
    pub open spec fn locate_ok(
        self,
        qnum: int,
        qchars: Seq<char>,
        find_suffixes: bool,
        res: LocateResult,
    ) -> bool {
        let qb = self.spec_query_bytes(qchars);
        let sa = self.suffix_array_file@;
        &&& res.query_num == qnum
        &&& res.query@ == qchars
        &&& exists|lo: int, hi: int|
            {
                &&& #[trigger] range_correct(qb, self.text@, sa, lo, hi)
                &&& if find_suffixes && lo < hi {
                    &&& res.positions@.len() == hi - lo
                    &&& (forall|p: int|
                        0 <= p < hi - lo ==> self.position_ok(
                            qb,
                            lo + p,
                            #[trigger] res.positions@[p],
                        ))
                } else {
                    res.positions@.len() == 0
                }
            }
    }

    /// Locates every match of every query: the search result augmented
    /// with per-sub-sequence coordinates.
    pub fn locate(&mut self, args: SearchOptions) -> (r: Result<Vec<LocateResult>, SufrError>)
        requires
            old(self).valid_index(),
            old(self).mem_consistent(),
        ensures
            r is Ok,
            old(self).eq_core(*final(self)),
            final(self).valid_index(),
            final(self).mem_consistent(),
            final(self).query_low_memory == args.low_memory,
            args.low_memory ==> final(self).suffix_array_mem == old(self).suffix_array_mem
                && final(self).suffix_array_rank_mem == old(self).suffix_array_rank_mem
                && final(self).suffix_array_mem_mql == old(self).suffix_array_mem_mql,
            !args.low_memory ==> old(self).mem_post(
                *final(self),
                match args.max_query_len {
                    Some(v) => v as nat,
                    None => old(self).max_query_len as nat,
                },
            ),
            r.unwrap()@.len() == args.queries@.len(),
            forall|qi: int|
                0 <= qi < args.queries@.len() ==> final(self).locate_ok(
                    qi,
                    args.queries@[qi]@,
                    args.find_suffixes,
                    #[trigger] r.unwrap()@[qi],
                ),
    {
        let search_result: Vec<SearchResult> = match self.suffix_search(&args) {
            Ok(v) => v,
            Err(_) => vstd::pervasive::unreached(),
        };
        let ghost mid_self = *self;
        let mut locate_result: Vec<LocateResult> = Vec::with_capacity(search_result.len());
        let rn: usize = search_result.len();
        let mut qi: usize = 0;
        while qi < rn
            invariant
                qi <= rn,
                rn == search_result@.len(),
                rn == args.queries@.len(),
                *self == mid_self,
                self.valid_index(),
                forall|j: int|
                    0 <= j < rn ==> self.result_ok(
                        j,
                        args.queries@[j]@,
                        args.find_suffixes,
                        #[trigger] search_result@[j],
                    ),
                locate_result@.len() == qi,
                forall|j: int|
                    0 <= j < qi ==> self.locate_ok(
                        j,
                        args.queries@[j]@,
                        args.find_suffixes,
                        #[trigger] locate_result@[j],
                    ),
            decreases rn - qi,
        {
            let res: &SearchResult = &search_result[qi];
            let ghost qb = self.spec_query_bytes(args.queries@[qi as int]@);
            let mut positions: Vec<LocatePosition> = Vec::new();
            match &res.locations {
                Some(locs) => {
                    let m: usize = locs.suffixes.len();
                    let mut p: usize = 0;
                    while p < m
                        invariant
                            p <= m,
                            *self == mid_self,
                            self.valid_index(),
                            self.result_ok(
                                qi as int,
                                args.queries@[qi as int]@,
                                args.find_suffixes,
                                search_result@[qi as int],
                            ),
                            qi < args.queries@.len(),
                            qb == self.spec_query_bytes(args.queries@[qi as int]@),
                            search_result@[qi as int].locations is Some,
                            search_result@[qi as int].locations.unwrap() == *locs,
                            m == locs.suffixes@.len(),
                            positions@.len() == p,
                            forall|j: int|
                                0 <= j < p ==> self.position_ok(
                                    qb,
                                    locs.rank_start + j,
                                    #[trigger] positions@[j],
                                ),
                        decreases m - p,
                    {
                        let suffix: u64 = locs.suffixes[p];
                        proof {
                            assert(suffix == self.suffix_array_file@[locs.rank_start + p]);
                            assert(suffix < self.text@.len());
                        }
                        let idx: usize = self.sequence_index(suffix);
                        let rank: usize = locs.rank_start + p;
                        positions.push(
                            LocatePosition {
                                rank,
                                suffix,
                                sequence_name: self.headers[idx].clone(),
                                sequence_position: suffix - self.sequence_starts[idx],
                            },
                        );
                        p = p + 1;
                    }
                },
                None => (),
            }
            locate_result.push(
                LocateResult {
                    query_num: res.query_num,
                    query: res.query.clone(),
                    positions,
                },
            );
            qi = qi + 1;
        }
        Ok(locate_result)
    }

    /// End of the sub-sequence with index `idx`: the next start, or the
    /// text length for the last one.
    pub open spec fn spec_seq_end(self, idx: int) -> int {
        if idx == self.sequence_starts@.len() - 1 {
            self.text_len as int
        } else {
            self.sequence_starts@[idx + 1] as int
        }
    }

    /// One extracted context window, per the mapper's arithmetic: the
    /// window starts `prefix_len` bytes before the match (clamped at the
    /// sub-sequence start) and runs `suffix_len` bytes from the match, or
    /// to the sub-sequence end.
    pub open spec fn extract_seq_ok(
        self,
        qb: Seq<u8>,
        rank: int,
        prefix_len: Option<usize>,
        suffix_len: Option<usize>,
        ex: ExtractSequence,
    ) -> bool {
        let suffix = self.suffix_array_file@[rank];
        let idx = seq_index_of(self.sequence_starts@, suffix);
        let seq_end = self.spec_seq_end(idx);
        let relative = suffix - self.sequence_starts@[idx];
        let plen: int = match prefix_len {
            Some(p) => p as int,
            None => 0,
        };
        let cstart: int = if relative >= plen {
            relative - plen
        } else {
            0
        };
        let cend: int = match suffix_len {
            Some(s) => if relative + s <= seq_end {
                relative + s
            } else {
                seq_end
            },
            None => seq_end,
        };
        &&& ex.rank == rank
        &&& ex.suffix == suffix
        &&& ex.sequence_name@ == self.headers@[idx]@
        &&& ex.context_start == cstart
        &&& ex.context_end == cend
        &&& ex.suffix_offset == relative - cstart
        &&& is_match(qb, self.text@, suffix as int)
    }

    /// What one answered extract query looks like.
    pub open spec fn extract_ok(
        self,
        qnum: int,
        qchars: Seq<char>,
        prefix_len: Option<usize>,
        suffix_len: Option<usize>,
        res: ExtractResult,
    ) -> bool {
        let qb = self.spec_query_bytes(qchars);
        let sa = self.suffix_array_file@;
        &&& res.query_num == qnum
        &&& res.query@ == qchars
        &&& exists|lo: int, hi: int|
            {
                &&& #[trigger] range_correct(qb, self.text@, sa, lo, hi)
                &&& if lo < hi {
                    &&& res.sequences@.len() == hi - lo
                    &&& (forall|p: int|
                        0 <= p < hi - lo ==> self.extract_seq_ok(
                            qb,
                            lo + p,
                            prefix_len,
                            suffix_len,
                            #[trigger] res.sequences@[p],
                        ))
                } else {
                    res.sequences@.len() == 0
                }
            }
    }

    /// Extracts, for every match of every query, the surrounding context
    /// window inside its sub-sequence.
    pub fn extract(&mut self, args: ExtractOptions) -> (r: Result<Vec<ExtractResult>, SufrError>)
        requires
            old(self).valid_index(),
            old(self).mem_consistent(),
        ensures
            r is Ok,
            old(self).eq_core(*final(self)),
            final(self).valid_index(),
            final(self).mem_consistent(),
            final(self).query_low_memory == args.low_memory,
            args.low_memory ==> final(self).suffix_array_mem == old(self).suffix_array_mem
                && final(self).suffix_array_rank_mem == old(self).suffix_array_rank_mem
                && final(self).suffix_array_mem_mql == old(self).suffix_array_mem_mql,
            !args.low_memory ==> old(self).mem_post(
                *final(self),
                match args.max_query_len {
                    Some(v) => v as nat,
                    None => old(self).max_query_len as nat,
                },
            ),
            r.unwrap()@.len() == args.queries@.len(),
            forall|qi: int|
                0 <= qi < args.queries@.len() ==> final(self).extract_ok(
                    qi,
                    args.queries@[qi]@,
                    args.prefix_len,
                    args.suffix_len,
                    #[trigger] r.unwrap()@[qi],
                ),
    {
        let search_args = SearchOptions {
            queries: args.queries,
            max_query_len: args.max_query_len,
            low_memory: args.low_memory,
            find_suffixes: true,
        };
        let search_result: Vec<SearchResult> = match self.suffix_search(&search_args) {
            Ok(v) => v,
            Err(_) => vstd::pervasive::unreached(),
        };
        let ghost mid_self = *self;
        let mut extract_result: Vec<ExtractResult> = Vec::with_capacity(search_result.len());
        let rn: usize = search_result.len();
        let text_len_us: usize = self.text.len();
        let mut qi: usize = 0;
        while qi < rn
            invariant
                qi <= rn,
                rn == search_result@.len(),
                rn == search_args.queries@.len(),
                text_len_us == self.text@.len(),
                *self == mid_self,
                self.valid_index(),
                forall|j: int|
                    0 <= j < rn ==> self.result_ok(
                        j,
                        search_args.queries@[j]@,
                        true,
                        #[trigger] search_result@[j],
                    ),
                extract_result@.len() == qi,
                forall|j: int|
                    0 <= j < qi ==> self.extract_ok(
                        j,
                        search_args.queries@[j]@,
                        args.prefix_len,
                        args.suffix_len,
                        #[trigger] extract_result@[j],
                    ),
            decreases rn - qi,
        {
            let res: &SearchResult = &search_result[qi];
            let ghost qb = self.spec_query_bytes(search_args.queries@[qi as int]@);
            let mut sequences: Vec<ExtractSequence> = Vec::new();
            match &res.locations {
                Some(locs) => {
                    let m: usize = locs.suffixes.len();
                    let mut p: usize = 0;
                    while p < m
                        invariant
                            p <= m,
                            *self == mid_self,
                            self.valid_index(),
                            text_len_us == self.text@.len(),
                            self.result_ok(
                                qi as int,
                                search_args.queries@[qi as int]@,
                                true,
                                search_result@[qi as int],
                            ),
                            qi < search_args.queries@.len(),
                            qb == self.spec_query_bytes(search_args.queries@[qi as int]@),
                            search_result@[qi as int].locations is Some,
                            search_result@[qi as int].locations.unwrap() == *locs,
                            m == locs.suffixes@.len(),
                            sequences@.len() == p,
                            forall|j: int|
                                0 <= j < p ==> self.extract_seq_ok(
                                    qb,
                                    locs.rank_start + j,
                                    args.prefix_len,
                                    args.suffix_len,
                                    #[trigger] sequences@[j],
                                ),
                        decreases m - p,
                    {
                        let suffix64: u64 = locs.suffixes[p];
                        proof {
                            assert(suffix64 == self.suffix_array_file@[locs.rank_start + p]);
                            assert(suffix64 < self.text@.len());
                        }
                        let idx: usize = self.sequence_index(suffix64);
                        let seq_start: usize = self.sequence_starts[idx] as usize;
                        let seq_end: usize = if idx == self.sequence_starts.len() - 1 {
                            text_len_us
                        } else {
                            self.sequence_starts[idx + 1] as usize
                        };
                        let suffix: usize = suffix64 as usize;
                        let relative_suffix_start: usize = suffix - seq_start;
                        let plen: usize = match args.prefix_len {
                            Some(v) => v,
                            None => 0,
                        };
                        let context_start: usize = if relative_suffix_start >= plen {
                            relative_suffix_start - plen
                        } else {
                            0
                        };
                        let context_end: usize = match args.suffix_len {
                            Some(slen) => {
                                match relative_suffix_start.checked_add(slen) {
                                    Some(e) => if e <= seq_end {
                                        e
                                    } else {
                                        seq_end
                                    },
                                    None => seq_end,
                                }
                            },
                            None => seq_end,
                        };
                        sequences.push(
                            ExtractSequence {
                                rank: locs.rank_start + p,
                                suffix,
                                sequence_name: self.headers[idx].clone(),
                                context_start,
                                context_end,
                                suffix_offset: relative_suffix_start - context_start,
                            },
                        );
                        p = p + 1;
                    }
                },
                None => (),
            }
            extract_result.push(
                ExtractResult {
                    query_num: res.query_num,
                    query: res.query.clone(),
                    sequences,
                },
            );
            qi = qi + 1;
        }
        Ok(extract_result)
    }
}

/// Byte image of a resident subsample, as its cache file stores it: the
/// element count as eight bytes, then the kept suffixes at the index's
/// width, then the kept ranks as eight-byte integers, all little-endian.
pub fn encode_locate_cache(suffix_array: &Vec<u64>, ranks: &Vec<usize>, width: IntWidth) -> (r:
    Vec<u8>)
    requires
        suffix_array@.len() == ranks@.len(),
        8 + suffix_array@.len() * width.spec_bytes() + ranks@.len() * 8 <= usize::MAX,
        forall|k: int|
            0 <= k < suffix_array@.len() ==> width.fits(#[trigger] suffix_array@[k]),
    ensures
        ({
            let n = suffix_array@.len() as int;
            let wb = width.spec_bytes() as int;
            &&& r@.len() == 8 + n * wb + n * 8
            &&& spec_u64_from_le_bytes(r@.subrange(0, 8)) == n
            &&& (forall|k: int|
                0 <= k < n ==> le_value_at(r@.subrange(8, 8 + n * wb), width, k)
                    == #[trigger] suffix_array@[k])
            &&& (forall|k: int|
                0 <= k < n ==> le_value_at(
                    r@.subrange(8 + n * wb, 8 + n * wb + n * 8),
                    IntWidth::U64,
                    k,
                ) == #[trigger] ranks@[k])
        }),
{
    let n: usize = suffix_array.len();
    proof {
        vstd::bytes::lemma_auto_spec_u32_to_from_le_bytes();
        vstd::bytes::lemma_auto_spec_u64_to_from_le_bytes();
    }
    let mut out: Vec<u8> = vstd::bytes::u64_to_le_bytes(n as u64);
    let mut body: Vec<u8> = crate::util::vec_to_slice_u8(suffix_array.as_slice(), width);
    let ghost body_v = body@;
    out.append(&mut body);
    let mut ranks64: Vec<u64> = Vec::with_capacity(n);
    let mut i: usize = 0;
    while i < n
        invariant
            i <= n,
            n == ranks@.len(),
            ranks64@.len() == i,
            forall|k: int| 0 <= k < i ==> ranks64@[k] == #[trigger] ranks@[k],
        decreases n - i,
    {
        ranks64.push(ranks[i] as u64);
        i = i + 1;
    }
    let mut body2: Vec<u8> = crate::util::vec_to_slice_u8(ranks64.as_slice(), IntWidth::U64);
    let ghost body2_v = body2@;
    out.append(&mut body2);
    proof {
        let nn = suffix_array@.len() as int;
        let wb = width.spec_bytes() as int;
        assert(out@.subrange(0, 8) =~= spec_u64_to_le_bytes(nn as u64));
        assert(out@.subrange(8, 8 + nn * wb) =~= body_v);
        assert(out@.subrange(8 + nn * wb, 8 + nn * wb + nn * 8) =~= body2_v);
        assert forall|k: int| 0 <= k < nn implies le_value_at(body_v, width, k)
            == #[trigger] suffix_array@[k] by {
            crate::util::lemma_le_round_trip(suffix_array@[k], width);
            lemma_value_of_piece(body_v, width, k, suffix_array@[k]);
        }
        assert forall|k: int| 0 <= k < nn implies le_value_at(body2_v, IntWidth::U64, k)
            == #[trigger] ranks@[k] by {
            crate::util::lemma_le_round_trip(ranks64@[k], IntWidth::U64);
            lemma_value_of_piece(body2_v, IntWidth::U64, k, ranks64@[k]);
        }
    }
    out
}

/// Parses a cache image back into the kept suffixes and ranks.  Fails
/// when the image is shorter than its count claims, or a rank does not
/// fit the machine.
pub fn decode_locate_cache(bytes: &[u8], width: IntWidth) -> (r: Result<
    (Vec<u64>, Vec<usize>),
    SufrError,
>)
    ensures
        ({
            let n = spec_u64_from_le_bytes(bytes@.subrange(0, 8)) as int;
            let wb = width.spec_bytes() as int;
            &&& r is Ok <==> bytes@.len() >= 8 && n * wb + n * 8 <= usize::MAX - 8 && 8 + n * wb
                + n * 8 <= bytes@.len() && (forall|k: int|
                0 <= k < n ==> #[trigger] le_value_at(
                    bytes@.subrange(8 + n * wb, 8 + n * wb + n * 8),
                    IntWidth::U64,
                    k,
                ) <= usize::MAX)
            &&& r is Err ==> r.unwrap_err() == SufrError::DeserializationError
            &&& r is Ok ==> ({
                let (mem, ranks) = r.unwrap();
                &&& mem@.len() == n
                &&& ranks@.len() == n
                &&& (forall|k: int|
                    0 <= k < n ==> #[trigger] mem@[k] == le_value_at(
                        bytes@.subrange(8, 8 + n * wb),
                        width,
                        k,
                    ))
                &&& (forall|k: int|
                    0 <= k < n ==> #[trigger] ranks@[k] == le_value_at(
                        bytes@.subrange(8 + n * wb, 8 + n * wb + n * 8),
                        IntWidth::U64,
                        k,
                    ))
            })
        }),
{
    let blen: usize = bytes.len();
    if blen < 8 {
        return Err(SufrError::DeserializationError);
    }
    let n64: u64 = vstd::bytes::u64_from_le_bytes(vstd::slice::slice_subrange(bytes, 0, 8));
    if n64 > usize::MAX as u64 {
        proof {
            assert(n64 * width.spec_bytes() + n64 * 8 > usize::MAX - 8) by (nonlinear_arith)
                requires
                    n64 > usize::MAX,
                    width.spec_bytes() >= 4,
            ;
        }
        return Err(SufrError::DeserializationError);
    }
    let n: usize = n64 as usize;
    let wb: usize = width.bytes();
    let sa_bytes: usize = match n.checked_mul(wb) {
        Some(v) => v,
        None => {
            proof {
                assert(n * 8 >= 0) by (nonlinear_arith)
                    requires
                        n >= 0,
                ;
            }
            return Err(SufrError::DeserializationError);
        },
    };
    let rank_bytes: usize = match n.checked_mul(8) {
        Some(v) => v,
        None => {
            proof {
                assert(n * wb >= 0) by (nonlinear_arith)
                    requires
                        n >= 0,
                        wb >= 0,
                ;
            }
            return Err(SufrError::DeserializationError);
        },
    };
    let body: usize = match sa_bytes.checked_add(rank_bytes) {
        Some(v) => v,
        None => {
            return Err(SufrError::DeserializationError);
        },
    };
    if body > usize::MAX - 8 {
        return Err(SufrError::DeserializationError);
    }
    if 8 + body > blen {
        return Err(SufrError::DeserializationError);
    }
    let mem: Vec<u64> = crate::util::slice_u8_to_vec(
        vstd::slice::slice_subrange(bytes, 8, 8 + sa_bytes),
        n,
        width,
    );
    let ranks64: Vec<u64> = crate::util::slice_u8_to_vec(
        vstd::slice::slice_subrange(bytes, 8 + sa_bytes, 8 + sa_bytes + rank_bytes),
        n,
        IntWidth::U64,
    );
    let mut ranks: Vec<usize> = Vec::with_capacity(n);
    let mut i: usize = 0;
    while i < n
        invariant
            i <= n,
            n == ranks64@.len(),
            n == spec_u64_from_le_bytes(bytes@.subrange(0, 8)),
            forall|k: int|
                0 <= k < n ==> #[trigger] ranks64@[k] == le_value_at(
                    bytes@.subrange(8 + n * width.spec_bytes(), 8 + n * width.spec_bytes() + n * 8),
                    IntWidth::U64,
                    k,
                ),
            ranks@.len() == i,
            forall|k: int| 0 <= k < i ==> #[trigger] ranks@[k] == ranks64@[k],
            forall|k: int| 0 <= k < i ==> #[trigger] ranks64@[k] <= usize::MAX,
        decreases n - i,
    {
        let v: u64 = ranks64[i];
        if v > usize::MAX as u64 {
            proof {
                let nspec = spec_u64_from_le_bytes(bytes@.subrange(0, 8)) as int;
                let wbs = width.spec_bytes() as int;
                assert(nspec == n);
                let region = bytes@.subrange(8 + nspec * wbs, 8 + nspec * wbs + nspec * 8);
                assert(region == bytes@.subrange(
                    8 + n * width.spec_bytes(),
                    8 + n * width.spec_bytes() + n * 8,
                ));
                assert(ranks64@[i as int] == le_value_at(region, IntWidth::U64, i as int));
                assert(!(forall|k: int|
                    0 <= k < nspec ==> #[trigger] le_value_at(region, IntWidth::U64, k)
                        <= usize::MAX)) by {
                    assert(le_value_at(region, IntWidth::U64, i as int) > usize::MAX);
                }
            }
            return Err(SufrError::DeserializationError);
        }
        ranks.push(v as usize);
        i = i + 1;
    }
    proof {
        let ghost region = bytes@.subrange(
            8 + n * width.spec_bytes(),
            8 + n * width.spec_bytes() + n * 8,
        );
        assert forall|k: int| 0 <= k < n implies #[trigger] le_value_at(
            region,
            IntWidth::U64,
            k,
        ) <= usize::MAX by {
            assert(ranks64@[k] == le_value_at(region, IntWidth::U64, k));
        }
    }
    Ok((mem, ranks))
}

/// Reading the `k`-th cell of a store whose cells each hold the encoding
/// of a known value gives that value back.
proof fn lemma_value_of_piece(store: Seq<u8>, w: IntWidth, k: int, v: u64)
    requires
        0 <= k,
        w.fits(v),
        k * w.spec_bytes() + w.spec_bytes() <= store.len(),
        store.subrange(k * w.spec_bytes(), k * w.spec_bytes() + w.spec_bytes()) == le_bytes_of(
            v,
            w,
        ),
    ensures
        le_value_at(store, w, k) == v,
{
    crate::util::lemma_le_round_trip(v, w);
    match w {
        IntWidth::U32 => {
            assert(le_bytes_of(v, w).subrange(0, 4) =~= le_bytes_of(v, w));
        },
        IntWidth::U64 => {
            assert(le_bytes_of(v, w).subrange(0, 8) =~= le_bytes_of(v, w));
        },
    }
}

/// Law: a clean `check` report carries the order and LCP invariants.  An
/// index whose adjacent pairs are all sound has its whole suffix array
/// sorted, and every stored LCP entry past the first faithful.
pub proof fn lemma_adjacent_ok_implies_valid(s: SufrFile)
    requires
        s.wf(),
        sa_in_bounds(s.suffix_array_file@, s.text@.len()),
        s.adjacent_ok(),
    ensures
        sa_sorted(s.text@, s.suffix_array_file@),
        forall|i: int|
            1 <= i < s.lcp_file@.len() ==> #[trigger] s.lcp_file@[i] == suffix_lcp(
                s.text@,
                s.suffix_array_file@[i - 1] as int,
                s.suffix_array_file@[i] as int,
            ),
{
    assert forall|i: int| 1 <= i < s.suffix_array_file@.len() implies suffix_order(
        s.text@,
        #[trigger] s.suffix_array_file@[i - 1] as int,
        s.suffix_array_file@[i] as int,
    ) == Cmp::Less by {
        assert(s.pair_ok(i));
    }
    crate::sufr_search::lemma_adjacent_sorted(s.text@, s.suffix_array_file@);
    assert forall|i: int| 1 <= i < s.lcp_file@.len() implies #[trigger] s.lcp_file@[i]
        == suffix_lcp(
        s.text@,
        s.suffix_array_file@[i - 1] as int,
        s.suffix_array_file@[i] as int,
    ) by {
        assert(s.pair_ok(i));
    }
}

/// Law: the answer to one query depends on the suffix array, the text and
/// the effective query bytes alone.  Two result records that satisfy the
/// search contract over the same array and text, for the same query,
/// report the same matches — whatever batch, position or storage mode
/// produced them.  Shuffling a batch therefore cannot change any
/// per-query answer.
pub proof fn lemma_result_deterministic(
    s1: SufrFile,
    s2: SufrFile,
    qchars: Seq<char>,
    find_suffixes: bool,
    n1: int,
    n2: int,
    r1: SearchResult,
    r2: SearchResult,
)
    requires
        s1.suffix_array_file@ == s2.suffix_array_file@,
        s1.text@ == s2.text@,
        s1.spec_query_bytes(qchars) == s2.spec_query_bytes(qchars),
        s1.result_ok(n1, qchars, find_suffixes, r1),
        s2.result_ok(n2, qchars, find_suffixes, r2),
    ensures
        r1.locations is Some <==> r2.locations is Some,
        r1.locations is Some ==> {
            &&& r1.locations.unwrap().rank_start == r2.locations.unwrap().rank_start
            &&& r1.locations.unwrap().rank_end == r2.locations.unwrap().rank_end
            &&& r1.locations.unwrap().suffixes@ == r2.locations.unwrap().suffixes@
        },
{
    let qb = s1.spec_query_bytes(qchars);
    let t = s1.text@;
    let sa = s1.suffix_array_file@;
    match r1.locations {
        Some(loc1) => {
            match r2.locations {
                Some(loc2) => {
                    lemma_range_unique(
                        qb,
                        t,
                        sa,
                        loc1.rank_start as int,
                        loc1.rank_end as int,
                        loc2.rank_start as int,
                        loc2.rank_end as int,
                    );
                },
                None => {
                    let (lo2, hi2) = choose|lo: int, hi: int|
                        {
                            &&& #[trigger] range_correct(qb, t, sa, lo, hi)
                            &&& (find_suffixes ==> lo == hi)
                        };
                    lemma_range_unique(
                        qb,
                        t,
                        sa,
                        loc1.rank_start as int,
                        loc1.rank_end as int,
                        lo2,
                        hi2,
                    );
                },
            }
        },
        None => {
            match r2.locations {
                Some(loc2) => {
                    let (lo1, hi1) = choose|lo: int, hi: int|
                        {
                            &&& #[trigger] range_correct(qb, t, sa, lo, hi)
                            &&& (find_suffixes ==> lo == hi)
                        };
                    lemma_range_unique(
                        qb,
                        t,
                        sa,
                        lo1,
                        hi1,
                        loc2.rank_start as int,
                        loc2.rank_end as int,
                    );
                },
                None => {},
            }
        },
    }
}

/// Law: a resident suffix array and a stored one answer alike.  Whatever
/// storage modes two index states use, if they hold the same array and
/// text and neither truncates the query — its byte form fits under both
/// effective caps, or a cap is absent — the two search contracts pin the
/// same matches.
pub proof fn lemma_mode_agreement(
    s1: SufrFile,
    s2: SufrFile,
    qchars: Seq<char>,
    find_suffixes: bool,
    n1: int,
    n2: int,
    r1: SearchResult,
    r2: SearchResult,
)
    requires
        s1.suffix_array_file@ == s2.suffix_array_file@,
        s1.text@ == s2.text@,
        s1.spec_cap() == 0 || vstd::utf8::encode_utf8(qchars).len() <= s1.spec_cap(),
        s2.spec_cap() == 0 || vstd::utf8::encode_utf8(qchars).len() <= s2.spec_cap(),
        s1.result_ok(n1, qchars, find_suffixes, r1),
        s2.result_ok(n2, qchars, find_suffixes, r2),
    ensures
        r1.locations is Some <==> r2.locations is Some,
        r1.locations is Some ==> {
            &&& r1.locations.unwrap().rank_start == r2.locations.unwrap().rank_start
            &&& r1.locations.unwrap().rank_end == r2.locations.unwrap().rank_end
            &&& r1.locations.unwrap().suffixes@ == r2.locations.unwrap().suffixes@
        },
{
    lemma_result_deterministic(s1, s2, qchars, find_suffixes, n1, n2, r1, r2);
}

/// Law: loading the resident suffix array twice in a row for the same
/// wished query length leaves it exactly as the first load did.
pub proof fn lemma_ensure_loaded_idempotent(s0: SufrFile, s1: SufrFile, s2: SufrFile, want: nat)
    requires
        s0.set_mem_post(s1, want),
        s1.set_mem_post(s2, want),
    ensures
        s2.suffix_array_mem@ == s1.suffix_array_mem@,
        s2.suffix_array_rank_mem@ == s1.suffix_array_rank_mem@,
        s2.suffix_array_mem_mql == s1.suffix_array_mem_mql,
{
    assert(s1.spec_effective_mql(want) == s0.spec_effective_mql(want));
    let eff = s0.spec_effective_mql(want);
    if eff == s0.max_query_len {
        assert(s2.suffix_array_mem@ == s1.suffix_array_mem@);
        assert(s2.suffix_array_rank_mem@ =~= s1.suffix_array_rank_mem@);
    } else if s1.suffix_array_mem@.len() > 0 {
        // the second call finds the first call's subsample already resident
    } else {
        // an empty subsample is rebuilt to the same empty subsample
        assert(s1.lcp_file@ == s0.lcp_file@);
        assert(s1.suffix_array_rank_mem@.len() == s1.suffix_array_mem@.len());
        assert(s1.suffix_array_rank_mem@.map_values(|x: usize| x as int) == spec_kept(
            s0.lcp_file@,
            eff as u64,
        ));
        assert(spec_kept(s0.lcp_file@, eff as u64).len() == 0);
        assert(s2.suffix_array_rank_mem@.map_values(|x: usize| x as int) == spec_kept(
            s1.lcp_file@,
            eff as u64,
        ));
        assert(s2.suffix_array_rank_mem@.len() == 0);
        assert(s2.suffix_array_mem@ =~= s1.suffix_array_mem@);
        assert(s2.suffix_array_rank_mem@ =~= s1.suffix_array_rank_mem@);
    }
}

/// The report line of `check` for a wrong stored LCP.
pub open spec fn spec_lcp_error_line(suffix: nat, rank: nat, stored: nat, computed: nat) -> Seq<
    char,
> {
    crate::types::spec_dec_chars(suffix) + " (r. "@ + crate::types::spec_dec_chars(rank)
        + "): LCP "@ + crate::types::spec_dec_chars(stored) + " should be "@
        + crate::types::spec_dec_chars(computed)
}

/// The report line of `check` for a pair of suffixes out of order.
pub open spec fn spec_order_error_line(suffix: nat, rank: nat) -> Seq<char> {
    crate::types::spec_dec_chars(suffix) + " (r. "@ + crate::types::spec_dec_chars(rank)
        + "): greater than previous"@
}

/// One report line of `check` for a wrong stored LCP, shaped
/// `{suffix} (r. {rank}): LCP {stored} should be {computed}`.
fn lcp_error_line(cur_sa: u64, rank: usize, cur_lcp: u64, check_lcp: usize) -> (r: String)
    ensures
        r@ == spec_lcp_error_line(cur_sa as nat, rank as nat, cur_lcp as nat, check_lcp as nat),
{
    let mut s = crate::types::dec_string(cur_sa);
    crate::util::append_str(&mut s, " (r. ");
    let part = crate::types::dec_string(rank as u64);
    crate::util::append_str(&mut s, part.as_str());
    crate::util::append_str(&mut s, "): LCP ");
    let part = crate::types::dec_string(cur_lcp);
    crate::util::append_str(&mut s, part.as_str());
    crate::util::append_str(&mut s, " should be ");
    let part = crate::types::dec_string(check_lcp as u64);
    crate::util::append_str(&mut s, part.as_str());
    s
}

/// One report line of `check` for a pair of suffixes out of order,
/// shaped `{suffix} (r. {rank}): greater than previous`.
fn order_error_line(cur_sa: u64, rank: usize) -> (r: String)
    ensures
        r@ == spec_order_error_line(cur_sa as nat, rank as nat),
{
    let mut s = crate::types::dec_string(cur_sa);
    crate::util::append_str(&mut s, " (r. ");
    let part = crate::types::dec_string(rank as u64);
    crate::util::append_str(&mut s, part.as_str());
    crate::util::append_str(&mut s, "): greater than previous");
    s
}

/// Reads the `idx`-th eight-byte header field.
fn read_hdr_field(data: &[u8], idx: usize) -> (r: u64)
    requires
        idx <= 6,
        data@.len() >= 60,
    ensures
        r == hdr_field(data@, idx as int),
{
    let off: usize = 4 + 8 * idx;
    vstd::bytes::u64_from_le_bytes(vstd::slice::slice_subrange(data, off, off + 8))
}

/// Decoding a region of a larger store matches decoding its extraction.
proof fn lemma_region_extract(data: Seq<u8>, off: int, cnt: int, w: IntWidth)
    requires
        0 <= off,
        0 <= cnt,
        off + cnt * w.spec_bytes() <= data.len(),
    ensures
        forall|i: int|
            0 <= i < cnt ==> le_value_at(
                data.subrange(off, off + cnt * w.spec_bytes()),
                w,
                i,
            ) == #[trigger] region_values(data, off, cnt, w)[i],
{
}

} // verus!
