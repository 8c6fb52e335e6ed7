//! Decoder for the binary sampling-profiler trace.
//!
//! The trace is a stream of little-endian 64-bit words: a five-word header
//! `[0, 3, 0, sampling_period, 0]`, then records `(sample_count,
//! num_addresses, addresses...)` until a terminator record `(0, 1, dummy)`,
//! and finally a text blob describing the mapped objects of the profiled
//! process, decoded lossily.
use vstd::prelude::*;

use vstd::bytes::spec_u64_from_le_bytes;
use vstd::bytes::u64_from_le_bytes;
use vstd::slice::slice_subrange;

verus! {

/// Why a trace failed to decode.
#[derive(Debug, Clone, Copy, PartialEq, Eq, Structural)]
pub enum FormatError {
    /// The five header words are present but not `[0, 3, 0, _, 0]`.
    InvalidHeader,
    /// A record with sample count zero whose address count is not one.
    InvalidTrailer,
    /// The stream ends in the middle of the header or of a record.
    Truncated,
}

/// One sampled call stack: how often it was seen and the program counters,
/// innermost frame first. `symbols` stays `None` until resolution runs.
#[derive(Debug)]
pub struct Stacktrace {
    pub sample_count: u64,
    pub pcs: Vec<u64>,
    pub symbols: Option<Vec<String>>,
}

/// A decoded trace: the sampling period in microseconds, the text blob
/// describing the mapped objects, and the sampled stacks.
#[derive(Debug)]
pub struct ProfilerResult {
    pub sampling_period_in_us: u64,
    pub proc_mapped_objects: String,
    pub stacktraces: Vec<Stacktrace>,
}

/// The little-endian word written at byte offset `pos`.
pub open spec fn word_at(data: Seq<u8>, pos: int) -> u64 {
    spec_u64_from_le_bytes(data.subrange(pos, pos + 8))
}

/// The mathematical content of a trace: what decoding yields.
pub struct TraceModel {
    pub period: u64,
    pub records: Seq<(u64, Seq<u64>)>,
    pub tail: Seq<u8>,
}

/// Parses the record stream of `data` from `pos` on: the records up to and
/// the byte offset just past the three-word terminator.
pub open spec fn spec_records(data: Seq<u8>, pos: int) -> Result<(Seq<(u64, Seq<u64>)>, int), FormatError>
    decreases data.len() - pos
        when 0 <= pos <= data.len()
{
    if pos + 16 > data.len() {
        Err(FormatError::Truncated)
    } else {
        let sc = word_at(data, pos);
        let n = word_at(data, pos + 8) as int;
        if sc == 0 {
            if n != 1 {
                Err(FormatError::InvalidTrailer)
            } else if pos + 24 > data.len() {
                Err(FormatError::Truncated)
            } else {
                Ok((Seq::empty(), pos + 24))
            }
        } else if pos + 16 + 8 * n > data.len() {
            Err(FormatError::Truncated)
        } else {
            let addrs = Seq::new(n as nat, |i: int| word_at(data, pos + 16 + 8 * i));
            match spec_records(data, pos + 16 + 8 * n) {
                Ok((rest, end)) => Ok((seq![(sc, addrs)] + rest, end)),
                Err(e) => Err(e),
            }
        }
    }
}

/// What decoding a byte stream yields: the model of the trace, or the first
/// format error. A stream shorter than the header or ending inside a record
/// is `Truncated`; a header other than `[0, 3, 0, _, 0]` is `InvalidHeader`;
/// a zero-count record with an address count other than one is
/// `InvalidTrailer`.
pub open spec fn spec_decode(data: Seq<u8>) -> Result<TraceModel, FormatError> {
    if data.len() < 40 {
        Err(FormatError::Truncated)
    } else if word_at(data, 0) != 0 || word_at(data, 8) != 3 || word_at(data, 16) != 0 || word_at(
        data,
        32,
    ) != 0 {
        Err(FormatError::InvalidHeader)
    } else {
        match spec_records(data, 40) {
            Ok((records, end)) => Ok(
                TraceModel { period: word_at(data, 24), records, tail: data.skip(end) },
            ),
            Err(e) => Err(e),
        }
    }
}

/// The record content of a stack list: sample counts and addresses.
pub open spec fn records_model(sts: Seq<Stacktrace>) -> Seq<(u64, Seq<u64>)> {
    sts.map(|i: int, st: Stacktrace| (st.sample_count, st.pcs@))
}

/// What `String::from_utf8_lossy` makes of a byte sequence.
pub uninterp spec fn lossy_of(bytes: Seq<u8>) -> Seq<char>;

/// Relies on `String::from_utf8_lossy` from std: the result is a function of
/// the bytes alone, and bytes that are valid UTF-8 — in particular, pure
/// ASCII — decode to themselves.
#[verifier::external_body]
fn lossy_utf8_string(bytes: &[u8]) -> (r: String)
    ensures
        r@ == lossy_of(bytes@),
        (forall|i: int| 0 <= i < bytes@.len() ==> bytes@[i] < 128) ==> r@ == Seq::new(
            bytes@.len(),
            |i: int| bytes@[i] as char,
        ),
{
    String::from_utf8_lossy(bytes).to_string()
}

/// Decode a binary profiler trace. On success the result carries exactly the
/// sampling period, the records and the lossily decoded tail text of the
/// stream; on failure it reports the first format error, and no partial
/// trace escapes.
pub fn parse_profiler_result(data: &[u8]) -> (r: Result<ProfilerResult, FormatError>)
    ensures
        match r {
            Ok(pr) => {
                &&& spec_decode(data@) matches Ok(m)
                &&& pr.sampling_period_in_us == m.period
                &&& records_model(pr.stacktraces@) == m.records
                &&& pr.proc_mapped_objects@ == lossy_of(m.tail)
                &&& forall|i: int|
                    0 <= i < pr.stacktraces@.len() ==> #[trigger] pr.stacktraces@[i].symbols
                        is None
            },
            Err(e) => spec_decode(data@) == Err::<TraceModel, FormatError>(e),
        },
{
    let len = data.len();
    if len < 40 {
        return Err(FormatError::Truncated);
    }
    let header_count = u64_from_le_bytes(slice_subrange(data, 0, 8));
    let header_slots = u64_from_le_bytes(slice_subrange(data, 8, 16));
    let version = u64_from_le_bytes(slice_subrange(data, 16, 24));
    let sampling_period_in_us = u64_from_le_bytes(slice_subrange(data, 24, 32));
    let padding = u64_from_le_bytes(slice_subrange(data, 32, 40));
    if header_count != 0 || header_slots != 3 || version != 0 || padding != 0 {
        return Err(FormatError::InvalidHeader);
    }
    let mut stacktraces: Vec<Stacktrace> = Vec::new();
    let mut pos: usize = 40;
    proof {
        assert(records_model(stacktraces@) =~= Seq::<(u64, Seq<u64>)>::empty());
        match spec_records(data@, 40) {
            Ok((rest, end)) => {
                assert(records_model(stacktraces@) + rest =~= rest);
            },
            Err(e) => {},
        }
    }
    loop
        invariant_except_break
            spec_records(data@, 40) == match spec_records(data@, pos as int) {
                Ok((rest, end)) => Ok::<_, FormatError>(
                    (records_model(stacktraces@) + rest, end),
                ),
                Err(e) => Err(e),
            },
        invariant
            40 <= pos <= len == data@.len(),
            word_at(data@, 0) == 0 && word_at(data@, 8) == 3 && word_at(data@, 16) == 0 && word_at(
                data@,
                32,
            ) == 0,
            forall|i: int|
                0 <= i < stacktraces@.len() ==> #[trigger] stacktraces@[i].symbols is None,
        ensures
            40 <= pos <= len,
            spec_records(data@, 40) == Ok::<_, FormatError>(
                (records_model(stacktraces@), pos as int),
            ),
            forall|i: int|
                0 <= i < stacktraces@.len() ==> #[trigger] stacktraces@[i].symbols is None,
        decreases len - pos,
    {
        if len - pos < 16 {
            return Err(FormatError::Truncated);
        }
        let sample_count = u64_from_le_bytes(slice_subrange(data, pos, pos + 8));
        let num_pcs = u64_from_le_bytes(slice_subrange(data, pos + 8, pos + 16));
        proof {
            assert(data@.subrange(pos as int, pos + 8) == data@.subrange(pos as int, pos as int
                + 8));
            assert(sample_count == word_at(data@, pos as int));
            assert(num_pcs == word_at(data@, pos + 8));
        }
        if sample_count == 0 {
            if num_pcs != 1 {
                return Err(FormatError::InvalidTrailer);
            }
            if len - pos < 24 {
                return Err(FormatError::Truncated);
            }
            proof {
                assert(spec_records(data@, pos as int) == Ok::<_, FormatError>(
                    (Seq::<(u64, Seq<u64>)>::empty(), pos + 24),
                ));
                assert(records_model(stacktraces@) + Seq::<(u64, Seq<u64>)>::empty()
                    =~= records_model(stacktraces@));
            }
            pos = pos + 24;
            break;
        }
        let rem = len - (pos + 16);
        if num_pcs > (rem as u64) / 8 {
            proof {
                assert(pos + 16 + 8 * (num_pcs as int) > data@.len());
            }
            return Err(FormatError::Truncated);
        }
        let mut pcs: Vec<u64> = Vec::new();
        let mut k: usize = 0;
        proof {
            assert(8 * (num_pcs as int) <= rem as int);
        }
        let n_usize: usize = (num_pcs as usize);
        while k < n_usize
            invariant
                n_usize as u64 == num_pcs,
                40 <= pos,
                pos + 16 + 8 * (num_pcs as int) <= len == data@.len(),
                k <= n_usize,
                pcs@.len() == k,
                forall|i: int| 0 <= i < k ==> #[trigger] pcs@[i] == word_at(data@, pos + 16 + 8 * i),
            decreases n_usize - k,
    {
            let a = u64_from_le_bytes(slice_subrange(data, pos + 16 + 8 * k, pos + 16 + 8 * k + 8));
            proof {
                assert(a == word_at(data@, pos + 16 + 8 * (k as int)));
            }
            pcs.push(a);
            k = k + 1;
        }
        let ghost rec = (sample_count, pcs@);
        proof {
            assert(pcs@ =~= Seq::new(num_pcs as nat, |i: int| word_at(data@, pos + 16 + 8 * i)));
        }
        let ghost old_pos = pos as int;
        let ghost old_model = records_model(stacktraces@);
        stacktraces.push(Stacktrace { sample_count, pcs, symbols: None });
        pos = pos + 16 + 8 * n_usize;
        proof {
            let d = data@;
            assert(records_model(stacktraces@) =~= old_model.push(rec));
            assert(spec_records(d, old_pos) == match spec_records(d, pos as int) {
                Ok((rest, end)) => Ok::<_, FormatError>((seq![rec] + rest, end)),
                Err(e) => Err(e),
            });
            match spec_records(d, pos as int) {
                Ok((rest, end)) => {
                    assert(old_model + (seq![rec] + rest) =~= old_model.push(rec) + rest);
                },
                Err(e) => {},
            }
        }
    }
    let tail = slice_subrange(data, pos, len);
    let proc_mapped_objects = lossy_utf8_string(tail);
    proof {
        assert(tail@ =~= data@.skip(pos as int));
    }
    Ok(
        ProfilerResult {
            sampling_period_in_us,
            proc_mapped_objects,
            stacktraces,
        },
    )
}

} // verus!
