//! Opening the bytes of a recording: unpacking gzip where the file name
//! says so, and taking its first chunk.
use vstd::prelude::*;

use std::io::Read;

use flate2::read::GzDecoder;
use jfrs::reader::Chunk;

use crate::text::ends_with;

verus! {

/// Why the bytes of a recording could not be read.
#[derive(Debug, Clone, PartialEq, Eq)]
pub enum InputError {
    /// The gzip data could not be unpacked; the message says why.
    Decompress(String),
    /// A chunk could not be read; the message says why.
    Read(String),
    /// The recording holds no chunk.
    NoChunk,
}

/// The bytes that gzip data unpacks to, where it is valid gzip data.
pub uninterp spec fn gunzip(data: Seq<u8>) -> Option<Seq<u8>>;

/// Unpacks gzip data with flate2's `GzDecoder` (`read_to_end`). Trusted:
/// the result is the unpacked data, a function of the data alone, or an
/// error exactly where that function has no value.
#[verifier::external_body]
fn gz_decode(data: &Vec<u8>) -> (r: Result<Vec<u8>, String>)
    ensures
        r is Ok <==> gunzip(data@) is Some,
        r matches Ok(v) ==> gunzip(data@) == Some(v@),
{
    let mut buf = vec![];
    match GzDecoder::new(&data[..]).read_to_end(&mut buf) {
        Ok(_) => Ok(buf),
        Err(e) => Err(e.to_string()),
    }
}

/// Whether a file of this name holds gzip data.
pub open spec fn is_gzip_name(filename: Seq<char>) -> bool {
    filename.len() >= 3 && filename.subrange(filename.len() - 3, filename.len() as int)
        == seq!['.', 'g', 'z']
}

/// The bytes of the recording in a file named `filename` that holds
/// `data`: unpacked where the name ends in `.gz`.
pub fn decode_input(filename: &str, data: Vec<u8>) -> (r: Result<Vec<u8>, InputError>)
    ensures
        is_gzip_name(filename@) ==> match gunzip(data@) {
            Some(d) => r matches Ok(v) && v@ == d,
            None => r matches Err(InputError::Decompress(_)),
        },
        !is_gzip_name(filename@) ==> r == Ok::<Vec<u8>, InputError>(data),
{
    proof {
        reveal_strlit(".gz");
        assert(".gz"@ =~= seq!['.', 'g', 'z']);
    }
    if ends_with(filename, ".gz") {
        match gz_decode(&data) {
            Ok(v) => Ok(v),
            Err(msg) => Err(InputError::Decompress(msg)),
        }
    } else {
        Ok(data)
    }
}

/// What reading the first chunk of a recording gives, as an error of the
/// library: `NoChunk` where the bytes end before it, `Read` with the
/// message of the error met reading it.
pub open spec fn first_chunk_outcome(next: Option<Result<Chunk, String>>) -> Result<Chunk, InputError> {
    match next {
        None => Err(InputError::NoChunk),
        Some(Err(msg)) => Err(InputError::Read(msg)),
        Some(Ok(c)) => Ok(c),
    }
}

/// The first chunk of a recording, from what jfrs gave for its next chunk.
pub fn first_chunk(next: Option<Result<Chunk, String>>) -> (r: Result<Chunk, InputError>)
    ensures
        r == first_chunk_outcome(next),
{
    match next {
        None => Err(InputError::NoChunk),
        Some(Err(msg)) => Err(InputError::Read(msg)),
        Some(Ok(c)) => Ok(c),
    }
}

} // verus!
