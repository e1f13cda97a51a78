//! The input of the indexer: plain, or compressed with gzip.
use flate2::read::GzDecoder;
use std::io::Read;
use vstd::prelude::*;

verus! {

/// Whether data is compressed: it starts with the two bytes that mark gzip.
pub open spec fn is_gzip(data: Seq<u8>) -> bool {
    data.len() >= 2 && data[0] == 0x1f && data[1] == 0x8b
}

/// What flate2's `read::GzDecoder` gives for compressed data when it is read to its end;
/// nothing if that fails.
pub uninterp spec fn gunzipped(data: Seq<u8>) -> Option<Seq<u8>>;

/// flate2's `read::GzDecoder`, read to its end: what the first member of the data holds, or
/// nothing if the data is no gzip or damaged. The result depends on the data alone.
#[verifier::external_body]
fn gunzip(data: &[u8]) -> (r: Option<Vec<u8>>)
    ensures
        match r {
            Some(plain) => gunzipped(data@) == Some(plain@),
            None => gunzipped(data@) is None,
        },
{
    let mut plain: Vec<u8> = Vec::new();
    match GzDecoder::new(data).read_to_end(&mut plain) {
        Ok(_) => Some(plain),
        Err(_) => None,
    }
}

/// Takes the compression off, if there is any. There is no result exactly if data that is
/// marked as compressed cannot be decompressed.
pub fn decode_input(data: &[u8]) -> (r: Option<Vec<u8>>)
    ensures
        is_gzip(data@) ==> match r {
            Some(plain) => gunzipped(data@) == Some(plain@),
            None => gunzipped(data@) is None,
        },
        !is_gzip(data@) ==> r is Some && r->0@ == data@,
{
    if data.len() >= 2 && data[0] == 0x1f && data[1] == 0x8b {
        return gunzip(data);
    }
    let mut plain: Vec<u8> = Vec::new();
    let mut k: usize = 0;
    while k < data.len()
        invariant
            k <= data@.len(),
            plain@ =~= data@.take(k as int),
        decreases data@.len() - k,
    {
        plain.push(data[k]);
        k += 1;
    }
    assert(plain@ =~= data@);
    Some(plain)
}

/// Data that starts with the two bytes that mark gzip is decompressed; any other data, shorter
/// than two bytes too, is taken as it is, byte for byte.
pub proof fn plain_data_is_taken_as_it_is(data: &[u8], r: Option<Vec<u8>>)
    requires
        call_ensures(decode_input, (data,), r),
    ensures
        data@.len() < 2 ==> r is Some && r->0@ == data@,
        data@.len() >= 2 && (data@[0] != 0x1f || data@[1] != 0x8b) ==> r is Some && r->0@
            == data@,
        data@.len() >= 2 && data@[0] == 0x1f && data@[1] == 0x8b ==> (r is Some <==> gunzipped(
            data@,
        ) is Some) && (r is Some ==> gunzipped(data@) == Some(r->0@)),
{
}

} // verus!
