use vstd::prelude::*;
use std::io::Read;
use std::io::Write;
use crate::error::KvError;
use crate::value::{CommandRequest, CommandResponse, ReqV, RespV};
use crate::wire::{req_enc, req_fits, resp_enc, resp_fits, u32_be, encode_request_body,
    encode_response_body, decode_request_at, decode_response_at, req_capped_len, resp_capped_len,
    encode_u32_be, encode_raw, decode_u32_at, lemma_chunk_split};

verus! {

broadcast use vstd::std_specs::vec::group_vec_axioms;

/// Bytes taken by the length header of every frame.
pub const LEN_LEN: usize = 4;

/// Frames whose payload reaches this many bytes are refused.
pub const MAX_FRAME: usize = 0x80000000;

/// Payloads above this many bytes travel compressed.
pub const COMPRESSION_LIMIT: usize = 1436;

/// The header bit that marks a compressed payload.
pub const COMPRESSION_BIT: usize = 0x80000000;

/// What the compressor produces for the given bytes. The output of the
/// deflate engine at its default level is a function of the input alone.
pub uninterp spec fn deflate_of(data: Seq<u8>) -> Seq<u8>;

/// Relies on flate2's GzEncoder: compressing into a `Vec` sink cannot fail,
/// and the output depends on the input bytes alone.
#[verifier::external_body]
fn gzip_compress(data: &Vec<u8>) -> (r: Vec<u8>)
    ensures
        r@ == deflate_of(data@),
{
    let mut encoder = flate2::write::GzEncoder::new(Vec::new(), flate2::Compression::default());
    encoder.write_all(data.as_slice()).expect("a Vec sink accepts every write");
    encoder.finish().expect("a Vec sink accepts every write")
}

/// Relies on flate2's GzDecoder: decompression inverts compression, so a
/// buffer holding the compressor's output for some bytes yields those bytes.
#[verifier::external_body]
fn gzip_decompress(data: &Vec<u8>) -> (r: Result<Vec<u8>, KvError>)
    ensures
        r matches Ok(v) ==> (forall|orig: Seq<u8>| data@ == deflate_of(orig) ==> v@ == orig),
        r is Err ==> (forall|orig: Seq<u8>| data@ != deflate_of(orig)),
{
    let mut decoder = flate2::read::GzDecoder::new(data.as_slice());
    let mut out = Vec::new();
    match decoder.read_to_end(&mut out) {
        Ok(_) => Ok(out),
        Err(_) => Err(KvError::FrameError),
    }
}

/// One frame on the wire: the four header bytes, then the payload, which is
/// the compressor's output when the payload was over the threshold.
pub open spec fn frame_enc(p: Seq<u8>) -> Seq<u8> {
    if p.len() <= 1436 {
        u32_be(p.len() as u32) + p
    } else {
        u32_be((deflate_of(p).len() + 0x80000000) as u32) + deflate_of(p)
    }
}

/// True when the payload, and its compressed form where one is used, stay
/// under the frame ceiling.
pub open spec fn frame_ok(p: Seq<u8>) -> bool {
    &&& p.len() < 0x80000000
    &&& (p.len() > 1436 ==> deflate_of(p).len() < 0x80000000)
}

/// Splits a frame header into the payload length and the compression flag.
pub fn decode_header(header: usize) -> (r: (usize, bool))
    requires
        header < 0x100000000,
    ensures
        r.1 == (header >= 0x80000000),
        r.0 == (if header >= 0x80000000 {
            (header - 0x80000000) as int
        } else {
            header as int
        }),
{
    if header >= 0x80000000 {
        (header - 0x80000000, true)
    } else {
        (header, false)
    }
}

/// Appends one frame holding the payload, or leaves the buffer unchanged.
fn seal_frame(payload: &Vec<u8>, buf: &mut Vec<u8>) -> (r: Result<(), KvError>)
    requires
        payload@.len() < 0x80000000,
    ensures
        r matches Ok(u) ==> frame_ok(payload@) && final(buf)@ =~= old(buf)@ + frame_enc(
            payload@,
        ),
        r is Err ==> final(buf)@ == old(buf)@ && !frame_ok(payload@),
        r is Ok <==> frame_ok(payload@),
{
    if payload.len() <= 1436 {
        encode_u32_be(payload.len() as u32, buf);
        encode_raw(payload.as_slice(), buf);
        Ok(())
    } else {
        let compressed = gzip_compress(payload);
        if compressed.len() >= 0x80000000 {
            return Err(KvError::FrameError);
        }
        encode_u32_be((compressed.len() as u32) + 0x80000000u32, buf);
        encode_raw(compressed.as_slice(), buf);
        Ok(())
    }
}

/// True when a well-formed frame for payload `p` starts the buffer.
pub open spec fn frame_sat(buf: Seq<u8>, p: Seq<u8>) -> bool {
    &&& frame_ok(p)
    &&& frame_enc(p).len() <= buf.len()
    &&& buf.subrange(0, frame_enc(p).len() as int) =~= frame_enc(p)
}

/// Reads the payload of the frame starting the buffer, and how many bytes
/// the frame took.
#[verifier::rlimit(100)]
#[verifier::spinoff_prover]
fn open_frame(buf: &Vec<u8>) -> (r: Result<(Vec<u8>, usize), KvError>)
    ensures
        r matches Ok(q) ==> 4 <= q.1 <= buf@.len(),
        forall|p: Seq<u8>|
            frame_sat(buf@, p) ==> (r matches Ok(q) && q.0@ == p && q.1 == frame_enc(p).len()),
{
    let s = buf.as_slice();
    let (header, _) = match decode_u32_at(s, 0) {
        Ok(q) => q,
        Err(e) => {
            proof {
                assert forall|p: Seq<u8>| frame_sat(buf@, p) implies false by {
                    assert(4 <= buf@.len());
                }
            }
            return Err(e);
        },
    };
    let (len, compressed) = decode_header(header as usize);
    if len > buf.len() || 4 > buf.len() - len {
        proof {
            assert forall|p: Seq<u8>| frame_sat(buf@, p) implies false by {
                frame_header_facts(buf@, p, header);
            }
        }
        return Err(KvError::FrameError);
    }
    let mut body: Vec<u8> = Vec::new();
    let mut i: usize = 0;
    while i < len
        invariant
            0 <= i <= len,
            4 + len <= buf@.len(),
            buf@.len() <= usize::MAX,
            s@ == buf@,
            body@ =~= buf@.subrange(4, 4 + i),
        decreases len - i,
    {
        body.push(s[4 + i]);
        proof {
            assert(buf@.subrange(4, 4 + i) + seq![buf@[4 + i]] =~= buf@.subrange(4, 4 + i + 1));
        }
        i = i + 1;
    }
    if compressed {
        match gzip_decompress(&body) {
            Ok(plain) => {
                proof {
                    assert forall|p: Seq<u8>| frame_sat(buf@, p) implies plain@ == p && 4 + len
                        == frame_enc(p).len() by {
                        frame_header_facts(buf@, p, header);
                        assert(body@ =~= deflate_of(p));
                    }
                }
                Ok((plain, 4 + len))
            },
            Err(e) => {
                proof {
                    assert forall|p: Seq<u8>| frame_sat(buf@, p) implies false by {
                        frame_header_facts(buf@, p, header);
                        assert(body@ =~= deflate_of(p));
                    }
                }
                Err(e)
            },
        }
    } else {
        proof {
            assert forall|p: Seq<u8>| frame_sat(buf@, p) implies body@ == p && 4 + len
                == frame_enc(p).len() by {
                frame_header_facts(buf@, p, header);
                assert(body@ =~= p);
            }
        }
        Ok((body, 4 + len))
    }
}

/// What the frame header pins down for a well-formed frame at the buffer's
/// start: the header value and where the payload bytes sit.
proof fn frame_header_facts(buf: Seq<u8>, p: Seq<u8>, header: u32)
    requires
        frame_sat(buf, p),
        buf.subrange(0, 4) =~= u32_be(header),
    ensures
        p.len() <= 1436 ==> {
            &&& header == p.len()
            &&& buf.subrange(4, 4 + p.len() as int) =~= p
            &&& frame_enc(p).len() == 4 + p.len()
        },
        p.len() > 1436 ==> {
            &&& header == deflate_of(p).len() + 0x80000000
            &&& buf.subrange(4, 4 + deflate_of(p).len() as int) =~= deflate_of(p)
            &&& frame_enc(p).len() == 4 + deflate_of(p).len()
        },
{
    if p.len() <= 1436 {
        lemma_chunk_split(buf, 0, u32_be(p.len() as u32), p);
        crate::wire::lemma_u32_be_digits(header);
        crate::wire::lemma_u32_be_digits(p.len() as u32);
    } else {
        lemma_chunk_split(buf, 0, u32_be((deflate_of(p).len() + 0x80000000) as u32), deflate_of(p));
        crate::wire::lemma_u32_be_digits(header);
        crate::wire::lemma_u32_be_digits((deflate_of(p).len() + 0x80000000) as u32);
    }
}

/// Removes the first `n` bytes of the buffer.
fn drain_front(buf: &mut Vec<u8>, n: usize)
    requires
        n <= old(buf)@.len(),
    ensures
        final(buf)@ =~= old(buf)@.skip(n as int),
{
    let mut rest: Vec<u8> = Vec::new();
    let mut i: usize = n;
    let total = buf.len();
    while i < total
        invariant
            n <= i <= total,
            total == buf@.len(),
            buf@ == old(buf)@,
            rest@ =~= buf@.subrange(n as int, i as int),
        decreases total - i,
    {
        rest.push(buf[i]);
        proof {
            assert(buf@.subrange(n as int, i as int) + seq![buf@[i as int]] =~= buf@.subrange(
                n as int,
                i + 1,
            ));
        }
        i = i + 1;
    }
    *buf = rest;
}

impl CommandRequest {
    /// Writes this request as one frame, compressing a payload over the
    /// threshold, or rejects it over the size ceiling leaving the buffer
    /// untouched.
    pub fn encode_frame(&self, buf: &mut Vec<u8>) -> (r: Result<(), KvError>)
        ensures
            r matches Ok(u) ==> req_fits(self@) && frame_ok(req_enc(self@)) && final(buf)@
                =~= old(buf)@ + frame_enc(req_enc(self@)),
            r is Err ==> final(buf)@ == old(buf)@ && !frame_ok(req_enc(self@)),
            r is Ok <==> frame_ok(req_enc(self@)),
    {
        let cl = req_capped_len(self);
        if cl >= 0x80000000 {
            return Err(KvError::FrameError);
        }
        let mut payload: Vec<u8> = Vec::new();
        encode_request_body(self, &mut payload);
        seal_frame(&payload, buf)
    }

    /// Reads one frame from the front of the buffer and decodes the request
    /// in it; a well-formed frame is consumed, and its message is returned
    /// exactly as it was encoded.
    #[verifier::rlimit(100)]
    #[verifier::spinoff_prover]
    pub fn decode_frame(buf: &mut Vec<u8>) -> (r: Result<CommandRequest, KvError>)
        ensures
            forall|cv: Option<ReqV>|
                req_fits(cv) && frame_sat(old(buf)@, req_enc(cv)) ==> (r matches Ok(c) && c@ == cv
                    && final(buf)@ == old(buf)@.skip(frame_enc(req_enc(cv)).len() as int)),
            r is Err ==> final(buf)@ == old(buf)@,
    {
        let (payload, consumed) = match open_frame(buf) {
            Ok(q) => q,
            Err(e) => {
                return Err(e);
            },
        };
        let (c, used) = match decode_request_at(payload.as_slice(), 0) {
            Ok(q) => q,
            Err(e) => {
                proof {
                    assert forall|cv: Option<ReqV>|
                        req_fits(cv) && frame_sat(old(buf)@, req_enc(cv)) implies false by {
                        assert(payload@.subrange(0, req_enc(cv).len() as int) =~= req_enc(cv));
                    }
                }
                return Err(e);
            },
        };
        if used != payload.len() {
            proof {
                assert forall|cv: Option<ReqV>|
                    req_fits(cv) && frame_sat(old(buf)@, req_enc(cv)) implies false by {
                    assert(payload@.subrange(0, req_enc(cv).len() as int) =~= req_enc(cv));
                }
            }
            return Err(KvError::FrameError);
        }
        drain_front(buf, consumed);
        proof {
            assert forall|cv: Option<ReqV>|
                req_fits(cv) && frame_sat(old(buf)@, req_enc(cv)) implies c@ == cv && buf@
                == old(buf)@.skip(frame_enc(req_enc(cv)).len() as int) by {
                assert(payload@.subrange(0, req_enc(cv).len() as int) =~= req_enc(cv));
            }
        }
        Ok(c)
    }
}

impl CommandResponse {
    /// Writes this response as one frame, compressing a payload over the
    /// threshold, or rejects it over the size ceiling leaving the buffer
    /// untouched.
    pub fn encode_frame(&self, buf: &mut Vec<u8>) -> (r: Result<(), KvError>)
        ensures
            r matches Ok(u) ==> resp_fits(self@) && frame_ok(resp_enc(self@)) && final(buf)@
                =~= old(buf)@ + frame_enc(resp_enc(self@)),
            r is Err ==> final(buf)@ == old(buf)@ && !frame_ok(resp_enc(self@)),
            r is Ok <==> frame_ok(resp_enc(self@)),
    {
        let cl = resp_capped_len(self);
        if cl >= 0x80000000 {
            return Err(KvError::FrameError);
        }
        let mut payload: Vec<u8> = Vec::new();
        encode_response_body(self, &mut payload);
        seal_frame(&payload, buf)
    }

    /// Reads one frame from the front of the buffer and decodes the response
    /// in it; a well-formed frame is consumed, and its message is returned
    /// exactly as it was encoded.
    #[verifier::rlimit(100)]
    #[verifier::spinoff_prover]
    pub fn decode_frame(buf: &mut Vec<u8>) -> (r: Result<CommandResponse, KvError>)
        ensures
            forall|xv: RespV|
                resp_fits(xv) && frame_sat(old(buf)@, resp_enc(xv)) ==> (r matches Ok(c) && c@
                    == xv && final(buf)@ == old(buf)@.skip(frame_enc(resp_enc(xv)).len() as int)),
            r is Err ==> final(buf)@ == old(buf)@,
    {
        let (payload, consumed) = match open_frame(buf) {
            Ok(q) => q,
            Err(e) => {
                return Err(e);
            },
        };
        proof {
            assert forall|xv: RespV|
                resp_fits(xv) && frame_sat(old(buf)@, resp_enc(xv)) implies crate::wire::resp_sat(
                payload@,
                0,
                xv,
            ) && consumed == frame_enc(resp_enc(xv)).len() by {
                assert(payload@.subrange(0, resp_enc(xv).len() as int) =~= resp_enc(xv));
            }
        }
        let (c, used) = match decode_response_at(payload.as_slice(), 0) {
            Ok(q) => q,
            Err(e) => {
                return Err(e);
            },
        };
        if used != payload.len() {
            return Err(KvError::FrameError);
        }
        drain_front(buf, consumed);
        Ok(c)
    }
}

} // verus!
