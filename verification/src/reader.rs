//! The chunked character decoder: pulls Unicode scalar values one at a time
//! from a byte source, reading the source in 4-byte windows.

use crate::decode::chunk_span;
use crate::decode::decode_window;
use crate::decode::decoded_prefix;
use crate::decode::incomplete_first_scalar;
use crate::decode::lemma_decoded_len;
use crate::decode::lemma_decoded_prefix_of_valid;
use crate::decode::lemma_window_decode;
use crate::decode::valid_prefix_len;
use crate::decode::window_of;
use crate::decode::window_truncated;
use crate::source::ByteSource;
use crate::source::MemorySource;
use vstd::prelude::*;
use vstd::utf8::*;

verus! {

/// Why a pull failed to decode a scalar value.
#[derive(Clone, Copy, Debug, PartialEq, Eq, Structural)]
pub enum DecodeErrorKind {
    /// The byte at the reported position cannot begin any valid UTF-8
    /// scalar encoding, no matter what follows it.
    InvalidByte,
    /// The input ends in the middle of what could have been a valid
    /// multi-byte scalar encoding.
    TruncatedScalar,
}

/// A decode failure, reported with the offset of the offending byte.
#[derive(Clone, Copy, Debug, PartialEq, Eq, Structural)]
pub struct DecodeError {
    /// Byte offset, from the start of the source, of the first byte of the
    /// sequence that failed to decode.
    pub position: usize,
    /// The nature of the failure.
    pub kind: DecodeErrorKind,
}

/// The outcome of one pull on the decoder.
#[derive(Clone, Copy, Debug, PartialEq, Eq, Structural)]
pub enum Pull {
    /// The next scalar value of the input.
    Scalar(char),
    /// The input is exhausted and every decoded scalar has been delivered.
    End,
    /// The input cannot be decoded any further.
    Fail(DecodeError),
}

/// A streaming character decoder over a byte source.
///
/// Each pull either serves an already-decoded scalar from the character
/// queue or reads one 4-byte window from the source, queues the scalars of
/// its maximal valid prefix, and rewinds the source over any bytes the
/// prefix did not cover, so that a split multi-byte encoding is re-read
/// whole in the next window.
pub struct JsonReader<T: ByteSource> {
    source: T,
    character_buffer: Vec<char>,
    emitted: Ghost<Seq<char>>,
    failed: Ghost<bool>,
}

impl<T: ByteSource> JsonReader<T> {
    /// The whole byte content of the underlying source.
    pub closed spec fn bytes(&self) -> Seq<u8> {
        self.source.bytes()
    }

    /// The source's cursor.
    pub closed spec fn pos(&self) -> int {
        self.source.pos()
    }

    /// The scalars decoded but not yet delivered, in delivery order.
    pub closed spec fn queued(&self) -> Seq<char> {
        self.character_buffer@
    }

    /// Every scalar delivered so far, in delivery order.
    pub closed spec fn produced(&self) -> Seq<char> {
        self.emitted@
    }

    /// Whether a decode failure has been reported; after one, the position
    /// is no longer meaningful for correct decoding.
    pub closed spec fn has_failed(&self) -> bool {
        self.failed@
    }

    /// The bytes not yet consumed from the source.
    pub open spec fn rest(&self) -> Seq<u8> {
        self.bytes().skip(self.pos())
    }

    /// The scalars still owed to the caller: the queue, then whatever the
    /// decodable part of the remaining bytes holds.
    pub open spec fn upcoming(&self) -> Seq<char> {
        self.queued() + decoded_prefix(self.rest())
    }

    /// Every pull that does not signal the end strictly shrinks this bound.
    pub open spec fn measure(&self) -> int {
        self.queued().len() + self.bytes().len() - self.pos()
    }

    /// Well-formedness: the source is sound, the queue is bounded by what
    /// one window can hold, and — as long as no failure was reported — the
    /// scalars delivered, queued and still decodable add up to exactly the
    /// decode of the whole input.
    pub closed spec fn wf(&self) -> bool {
        &&& self.source.wf()
        &&& self.queued().len() <= 4
        &&& (!self.has_failed() ==> self.produced() + self.upcoming() == decoded_prefix(
            self.bytes(),
        ))
    }

    /// Create a decoder over a byte source positioned at its start.
    pub fn new(source: T) -> (r: JsonReader<T>)
        requires
            source.wf(),
            source.pos() == 0,
        ensures
            r.wf(),
            r.bytes() == source.bytes(),
            r.pos() == 0,
            r.queued() == Seq::<char>::empty(),
            r.produced() == Seq::<char>::empty(),
            !r.has_failed(),
    {
        let r = JsonReader {
            source,
            character_buffer: Vec::new(),
            emitted: Ghost(Seq::empty()),
            failed: Ghost(false),
        };
        proof {
            assert(r.bytes().skip(0) =~= r.bytes());
            assert(r.produced() + r.upcoming() =~= decoded_prefix(r.bytes()));
        }
        r
    }

    /// Pull the next scalar value of the input, or report why there is none:
    /// the input is exhausted, or it cannot be decoded.
    pub fn next(&mut self) -> (r: Pull)
        requires
            old(self).wf(),
        ensures
            final(self).wf(),
            final(self).bytes() == old(self).bytes(),
            final(self).pos() >= old(self).pos(),
            // Serving from the queue costs no input.
            old(self).queued().len() > 0 ==> {
                &&& r == Pull::Scalar(old(self).queued()[0])
                &&& final(self).queued() == old(self).queued().skip(1)
                &&& final(self).pos() == old(self).pos()
                &&& final(self).produced() == old(self).produced().push(old(self).queued()[0])
                &&& final(self).has_failed() == old(self).has_failed()
            },
            // The end is signalled exactly when nothing is queued and no
            // byte remains, and it changes nothing: every later pull
            // signals the end again.
            r == Pull::End <==> (old(self).queued().len() == 0 && old(self).pos() == old(
                self,
            ).bytes().len()),
            r == Pull::End ==> {
                &&& final(self).queued() == old(self).queued()
                &&& final(self).pos() == old(self).pos()
                &&& final(self).produced() == old(self).produced()
                &&& final(self).has_failed() == old(self).has_failed()
            },
            // Refilling reads one window and decodes its maximal valid
            // prefix; the bytes after that prefix are returned to the
            // source, except on failure, where the decoder stops short.
            (old(self).queued().len() == 0 && old(self).pos() < old(self).bytes().len())
                ==> ({
                let w = window_of(old(self).rest());
                let k = valid_prefix_len(w);
                let cs = decoded_prefix(w);
                &&& (k == 0 ==> {
                    &&& (r matches Pull::Fail(e) && e.position as int == old(self).pos() && (
                    e.kind == DecodeErrorKind::TruncatedScalar <==> incomplete_first_scalar(
                        w,
                    )))
                    &&& final(self).queued().len() == 0
                    &&& final(self).pos() == old(self).pos() + w.len()
                    &&& final(self).produced() == old(self).produced()
                    &&& final(self).has_failed()
                })
                &&& (k >= 1 ==> {
                    &&& cs.len() >= 1
                    &&& r == Pull::Scalar(cs[0])
                    &&& final(self).queued() == cs.skip(1)
                    &&& final(self).pos() == old(self).pos() + k
                    &&& final(self).produced() == old(self).produced().push(cs[0])
                    &&& final(self).has_failed() == old(self).has_failed()
                })
            }),
            // Chunking is invisible: while no failure has been reported,
            // each pull yields exactly the next scalar of the one-step
            // decode of what remains.
            (!old(self).has_failed() && old(self).upcoming().len() > 0) ==> {
                &&& r == Pull::Scalar(old(self).upcoming()[0])
                &&& final(self).upcoming() == old(self).upcoming().skip(1)
                &&& !final(self).has_failed()
            },
            // A valid remainder never fails and stays valid.
            valid_utf8(old(self).rest()) ==> !(r matches Pull::Fail(_)),
            valid_utf8(old(self).rest()) ==> valid_utf8(final(self).rest()),
            // Round trip: when the end is reached without failure, the
            // scalars delivered are exactly the decode of the whole input.
            (r == Pull::End && !old(self).has_failed()) ==> final(self).produced()
                == decoded_prefix(final(self).bytes()),
            (r == Pull::End && !old(self).has_failed() && valid_utf8(old(self).bytes()))
                ==> final(self).produced() == decode_utf8(old(self).bytes()),
            // Progress: only the end signal leaves the decoder in place.
            r != Pull::End ==> final(self).measure() < old(self).measure(),
            r == Pull::End ==> final(self).measure() == old(self).measure(),
    {
        proof {
            self.source.wf_in_bounds();
        }
        if self.character_buffer.len() > 0 {
            let c = self.character_buffer.remove(0);
            proof {
                self.emitted@ = self.emitted@.push(c);
                assert(old(self).character_buffer@.remove(0) =~= old(self).queued().skip(1));
                assert(old(self).produced().push(c) + (self.queued() + decoded_prefix(
                    self.rest(),
                )) =~= old(self).produced() + (old(self).queued() + decoded_prefix(
                    old(self).rest(),
                )));
                assert(old(self).upcoming()[0] == c);
                assert(self.upcoming() =~= old(self).upcoming().skip(1));
            }
            return Pull::Scalar(c);
        }
        let ghost orest = old(self).rest();
        proof {
            lemma_window_decode(orest, chunk_span(orest));
            if valid_utf8(old(self).bytes()) {
                lemma_decoded_prefix_of_valid(old(self).bytes());
            }
        }
        let start = self.source.offset();
        let chunk = self.source.read_chunk();
        proof {
            assert(chunk@ =~= window_of(orest));
        }
        if chunk.len() == 0 {
            proof {
                assert(self.rest() =~= orest);
                assert(old(self).produced() + (old(self).queued() + decoded_prefix(orest))
                    =~= old(self).produced());
            }
            return Pull::End;
        }
        let (chars, consumed) = decode_window(&chunk);
        proof {
            lemma_decoded_len(chunk@);
        }
        if consumed == 0 {
            let truncated = window_truncated(&chunk);
            let kind = if truncated {
                DecodeErrorKind::TruncatedScalar
            } else {
                DecodeErrorKind::InvalidByte
            };
            proof {
                self.failed@ = true;
                assert(self.rest() =~= orest.skip(chunk@.len() as int));
            }
            return Pull::Fail(DecodeError { position: start, kind });
        }
        let unread = chunk.len() - consumed;
        if unread > 0 {
            self.source.seek_back(unread);
        }
        self.character_buffer = chars;
        let c = self.character_buffer.remove(0);
        proof {
            self.emitted@ = self.emitted@.push(c);
            let cs = decoded_prefix(chunk@);
            let k = valid_prefix_len(chunk@);
            assert(self.rest() =~= orest.skip(k));
            assert(cs.remove(0) =~= cs.skip(1));
            assert(old(self).produced().push(c) + (cs.skip(1) + decoded_prefix(orest.skip(k)))
                =~= old(self).produced() + (cs + decoded_prefix(orest.skip(k))));
            assert(old(self).queued() + decoded_prefix(orest) =~= decoded_prefix(orest));
            assert(self.upcoming() =~= old(self).upcoming().skip(1));
        }
        Pull::Scalar(c)
    }
}

impl JsonReader<MemorySource> {
    /// Create a decoder that reads from a byte slice held in memory.
    pub fn from_bytes(bytes: &[u8]) -> (r: JsonReader<MemorySource>)
        ensures
            r.wf(),
            r.bytes() == bytes@,
            r.pos() == 0,
            r.queued() == Seq::<char>::empty(),
            r.produced() == Seq::<char>::empty(),
            !r.has_failed(),
    {
        JsonReader::new(MemorySource::from_slice(bytes))
    }
}

} // verus!
