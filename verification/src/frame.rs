//! Null-terminated byte framing on a peer stream.
//!
//! A frame is a variable-length byte sequence followed by a single zero byte.
//! The reader accumulates bytes until the terminator; a frame whose body would
//! exceed [`MAX_FRAME_LEN`] is rejected, and data that ends before a
//! terminator is rejected as truncated.

use vstd::prelude::*;

verus! {

/// Largest frame body the reader accepts: 2 MiB.
pub const MAX_FRAME_LEN: usize = 2097152;

/// The byte that terminates every frame on a peer stream.
pub const FRAME_TERMINATOR: u8 = 0;

/// Errors of the frame codec.
#[derive(Debug)]
pub enum FrameError {
    /// More than `MAX_FRAME_LEN` bytes arrived before the terminator.
    TooLarge,
    /// The data ended before any terminator was seen.
    Unterminated,
}

/// The encoded form of a frame body: the body followed by the terminator.
pub open spec fn spec_frame(body: Seq<u8>) -> Seq<u8> {
    body + seq![FRAME_TERMINATOR]
}

/// A body the codec can carry: free of terminator bytes and within the cap.
pub open spec fn frameable(body: Seq<u8>) -> bool {
    &&& body.len() <= MAX_FRAME_LEN
    &&& forall|i: int| 0 <= i < body.len() ==> body[i] != FRAME_TERMINATOR
}

/// Index of the first terminator byte, or `data.len()` if there is none.
pub open spec fn first_terminator(data: Seq<u8>) -> int
    decreases data.len(),
{
    if data.len() == 0 {
        0
    } else if data[0] == FRAME_TERMINATOR {
        0
    } else {
        1 + first_terminator(data.drop_first())
    }
}

/// What reading one frame from a closed byte sequence yields.
pub open spec fn spec_read_frame(data: Seq<u8>) -> Result<Seq<u8>, FrameError> {
    let p = first_terminator(data);
    if p < data.len() {
        if p <= MAX_FRAME_LEN {
            Ok(data.subrange(0, p))
        } else {
            Err(FrameError::TooLarge)
        }
    } else if data.len() > MAX_FRAME_LEN {
        Err(FrameError::TooLarge)
    } else {
        Err(FrameError::Unterminated)
    }
}

proof fn lemma_first_terminator_bounds(data: Seq<u8>)
    ensures
        0 <= first_terminator(data) <= data.len(),
        first_terminator(data) < data.len() ==> data[first_terminator(data)] == FRAME_TERMINATOR,
        forall|j: int| 0 <= j < first_terminator(data) ==> data[j] != FRAME_TERMINATOR,
    decreases data.len(),
{
    if data.len() > 0 && data[0] != FRAME_TERMINATOR {
        lemma_first_terminator_bounds(data.drop_first());
        assert forall|j: int| 0 <= j < first_terminator(data) implies data[j] != FRAME_TERMINATOR by {
            if j > 0 {
                assert(data.drop_first()[j - 1] != FRAME_TERMINATOR);
            }
        }
    }
}

proof fn lemma_first_terminator_is(data: Seq<u8>, i: int)
    requires
        0 <= i <= data.len(),
        forall|j: int| 0 <= j < i ==> data[j] != FRAME_TERMINATOR,
        i == data.len() || data[i] == FRAME_TERMINATOR,
    ensures
        first_terminator(data) == i,
    decreases data.len(),
{
    if data.len() > 0 && data[0] != FRAME_TERMINATOR {
        assert forall|j: int| 0 <= j < i - 1 implies data.drop_first()[j] != FRAME_TERMINATOR by {
            assert(data[j + 1] != FRAME_TERMINATOR);
        }
        lemma_first_terminator_is(data.drop_first(), i - 1);
    }
}

/// Append the terminator after the body, yielding the frame's wire bytes.
pub fn write_frame(body: &Vec<u8>) -> (r: Vec<u8>)
    ensures
        r@ == spec_frame(body@),
{
    let mut r: Vec<u8> = Vec::new();
    let mut i: usize = 0;
    while i < body.len()
        invariant
            i <= body.len(),
            r@ == body@.subrange(0, i as int),
        decreases body.len() - i,
    {
        r.push(body[i]);
        i = i + 1;
        proof {
            assert(r@ =~= body@.subrange(0, i as int));
        }
    }
    proof {
        assert(r@ =~= body@);
    }
    r.push(FRAME_TERMINATOR);
    proof {
        assert(r@ =~= spec_frame(body@));
    }
    r
}

/// Extract one frame body from a closed byte sequence.
pub fn read_frame(data: &Vec<u8>) -> (r: Result<Vec<u8>, FrameError>)
    ensures
        match r {
            Ok(body) => spec_read_frame(data@) == Ok::<Seq<u8>, FrameError>(body@),
            Err(e) => spec_read_frame(data@) == Err::<Seq<u8>, FrameError>(e),
        },
{
    let mut out: Vec<u8> = Vec::new();
    let mut i: usize = 0;
    loop
        invariant
            i <= data.len(),
            i <= MAX_FRAME_LEN + 1,
            out@ == data@.subrange(0, i as int),
            forall|j: int| 0 <= j < i ==> data@[j] != FRAME_TERMINATOR,
        decreases data.len() - i,
    {
        if i > MAX_FRAME_LEN {
            proof {
                lemma_first_terminator_bounds(data@);
                if first_terminator(data@) < i {
                    assert(data@[first_terminator(data@)] == FRAME_TERMINATOR);
                }
            }
            return Err(FrameError::TooLarge);
        }
        if i == data.len() {
            proof {
                lemma_first_terminator_is(data@, i as int);
            }
            return Err(FrameError::Unterminated);
        }
        let b = data[i];
        if b == FRAME_TERMINATOR {
            proof {
                lemma_first_terminator_is(data@, i as int);
            }
            return Ok(out);
        }
        out.push(b);
        i = i + 1;
        proof {
            assert(out@ =~= data@.subrange(0, i as int));
        }
    }
}

/// Law: a frame written for a carryable body reads back as exactly that body,
/// and a body over the cap is rejected by the reader.
pub proof fn lemma_frame_round_trip(body: Seq<u8>)
    ensures
        frameable(body) ==> spec_read_frame(spec_frame(body)) == Ok::<Seq<u8>, FrameError>(body),
        body.len() > MAX_FRAME_LEN && (forall|i: int|
            0 <= i < body.len() ==> body[i] != FRAME_TERMINATOR) ==> spec_read_frame(
            spec_frame(body),
        ) == Err::<Seq<u8>, FrameError>(FrameError::TooLarge),
{
    let data = spec_frame(body);
    if forall|i: int| 0 <= i < body.len() ==> body[i] != FRAME_TERMINATOR {
        assert forall|j: int| 0 <= j < body.len() implies data[j] != FRAME_TERMINATOR by {
            assert(data[j] == body[j]);
        }
        assert(data[body.len() as int] == FRAME_TERMINATOR);
        lemma_first_terminator_is(data, body.len() as int);
        if body.len() <= MAX_FRAME_LEN {
            assert(data.subrange(0, body.len() as int) =~= body);
        }
    }
}

} // verus!
