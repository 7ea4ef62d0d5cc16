use vstd::prelude::*;

verus! {

/// Largest number of bytes a sanitized frame keeps.
pub const FRAME_CAP: usize = 9;

/// The bytes of `frame` that are not filler, in order.
pub open spec fn without_filler(frame: Seq<u8>) -> Seq<u8> {
    frame.filter(|b: u8| b != 0u8)
}

/// The sanitized form of a frame: filler removed, then capped at `FRAME_CAP` bytes.
pub open spec fn sanitized(frame: Seq<u8>) -> Seq<u8> {
    let kept = without_filler(frame);
    if kept.len() <= FRAME_CAP {
        kept
    } else {
        kept.take(FRAME_CAP as int)
    }
}

/// Removes every zero byte of `frame`, keeping the order of the others.
pub fn strip_filler(frame: &Vec<u8>) -> (r: Vec<u8>)
    ensures
        r@ == without_filler(frame@),
{
    let mut r: Vec<u8> = Vec::new();
    let mut i: usize = 0;
    while i < frame.len()
        invariant
            i <= frame@.len(),
            r@ == without_filler(frame@.take(i as int)),
        decreases frame@.len() - i,
    {
        let b = frame[i];
        proof {
            reveal_with_fuel(Seq::filter, 1);
            assert(frame@.take(i as int + 1).drop_last() == frame@.take(i as int));
        }
        if b != 0 {
            r.push(b);
        }
        i = i + 1;
    }
    assert(frame@.take(frame@.len() as int) == frame@);
    r
}

/// Removes the filler bytes of `frame` and keeps at most `FRAME_CAP` of the rest.
pub fn sanitize(frame: &Vec<u8>) -> (r: Vec<u8>)
    ensures
        r@ == sanitized(frame@),
{
    let mut r = strip_filler(frame);
    if r.len() > FRAME_CAP {
        r.truncate(FRAME_CAP);
    }
    r
}


/// A sanitized frame holds no zero byte and no more bytes than either the frame's non-zero
/// bytes or `FRAME_CAP`.
pub proof fn lemma_sanitized_bounds(frame: Seq<u8>)
    ensures
        sanitized(frame).len() <= without_filler(frame).len(),
        sanitized(frame).len() <= FRAME_CAP,
        forall|i: int| 0 <= i < sanitized(frame).len() ==> #[trigger] sanitized(frame)[i] != 0,
{
    broadcast use vstd::seq_lib::group_filter_ensures;

    let kept = without_filler(frame);
    if kept.len() > FRAME_CAP {
        assert forall|i: int| 0 <= i < sanitized(frame).len() implies #[trigger] sanitized(
            frame,
        )[i] != 0 by {
            assert(sanitized(frame)[i] == kept[i]);
        }
    }
}

} // verus!
