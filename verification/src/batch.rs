//! Batches of points: each point is the image of the one before it, under
//! the map that one fresh draw selects.

use vstd::prelude::*;
use crate::binary64::ZERO;
use crate::step::{step, step_spec, Point};

verus! {

/// Why a batch was not written in full.
#[derive(Clone, Copy, PartialEq, Eq, Debug, Structural)]
pub enum BatchError {
    /// A buffer is shorter than the number of points asked for. Nothing
    /// was drawn and nothing was written.
    InvalidArgument,
    /// The source gave no draw for the point at index `written`. The
    /// points before it are written, and nothing after them.
    SourceFailed { written: usize },
}

/// The point from which the point at index `i` is made: the starting
/// point, or the point written just before.
pub open spec fn previous(start: Point, xs: Seq<u64>, ys: Seq<u64>, i: int) -> Point {
    if i == 0 {
        start
    } else {
        Point { x: xs[i - 1], y: ys[i - 1] }
    }
}

/// The buffers begin with the chain that the draws make from the starting
/// point: one point for each draw, in the order of the draws, each the
/// image of the one before it under the map that its draw selects.
pub open spec fn chained(start: Point, draws: Seq<u64>, xs: Seq<u64>, ys: Seq<u64>) -> bool {
    &&& draws.len() <= xs.len()
    &&& draws.len() <= ys.len()
    &&& forall|i: int|
        0 <= i < draws.len() ==> (Point { x: xs[i], y: ys[i] }) == step_spec(
            previous(start, xs, ys, i),
            #[trigger] draws[i],
        )
}

/// Each of the draws is a value that the source may give.
pub open spec fn drawn<D: Fn() -> Option<u64>>(draw: D, draws: Seq<u64>) -> bool {
    forall|i: int| 0 <= i < draws.len() ==> call_ensures(draw, (), Some(#[trigger] draws[i]))
}

/// How many points a batch of `size` has written when it ends so.
pub open spec fn points_written(outcome: Result<(), BatchError>, size: usize) -> nat {
    match outcome {
        Ok(_) => size as nat,
        Err(BatchError::InvalidArgument) => 0,
        Err(BatchError::SourceFailed { written }) => written as nat,
    }
}

/// A buffer for `size` coordinates, each of them zero.
pub fn create_array(size: usize) -> (buffer: Vec<u64>)
    ensures
        buffer@ == Seq::new(size as nat, |i: int| ZERO),
{
    let mut buffer: Vec<u64> = Vec::with_capacity(size);
    let mut filled: usize = 0;
    while filled < size
        invariant
            filled <= size,
            buffer@ == Seq::new(filled as nat, |i: int| ZERO),
        decreases size - filled,
    {
        buffer.push(ZERO);
        filled += 1;
    }
    buffer
}

/// Writes the next `size` points of the fern that follow the point
/// `(xpt_prev, ypt_prev)` into the first `size` places of the two buffers.
///
/// `draw` is asked once for each point, just before the point is made. It
/// gives a number of the unit interval, or nothing if the source has
/// failed: the batch then ends with the points made so far. It is not
/// asked at all when `size` is zero or a buffer is too short, and need not
/// even be fit to be asked then.
pub fn points<D: Fn() -> Option<u64>>(
    xpt_prev: u64,
    ypt_prev: u64,
    xpts: &mut [u64],
    ypts: &mut [u64],
    size: usize,
    draw: D,
) -> (outcome: Result<(), BatchError>)
    requires
        0 < size <= old(xpts)@.len() && size <= old(ypts)@.len() ==> call_requires(draw, ()),
    ensures
        outcome == Err::<(), BatchError>(BatchError::InvalidArgument) <==> old(xpts)@.len() < size
            || old(ypts)@.len() < size,
        outcome matches Err(BatchError::SourceFailed { written }) ==> written < size
            && call_ensures(draw, (), None::<u64>),
        final(xpts)@.len() == old(xpts)@.len(),
        final(ypts)@.len() == old(ypts)@.len(),
        exists|draws: Seq<u64>|
            #![trigger drawn(draw, draws)]
            draws.len() == points_written(outcome, size) && drawn(draw, draws) && chained(
                Point { x: xpt_prev, y: ypt_prev },
                draws,
                final(xpts)@,
                final(ypts)@,
            ),
        forall|i: int|
            points_written(outcome, size) <= i < old(xpts)@.len() ==> final(xpts)@[i] == old(xpts)@[i],
        forall|i: int|
            points_written(outcome, size) <= i < old(ypts)@.len() ==> final(ypts)@[i] == old(ypts)@[i],
{
    let start: Point = Point { x: xpt_prev, y: ypt_prev };
    let ghost mut draws: Seq<u64> = Seq::empty();
    if xpts.len() < size || ypts.len() < size {
        proof {
            assert(drawn(draw, draws));
            assert(chained(start, draws, xpts@, ypts@));
        }
        return Err(BatchError::InvalidArgument);
    }
    let mut current: Point = start;
    let mut made: usize = 0;
    while made < size
        invariant
            start == (Point { x: xpt_prev, y: ypt_prev }),
            made <= size <= xpts@.len(),
            size <= ypts@.len(),
            xpts@.len() == old(xpts)@.len(),
            ypts@.len() == old(ypts)@.len(),
            0 < size ==> call_requires(draw, ()),
            draws.len() == made,
            drawn(draw, draws),
            chained(start, draws, xpts@, ypts@),
            current == previous(start, xpts@, ypts@, made as int),
            forall|i: int| made <= i < xpts@.len() ==> xpts@[i] == old(xpts)@[i],
            forall|i: int| made <= i < ypts@.len() ==> ypts@[i] == old(ypts)@[i],
        decreases size - made,
    {
        match draw() {
            None => {
                return Err(BatchError::SourceFailed { written: made });
            },
            Some(number) => {
                let next: Point = step(current, number);
                let ghost xs_before: Seq<u64> = xpts@;
                let ghost ys_before: Seq<u64> = ypts@;
                xpts[made] = next.x;
                ypts[made] = next.y;
                proof {
                    let longer: Seq<u64> = draws.push(number);
                    assert forall|i: int| 0 <= i < longer.len() implies (Point {
                        x: xpts@[i],
                        y: ypts@[i],
                    }) == step_spec(previous(start, xpts@, ypts@, i), #[trigger] longer[i]) by {
                        if i < made {
                            assert(longer[i] == draws[i]);
                            assert(previous(start, xpts@, ypts@, i) == previous(
                                start,
                                xs_before,
                                ys_before,
                                i,
                            ));
                        }
                    }
                    draws = longer;
                }
                current = next;
                made += 1;
            },
        }
    }
    Ok(())
}

/// The same starting point and the same draws give the same points: two
/// chains made from them agree in every place.
pub proof fn lemma_batch_is_determined(
    start: Point,
    draws: Seq<u64>,
    xs: Seq<u64>,
    ys: Seq<u64>,
    other_xs: Seq<u64>,
    other_ys: Seq<u64>,
)
    requires
        chained(start, draws, xs, ys),
        chained(start, draws, other_xs, other_ys),
    ensures
        xs.take(draws.len() as int) == other_xs.take(draws.len() as int),
        ys.take(draws.len() as int) == other_ys.take(draws.len() as int),
{
    lemma_chains_agree(start, draws, xs, ys, other_xs, other_ys, draws.len());
}

/// Two chains made from one starting point and the same draws agree in
/// their first `upto` places.
proof fn lemma_chains_agree(
    start: Point,
    draws: Seq<u64>,
    xs: Seq<u64>,
    ys: Seq<u64>,
    other_xs: Seq<u64>,
    other_ys: Seq<u64>,
    upto: nat,
)
    requires
        chained(start, draws, xs, ys),
        chained(start, draws, other_xs, other_ys),
        upto <= draws.len(),
    ensures
        forall|i: int| 0 <= i < upto ==> xs[i] == other_xs[i] && ys[i] == other_ys[i],
    decreases upto,
{
    if upto > 0 {
        let last: int = upto - 1;
        lemma_chains_agree(start, draws, xs, ys, other_xs, other_ys, last as nat);
        let draw: u64 = draws[last];
        assert(previous(start, xs, ys, last) == previous(start, other_xs, other_ys, last));
        assert((Point { x: xs[last], y: ys[last] }) == step_spec(
            previous(start, xs, ys, last),
            draw,
        ));
        assert((Point { x: other_xs[last], y: other_ys[last] }) == step_spec(
            previous(start, other_xs, other_ys, last),
            draw,
        ));
    }
}

/// A batch that starts from the last point of another goes on with its
/// chain: the points of the first followed by the points of the second are
/// the chain of the draws of the first followed by those of the second.
pub proof fn lemma_batches_join(
    start: Point,
    draws: Seq<u64>,
    xs: Seq<u64>,
    ys: Seq<u64>,
    more_draws: Seq<u64>,
    more_xs: Seq<u64>,
    more_ys: Seq<u64>,
)
    requires
        chained(start, draws, xs, ys),
        chained(previous(start, xs, ys, draws.len() as int), more_draws, more_xs, more_ys),
    ensures
        chained(
            start,
            draws + more_draws,
            xs.take(draws.len() as int) + more_xs,
            ys.take(draws.len() as int) + more_ys,
        ),
{
    let first: int = draws.len() as int;
    let all: Seq<u64> = draws + more_draws;
    let all_xs: Seq<u64> = xs.take(first) + more_xs;
    let all_ys: Seq<u64> = ys.take(first) + more_ys;
    assert forall|i: int| 0 <= i < all.len() implies (Point { x: all_xs[i], y: all_ys[i] })
        == step_spec(previous(start, all_xs, all_ys, i), #[trigger] all[i]) by {
        if i < first {
            assert(all[i] == draws[i]);
            assert(previous(start, all_xs, all_ys, i) == previous(start, xs, ys, i));
        } else {
            let j: int = i - first;
            assert(all[i] == more_draws[j]);
            assert(previous(start, all_xs, all_ys, i) == previous(
                previous(start, xs, ys, first),
                more_xs,
                more_ys,
                j,
            ));
        }
    }
}

} // verus!
