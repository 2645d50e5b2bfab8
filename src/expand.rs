use vstd::prelude::*;

use crate::shape::{lemma_product_split, product, stride_at};

verus! {

/// Position in `original` that output dimension `d` of `target` lines up
/// with when both are right-aligned; negative where `original` has no such dimension.
pub open spec fn aligned_dim(original: Seq<usize>, target: Seq<usize>, d: int) -> int {
    d - (target.len() - original.len())
}

/// How far the source offset moves for one step along output dimension `d`:
/// nothing along a dimension that the original lacks or has with size 1,
/// else the original's stride for it.
pub open spec fn source_step(original: Seq<usize>, target: Seq<usize>, d: int) -> nat {
    let e = aligned_dim(original, target, d);
    if e < 0 || original[e] == 1 {
        0
    } else {
        stride_at(original, e)
    }
}

/// The shape `original` can be stretched to `target`: it has no more
/// dimensions, and each of its dimensions, right-aligned, equals the target's or is 1.
pub open spec fn expandable_to(original: Seq<usize>, target: Seq<usize>) -> bool {
    &&& original.len() <= target.len()
    &&& forall|e: int|
        0 <= e < original.len() ==> #[trigger] original[e] == 1 || original[e] == target[e
            + target.len() - original.len()]
}

/// Size of output dimension `d`, or 0 past the last dimension.
pub open spec fn target_dim(target: Seq<usize>, d: nat) -> nat {
    if d < target.len() {
        target[d as int] as nat
    } else {
        0
    }
}

/// The elements produced, in row-major order, for the first `count` positions
/// along output dimension `d`, where `offset` is the source offset that the
/// output coordinates before `d` select. Past the last dimension, the single
/// element at `offset`.
pub open spec fn expand_block<T>(
    data: Seq<T>,
    original: Seq<usize>,
    target: Seq<usize>,
    offset: int,
    d: nat,
    count: nat,
) -> Seq<T>
    decreases target.len() - d, count,
{
    if d >= target.len() {
        seq![data[offset]]
    } else if count == 0 {
        Seq::empty()
    } else {
        expand_block(data, original, target, offset, d, (count - 1) as nat) + expand_block(
            data,
            original,
            target,
            offset + (count - 1) * source_step(original, target, d as int),
            d + 1,
            target_dim(target, d + 1),
        )
    }
}

/// The row-major element sequence of `data`, laid out with shape `original`,
/// stretched to shape `target`: each output element is read at the dot product
/// of its right-aligned coordinates with the original's strides, with
/// coordinates along size-1 dimensions taken as 0.
pub open spec fn expanded<T>(data: Seq<T>, original: Seq<usize>, target: Seq<usize>) -> Seq<T> {
    expand_block(data, original, target, 0, 0, target_dim(target, 0))
}

/// Index of the first original dimension still ahead at output dimension `d`.
pub open spec fn remaining_from(original: Seq<usize>, target: Seq<usize>, d: int) -> int {
    let e = aligned_dim(original, target, d);
    if e < 0 {
        0
    } else {
        e
    }
}

/// Elements of the original that the remaining dimensions span from output dimension `d` on.
pub open spec fn remaining_span(original: Seq<usize>, target: Seq<usize>, d: int) -> nat {
    product(original.subrange(remaining_from(original, target, d), original.len() as int))
}

proof fn lemma_child_room(p: nat, o: nat, c: nat, off: int, len: int)
    requires
        c < o,
        off + o * p <= len,
    ensures
        off + c * p + p <= len,
        c * p <= o * p,
{
    assert((c + 1) * p <= o * p) by (nonlinear_arith)
        requires
            c < o,
    ;
    assert((c + 1) * p == c * p + p) by (nonlinear_arith);
}

fn expand_into<T: Copy>(
    data: &Vec<T>,
    original_shape: &Vec<usize>,
    target: &Vec<usize>,
    original_strides: &Vec<usize>,
    offset: usize,
    d: usize,
    out: &mut Vec<T>,
)
    requires
        expandable_to(original_shape@, target@),
        d <= target@.len(),
        original_strides@.len() == original_shape@.len(),
        forall|i: int|
            0 <= i < original_shape@.len() ==> original_strides@[i] as nat == stride_at(
                original_shape@,
                i,
            ),
        offset + remaining_span(original_shape@, target@, d as int) <= data@.len(),
    ensures
        final(out)@ == old(out)@ + expand_block(
            data@,
            original_shape@,
            target@,
            offset as int,
            d as nat,
            target_dim(target@, d as nat),
        ),
    decreases target@.len() - d,
{
    let n = target.len();
    let m = original_shape.len();
    if d == n {
        assert(original_shape@.subrange(m as int, m as int) =~= Seq::<usize>::empty());
        out.push(data[offset]);
        return ;
    }
    let pad = n - m;
    let step: usize = if d < pad {
        0
    } else if original_shape[d - pad] == 1 {
        0
    } else {
        original_strides[d - pad]
    };
    let ghost e = aligned_dim(original_shape@, target@, d as int);
    proof {
        if e >= 0 {
            lemma_product_split(original_shape@, e);
        }
    }
    let count = target[d];
    let data_len = data.len();
    let ghost start = old(out)@;
    let mut c: usize = 0;
    while c < count
        invariant
            c <= count,
            count == target@[d as int],
            data_len == data@.len(),
            n == target@.len(),
            m == original_shape@.len(),
            d < n,
            pad == n - m,
            e == aligned_dim(original_shape@, target@, d as int),
            step == source_step(original_shape@, target@, d as int),
            e >= 0 ==> product(original_shape@.subrange(e, m as int)) == (original_shape@[e] as nat)
                * product(original_shape@.subrange(e + 1, m as int)),
            expandable_to(original_shape@, target@),
            original_strides@.len() == original_shape@.len(),
            forall|i: int|
                0 <= i < original_shape@.len() ==> original_strides@[i] as nat == stride_at(
                    original_shape@,
                    i,
                ),
            offset + remaining_span(original_shape@, target@, d as int) <= data@.len(),
            out@ == start + expand_block(
                data@,
                original_shape@,
                target@,
                offset as int,
                d as nat,
                c as nat,
            ),
        decreases count - c,
    {
        proof {
            if e >= 0 && original_shape@[e] != 1 {
                assert(original_shape@[e] == target@[d as int]);
                assert(remaining_from(original_shape@, target@, d as int) == e);
                assert(step == stride_at(original_shape@, e));
                lemma_child_room(
                    stride_at(original_shape@, e),
                    original_shape@[e] as nat,
                    c as nat,
                    offset as int,
                    data@.len() as int,
                );
                assert(offset + c * step + step <= data@.len());
            } else if e >= 0 {
                assert(c * step == 0);
                assert(remaining_from(original_shape@, target@, d as int + 1) == e + 1);
            } else {
                assert(step == 0);
                assert(c * step == 0) by (nonlinear_arith)
                    requires
                        step == 0,
                ;
                assert(remaining_from(original_shape@, target@, d as int + 1) == 0);
            }
        }
        assert(offset + c * step <= data@.len());
        let child = offset + c * step;
        expand_into(data, original_shape, target, original_strides, child, d + 1, out);
        assert(out@ == start + expand_block(
            data@,
            original_shape@,
            target@,
            offset as int,
            d as nat,
            (c + 1) as nat,
        ));
        c = c + 1;
    }
}

/// Materialises `data`, laid out with shape `original_shape` and strides
/// `original_strides`, stretched to `broadcast_shape`, in row-major order over
/// the broadcast shape.
pub fn expand_data<T: Copy>(
    data: &Vec<T>,
    original_shape: &Vec<usize>,
    broadcast_shape: &Vec<usize>,
    original_strides: &Vec<usize>,
) -> (r: Vec<T>)
    requires
        data@.len() == product(original_shape@),
        expandable_to(original_shape@, broadcast_shape@),
        original_strides@.len() == original_shape@.len(),
        forall|i: int|
            0 <= i < original_shape@.len() ==> original_strides@[i] as nat == stride_at(
                original_shape@,
                i,
            ),
    ensures
        r@ == expanded(data@, original_shape@, broadcast_shape@),
{
    let mut out: Vec<T> = Vec::new();
    assert(original_shape@.subrange(0, original_shape@.len() as int) =~= original_shape@);
    expand_into(data, original_shape, broadcast_shape, original_strides, 0, 0, &mut out);
    assert(out@ =~= expanded(data@, original_shape@, broadcast_shape@));
    out
}

} // verus!
