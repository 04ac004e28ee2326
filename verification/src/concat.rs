//! Concatenation of tensors along one axis.
use vstd::prelude::*;

use crate::dyntensor::{from_data, Tensor};
use crate::layout::{elem_count, shape_counts_fit};
use crate::ops::OpError;

verus! {

/// The shapes of a sequence of tensors.
pub open spec fn shapes_of<T>(inputs: Seq<&Tensor<T>>) -> Seq<Seq<usize>> {
    Seq::new(inputs.len(), |i: int| inputs[i].shape_seq())
}

/// All inputs share the dimension count of the first.
pub open spec fn concat_ranks_ok(shapes: Seq<Seq<usize>>) -> bool {
    forall|i: int| 0 <= i < shapes.len() ==> (#[trigger] shapes[i]).len() == shapes[0].len()
}

/// All inputs agree on every dimension except the concatenation axis.
pub open spec fn concat_dims_ok(shapes: Seq<Seq<usize>>, dim: int) -> bool {
    forall|i: int, d: int|
        0 <= i < shapes.len() && 0 <= d < shapes[0].len() && d != dim ==> (#[trigger] shapes[i][d])
            == shapes[0][d]
}

/// The inputs can be concatenated along `dim`.
pub open spec fn concat_ok(shapes: Seq<Seq<usize>>, dim: int) -> bool {
    &&& shapes.len() >= 1
    &&& dim < shapes[0].len()
    &&& concat_ranks_ok(shapes)
    &&& concat_dims_ok(shapes, dim)
}

/// The sum of the extents of the concatenation axis over all inputs.
pub open spec fn concat_sum(shapes: Seq<Seq<usize>>, dim: int) -> int
    decreases shapes.len(),
{
    if shapes.len() == 0 {
        0
    } else {
        shapes[0][dim] + concat_sum(shapes.skip(1), dim)
    }
}

/// The shape of the concatenation result: the first input's shape with
/// the concatenation axis summed over all inputs.
pub open spec fn concat_shape(shapes: Seq<Seq<usize>>, dim: int) -> Seq<usize> {
    shapes[0].update(dim, concat_sum(shapes, dim) as usize)
}

/// The number of elements one input contributes per round: the element
/// count of its axes at and after the concatenation axis.
pub open spec fn chunk_of(shape: Seq<usize>, dim: int) -> int {
    elem_count(shape.skip(dim))
}

/// One round of the round-robin fill: one chunk from each input in turn.
pub open spec fn concat_round<T>(views: Seq<Seq<T>>, chunks: Seq<int>, o: int) -> Seq<T>
    decreases views.len(),
{
    if views.len() == 0 {
        Seq::empty()
    } else {
        views[0].subrange(o * chunks[0], o * chunks[0] + chunks[0]) + concat_round(
            views.skip(1),
            chunks.skip(1),
            o,
        )
    }
}

/// The concatenated elements in logical order: `rounds` rounds of one
/// chunk from each input.
pub open spec fn concat_rounds<T>(views: Seq<Seq<T>>, chunks: Seq<int>, rounds: int) -> Seq<T>
    decreases rounds,
{
    if rounds <= 0 {
        Seq::empty()
    } else {
        concat_rounds(views, chunks, rounds - 1) + concat_round(views, chunks, rounds - 1)
    }
}

/// The machine limits concatenation needs: the summed axis, the round
/// count, each chunk and the result's trailing counts all fit in `usize`.
pub open spec fn concat_fits(shapes: Seq<Seq<usize>>, dim: int) -> bool {
    &&& concat_sum(shapes, dim) <= usize::MAX
    &&& elem_count(shapes[0].take(dim)) <= usize::MAX
    &&& forall|i: int| 0 <= i < shapes.len() ==> chunk_of(#[trigger] shapes[i], dim) <= usize::MAX
    &&& shape_counts_fit(concat_shape(shapes, dim))
    &&& elem_count(concat_shape(shapes, dim)) <= usize::MAX
}

/// The element count splits at any axis into the product of the counts
/// before and from that axis.
proof fn lemma_elem_count_split(shape: Seq<usize>, d: int)
    requires
        0 <= d <= shape.len(),
    ensures
        elem_count(shape) == elem_count(shape.take(d)) * elem_count(shape.skip(d)),
    decreases shape.len(),
{
    if d == 0 {
        assert(shape.take(0) =~= Seq::<usize>::empty());
        assert(shape.skip(0) =~= shape);
        crate::layout::lemma_elem_count_pos(shape);
    } else {
        let s1 = shape.skip(1);
        lemma_elem_count_split(s1, d - 1);
        assert(shape.take(d).skip(1) =~= s1.take(d - 1));
        assert(shape.take(d)[0] == shape[0]);
        assert(s1.skip(d - 1) =~= shape.skip(d));
        let a = shape[0] as int;
        let b = elem_count(s1.take(d - 1));
        let c = elem_count(shape.skip(d));
        assert(elem_count(shape.take(d)) == a * b);
        assert(elem_count(shape) == a * (b * c));
        assert(a * (b * c) == (a * b) * c) by (nonlinear_arith);
    }
}

/// The total number of elements one round contributes.
pub open spec fn chunk_sum(chunks: Seq<int>) -> int
    decreases chunks.len(),
{
    if chunks.len() == 0 {
        0
    } else {
        chunks[0] + chunk_sum(chunks.skip(1))
    }
}

/// One round holds one chunk from each input.
proof fn lemma_concat_round_len<T>(views: Seq<Seq<T>>, chunks: Seq<int>, o: int)
    requires
        chunks.len() == views.len(),
        forall|i: int|
            0 <= i < views.len() ==> 0 <= #[trigger] chunks[i] && 0 <= o * chunks[i] && o
                * chunks[i] + chunks[i] <= views[i].len(),
    ensures
        concat_round(views, chunks, o).len() == chunk_sum(chunks),
    decreases views.len(),
{
    if views.len() > 0 {
        assert forall|i: int|
            0 <= i < views.skip(1).len() implies 0 <= #[trigger] chunks.skip(1)[i] && 0 <= o
            * chunks.skip(1)[i] && o * chunks.skip(1)[i] + chunks.skip(1)[i] <= views.skip(
            1,
        )[i].len() by {
            assert(views.skip(1)[i] == views[i + 1]);
            assert(chunks.skip(1)[i] == chunks[i + 1]);
            assert(0 <= chunks[i + 1] && 0 <= o * chunks[i + 1] && o * chunks[i + 1] + chunks[i + 1]
                <= views[i + 1].len());
        }
        lemma_concat_round_len(views.skip(1), chunks.skip(1), o);
        assert(0 <= chunks[0] && 0 <= o * chunks[0] && o * chunks[0] + chunks[0] <= views[0].len());
    }
}

/// All rounds together hold `rounds` chunks from each input.
proof fn lemma_concat_rounds_len<T>(views: Seq<Seq<T>>, chunks: Seq<int>, rounds: int)
    requires
        rounds >= 0,
        chunks.len() == views.len(),
        forall|i: int|
            0 <= i < views.len() ==> 0 <= #[trigger] chunks[i] && rounds * chunks[i]
                <= views[i].len(),
    ensures
        concat_rounds(views, chunks, rounds).len() == rounds * chunk_sum(chunks),
    decreases rounds,
{
    if rounds == 0 {
        assert(0 * chunk_sum(chunks) == 0) by (nonlinear_arith);
    } else {
        assert forall|i: int|
            0 <= i < views.len() implies 0 <= #[trigger] chunks[i] && 0 <= (rounds - 1) * chunks[i]
            && (rounds - 1) * chunks[i] <= views[i].len() && (rounds - 1) * chunks[i] + chunks[i]
            <= views[i].len() by {
            assert(0 <= chunks[i] && rounds * chunks[i] <= views[i].len());
            assert((rounds - 1) * chunks[i] >= 0) by (nonlinear_arith)
                requires rounds >= 1, chunks[i] >= 0;
            assert((rounds - 1) * chunks[i] + chunks[i] == rounds * chunks[i]) by (nonlinear_arith);
        }
        lemma_concat_rounds_len(views, chunks, rounds - 1);
        lemma_concat_round_len(views, chunks, rounds - 1);
        assert((rounds - 1) * chunk_sum(chunks) + chunk_sum(chunks) == rounds * chunk_sum(chunks))
            by (nonlinear_arith);
    }
}

/// When every chunk is its axis extent times a common factor, one round
/// holds the summed extent times that factor.
proof fn lemma_chunk_sum_factor(shapes: Seq<Seq<usize>>, dim: int, factor: int)
    requires
        forall|i: int|
            0 <= i < shapes.len() ==> chunk_of(#[trigger] shapes[i], dim) == shapes[i][dim]
                * factor,
    ensures
        chunk_sum(Seq::new(shapes.len(), |i: int| chunk_of(shapes[i], dim))) == concat_sum(
            shapes,
            dim,
        ) * factor,
    decreases shapes.len(),
{
    let cs = Seq::new(shapes.len(), |i: int| chunk_of(shapes[i], dim));
    if shapes.len() == 0 {
        assert(0 * factor == 0) by (nonlinear_arith);
    } else {
        assert forall|i: int|
            0 <= i < shapes.skip(1).len() implies chunk_of(#[trigger] shapes.skip(1)[i], dim)
            == shapes.skip(1)[i][dim] * factor by {
            assert(shapes.skip(1)[i] == shapes[i + 1]);
            assert(chunk_of(shapes[i + 1], dim) == shapes[i + 1][dim] * factor);
        }
        lemma_chunk_sum_factor(shapes.skip(1), dim, factor);
        assert(cs.skip(1) =~= Seq::new(
            shapes.skip(1).len(),
            |i: int| chunk_of(shapes.skip(1)[i], dim),
        )) by {
            assert forall|i: int| 0 <= i < shapes.len() - 1 implies cs.skip(1)[i] == chunk_of(
                shapes.skip(1)[i],
                dim,
            ) by {
                assert(cs.skip(1)[i] == cs[i + 1]);
                assert(shapes.skip(1)[i] == shapes[i + 1]);
            }
        }
        assert(cs[0] == chunk_of(shapes[0], dim));
        let a = shapes[0][dim] as int;
        let b = concat_sum(shapes.skip(1), dim);
        assert(a * factor + b * factor == (a + b) * factor) by (nonlinear_arith);
    }
}

/// Trailing partial sums of axis extents never exceed the whole and are
/// never negative.
proof fn lemma_concat_sum_skip(shapes: Seq<Seq<usize>>, dim: int, i: int)
    requires
        0 <= i <= shapes.len(),
    ensures
        0 <= concat_sum(shapes.skip(i), dim) <= concat_sum(shapes, dim),
    decreases i,
{
    lemma_concat_sum_nonneg(shapes.skip(i), dim);
    if i == 0 {
        assert(shapes.skip(0) =~= shapes);
    } else {
        lemma_concat_sum_skip(shapes, dim, i - 1);
        let s1 = shapes.skip(i - 1);
        assert(s1.skip(1) =~= shapes.skip(i));
        assert(s1[0] == shapes[i - 1]);
        assert(concat_sum(s1, dim) == s1[0][dim] + concat_sum(shapes.skip(i), dim));
    }
}

/// A sum of axis extents is never negative.
proof fn lemma_concat_sum_nonneg(shapes: Seq<Seq<usize>>, dim: int)
    ensures
        concat_sum(shapes, dim) >= 0,
    decreases shapes.len(),
{
    if shapes.len() > 0 {
        lemma_concat_sum_nonneg(shapes.skip(1), dim);
    }
}

} // verus!

verus! {

/// Concatenate `inputs` along axis `dim`.
///
/// All inputs must share their dimension count and agree on every
/// dimension except `dim`; the output's `dim` extent is the sum of the
/// inputs'. The output is filled round-robin: one chunk from each input
/// in turn, a chunk being all elements of one index of the axes before
/// `dim`, which reproduces concatenation along `dim` in logical order.
pub fn concat<T: Copy>(inputs: &[&Tensor<T>], dim: usize) -> (r: Result<Tensor<T>, OpError>)
    requires
        inputs@.len() >= 1,
        forall|i: int| 0 <= i < inputs@.len() ==> (#[trigger] inputs@[i]).wf(),
        concat_ok(shapes_of(inputs@), dim as int) ==> concat_fits(shapes_of(inputs@), dim as int),
    ensures
        r is Ok <==> concat_ok(shapes_of(inputs@), dim as int),
        dim >= shapes_of(inputs@)[0].len() ==> (r matches Err(OpError::InvalidValue(m))
            && m@ == "dim is larger than input rank"@),
        match r {
            Ok(t) => {
                &&& t.wf()
                &&& t.shape_seq() == concat_shape(shapes_of(inputs@), dim as int)
                &&& t.view_seq() == concat_rounds(
                    Seq::new(inputs@.len(), |i: int| inputs@[i].view_seq()),
                    Seq::new(
                        inputs@.len(),
                        |i: int| chunk_of(inputs@[i].shape_seq(), dim as int),
                    ),
                    elem_count(shapes_of(inputs@)[0].take(dim as int)),
                )
            },
            Err(e) => match e {
                OpError::InvalidValue(m) => dim >= shapes_of(inputs@)[0].len() && m@
                    == "dim is larger than input rank"@,
                OpError::IncompatibleInputShapes(m) => dim < shapes_of(inputs@)[0].len() && ((m@
                    == "Tensors must have the same number of dimensions"@ && !concat_ranks_ok(
                    shapes_of(inputs@),
                )) || (m@ == "Dimensions must be the same except for concat dim"@
                    && !concat_dims_ok(shapes_of(inputs@), dim as int))),
                _ => false,
            },
        },
{
    let ghost shp = shapes_of(inputs@);
    let ghost nn = inputs@.len() as int;
    let n = inputs.len();
    let first: &Tensor<T> = inputs[0];
    proof {
        assert(shp[0] == inputs@[0].shape_seq());
    }
    let rank = first.ndim();
    if dim >= rank {
        return Err(OpError::InvalidValue("dim is larger than input rank"));
    }
    // Validate ranks and non-concat dimensions against the first input.
    let mut i: usize = 1;
    while i < n
        invariant
            1 <= i <= n,
            n == nn,
            nn == inputs@.len(),
            shp == shapes_of(inputs@),
            dim < shp[0].len(),
            rank == shp[0].len(),
            first == inputs@[0],
            first.shape_seq().len() == rank,
            forall|j: int| 0 <= j < nn ==> (#[trigger] inputs@[j]).wf(),
            forall|j: int| 0 <= j < i ==> (#[trigger] shp[j]).len() == shp[0].len(),
            forall|j: int, d: int|
                0 <= j < i && 0 <= d < shp[0].len() && d != dim ==> (#[trigger] shp[j][d])
                    == shp[0][d],
        decreases n - i,
    {
        let t: &Tensor<T> = inputs[i];
        proof {
            assert(shp[i as int] == inputs@[i as int].shape_seq());
        }
        if t.ndim() != rank {
            proof {
                assert(!concat_ranks_ok(shp));
            }
            return Err(
                OpError::IncompatibleInputShapes("Tensors must have the same number of dimensions"),
            );
        }
        let mut d: usize = 0;
        while d < rank
            invariant
                d <= rank,
                rank == shp[0].len(),
                dim < shp[0].len(),
                shp == shapes_of(inputs@),
                nn == inputs@.len(),
                1 <= i < nn,
                t == inputs@[i as int],
                t.shape_seq().len() == rank,
                first == inputs@[0],
                first.shape_seq().len() == rank,
                forall|dd: int| 0 <= dd < d && dd != dim ==> t.shape_seq()[dd] == shp[0][dd],
            decreases rank - d,
        {
            if d != dim {
                let a = slice_index(t.shape(), d);
                let b = slice_index(first.shape(), d);
                if a != b {
                    proof {
                        assert(shp[i as int] == inputs@[i as int].shape_seq());
                        assert(shp[0] == inputs@[0].shape_seq());
                        assert(shp[i as int][d as int] != shp[0][d as int]);
                        assert(!concat_dims_ok(shp, dim as int));
                    }
                    return Err(
                        OpError::IncompatibleInputShapes(
                            "Dimensions must be the same except for concat dim",
                        ),
                    );
                }
            }
            d = d + 1;
        }
        i = i + 1;
    }
    proof {
        assert(concat_ranks_ok(shp));
        assert forall|j: int, d: int|
            0 <= j < nn && 0 <= d < shp[0].len() && d != dim implies (#[trigger] shp[j][d])
            == shp[0][d] by {}
        assert(concat_ok(shp, dim as int));
    }
    concat_valid(inputs, dim)
}

/// Look up one element of a slice.
fn slice_index(s: &[usize], i: usize) -> (r: usize)
    requires
        i < s@.len(),
    ensures
        r == s@[i as int],
{
    s[i]
}

} // verus!

verus! {

/// The validated core of [`concat`]: inputs agree on everything but the
/// concatenation axis.
fn concat_valid<T: Copy>(inputs: &[&Tensor<T>], dim: usize) -> (r: Result<Tensor<T>, OpError>)
    requires
        forall|i: int| 0 <= i < inputs@.len() ==> (#[trigger] inputs@[i]).wf(),
        concat_ok(shapes_of(inputs@), dim as int),
        concat_fits(shapes_of(inputs@), dim as int),
    ensures
        r matches Ok(t) && {
            let shp = shapes_of(inputs@);
            &&& t.wf()
            &&& t.shape_seq() == concat_shape(shp, dim as int)
            &&& t.view_seq() == concat_rounds(
                Seq::new(inputs@.len(), |i: int| inputs@[i].view_seq()),
                Seq::new(inputs@.len(), |i: int| chunk_of(inputs@[i].shape_seq(), dim as int)),
                elem_count(shp[0].take(dim as int)),
            )
        },
{
    let ghost shp = shapes_of(inputs@);
    let ghost nn = inputs@.len() as int;
    let ghost views = Seq::new(inputs@.len(), |i: int| inputs@[i].view_seq());
    let ghost chks = Seq::new(inputs@.len(), |i: int| chunk_of(inputs@[i].shape_seq(), dim as int));
    let n = inputs.len();
    let first: &Tensor<T> = inputs[0];
    proof {
        assert(shp[0] == inputs@[0].shape_seq());
        lemma_concat_sum_skip(shp, dim as int, 0);
        let zero: int = 0;
        assert(shp.skip(zero) =~= shp);
    }
    // The summed extent of the concatenation axis.
    let mut total: usize = 0;
    let mut i: usize = 0;
    while i < n
        invariant
            i <= n,
            n == nn,
            nn == inputs@.len(),
            shp == shapes_of(inputs@),
            dim < shp[0].len(),
            concat_ok(shp, dim as int),
            concat_sum(shp, dim as int) <= usize::MAX,
            total + concat_sum(shp.skip(i as int), dim as int) == concat_sum(shp, dim as int),
        decreases n - i,
    {
        proof {
            assert(shp.skip(i as int).skip(1) =~= shp.skip(i + 1));
            assert(shp.skip(i as int)[0] == shp[i as int]);
            assert(shp[i as int] == inputs@[i as int].shape_seq());
            assert(shp[i as int].len() == shp[0].len());
            lemma_concat_sum_skip(shp, dim as int, i + 1);
            lemma_concat_sum_nonneg(shp.skip(i + 1), dim as int);
        }
        let t: &Tensor<T> = inputs[i];
        total = total + slice_index(t.shape(), dim);
        i = i + 1;
    }
    proof {
        assert(shp.skip(nn) =~= Seq::<Seq<usize>>::empty());
        assert(total == concat_sum(shp, dim as int));
    }
    // The output shape: the first input's shape with the axis summed.
    let mut out_shape: Vec<usize> = vstd::slice::slice_to_vec(first.shape());
    out_shape[dim] = total;
    proof {
        assert(out_shape@ =~= concat_shape(shp, dim as int));
    }
    // The elements of every input, in logical order.
    let mut tv: Vec<Vec<T>> = Vec::new();
    let mut i2: usize = 0;
    while i2 < n
        invariant
            i2 <= n,
            n == nn,
            nn == inputs@.len(),
            views == Seq::new(inputs@.len(), |j: int| inputs@[j].view_seq()),
            forall|j: int| 0 <= j < nn ==> (#[trigger] inputs@[j]).wf(),
            tv@.len() == i2,
            forall|j: int| 0 <= j < i2 ==> (#[trigger] tv@[j])@ == views[j],
        decreases n - i2,
    {
        let t: &Tensor<T> = inputs[i2];
        tv.push(t.to_vec());
        i2 = i2 + 1;
    }
    // The per-round chunk length of every input.
    let mut chunks: Vec<usize> = Vec::new();
    let mut i3: usize = 0;
    while i3 < n
        invariant
            i3 <= n,
            n == nn,
            nn == inputs@.len(),
            shp == shapes_of(inputs@),
            concat_ok(shp, dim as int),
            concat_fits(shp, dim as int),
            dim < shp[0].len(),
            chks == Seq::new(inputs@.len(), |j: int| chunk_of(inputs@[j].shape_seq(), dim as int)),
            chunks@.len() == i3,
            forall|j: int| 0 <= j < i3 ==> #[trigger] chunks@[j] == chks[j],
        decreases n - i3,
    {
        let t: &Tensor<T> = inputs[i3];
        proof {
            assert(shp[i3 as int] == inputs@[i3 as int].shape_seq());
            assert(shp[i3 as int].len() == shp[0].len());
            assert(chunk_of(shp[i3 as int], dim as int) <= usize::MAX);
            assert(t.shape_seq().skip(dim as int) =~= t.shape@.subrange(
                dim as int,
                t.shape@.len() as int,
            ));
        }
        let sh = t.shape();
        let suffix = vstd::slice::slice_subrange(sh, dim, sh.len());
        let c = crate::dyntensor::count_elems(suffix);
        chunks.push(c);
        proof {
            assert(chks[i3 as int] == chunk_of(inputs@[i3 as int].shape_seq(), dim as int));
        }
        i3 = i3 + 1;
    }
    // The number of rounds: the element count of the axes before `dim`.
    proof {
        assert(shp[0].take(dim as int) =~= first.shape@.subrange(0, dim as int));
        assert(elem_count(shp[0].take(dim as int)) <= usize::MAX);
    }
    let fsh = first.shape();
    let prefix = vstd::slice::slice_subrange(fsh, 0, dim);
    let outer = crate::dyntensor::count_elems(prefix);
    // Every input holds `outer` chunks.
    proof {
        assert forall|j: int|
            0 <= j < nn implies views[j].len() == outer * #[trigger] chks[j] && chks[j] >= 0 by {
            lemma_elem_count_split(shp[j], dim as int);
            assert(shp[j].take(dim as int) =~= shp[0].take(dim as int)) by {
                assert(shp[j].len() == shp[0].len());
                assert forall|d: int| 0 <= d < dim implies #[trigger] shp[j].take(
                    dim as int,
                )[d] == shp[0].take(dim as int)[d] by {
                    assert(shp[j][d] == shp[0][d]);
                }
            }
            assert(views[j] == inputs@[j].view_seq());
            assert(shp[j] == inputs@[j].shape_seq());
            crate::layout::lemma_elem_count_pos(shp[j]);
            crate::layout::lemma_elem_count_pos(shp[j].skip(dim as int));
            crate::layout::lemma_elem_count_pos(shp[j].take(dim as int));
            assert(chks[j] == elem_count(shp[j].skip(dim as int)));
            assert(views[j].len() == elem_count(shp[j]));
        }
    }
    // Fill the output round-robin: one chunk from each input in turn.
    let mut out_data: Vec<T> = Vec::new();
    let mut o: usize = 0;
    while o < outer
        invariant
            o <= outer,
            n == nn,
            nn == inputs@.len(),
            nn >= 1,
            views.len() == nn,
            chks.len() == nn,
            tv@.len() == nn,
            chunks@.len() == nn,
            forall|j: int| 0 <= j < nn ==> (#[trigger] tv@[j])@ == views[j],
            forall|j: int| 0 <= j < nn ==> #[trigger] chunks@[j] == chks[j],
            forall|j: int|
                0 <= j < nn ==> views[j].len() == outer * #[trigger] chks[j] && chks[j] >= 0,
            out_data@ == concat_rounds(views, chks, o as int),
        decreases outer - o,
    {
        let mut i4: usize = 0;
        proof {
            let zero: int = 0;
            assert(views.skip(zero) =~= views);
            assert(chks.skip(zero) =~= chks);
        }
        while i4 < n
            invariant
                i4 <= n,
                n == nn,
                nn == inputs@.len(),
                o < outer,
                views.len() == nn,
                chks.len() == nn,
                tv@.len() == nn,
                chunks@.len() == nn,
                forall|j: int| 0 <= j < nn ==> (#[trigger] tv@[j])@ == views[j],
                forall|j: int| 0 <= j < nn ==> #[trigger] chunks@[j] == chks[j],
                forall|j: int|
                    0 <= j < nn ==> views[j].len() == outer * #[trigger] chks[j] && chks[j] >= 0,
                out_data@ + concat_round(
                    views.skip(i4 as int),
                    chks.skip(i4 as int),
                    o as int,
                ) == concat_rounds(views, chks, o + 1),
            decreases n - i4,
        {
            proof {
                assert(views.skip(i4 as int).skip(1) =~= views.skip(i4 + 1));
                assert(chks.skip(i4 as int).skip(1) =~= chks.skip(i4 + 1));
                assert(views.skip(i4 as int)[0] == views[i4 as int]);
                assert(chks.skip(i4 as int)[0] == chks[i4 as int]);
                assert((o + 1) * chks[i4 as int] <= outer * chks[i4 as int]) by (nonlinear_arith)
                    requires o + 1 <= outer, chks[i4 as int] >= 0;
                assert((o + 1) * chks[i4 as int] == o * chks[i4 as int] + chks[i4 as int])
                    by (nonlinear_arith);
                assert(o * chks[i4 as int] >= 0) by (nonlinear_arith)
                    requires o >= 0, chks[i4 as int] >= 0;
            }
            let row = &tv[i4];
            let leni = row.len();
            let ci = chunks[i4];
            let base = o * ci;
            let ghost before_chunk = out_data@;
            let mut j: usize = 0;
            proof {
                assert(out_data@ =~= before_chunk + views[i4 as int].subrange(
                    base as int,
                    base as int,
                ));
            }
            while j < ci
                invariant
                    j <= ci,
                    ci == chks[i4 as int],
                    i4 < nn,
                    base == o * ci,
                    base + ci <= leni,
                    leni == row@.len(),
                    row@ == views[i4 as int],
                    out_data@ == before_chunk + views[i4 as int].subrange(
                        base as int,
                        base + j,
                    ),
                decreases ci - j,
            {
                out_data.push(row[base + j]);
                j = j + 1;
                proof {
                    assert(out_data@ =~= before_chunk + views[i4 as int].subrange(
                        base as int,
                        base + j,
                    ));
                }
            }
            i4 = i4 + 1;
            proof {
                assert(out_data@ + concat_round(views.skip(i4 as int), chks.skip(i4 as int), o as int)
                    =~= concat_rounds(views, chks, o + 1));
            }
        }
        o = o + 1;
        proof {
            assert(views.skip(nn) =~= Seq::<Seq<T>>::empty());
            assert(chks.skip(nn) =~= Seq::<int>::empty());
            assert(out_data@ =~= concat_rounds(views, chks, o as int));
        }
    }
    // The output holds exactly the element count of the output shape.
    proof {
        let dimi = dim as int;
        let rest = elem_count(shp[0].skip(dimi + 1));
        assert forall|j: int| 0 <= j < nn implies chunk_of(#[trigger] shp[j], dimi) == shp[j][dimi]
            * rest by {
            assert(shp[j].skip(dimi).skip(1) =~= shp[j].skip(dimi + 1));
            assert(shp[j].skip(dimi)[0] == shp[j][dimi]);
            assert(shp[j].skip(dimi + 1) =~= shp[0].skip(dimi + 1)) by {
                assert(shp[j].len() == shp[0].len());
                assert forall|d: int| 0 <= d < shp[0].len() - dimi - 1 implies #[trigger] shp[
                    j
                ].skip(dimi + 1)[d] == shp[0].skip(dimi + 1)[d] by {
                    assert(shp[j][dimi + 1 + d] == shp[0][dimi + 1 + d]);
                }
            }
        }
        lemma_chunk_sum_factor(shp, dimi, rest);
        assert(chks =~= Seq::new(shp.len(), |i: int| chunk_of(shp[i], dimi))) by {
            assert forall|j: int| 0 <= j < nn implies chks[j] == chunk_of(shp[j], dimi) by {
                assert(shp[j] == inputs@[j].shape_seq());
            }
        }
        assert forall|j: int|
            0 <= j < nn implies 0 <= #[trigger] chks[j] && (outer as int) * chks[j] <= views[
            j
        ].len() by {
            assert(views[j].len() == outer * chks[j] && chks[j] >= 0);
        }
        lemma_concat_rounds_len(views, chks, outer as int);
        let out_sh = concat_shape(shp, dimi);
        lemma_elem_count_split(out_sh, dimi);
        assert(out_sh.take(dimi) =~= shp[0].take(dimi));
        assert(out_sh.skip(dimi)[0] == total);
        assert(out_sh.skip(dimi).skip(1) =~= out_sh.skip(dimi + 1));
        assert(out_sh.skip(dimi + 1) =~= shp[0].skip(dimi + 1));
        assert(elem_count(out_sh.skip(dimi)) == total * rest);
        assert(elem_count(out_sh) == outer * (total * rest));
        assert(out_data@.len() == outer * (concat_sum(shp, dimi) * rest));
        assert(elem_count(out_sh) <= usize::MAX);
        assert(out_shape@ == out_sh);
    }
    let result = from_data(out_shape, out_data);
    proof {
        assert(result.view_seq() =~= concat_rounds(views, chks, outer as int));
    }
    Ok(result)
}

} // verus!

verus! {

/// The concatenation operator: its one attribute is the axis to join
/// along. Chosen at graph construction time, not per call.
#[derive(Debug)]
pub struct Concat {
    pub dim: usize,
}

impl Concat {
    /// The operator's diagnostic name.
    pub fn name(&self) -> (r: &'static str)
        ensures
            r@ == "Concat"@,
    {
        "Concat"
    }

    /// Run the operator over its typed inputs.
    ///
    /// An empty input list yields `MissingInputs`; otherwise the result
    /// and every error are exactly those of [`concat`].
    pub fn run<T: Copy>(&self, inputs: &[&Tensor<T>]) -> (r: Result<Tensor<T>, OpError>)
        requires
            forall|i: int| 0 <= i < inputs@.len() ==> (#[trigger] inputs@[i]).wf(),
            inputs@.len() >= 1 && concat_ok(shapes_of(inputs@), self.dim as int) ==> concat_fits(
                shapes_of(inputs@),
                self.dim as int,
            ),
        ensures
            inputs@.len() == 0 <==> r == Err::<Tensor<T>, OpError>(OpError::MissingInputs),
            inputs@.len() >= 1 ==> (r is Ok <==> concat_ok(shapes_of(inputs@), self.dim as int)),
            inputs@.len() >= 1 && self.dim >= shapes_of(inputs@)[0].len() ==> (r matches Err(
                OpError::InvalidValue(m),
            ) && m@ == "dim is larger than input rank"@),
            inputs@.len() >= 1 ==> match r {
                Ok(t) => {
                    &&& t.wf()
                    &&& t.shape_seq() == concat_shape(shapes_of(inputs@), self.dim as int)
                    &&& t.view_seq() == concat_rounds(
                        Seq::new(inputs@.len(), |i: int| inputs@[i].view_seq()),
                        Seq::new(
                            inputs@.len(),
                            |i: int| chunk_of(inputs@[i].shape_seq(), self.dim as int),
                        ),
                        elem_count(shapes_of(inputs@)[0].take(self.dim as int)),
                    )
                },
                Err(e) => match e {
                    OpError::InvalidValue(m) => self.dim >= shapes_of(inputs@)[0].len() && m@
                        == "dim is larger than input rank"@,
                    OpError::IncompatibleInputShapes(m) => self.dim < shapes_of(
                        inputs@,
                    )[0].len() && ((m@ == "Tensors must have the same number of dimensions"@
                        && !concat_ranks_ok(shapes_of(inputs@))) || (m@
                        == "Dimensions must be the same except for concat dim"@ && !concat_dims_ok(
                        shapes_of(inputs@),
                        self.dim as int,
                    ))),
                    _ => false,
                },
            },
    {
        if inputs.len() == 0 {
            return Err(OpError::MissingInputs);
        }
        concat(inputs, self.dim)
    }
}

} // verus!
