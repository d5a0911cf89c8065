//! Metadata of the tensors that a transform reads and writes, and the checks
//! that a plan runs on it before any launch.
use vstd::prelude::*;
use vstd::relations::{sorted_by, total_ordering};
use crate::error::FftError;
use crate::host::tail_product;

verus! {

/// What a transform reads of a tensor binding: its shape and strides in
/// elements, and the byte size and offsets of its buffer.
pub struct BindingLayout {
    pub shape: Vec<usize>,
    pub strides: Vec<usize>,
    pub buffer_size: u64,
    pub offset_start: Option<u64>,
    pub offset_end: Option<u64>,
}

/// `sum over axes a < k of (shape[a] - 1) * strides[a]`: the largest element
/// offset that the first `k` axes reach.
pub open spec fn extent(shape: Seq<usize>, strides: Seq<usize>, k: nat) -> nat
    decreases k,
{
    if k == 0 {
        0
    } else {
        extent(shape, strides, (k - 1) as nat) + ((shape[k - 1] - 1) * strides[k - 1]) as nat
    }
}

/// Bytes from the first to one past the last F32 element of a binding.
pub open spec fn span_bytes(b: BindingLayout) -> nat {
    4 * (extent(b.shape@, b.strides@, b.shape@.len()) + 1)
}

/// What `check_binding` answers for a binding.
pub open spec fn check_binding_spec(b: BindingLayout) -> Result<(), FftError> {
    let start: nat = match b.offset_start { Some(v) => v as nat, None => 0 };
    let end: nat = match b.offset_end { Some(v) => v as nat, None => 0 };
    let total = extent(b.shape@, b.strides@, b.shape@.len());
    if b.shape@.len() != b.strides@.len() || b.shape@.len() == 0 {
        Err(FftError::MalformedTensor)
    } else if b.shape@.contains(0) {
        Ok(())
    } else if total >= u32::MAX || span_bytes(b) > usize::MAX {
        Err(FftError::SpanOverflow)
    } else if start + end > b.buffer_size {
        Err(FftError::InvalidOffsets)
    } else if span_bytes(b) > b.buffer_size - start - end {
        Err(FftError::StridesExceedBuffer)
    } else {
        Ok(())
    }
}

proof fn lemma_extent_mono(shape: Seq<usize>, strides: Seq<usize>, j: nat, k: nat)
    requires
        j <= k,
    ensures
        extent(shape, strides, j) <= extent(shape, strides, k),
    decreases k,
{
    if j < k {
        lemma_extent_mono(shape, strides, j, (k - 1) as nat);
    }
}

/// Checks that a binding has well-formed metadata and that its strides stay
/// inside its buffer under F32/U32 addressing. A binding with an empty axis
/// holds no element and passes.
pub fn check_binding(b: &BindingLayout) -> (r: Result<(), FftError>)
    ensures
        r == check_binding_spec(*b),
{
    let rank = b.shape.len();
    if rank != b.strides.len() || rank == 0 {
        return Err(FftError::MalformedTensor);
    }
    let mut a: usize = 0;
    while a < rank
        invariant
            a <= rank,
            rank == b.shape@.len(),
            rank == b.strides@.len(),
            rank > 0,
            forall|k: int| 0 <= k < a ==> b.shape@[k] != 0,
        decreases rank - a,
    {
        if b.shape[a] == 0 {
            return Ok(());
        }
        a = a + 1;
    }
    let mut sum: usize = 0;
    let mut a: usize = 0;
    while a < rank
        invariant
            a <= rank,
            rank == b.shape@.len(),
            rank == b.strides@.len(),
            !b.shape@.contains(0),
            sum as nat == extent(b.shape@, b.strides@, a as nat),
        decreases rank - a,
    {
        proof {
            lemma_extent_mono(b.shape@, b.strides@, (a + 1) as nat, rank as nat);
        }
        let term = match (b.shape[a] - 1).checked_mul(b.strides[a]) {
            Some(v) => v,
            None => return Err(FftError::SpanOverflow),
        };
        sum = match sum.checked_add(term) {
            Some(v) => v,
            None => return Err(FftError::SpanOverflow),
        };
        a = a + 1;
    }
    if sum >= u32::MAX as usize {
        return Err(FftError::SpanOverflow);
    }
    let last = match (sum + 1).checked_mul(4) {
        Some(v) => v,
        None => return Err(FftError::SpanOverflow),
    };
    let start = match b.offset_start {
        Some(v) => v,
        None => 0,
    };
    let end = match b.offset_end {
        Some(v) => v,
        None => 0,
    };
    let available = match b.buffer_size.checked_sub(start) {
        Some(v) => match v.checked_sub(end) {
            Some(w) => w,
            None => return Err(FftError::InvalidOffsets),
        },
        None => return Err(FftError::InvalidOffsets),
    };
    if last as u64 > available {
        return Err(FftError::StridesExceedBuffer);
    }
    Ok(())
}

/// Lexicographic order on `(stride, size)` pairs.
pub open spec fn axis_le(a: (usize, usize), b: (usize, usize)) -> bool {
    a.0 < b.0 || (a.0 == b.0 && a.1 <= b.1)
}

pub open spec fn axis_order() -> spec_fn((usize, usize), (usize, usize)) -> bool {
    |a: (usize, usize), b: (usize, usize)| axis_le(a, b)
}

pub proof fn lemma_axis_order_total()
    ensures
        total_ordering(axis_order()),
{
}

/// The `(stride, size)` pairs of the first `k` axes whose size exceeds one, in
/// axis order.
pub open spec fn spread_axes(shape: Seq<usize>, strides: Seq<usize>, k: nat) -> Seq<(usize, usize)>
    decreases k,
{
    if k == 0 {
        Seq::empty()
    } else {
        let prev = spread_axes(shape, strides, (k - 1) as nat);
        if shape[k - 1] > 1 {
            prev.push((strides[k - 1], shape[k - 1]))
        } else {
            prev
        }
    }
}

/// Walks axes from the smallest stride up: each stride must clear the span
/// of the axes before it, so no two index tuples share an offset.
pub open spec fn overlap_scan(axes: Seq<(usize, usize)>, span: nat) -> Result<(), FftError>
    decreases axes.len(),
{
    if axes.len() == 0 {
        Ok(())
    } else if (axes[0].0 as nat) < span {
        Err(FftError::OverlappingOutput)
    } else if ((axes[0].1 - 1) * axes[0].0) as nat + span > usize::MAX {
        Err(FftError::LayoutOverflow)
    } else {
        overlap_scan(axes.drop_first(), ((axes[0].1 - 1) * axes[0].0) as nat + span)
    }
}

/// What the overlap check answers for an output binding.
pub open spec fn output_layout_spec(b: BindingLayout) -> Result<(), FftError> {
    overlap_scan(spread_axes(b.shape@, b.strides@, b.shape@.len()).sort_by(axis_order()), 1)
}

/// Sorts `(stride, size)` pairs by insertion.
fn sort_axes(v: &mut Vec<(usize, usize)>)
    ensures
        sorted_by(final(v)@, axis_order()),
        final(v)@.to_multiset() == old(v)@.to_multiset(),
{
    broadcast use vstd::seq_lib::group_to_multiset_ensures;
    broadcast use vstd::multiset::group_multiset_axioms;
    let n = v.len();
    let mut i: usize = 1;
    if n == 0 {
        return;
    }
    while i < n
        invariant
            1 <= i <= n,
            n == v@.len(),
            v@.to_multiset() == old(v)@.to_multiset(),
            forall|a: int, b: int| 0 <= a < b < i ==> #[trigger] axis_le(v@[a], v@[b]),
        decreases n - i,
    {
        let mut j = i;
        while j > 0 && (v[j].0 < v[j - 1].0 || (v[j].0 == v[j - 1].0 && v[j].1 < v[j - 1].1))
            invariant
                0 <= j <= i < n,
                n == v@.len(),
                v@.to_multiset() == old(v)@.to_multiset(),
                forall|a: int, b: int|
                    0 <= a < b <= i && a != j && b != j ==> #[trigger] axis_le(v@[a], v@[b]),
                forall|b: int| j < b <= i ==> #[trigger] axis_le(v@[j as int], v@[b]),
            decreases j,
        {
            let x = v[j - 1];
            let y = v[j];
            let ghost before = v@;
            v.set(j - 1, y);
            v.set(j, x);
            proof {
                let mid = before.update(j - 1, y);
                vstd::seq_lib::to_multiset_update(before, j - 1, y);
                vstd::seq_lib::to_multiset_update(mid, j as int, x);
                let m0 = before.to_multiset();
                vstd::seq_lib::to_multiset_contains(before, x);
                assert forall|t: (usize, usize)| #[trigger] m0.insert(y).remove(x).insert(x).remove(y).count(t)
                    == m0.count(t) by {}
            }
            j = j - 1;
        }
        proof {
            assert forall|a: int, b: int| 0 <= a < b < i + 1 implies #[trigger] axis_le(v@[a], v@[b]) by {
                if b == j && a < j {
                    assert(axis_le(v@[a], v@[j - 1]) || a == j - 1);
                }
            }
        }
        i = i + 1;
    }
}

} // verus!

verus! {

/// Checks that no two elements of an output binding share an offset. The
/// test is sufficient, not necessary: it accepts dense permutations and
/// padded (pitched) layouts.
pub fn check_output_layout(out: &BindingLayout) -> (r: Result<(), FftError>)
    requires
        out.shape@.len() == out.strides@.len(),
    ensures
        r == output_layout_spec(*out),
{
    let rank = out.shape.len();
    let mut axes: Vec<(usize, usize)> = Vec::new();
    let mut a: usize = 0;
    while a < rank
        invariant
            a <= rank,
            rank == out.shape@.len(),
            rank == out.strides@.len(),
            axes@ == spread_axes(out.shape@, out.strides@, a as nat),
            forall|k: int| 0 <= k < axes@.len() ==> #[trigger] axes@[k].1 > 1,
        decreases rank - a,
    {
        if out.shape[a] > 1 {
            axes.push((out.strides[a], out.shape[a]));
        }
        a = a + 1;
    }
    let ghost unsorted = axes@;
    sort_axes(&mut axes);
    proof {
        lemma_axis_order_total();
        unsorted.lemma_sort_by_ensures(axis_order());
        vstd::seq_lib::lemma_sorted_unique(axes@, unsorted.sort_by(axis_order()), axis_order());
        assert(axes@.subrange(0, axes@.len() as int) =~= axes@);
        assert forall|k: int| 0 <= k < axes@.len() implies #[trigger] axes@[k].1 > 1 by {
            assert(axes@.contains(axes@[k]));
        }
    }
    let count = axes.len();
    let mut span: usize = 1;
    let mut i: usize = 0;
    while i < count
        invariant
            i <= count,
            count == axes@.len(),
            forall|k: int| 0 <= k < axes@.len() ==> #[trigger] axes@[k].1 > 1,
            output_layout_spec(*out) == overlap_scan(axes@.subrange(i as int, count as int), span as nat),
        decreases count - i,
    {
        let (stride, size) = axes[i];
        proof {
            let rest = axes@.subrange(i as int, count as int);
            assert(rest.drop_first() =~= axes@.subrange(i + 1, count as int));
        }
        if stride < span {
            return Err(FftError::OverlappingOutput);
        }
        let reach = match (size - 1).checked_mul(stride) {
            Some(v) => v,
            None => return Err(FftError::LayoutOverflow),
        };
        span = match reach.checked_add(span) {
            Some(v) => v,
            None => return Err(FftError::LayoutOverflow),
        };
        i = i + 1;
    }
    Ok(())
}

} // verus!

verus! {

/// The product of the batch axes (all but `dim`) among the first `k`, read
/// left to right: the first axis whose sizes differ, or whose product
/// overflows `usize`, decides the error.
pub open spec fn batch_rows(sig: Seq<usize>, re: Seq<usize>, dim: nat, k: nat) -> Result<nat, FftError>
    decreases k,
{
    if k == 0 {
        Ok(1)
    } else {
        match batch_rows(sig, re, dim, (k - 1) as nat) {
            Err(e) => Err(e),
            Ok(rows) => if k - 1 == dim {
                Ok(rows)
            } else if sig[k - 1] != re[k - 1] {
                Err(FftError::BatchShapeMismatch)
            } else if rows * sig[k - 1] > usize::MAX {
                Err(FftError::BatchOverflow)
            } else {
                Ok((rows * sig[k - 1]) as nat)
            },
        }
    }
}

proof fn lemma_batch_rows_err_sticky(sig: Seq<usize>, re: Seq<usize>, dim: nat, k: nat, m: nat)
    requires
        k <= m,
        batch_rows(sig, re, dim, k) is Err,
    ensures
        batch_rows(sig, re, dim, m) == batch_rows(sig, re, dim, k),
    decreases m,
{
    if k < m {
        lemma_batch_rows_err_sticky(sig, re, dim, k, (m - 1) as nat);
    }
}

/// A batch product that does not overflow fits in `usize`.
pub proof fn lemma_batch_rows_fit(sig: Seq<usize>, re: Seq<usize>, dim: nat, k: nat)
    ensures
        batch_rows(sig, re, dim, k) is Ok ==> batch_rows(sig, re, dim, k)->Ok_0 <= usize::MAX,
    decreases k,
{
    if k > 0 {
        lemma_batch_rows_fit(sig, re, dim, (k - 1) as nat);
    }
}

/// Whether the lengths along the transform axis fit an `n`-point plan that
/// reads `used` samples (forward) or `used` bins (inverse).
pub open spec fn lengths_match(signal: BindingLayout, spec_re: BindingLayout, dim: nat, n: nat, used: nat, inverse: bool) -> bool {
    let bins = n / 2 + 1;
    if inverse {
        signal.shape@[dim as int] == n && 0 < used && used <= spec_re.shape@[dim as int] && used <= bins
    } else {
        spec_re.shape@[dim as int] == bins && used <= signal.shape@[dim as int] && used <= n
    }
}

/// What `validate` answers.
pub open spec fn validate_spec(
    signal: BindingLayout,
    spec_re: BindingLayout,
    spec_im: BindingLayout,
    dim: nat,
    n: nat,
    used: nat,
    inverse: bool,
) -> Result<usize, FftError> {
    let bins = n / 2 + 1;
    let widest = if n >= bins { n } else { bins };
    if check_binding_spec(signal) is Err {
        Err(check_binding_spec(signal)->Err_0)
    } else if check_binding_spec(spec_re) is Err {
        Err(check_binding_spec(spec_re)->Err_0)
    } else if check_binding_spec(spec_im) is Err {
        Err(check_binding_spec(spec_im)->Err_0)
    } else if dim >= signal.shape@.len() || signal.shape@.len() != spec_re.shape@.len()
        || spec_re.shape@ != spec_im.shape@ {
        Err(FftError::InvalidDimension)
    } else if !lengths_match(signal, spec_re, dim, n, used, inverse) {
        Err(FftError::LengthMismatch)
    } else {
        match batch_rows(signal.shape@, spec_re.shape@, dim, signal.shape@.len()) {
            Err(e) => Err(e),
            Ok(rows) => if rows * widest > u32::MAX {
                Err(FftError::IndexingOverflow)
            } else if inverse {
                match output_layout_spec(signal) {
                    Err(e) => Err(e),
                    Ok(_) => Ok(rows as usize),
                }
            } else if output_layout_spec(spec_re) is Err {
                Err(output_layout_spec(spec_re)->Err_0)
            } else if output_layout_spec(spec_im) is Err {
                Err(output_layout_spec(spec_im)->Err_0)
            } else {
                Ok(rows as usize)
            },
        }
    }
}

/// Validates the bindings of an `n`-point transform along `dim` that reads
/// `used` samples or bins, and returns the number of batch rows.
pub fn validate(
    signal: &BindingLayout,
    spec_re: &BindingLayout,
    spec_im: &BindingLayout,
    dim: usize,
    n: usize,
    used: usize,
    inverse: bool,
) -> (r: Result<usize, FftError>)
    ensures
        r == validate_spec(*signal, *spec_re, *spec_im, dim as nat, n as nat, used as nat, inverse),
{
    check_binding(signal)?;
    check_binding(spec_re)?;
    check_binding(spec_im)?;
    if dim >= signal.shape.len() || signal.shape.len() != spec_re.shape.len()
        || !shapes_equal(&spec_re.shape, &spec_im.shape) {
        return Err(FftError::InvalidDimension);
    }
    let bins = n / 2 + 1;
    if (!inverse && spec_re.shape[dim] != bins) || (inverse && signal.shape[dim] != n)
        || (!inverse && (used > signal.shape[dim] || used > n))
        || (inverse && (used == 0 || used > spec_re.shape[dim] || used > bins)) {
        return Err(FftError::LengthMismatch);
    }
    let rank = signal.shape.len();
    let mut rows: usize = 1;
    let mut axis: usize = 0;
    while axis < rank
        invariant
            axis <= rank,
            rank == signal.shape@.len(),
            rank == spec_re.shape@.len(),
            dim < rank,
            batch_rows(signal.shape@, spec_re.shape@, dim as nat, axis as nat) == Ok::<nat, FftError>(rows as nat),
            check_binding_spec(*signal) is Ok,
            check_binding_spec(*spec_re) is Ok,
            check_binding_spec(*spec_im) is Ok,
            spec_re.shape@ == spec_im.shape@,
            lengths_match(*signal, *spec_re, dim as nat, n as nat, used as nat, inverse),
        decreases rank - axis,
    {
        proof {
            if batch_rows(signal.shape@, spec_re.shape@, dim as nat, (axis + 1) as nat) is Err {
                lemma_batch_rows_err_sticky(signal.shape@, spec_re.shape@, dim as nat, (axis + 1) as nat, rank as nat);
            }
        }
        if axis != dim {
            if signal.shape[axis] != spec_re.shape[axis] {
                return Err(FftError::BatchShapeMismatch);
            }
            rows = match rows.checked_mul(signal.shape[axis]) {
                Some(v) => v,
                None => return Err(FftError::BatchOverflow),
            };
        }
        axis = axis + 1;
    }
    let widest = if n >= bins { n } else { bins };
    match rows.checked_mul(widest) {
        Some(v) => {
            if v > u32::MAX as usize {
                return Err(FftError::IndexingOverflow);
            }
        }
        None => return Err(FftError::IndexingOverflow),
    }
    if inverse {
        check_output_layout(signal)?;
    } else {
        check_output_layout(spec_re)?;
        check_output_layout(spec_im)?;
    }
    Ok(rows)
}

/// Whether two shapes are equal.
pub fn shapes_equal(a: &Vec<usize>, b: &Vec<usize>) -> (r: bool)
    ensures
        r == (a@ == b@),
{
    if a.len() != b.len() {
        return false;
    }
    let mut i: usize = 0;
    while i < a.len()
        invariant
            i <= a@.len(),
            a@.len() == b@.len(),
            forall|k: int| 0 <= k < i ==> a@[k] == b@[k],
        decreases a@.len() - i,
    {
        if a[i] != b[i] {
            return false;
        }
        i = i + 1;
    }
    proof {
        assert(a@ =~= b@);
    }
    true
}

/// The offset of the element with index `xs[i]` along axis `i`, axes given
/// as `(stride, size)` pairs.
pub open spec fn axes_offset(axes: Seq<(usize, usize)>, xs: Seq<nat>) -> nat
    decreases axes.len(),
{
    if axes.len() == 0 || xs.len() == 0 {
        0
    } else {
        xs[0] * (axes[0].0 as nat) + axes_offset(axes.drop_first(), xs.drop_first())
    }
}

/// `xs` indexes an element: one index per axis, each below the axis size.
pub open spec fn indexes_element(axes: Seq<(usize, usize)>, xs: Seq<nat>) -> bool {
    xs.len() == axes.len() && forall|i: int| 0 <= i < xs.len() ==> #[trigger] xs[i] < axes[i].1
}

proof fn lemma_scan_injective(axes: Seq<(usize, usize)>, span: nat, c1: nat, c2: nat, xs: Seq<nat>, ys: Seq<nat>)
    requires
        overlap_scan(axes, span) is Ok,
        c1 < span,
        c2 < span,
        indexes_element(axes, xs),
        indexes_element(axes, ys),
        c1 + axes_offset(axes, xs) == c2 + axes_offset(axes, ys),
    ensures
        c1 == c2,
        xs == ys,
    decreases axes.len(),
{
    if axes.len() == 0 {
    } else {
        let t = axes[0].0 as nat;
        let sz = axes[0].1 as nat;
        let next = ((axes[0].1 - 1) * axes[0].0) as nat + span;
        let d1 = c1 + xs[0] * t;
        let d2 = c2 + ys[0] * t;
        assert(xs[0] * t <= (sz - 1) * t) by (nonlinear_arith)
            requires
                xs[0] < sz,
        ;
        assert(ys[0] * t <= (sz - 1) * t) by (nonlinear_arith)
            requires
                ys[0] < sz,
        ;
        let rx = xs.drop_first();
        let ry = ys.drop_first();
        lemma_scan_injective(axes.drop_first(), next, d1, d2, rx, ry);
        vstd::arithmetic::div_mod::lemma_fundamental_div_mod_converse(d1 as int, t as int, xs[0] as int, c1 as int);
        vstd::arithmetic::div_mod::lemma_fundamental_div_mod_converse(d2 as int, t as int, ys[0] as int, c2 as int);
        assert(xs =~= seq![xs[0]] + rx);
    }
}

/// An output layout that the overlap check accepts holds every element at
/// its own offset: two indexes within the axis sizes that reach the same
/// offset are the same index. The axes are those of size above one, in the
/// order the check walks them; axes of size one hold index zero only.
pub proof fn lemma_accepted_layout_injective(b: BindingLayout, xs: Seq<nat>, ys: Seq<nat>)
    requires
        output_layout_spec(b) is Ok,
        indexes_element(spread_axes(b.shape@, b.strides@, b.shape@.len()).sort_by(axis_order()), xs),
        indexes_element(spread_axes(b.shape@, b.strides@, b.shape@.len()).sort_by(axis_order()), ys),
        axes_offset(spread_axes(b.shape@, b.strides@, b.shape@.len()).sort_by(axis_order()), xs)
            == axes_offset(spread_axes(b.shape@, b.strides@, b.shape@.len()).sort_by(axis_order()), ys),
    ensures
        xs == ys,
{
    lemma_scan_injective(spread_axes(b.shape@, b.strides@, b.shape@.len()).sort_by(axis_order()), 1, 0, 0, xs, ys);
}

/// The sizes of a contiguous tensor of `shape` fit: every tail product in
/// `usize` (its strides and element count) and its byte size in `u64`.
pub open spec fn layout_fits(shape: Seq<usize>) -> bool {
    &&& forall|k: nat| k <= shape.len() ==> #[trigger] tail_product(shape, k) <= usize::MAX
    &&& 4 * tail_product(shape, 0) <= u64::MAX
}

/// `b` is the metadata of a freshly allocated contiguous F32 tensor of
/// `shape`: row-major strides, a buffer of exactly its bytes, no offsets.
pub open spec fn contiguous_layout_of(b: BindingLayout, shape: Seq<usize>) -> bool {
    &&& b.shape@ == shape
    &&& b.strides@.len() == shape.len()
    &&& forall|d: int| 0 <= d < shape.len() ==> #[trigger] b.strides@[d] == tail_product(shape, (d + 1) as nat)
    &&& b.buffer_size == 4 * tail_product(shape, 0)
    &&& b.offset_start is None
    &&& b.offset_end is None
}

/// The metadata of a freshly allocated contiguous F32 tensor of `shape`.
pub fn contiguous_layout(shape: &Vec<usize>) -> (r: BindingLayout)
    requires
        layout_fits(shape@),
    ensures
        contiguous_layout_of(r, shape@),
{
    let len = shape.len();
    let mut strides: Vec<usize> = Vec::new();
    let mut i: usize = 0;
    while i < len
        invariant
            i <= len,
            len == shape@.len(),
            strides@.len() == i,
        decreases len - i,
    {
        strides.push(0);
        i = i + 1;
    }
    let mut product: usize = 1;
    let mut a: usize = len;
    while a > 0
        invariant
            a <= len,
            len == shape@.len(),
            strides@.len() == len,
            layout_fits(shape@),
            product == tail_product(shape@, a as nat),
            forall|d: int| a <= d < len ==> #[trigger] strides@[d] == tail_product(shape@, (d + 1) as nat),
        decreases a,
    {
        strides.set(a - 1, product);
        proof {
            assert(tail_product(shape@, (a - 1) as nat) <= usize::MAX);
        }
        product = shape[a - 1] * product;
        a = a - 1;
    }
    let mut dims: Vec<usize> = Vec::new();
    let mut j: usize = 0;
    while j < len
        invariant
            j <= len,
            len == shape@.len(),
            dims@ == shape@.subrange(0, j as int),
        decreases len - j,
    {
        dims.push(shape[j]);
        j = j + 1;
    }
    proof {
        assert(dims@ =~= shape@);
    }
    BindingLayout { shape: dims, strides, buffer_size: (product as u64) * 4, offset_start: None, offset_end: None }
}

} // verus!
