use vstd::prelude::*;

verus! {

/// Number of elements of a tensor of the given shape: the product of its dimensions.
pub open spec fn product(shape: Seq<usize>) -> nat
    decreases shape.len(),
{
    if shape.len() == 0 {
        1
    } else {
        (shape[0] as nat) * product(shape.drop_first())
    }
}

/// Row-major stride of dimension `i`: the product of the dimensions after it.
pub open spec fn stride_at(shape: Seq<usize>, i: int) -> nat {
    product(shape.subrange(i + 1, shape.len() as int))
}

/// Every row-major stride of `shape` fits in a `usize`.
pub open spec fn strides_fit(shape: Seq<usize>) -> bool {
    forall|i: int| 0 <= i < shape.len() ==> #[trigger] stride_at(shape, i) <= usize::MAX
}

/// Returns the row-major strides of `shape`: the stride of a dimension is the
/// product of all dimensions after it, so the last one has stride 1.
pub fn compute_strides(shape: &Vec<usize>) -> (r: Vec<usize>)
    requires
        strides_fit(shape@),
    ensures
        r@.len() == shape@.len(),
        forall|i: int| 0 <= i < shape@.len() ==> r@[i] == stride_at(shape@, i),
{
    let n = shape.len();
    let mut r: Vec<usize> = Vec::new();
    let mut k: usize = 0;
    while k < n
        invariant
            k <= n,
            n == shape@.len(),
            strides_fit(shape@),
            r@.len() == k,
            forall|j: int| 0 <= j < k ==> r@[j] == 0,
        decreases n - k,
    {
        r.push(0);
        k = k + 1;
    }
    let mut acc: usize = 1;
    let mut i: usize = n;
    while i > 0
        invariant
            i <= n,
            n == shape@.len(),
            r@.len() == n,
            strides_fit(shape@),
            i > 0 ==> acc as nat == product(shape@.subrange(i as int, n as int)),
            forall|j: int| i <= j < n ==> r@[j] == stride_at(shape@, j),
        decreases i,
    {
        i = i - 1;
        assert(shape@.subrange(i as int + 1, n as int) == shape@.subrange(i as int, n as int).drop_first()) by {
            assert(shape@.subrange(i as int + 1, n as int) =~= shape@.subrange(i as int, n as int).drop_first());
        }
        assert(stride_at(shape@, i as int) <= usize::MAX);
        r.set(i, acc);
        if i > 0 {
            assert(stride_at(shape@, i as int - 1) <= usize::MAX);
            assert(shape@.subrange(i as int - 1 + 1, n as int) == shape@.subrange(i as int, n as int));
            let ghost tail = product(shape@.subrange(i as int + 1, n as int));
            let ghost whole = product(shape@.subrange(i as int, n as int));
            assert(whole == (shape@[i as int] as nat) * tail);
            assert((acc as nat) * (shape@[i as int] as nat) == whole) by (nonlinear_arith)
                requires
                    acc as nat == tail,
                    whole == (shape@[i as int] as nat) * tail,
            ;
            acc = acc * shape[i];
        }
    }
    r
}

} // verus!

verus! {

/// Size of the `k`-th dimension counted from the innermost one; dimensions
/// that `shape` lacks on the left count as size 1.
pub open spec fn dim_from_right(shape: Seq<usize>, k: int) -> nat {
    if 0 <= k < shape.len() {
        shape[shape.len() - 1 - k] as nat
    } else {
        1
    }
}

pub open spec fn max_len(a: Seq<usize>, b: Seq<usize>) -> nat {
    if a.len() >= b.len() {
        a.len()
    } else {
        b.len()
    }
}

/// Two right-aligned dimensions can be broadcast together: they are equal,
/// or one of them is 1.
pub open spec fn dims_compatible(da: nat, db: nat) -> bool {
    da == db || da == 1 || db == 1
}

/// The shapes can be broadcast together: every aligned pair of dimensions is compatible.
pub open spec fn broadcastable(a: Seq<usize>, b: Seq<usize>) -> bool {
    forall|k: int|
        0 <= k < max_len(a, b) ==> dims_compatible(
            #[trigger] dim_from_right(a, k),
            dim_from_right(b, k),
        )
}

/// The common shape of two broadcastable shapes: right-aligned, and at each
/// position the larger of the two dimensions.
pub open spec fn broadcast_dims(a: Seq<usize>, b: Seq<usize>) -> Seq<usize> {
    let n = max_len(a, b) as int;
    Seq::new(
        n as nat,
        |i: int|
            if dim_from_right(a, n - 1 - i) >= dim_from_right(b, n - 1 - i) {
                dim_from_right(a, n - 1 - i) as usize
            } else {
                dim_from_right(b, n - 1 - i) as usize
            },
    )
}

/// Two shapes that cannot be broadcast together.
pub struct BroadcastError {
    pub shape_a: Vec<usize>,
    pub shape_b: Vec<usize>,
}

/// Unifies two shapes under the broadcasting rule: shapes are aligned at the
/// innermost dimension, missing leading dimensions count as 1, and a dimension
/// of size 1 stretches to match the other. Fails, naming both shapes, exactly
/// when some aligned pair differs with neither side equal to 1.
pub fn determine_broadcast_shape(shape_a: &Vec<usize>, shape_b: &Vec<usize>) -> (r: Result<
    Vec<usize>,
    BroadcastError,
>)
    ensures
        r is Ok <==> broadcastable(shape_a@, shape_b@),
        r matches Ok(s) ==> s@ == broadcast_dims(shape_a@, shape_b@),
        r matches Err(e) ==> e.shape_a@ == shape_a@ && e.shape_b@ == shape_b@,
{
    let la = shape_a.len();
    let lb = shape_b.len();
    let n: usize = if la >= lb {
        la
    } else {
        lb
    };
    let mut r: Vec<usize> = Vec::new();
    let mut j: usize = 0;
    while j < n
        invariant
            j <= n,
            r@.len() == j,
        decreases n - j,
    {
        r.push(0);
        j = j + 1;
    }
    let mut k: usize = 0;
    while k < n
        invariant
            k <= n,
            n == max_len(shape_a@, shape_b@),
            la == shape_a@.len(),
            lb == shape_b@.len(),
            r@.len() == n,
            forall|q: int|
                0 <= q < k ==> dims_compatible(
                    #[trigger] dim_from_right(shape_a@, q),
                    dim_from_right(shape_b@, q),
                ),
            forall|i: int|
                n - k <= i < n ==> r@[i] == #[trigger] broadcast_dims(shape_a@, shape_b@)[i],
        decreases n - k,
    {
        let da: usize = if k < la {
            shape_a[la - 1 - k]
        } else {
            1
        };
        let db: usize = if k < lb {
            shape_b[lb - 1 - k]
        } else {
            1
        };
        assert(da as nat == dim_from_right(shape_a@, k as int));
        assert(db as nat == dim_from_right(shape_b@, k as int));
        if da != db && da != 1 && db != 1 {
            return Err(BroadcastError { shape_a: shape_a.clone(), shape_b: shape_b.clone() });
        }
        let d: usize = if da >= db {
            da
        } else {
            db
        };
        r.set(n - 1 - k, d);
        k = k + 1;
    }
    assert(r@ =~= broadcast_dims(shape_a@, shape_b@));
    Ok(r)
}

/// Every dimension of `shape` is at least 1.
pub open spec fn all_positive(shape: Seq<usize>) -> bool {
    forall|i: int| 0 <= i < shape.len() ==> #[trigger] shape[i] >= 1
}

pub proof fn lemma_product_split(s: Seq<usize>, e: int)
    requires
        0 <= e < s.len(),
    ensures
        product(s.subrange(e, s.len() as int)) == (s[e] as nat) * product(
            s.subrange(e + 1, s.len() as int),
        ),
{
    assert(s.subrange(e, s.len() as int).drop_first() =~= s.subrange(e + 1, s.len() as int));
}

/// With no dimension below 1, the elements spanned from dimension `i` on
/// never outnumber the whole tensor.
pub proof fn lemma_suffix_product_bounded(s: Seq<usize>, i: int)
    requires
        all_positive(s),
        0 <= i <= s.len(),
    ensures
        1 <= product(s.subrange(i, s.len() as int)) <= product(s),
    decreases i,
{
    if i == 0 {
        assert(s.subrange(0, s.len() as int) =~= s);
        lemma_suffix_product_bounded_tail(s, 0);
    } else {
        lemma_suffix_product_bounded(s, i - 1);
        lemma_product_split(s, i - 1);
        lemma_suffix_product_bounded_tail(s, i);
        let p = product(s.subrange(i, s.len() as int));
        assert(p <= (s[i - 1] as nat) * p) by (nonlinear_arith)
            requires
                s[i - 1] >= 1,
        ;
    }
}

proof fn lemma_suffix_product_bounded_tail(s: Seq<usize>, i: int)
    requires
        all_positive(s),
        0 <= i <= s.len(),
    ensures
        1 <= product(s.subrange(i, s.len() as int)),
    decreases s.len() - i,
{
    if i < s.len() {
        lemma_suffix_product_bounded_tail(s, i + 1);
        lemma_product_split(s, i);
        let p = product(s.subrange(i + 1, s.len() as int));
        assert(1 <= (s[i] as nat) * p) by (nonlinear_arith)
            requires
                s[i] >= 1,
                p >= 1,
        ;
    } else {
        assert(s.subrange(i, s.len() as int) =~= Seq::<usize>::empty());
    }
}

/// A shape with no dimension below 1 whose element count fits in a `usize`
/// has strides that fit too.
pub proof fn lemma_strides_fit(s: Seq<usize>)
    requires
        all_positive(s),
        product(s) <= usize::MAX,
    ensures
        strides_fit(s),
{
    assert forall|i: int| 0 <= i < s.len() implies #[trigger] stride_at(s, i) <= usize::MAX by {
        lemma_suffix_product_bounded(s, i + 1);
    }
}

/// Whether `shape` holds exactly `len` elements.
pub fn holds_elements(shape: &Vec<usize>, len: usize) -> (r: bool)
    requires
        all_positive(shape@),
    ensures
        r == (product(shape@) == len),
{
    let n = shape.len();
    if len == 0 {
        proof {
            lemma_suffix_product_bounded(shape@, 0);
            assert(shape@.subrange(0, n as int) =~= shape@);
        }
        return false;
    }
    let mut acc: usize = 1;
    let mut i: usize = n;
    assert(shape@.subrange(n as int, n as int) =~= Seq::<usize>::empty());
    while i > 0
        invariant
            i <= n,
            n == shape@.len(),
            all_positive(shape@),
            acc as nat == product(shape@.subrange(i as int, n as int)),
            acc <= len,
        decreases i,
    {
        i = i - 1;
        let d = shape[i];
        proof {
            lemma_product_split(shape@, i as int);
            lemma_suffix_product_bounded(shape@, i as int);
        }
        if acc > len / d {
            proof {
                assert((acc as nat) * (d as nat) > len) by (nonlinear_arith)
                    requires
                        acc > len / d,
                        d >= 1,
                ;
                assert(product(shape@.subrange(i as int, n as int)) == (acc as nat) * (d as nat)) by (nonlinear_arith)
                    requires
                        product(shape@.subrange(i as int, n as int)) == (d as nat) * (acc as nat),
                ;
            }
            return false;
        }
        assert((acc as nat) * (d as nat) <= len) by (nonlinear_arith)
            requires
                acc <= len / d,
                d >= 1,
        ;
        assert((acc as nat) * (d as nat) == (d as nat) * (acc as nat)) by (nonlinear_arith);
        acc = acc * d;
    }
    assert(shape@.subrange(0, n as int) =~= shape@);
    acc == len
}

} // verus!
