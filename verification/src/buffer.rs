use vstd::prelude::*;

use crate::error::BridgeError;

verus! {

/// The number of elements that a buffer of the given shape holds.
pub open spec fn shape_product(shape: Seq<usize>) -> nat
    decreases shape.len(),
{
    if shape.len() == 0 {
        1
    } else {
        shape_product(shape.drop_last()) * (shape.last() as nat)
    }
}

/// Multiplying the dimensions from the first onwards never exceeds the
/// machine word: the running product of every prefix fits in a `usize`.
pub open spec fn product_fits(shape: Seq<usize>) -> bool {
    forall|k: int| 0 <= k <= shape.len() ==> #[trigger] shape_product(shape.take(k)) <= usize::MAX
}

/// The error that reports a length that does not match a shape.
pub open spec fn is_shape_mismatch(e: BridgeError, expected: Seq<usize>, got: Seq<usize>) -> bool {
    e matches BridgeError::ShapeMismatch { expected: x, got: g } && x@ == expected && g@ == got
}

/// The product of all dimensions, as the running product from the left.
fn product_of(shape: &Vec<usize>) -> (p: usize)
    requires
        product_fits(shape@),
    ensures
        p == shape_product(shape@),
{
    let mut acc: usize = 1;
    let mut i: usize = 0;
    assert(shape@.take(0) =~= Seq::<usize>::empty());
    while i < shape.len()
        invariant
            i <= shape@.len(),
            product_fits(shape@),
            acc == shape_product(shape@.take(i as int)),
        decreases shape@.len() - i,
    {
        assert(shape@.take(i + 1).drop_last() =~= shape@.take(i as int));
        assert(shape_product(shape@.take(i + 1)) <= usize::MAX);
        acc = acc * shape[i];
        i = i + 1;
    }
    assert(shape@.take(shape@.len() as int) =~= shape@);
    acc
}

/// The product of all dimensions, or `None` when a running product from
/// the left exceeds the machine word.
pub fn checked_product(shape: &[usize]) -> (r: Option<usize>)
    ensures
        r is Some <==> product_fits(shape@),
        r matches Some(p) ==> p == shape_product(shape@),
{
    let mut acc: usize = 1;
    let mut i: usize = 0;
    assert(shape@.take(0) =~= Seq::<usize>::empty());
    while i < shape.len()
        invariant
            i <= shape@.len(),
            acc == shape_product(shape@.take(i as int)),
            forall|k: int| 0 <= k <= i ==> #[trigger] shape_product(shape@.take(k)) <= usize::MAX,
        decreases shape@.len() - i,
    {
        assert(shape@.take(i + 1).drop_last() =~= shape@.take(i as int));
        match acc.checked_mul(shape[i]) {
            Some(p) => {
                acc = p;
            },
            None => {
                assert(!(shape_product(shape@.take(i + 1)) <= usize::MAX));
                return None;
            },
        }
        i = i + 1;
    }
    assert(shape@.take(shape@.len() as int) =~= shape@);
    Some(acc)
}

/// Adding a dimension multiplies the element count by it, at every rank:
/// the count of a shape is the product of all its dimensions.
pub proof fn law_shape_product_push(s: Seq<usize>, d: usize)
    ensures
        shape_product(s.push(d)) == shape_product(s) * d,
{
    assert(s.push(d).drop_last() =~= s);
}

/// The empty shape holds one element, and a shape holds no element exactly
/// when one of its dimensions is zero.
pub proof fn law_shape_product_zero(s: Seq<usize>)
    ensures
        shape_product(Seq::<usize>::empty()) == 1,
        shape_product(s) == 0 <==> exists|i: int| 0 <= i < s.len() && s[i] == 0,
    decreases s.len(),
{
    if s.len() > 0 {
        law_shape_product_zero(s.drop_last());
        let p = shape_product(s.drop_last());
        let d = s.last() as nat;
        assert(p * d == 0 <==> (p == 0 || d == 0)) by (nonlinear_arith);
        if exists|i: int| 0 <= i < s.len() && s[i] == 0 {
            let i = choose|i: int| 0 <= i < s.len() && s[i] == 0;
            if i < s.len() - 1 {
                assert(s.drop_last()[i] == 0);
            }
        }
        if exists|i: int| 0 <= i < s.drop_last().len() && s.drop_last()[i] == 0 {
            let i = choose|i: int| 0 <= i < s.drop_last().len() && s.drop_last()[i] == 0;
            assert(s[i] == 0);
        }
    }
}

/// A one-dimensional shape holds as many elements as its one dimension,
/// and always fits: a flat buffer is the buffer made with the shape
/// `[len]`.
pub proof fn law_flat_shape(n: usize)
    ensures
        shape_product(seq![n]) == n,
        product_fits(seq![n]),
{
    let s = seq![n];
    assert(s.drop_last() =~= Seq::<usize>::empty());
    assert(shape_product(Seq::<usize>::empty()) == 1);
    assert(shape_product(s) == shape_product(Seq::<usize>::empty()) * (n as nat));
    assert forall|k: int| 0 <= k <= s.len() implies #[trigger] shape_product(s.take(k)) <= usize::MAX by {
        if k == 0 {
            assert(s.take(k) =~= Seq::<usize>::empty());
        } else {
            assert(s.take(k) =~= s);
        }
    }
}

/// A list holding one size.
pub(crate) fn single_size(x: usize) -> (v: Vec<usize>)
    ensures
        v@ == seq![x],
{
    let mut v: Vec<usize> = Vec::new();
    v.push(x);
    assert(v@ =~= seq![x]);
    v
}

/// A typed buffer backed by unified memory.
///
/// On systems without a GPU this is a host `Vec<T>` with a shape.
pub struct UnifiedBuffer<T> {
    data: Vec<T>,
    shape: Vec<usize>,
}

impl<T> UnifiedBuffer<T> {
    /// The elements, in row-major order.
    pub closed spec fn data_view(&self) -> Seq<T> {
        self.data@
    }

    /// The dimensions.
    pub closed spec fn shape_view(&self) -> Seq<usize> {
        self.shape@
    }

    /// The number of elements agrees with the shape.
    pub open spec fn is_consistent(&self) -> bool {
        self.data_view().len() == shape_product(self.shape_view())
    }
}

impl<T: Clone> UnifiedBuffer<T> {
    /// A buffer of the given elements and shape; fails when the number of
    /// elements is not the product of the dimensions.
    pub fn new(data: Vec<T>, shape: Vec<usize>) -> (r: Result<Self, BridgeError>)
        requires
            product_fits(shape@),
        ensures
            r is Ok <==> data@.len() == shape_product(shape@),
            r matches Ok(b) ==> b.data_view() == data@ && b.shape_view() == shape@,
            r matches Err(e) ==> is_shape_mismatch(
                e,
                seq![shape_product(shape@) as usize],
                seq![data@.len() as usize],
            ),
    {
        let expected_len = product_of(&shape);
        if data.len() != expected_len {
            return Err(
                BridgeError::ShapeMismatch {
                    expected: single_size(expected_len),
                    got: single_size(data.len()),
                },
            );
        }
        Ok(UnifiedBuffer { data, shape })
    }

    /// A one-dimensional buffer over the given elements.
    pub fn from_flat(data: Vec<T>) -> (b: Self)
        ensures
            b.data_view() == data@,
            b.shape_view() == seq![data@.len() as usize],
            b.is_consistent(),
    {
        let len = data.len();
        let b = UnifiedBuffer { data, shape: single_size(len) };
        assert(b.shape_view().drop_last() =~= Seq::<usize>::empty());
        assert(shape_product(Seq::<usize>::empty()) == 1);
        assert(b.shape_view().last() == len);
        assert(shape_product(b.shape_view()) == shape_product(Seq::<usize>::empty()) * (len as nat));
        assert(b.data_view().len() == len);
        b
    }

    /// The elements, in row-major order.
    pub fn data(&self) -> (r: &[T])
        ensures
            r@ == self.data_view(),
    {
        self.data.as_slice()
    }

    /// Mutable access to the elements.  The shape is left as it is, so a
    /// change of length makes the buffer inconsistent.
    pub fn data_mut(&mut self) -> (r: &mut Vec<T>)
        ensures
            r@ == old(self).data_view(),
            final(self).data_view() == final(r)@,
            final(self).shape_view() == old(self).shape_view(),
    {
        &mut self.data
    }

    /// The dimensions.
    pub fn shape(&self) -> (r: &[usize])
        ensures
            r@ == self.shape_view(),
    {
        self.shape.as_slice()
    }

    /// The number of elements.
    pub fn len(&self) -> (r: usize)
        ensures
            r == self.data_view().len(),
    {
        self.data.len()
    }

    /// Whether the buffer holds no element.
    pub fn is_empty(&self) -> (r: bool)
        ensures
            r <==> self.data_view().len() == 0,
    {
        self.data.is_empty()
    }

    /// The same elements under another shape; fails, reporting the
    /// requested shape as expected and the current one as found, when the
    /// new shape does not hold exactly the current number of elements.
    pub fn reshape(self, new_shape: Vec<usize>) -> (r: Result<Self, BridgeError>)
        requires
            product_fits(new_shape@),
        ensures
            r is Ok <==> shape_product(new_shape@) == self.data_view().len(),
            r matches Ok(b) ==> b.data_view() == self.data_view() && b.shape_view() == new_shape@,
            r matches Err(e) ==> is_shape_mismatch(e, new_shape@, self.shape_view()),
    {
        let expected = product_of(&new_shape);
        if expected != self.data.len() {
            return Err(BridgeError::ShapeMismatch { expected: new_shape, got: self.shape });
        }
        let mut this = self;
        this.shape = new_shape;
        Ok(this)
    }
}

} // verus!
