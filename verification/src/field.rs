//! A vector that represents a two-dimensional field.

use vstd::prelude::*;
use vstd::std_specs::slice::into_iter_elts;

verus! {

/// The iterator of std over a slice that hands out each element for
/// change. Nothing inside it is seen here.
#[verifier::external_type_specification]
#[verifier::external_body]
#[verifier::reject_recursive_types(T)]
pub struct ExIterMut<'a, T: 'a>(core::slice::IterMut<'a, T>);

/// `Vec::iter_mut` (by way of the slice): the iterator hands out every
/// element once, in order, for change; none is added or removed, so the
/// length stays.
#[verifier::external_body]
fn vec_iter_mut<T>(v: &mut Vec<T>) -> (it: core::slice::IterMut<'_, T>)
    ensures
        final(v)@.len() == old(v)@.len(),
{
    v.iter_mut()
}

/// `Vec<T>` that represents a 2D field, stored row by row.
#[derive(Clone)]
pub struct Field<T> {
    data: Vec<T>,
    width: usize,
    height: usize,
}

impl<T> View for Field<T> {
    type V = Seq<T>;

    /// The elements, row by row.
    closed spec fn view(&self) -> Seq<T> {
        self.data@
    }
}

impl<T> Default for Field<T> {
    /// The field of no rows and no columns.
    fn default() -> (f: Self)
        ensures
            f@.len() == 0,
            f.spec_width() == 0,
            f.spec_height() == 0,
    {
        Self { data: Vec::new(), width: 0, height: 0 }
    }
}

impl<T> Field<T> {
    pub closed spec fn spec_width(&self) -> usize {
        self.width
    }

    pub closed spec fn spec_height(&self) -> usize {
        self.height
    }

    /// An iterator on the items, row by row.
    pub fn iter(&self) -> (it: core::slice::Iter<'_, T>)
        ensures
            into_iter_elts(it) == self@,
    {
        broadcast use vstd::std_specs::slice::axiom_spec_slice_iter;

        let it = self.data.iter();
        proof {
            assert(self.data@.as_ref().unref() =~= self.data@);
        }
        it
    }

    /// An iterator on the items, row by row, that hands out each for
    /// change. Width, height and the number of items stay.
    pub fn iter_mut(&mut self) -> (it: core::slice::IterMut<'_, T>)
        ensures
            final(self).spec_width() == old(self).spec_width(),
            final(self).spec_height() == old(self).spec_height(),
            final(self)@.len() == old(self)@.len(),
    {
        vec_iter_mut(&mut self.data)
    }

    /// Constructs a `height` by `width` field with `data`. Returns `None`
    /// exactly when the size of `data` is not `height * width`.
    pub fn with_vec(width: usize, height: usize, data: Vec<T>) -> (f: Option<Self>)
        ensures
            f is Some <==> data@.len() == width * height,
            f matches Some(field) ==> field@ == data@ && field.spec_width() == width
                && field.spec_height() == height,
    {
        let n = data.len();
        match width.checked_mul(height) {
            Some(size) => {
                if n == size {
                    Some(Self { data, width, height })
                } else {
                    None
                }
            },
            None => {
                None
            },
        }
    }

    /// Returns the width of the field.
    pub fn width(&self) -> (w: usize)
        ensures
            w == self.spec_width(),
    {
        self.width
    }

    /// Returns the height of the field.
    pub fn height(&self) -> (h: usize)
        ensures
            h == self.spec_height(),
    {
        self.height
    }

    /// Returns a reference to an element, or `None` past the end.
    pub fn peek(&self, index: usize) -> (r: Option<&T>)
        ensures
            index < self@.len() ==> r == Some(&self@[index as int]),
            index >= self@.len() ==> r is None,
    {
        if index < self.data.len() {
            Some(&self.data[index])
        } else {
            None
        }
    }

    /// Returns a mutable reference to an element, or `None` past the end.
    pub fn peek_mut(&mut self, index: usize) -> (r: Option<&mut T>)
        ensures
            final(self).spec_width() == old(self).spec_width(),
            final(self).spec_height() == old(self).spec_height(),
            index >= old(self)@.len() ==> r is None && final(self)@ == old(self)@,
            index < old(self)@.len() ==> r is Some && *r->0 == old(self)@[index as int] && final(self)@ == old(self)@.update(index as int, *final(r->0)),
    {
        if index < self.data.len() {
            Some(&mut self.data[index])
        } else {
            None
        }
    }

    /// Replaces an element with `value` and returns the element; past the
    /// end nothing changes and `None` is returned.
    pub fn replace(&mut self, index: usize, value: T) -> (r: Option<T>)
        ensures
            final(self).spec_width() == old(self).spec_width(),
            final(self).spec_height() == old(self).spec_height(),
            index >= old(self)@.len() ==> r is None && final(self)@ == old(self)@,
            index < old(self)@.len() ==> r == Some(old(self)@[index as int]) && final(self)@
                == old(self)@.update(index as int, value),
    {
        if index < self.data.len() {
            let mut v = value;
            core::mem::swap(&mut self.data[index], &mut v);
            Some(v)
        } else {
            None
        }
    }

    /// Returns the xy-coordinates of an index in the field.
    pub fn locate(&self, index: usize) -> (xy: (usize, usize))
        requires
            self.spec_width() > 0,
        ensures
            xy.0 == index % self.spec_width(),
            xy.1 == index / self.spec_width(),
    {
        (index % self.width, index / self.width)
    }

    /// Returns the index of the xy-coordinates in the field.
    pub fn index_at(&self, x: usize, y: usize) -> (i: usize)
        requires
            self.spec_width() * y + x <= usize::MAX,
        ensures
            i == self.spec_width() * y + x,
    {
        assert(self.width * y <= self.width * y + x);
        self.width * y + x
    }

    /// The number of elements.
    pub fn len(&self) -> (n: usize)
        ensures
            n == self@.len(),
    {
        self.data.len()
    }
}

impl<T: Default> Field<T> {
    /// Constructs a `height` by `width` field, each slot filled with the
    /// default value of its element type.
    pub fn with_default(width: usize, height: usize) -> (f: Self)
        requires
            width * height <= usize::MAX,
        ensures
            f@.len() == width * height,
            f.spec_width() == width,
            f.spec_height() == height,
            forall|i: int| 0 <= i < f@.len() ==> call_ensures(T::default, (), #[trigger] f@[i]),
    {
        let size = width * height;
        let mut data: Vec<T> = Vec::new();
        let mut i: usize = 0;
        while i < size
            invariant
                i <= size,
                data.len() == i,
                forall|j: int| 0 <= j < data@.len() ==> call_ensures(T::default, (), #[trigger] data@[j]),
            decreases size - i,
        {
            data.push(T::default());
            i += 1;
        }
        Self { data, width, height }
    }
}

impl<T: Clone> Field<T> {
    /// Constructs a `height` by `width` field, each slot filled with a clone
    /// of `value`.
    pub fn with_initial(width: usize, height: usize, value: T) -> (f: Self)
        requires
            width * height <= usize::MAX,
        ensures
            f@.len() == width * height,
            f.spec_width() == width,
            f.spec_height() == height,
            forall|i: int| 0 <= i < f@.len() ==> cloned(value, #[trigger] f@[i]),
    {
        let size = width * height;
        let mut data: Vec<T> = Vec::new();
        let mut i: usize = 0;
        while i < size
            invariant
                i <= size,
                data.len() == i,
                forall|j: int| 0 <= j < data@.len() ==> cloned(value, #[trigger] data@[j]),
            decreases size - i,
        {
            data.push(value.clone());
            i += 1;
        }
        Self { data, width, height }
    }

    /// Returns a clone of an element, or `None` past the end.
    pub fn get(&self, index: usize) -> (r: Option<T>)
        ensures
            index >= self@.len() ==> r is None,
            index < self@.len() ==> r is Some && cloned(self@[index as int], r->0),
    {
        if index < self.data.len() {
            Some(self.data[index].clone())
        } else {
            None
        }
    }

    /// Assigns a clone of `value` to a slot; past the end nothing changes.
    pub fn set(&mut self, index: usize, value: &T)
        ensures
            final(self).spec_width() == old(self).spec_width(),
            final(self).spec_height() == old(self).spec_height(),
            index >= old(self)@.len() ==> final(self)@ == old(self)@,
            index < old(self)@.len() ==> final(self)@.len() == old(self)@.len() && cloned(
                *value,
                final(self)@[index as int],
            ) && forall|i: int|
                0 <= i < old(self)@.len() && i != index ==> final(self)@[i] == old(self)@[i],
    {
        if index < self.data.len() {
            self.data.set(index, value.clone());
        }
    }
}

} // verus!
