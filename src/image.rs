//! A dense grid of 16-bit event counts, held in an ndarray `Array2<u16>`.
use crate::decode::zero_image;
use vstd::prelude::*;

verus! {

/// A `height` by `width` grid of counts.
#[verifier::external_body]
pub struct CountImage {
    counts: ndarray::Array2<u16>,
}

/// The counts of an image, row after row.
pub uninterp spec fn image_counts(img: CountImage) -> Seq<u16>;

/// The number of rows of an image.
pub uninterp spec fn image_height(img: CountImage) -> nat;

/// The number of pixels in each row of an image.
pub uninterp spec fn image_width(img: CountImage) -> nat;

/// An image's dimensions agree with its contents.
pub open spec fn image_wf(img: CountImage) -> bool {
    image_counts(img).len() == image_height(img) * image_width(img)
}

/// The row-major index of the pixel at `(row, col)` of an image `width` wide.
pub open spec fn flat_index(row: nat, col: nat, width: nat) -> int {
    (row * width + col) as int
}

impl CountImage {
    /// Relies on ndarray's `Array2::zeros`: an array of the given shape,
    /// every element zero, in standard (row-major) layout. It panics where
    /// the product of the axis lengths overflows `isize`.
    #[verifier::external_body]
    pub(crate) fn zeros(height: usize, width: usize) -> (r: CountImage)
        requires
            height as nat * width as nat <= isize::MAX,
            height <= isize::MAX,
            width <= isize::MAX,
        ensures
            image_wf(r),
            image_height(r) == height,
            image_width(r) == width,
            image_counts(r) == zero_image(height as nat * width as nat),
    {
        CountImage { counts: ndarray::Array2::zeros((height, width)) }
    }

    /// Relies on ndarray's `ArrayBase::dim`: the lengths of the two axes,
    /// rows first.
    #[verifier::external_body]
    pub(crate) fn dim(&self) -> (r: (usize, usize))
        ensures
            r.0 as nat == image_height(*self),
            r.1 as nat == image_width(*self),
    {
        self.counts.dim()
    }

    /// Relies on ndarray's indexing by `[row, col]`: the element at that
    /// place; it panics outside the array.
    #[verifier::external_body]
    pub(crate) fn get(&self, row: usize, col: usize) -> (r: u16)
        requires
            image_wf(*self),
            row < image_height(*self),
            col < image_width(*self),
        ensures
            r == image_counts(*self)[flat_index(row as nat, col as nat, image_width(*self))],
    {
        self.counts[[row, col]]
    }

    /// Relies on ndarray's mutable indexing by `[row, col]`: the element at
    /// that place is replaced and no other; it panics outside the array.
    #[verifier::external_body]
    pub(crate) fn set(&mut self, row: usize, col: usize, value: u16)
        requires
            image_wf(*old(self)),
            row < image_height(*old(self)),
            col < image_width(*old(self)),
        ensures
            image_height(*final(self)) == image_height(*old(self)),
            image_width(*final(self)) == image_width(*old(self)),
            image_counts(*final(self)) == image_counts(*old(self)).update(
                flat_index(row as nat, col as nat, image_width(*old(self))),
                value,
            ),
    {
        self.counts[[row, col]] = value;
    }

    /// The number of rows and the number of pixels in each row.
    pub fn shape(&self) -> (r: (usize, usize))
        ensures
            r.0 as nat == image_height(*self),
            r.1 as nat == image_width(*self),
    {
        self.dim()
    }

    /// An image of `height` rows of `width` pixels holding `counts`, row
    /// after row; `None` where `counts` has another length or the image
    /// would hold more than `isize::MAX` pixels.
    pub fn from_counts(height: usize, width: usize, counts: &Vec<u16>) -> (r: Option<CountImage>)
        ensures
            r is Some <==> (counts@.len() == height as nat * width as nat && counts@.len()
                <= isize::MAX && height <= isize::MAX && width <= isize::MAX),
            r is Some ==> {
                let img = r->Some_0;
                &&& image_wf(img)
                &&& image_height(img) == height
                &&& image_width(img) == width
                &&& image_counts(img) == counts@
            },
    {
        let len = counts.len();
        if len > isize::MAX as usize || height > isize::MAX as usize || width > isize::MAX as usize {
            proof {
                if height > isize::MAX && width > 0 {
                    assert(height as nat * width as nat >= height as nat) by (nonlinear_arith)
                        requires
                            width > 0,
                    ;
                }
                if width > isize::MAX && height > 0 {
                    assert(height as nat * width as nat >= width as nat) by (nonlinear_arith)
                        requires
                            height > 0,
                    ;
                }
            }
            return None;
        }
        if width == 0 {
            if len != 0 {
                return None;
            }
        } else if len % width != 0 || len / width != height {
            proof {
                if len == height as nat * width as nat {
                    vstd::arithmetic::div_mod::lemma_fundamental_div_mod_converse(
                        len as int,
                        width as int,
                        height as int,
                        0,
                    );
                }
            }
            return None;
        }
        proof {
            if width > 0 {
                vstd::arithmetic::div_mod::lemma_fundamental_div_mod(len as int, width as int);
                assert(height as nat * width as nat == width * (len / width) as nat) by (nonlinear_arith)
                    requires
                        height == len / width,
                ;
            }
        }
        let mut img = CountImage::zeros(height, width);
        let mut i: usize = 0;
        while i < len
            invariant
                len == counts@.len(),
                len == height as nat * width as nat,
                image_wf(img),
                image_height(img) == height,
                image_width(img) == width,
                i <= len,
                forall|j: int| 0 <= j < i ==> image_counts(img)[j] == counts@[j],
                forall|j: int| i <= j < len ==> image_counts(img)[j] == 0,
            decreases len - i,
        {
            proof {
                if width == 0 {
                    assert(height as nat * width as nat == 0) by (nonlinear_arith)
                        requires
                            width == 0,
                    ;
                }
            }
            let row = i / width;
            let col = i % width;
            proof {
                lemma_flat_index_split(i as nat, width as nat);
                assert(row < height) by (nonlinear_arith)
                    requires
                        row * width + col == i,
                        i < height * width,
                        width > 0,
                {
                    if row >= height {
                        assert(row * width >= height * width);
                    }
                }
            }
            img.set(row, col, counts[i]);
            i = i + 1;
        }
        assert(image_counts(img) =~= counts@);
        Some(img)
    }

    /// The counts, row after row.
    pub fn to_vec(&self) -> (r: Vec<u16>)
        requires
            image_wf(*self),
        ensures
            r@ == image_counts(*self),
    {
        let (height, width) = self.dim();
        let mut v: Vec<u16> = Vec::new();
        let mut row: usize = 0;
        while row < height
            invariant
                image_wf(*self),
                height == image_height(*self),
                width == image_width(*self),
                row <= height,
                v@ == image_counts(*self).subrange(0, flat_index(row as nat, 0, width as nat)),
            decreases height - row,
        {
            let mut col: usize = 0;
            while col < width
                invariant
                    image_wf(*self),
                    height == image_height(*self),
                    width == image_width(*self),
                    row < height,
                    col <= width,
                    v@ == image_counts(*self).subrange(
                        0,
                        flat_index(row as nat, col as nat, width as nat),
                    ),
                decreases width - col,
            {
                proof {
                    lemma_flat_index_in_range(row as nat, col as nat, width as nat, height as nat);
                }
                let x = self.get(row, col);
                v.push(x);
                col = col + 1;
                assert(v@ =~= image_counts(*self).subrange(
                    0,
                    flat_index(row as nat, col as nat, width as nat),
                ));
            }
            row = row + 1;
            assert(flat_index((row - 1) as nat, width as nat, width as nat) == flat_index(
                row as nat,
                0,
                width as nat,
            )) by (nonlinear_arith)
                requires
                    row >= 1,
            ;
        }
        proof {
            assert(flat_index(height as nat, 0, width as nat) == height * width) by (nonlinear_arith);
        }
        assert(v@ =~= image_counts(*self));
        v
    }
}

/// A pixel inside the grid has a row-major index inside its contents.
pub(crate) proof fn lemma_flat_index_in_range(row: nat, col: nat, width: nat, height: nat)
    requires
        row < height,
        col < width,
    ensures
        0 <= flat_index(row, col, width) < height * width,
{
    assert(row * width + col < height * width) by (nonlinear_arith)
        requires
            row < height,
            col < width,
    {
        assert((row + 1) * width <= height * width);
    }
}

/// The row and column of a row-major index.
pub(crate) proof fn lemma_flat_index_split(index: nat, width: nat)
    requires
        width > 0,
    ensures
        flat_index(index / width, index % width, width) == index,
        index % width < width,
{
    vstd::arithmetic::div_mod::lemma_fundamental_div_mod(index as int, width as int);
    assert((index / width) * width == width * (index / width)) by (nonlinear_arith);
}

} // verus!
