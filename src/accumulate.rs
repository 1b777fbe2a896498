//! Summing decoded frames: every `step`-th frame of a stack is decoded and
//! added pixel by pixel, counts wrapping at 2^16.
use crate::decode::{zero_image, EerError};
use crate::image::{
    image_counts, image_height, image_width, image_wf, lemma_flat_index_in_range, CountImage,
};
use vstd::arithmetic::div_mod::*;
use vstd::prelude::*;

verus! {

/// Sum of two counts, wrapping at 2^16.
pub open spec fn add_counts(x: u16, y: u16) -> u16 {
    ((x + y) % 0x1_0000) as u16
}

/// Pixelwise sum of two images of one size.
pub open spec fn add_images(a: Seq<u16>, b: Seq<u16>) -> Seq<u16> {
    Seq::new(a.len(), |i: int| add_counts(a[i], b[i]))
}

/// How many of the frames `0..n` are decoded when every `step`-th is.
pub open spec fn selected_count(n: nat, step: nat) -> nat
    decreases n,
{
    if n == 0 {
        0
    } else {
        selected_count((n - 1) as nat, step) + if (n - 1) as nat % step == 0 {
            1nat
        } else {
            0nat
        }
    }
}

/// The number of frames decoded out of `n` when every `step`-th is:
/// `n / step` rounded up.
pub open spec fn ceil_div(n: nat, step: nat) -> nat {
    ((n + step - 1) as nat / step) as nat
}

/// Adding two frames to a sum gives the same image in either order.
pub proof fn lemma_sum_order_irrelevant(z: Seq<u16>, a: Seq<u16>, b: Seq<u16>)
    requires
        a.len() == z.len(),
        b.len() == z.len(),
    ensures
        add_images(add_images(z, a), b) == add_images(add_images(z, b), a),
{
    assert forall|i: int| 0 <= i < z.len() implies #[trigger] add_images(add_images(z, a), b)[i]
        == add_images(add_images(z, b), a)[i] by {
        lemma_add_mod_noop(z[i] + a[i], b[i] as int, 0x1_0000);
        lemma_add_mod_noop(z[i] + b[i], a[i] as int, 0x1_0000);
        lemma_small_mod(b[i] as nat, 0x1_0000);
        lemma_small_mod(a[i] as nat, 0x1_0000);
        lemma_mod_twice(z[i] + a[i] + b[i], 0x1_0000);
    }
    assert(add_images(add_images(z, a), b) =~= add_images(add_images(z, b), a));
}

/// Adding two frames to a sum one after the other gives the same image as
/// adding once the frame whose counts are their pixelwise sum.
pub proof fn lemma_sum_of_frames_is_frame_of_sum(z: Seq<u16>, a: Seq<u16>, b: Seq<u16>)
    requires
        a.len() == z.len(),
        b.len() == z.len(),
    ensures
        add_images(add_images(z, a), b) == add_images(z, add_images(a, b)),
{
    assert forall|i: int| 0 <= i < z.len() implies #[trigger] add_images(add_images(z, a), b)[i]
        == add_images(z, add_images(a, b))[i] by {
        lemma_add_mod_noop(z[i] + a[i], b[i] as int, 0x1_0000);
        lemma_add_mod_noop(z[i] as int, a[i] + b[i], 0x1_0000);
        lemma_small_mod(b[i] as nat, 0x1_0000);
        lemma_small_mod(z[i] as nat, 0x1_0000);
        lemma_mod_twice(z[i] + a[i] + b[i], 0x1_0000);
    }
    assert(add_images(add_images(z, a), b) =~= add_images(z, add_images(a, b)));
}

/// Out of `n` frames, decoding every `step`-th one decodes `n / step`
/// rounded up of them.
pub proof fn lemma_selected_count(n: nat, step: nat)
    requires
        step >= 1,
    ensures
        selected_count(n, step) == ceil_div(n, step),
    decreases n,
{
    if n == 0 {
        lemma_small_mod((step - 1) as nat, step);
        lemma_fundamental_div_mod((step - 1) as int, step as int);
        assert(((step - 1) as nat / step) == 0) by {
            lemma_basic_div((step - 1) as int, step as int);
        }
    } else {
        let m = (n - 1) as nat;
        lemma_selected_count(m, step);
        let q = m / step;
        let r = m % step;
        lemma_fundamental_div_mod(m as int, step as int);
        assert((q + 1) * step == q * step + step) by (nonlinear_arith);
        assert(m == q * step + r) by (nonlinear_arith)
            requires
                m == step * q + r,
        ;
        if r == 0 {
            // (m + step - 1) / step == q and (m + step) / step == q + 1
            lemma_fundamental_div_mod_converse((m + step - 1) as int, step as int, q as int, (step - 1) as int);
            lemma_fundamental_div_mod_converse((m + step) as int, step as int, (q + 1) as int, 0);
        } else {
            // both come to q + 1
            lemma_fundamental_div_mod_converse((m + step - 1) as int, step as int, (q + 1) as int, (r - 1) as int);
            lemma_fundamental_div_mod_converse((m + step) as int, step as int, (q + 1) as int, r as int);
        }
    }
}

/// How many of `num_frames` frames are decoded when every `step`-th is.
pub fn frames_to_process(num_frames: u32, step: u32) -> (r: u32)
    requires
        step >= 1,
    ensures
        r as nat == ceil_div(num_frames as nat, step as nat),
{
    let q = num_frames / step;
    let r = num_frames % step;
    proof {
        lemma_fundamental_div_mod(num_frames as int, step as int);
        assert((q + 1) * step == q * step + step) by (nonlinear_arith);
        assert(num_frames == q * step + r) by (nonlinear_arith)
            requires
                num_frames == step * q + r,
        ;
        if r != 0 {
            assert(q * 2 <= q * step) by (nonlinear_arith)
                requires
                    step >= 2,
            ;
        }
        if r == 0 {
            lemma_fundamental_div_mod_converse((num_frames + step - 1) as int, step as int, q as int, (step - 1) as int);
        } else {
            lemma_fundamental_div_mod_converse((num_frames + step - 1) as int, step as int, (q + 1) as int, (r - 1) as int);
        }
    }
    if r == 0 {
        q
    } else {
        q + 1
    }
}

/// Adds `frame` into `sum` pixel by pixel, wrapping at 2^16.
pub fn add_frame_into(sum: &mut CountImage, frame: &CountImage)
    requires
        image_wf(*old(sum)),
        image_wf(*frame),
        image_height(*old(sum)) == image_height(*frame),
        image_width(*old(sum)) == image_width(*frame),
    ensures
        image_wf(*final(sum)),
        image_height(*final(sum)) == image_height(*old(sum)),
        image_width(*final(sum)) == image_width(*old(sum)),
        image_counts(*final(sum)) == add_images(image_counts(*old(sum)), image_counts(*frame)),
{
    let ghost s0 = image_counts(*sum);
    let ghost f = image_counts(*frame);
    let (height, width) = sum.dim();
    let ghost n = height as nat * width as nat;
    let mut row: usize = 0;
    while row < height
        invariant
            s0 == image_counts(*old(sum)),
            f == image_counts(*frame),
            image_wf(*sum),
            image_wf(*frame),
            image_height(*sum) == height == image_height(*frame),
            image_width(*sum) == width == image_width(*frame),
            s0.len() == n == height * width,
            image_counts(*sum).len() == n,
            row <= height,
            forall|j: int|
                0 <= j < row * width ==> image_counts(*sum)[j] == add_counts(s0[j], f[j]),
            forall|j: int| row * width <= j < n ==> image_counts(*sum)[j] == s0[j],
        decreases height - row,
    {
        let mut col: usize = 0;
        while col < width
            invariant
                s0 == image_counts(*old(sum)),
                f == image_counts(*frame),
                image_wf(*sum),
                image_wf(*frame),
                image_height(*sum) == height == image_height(*frame),
                image_width(*sum) == width == image_width(*frame),
                s0.len() == n == height * width,
                image_counts(*sum).len() == n,
                row < height,
                col <= width,
                forall|j: int|
                    0 <= j < row * width + col ==> image_counts(*sum)[j] == add_counts(s0[j], f[j]),
                forall|j: int| row * width + col <= j < n ==> image_counts(*sum)[j] == s0[j],
            decreases width - col,
        {
            proof {
                lemma_flat_index_in_range(row as nat, col as nat, width as nat, height as nat);
            }
            let x = sum.get(row, col);
            let y = frame.get(row, col);
            let v = x.wrapping_add(y);
            assert(v == add_counts(x, y));
            sum.set(row, col, v);
            col = col + 1;
        }
        row = row + 1;
        assert((row - 1) * width + width == row * width) by (nonlinear_arith)
            requires
                row >= 1,
        ;
    }
    assert(height * width == n);
    assert(image_counts(*sum) =~= add_images(s0, f));
}

/// Whether an image has the given number of rows and columns.
pub open spec fn same_shape(img: CountImage, height: nat, width: nat) -> bool {
    image_height(img) == height && image_width(img) == width
}

/// What the accumulator wants done with the frame at its cursor.
#[derive(Debug, Clone, Copy, PartialEq, Eq, Structural)]
pub enum FrameAction {
    /// Decode the frame and hand it to `add_frame`.
    Decode,
    /// Step over the frame with `skip_frame`.
    Skip,
    /// Every frame has been handled.
    Done,
}

/// The action for the frame at `cursor` of `total`, decoding every `step`-th.
pub open spec fn action_at(cursor: nat, total: nat, step: nat) -> FrameAction {
    if cursor >= total {
        FrameAction::Done
    } else if cursor % step == 0 {
        FrameAction::Decode
    } else {
        FrameAction::Skip
    }
}

/// Walks a stack of frames, deciding which ones to decode, and keeps the
/// running sum of those decoded.
pub struct FrameAccumulator {
    num_frames: u32,
    step: u32,
    cursor: u32,
    decoded: u32,
    sum: CountImage,
}

impl FrameAccumulator {
    pub closed spec fn total(&self) -> nat {
        self.num_frames as nat
    }

    pub closed spec fn stride(&self) -> nat {
        self.step as nat
    }

    /// Index of the next frame to handle.
    pub closed spec fn cursor(&self) -> nat {
        self.cursor as nat
    }

    /// How many frames have been added to the sum.
    pub closed spec fn decoded(&self) -> nat {
        self.decoded as nat
    }

    /// The running sum.
    pub closed spec fn image(&self) -> Seq<u16> {
        image_counts(self.sum)
    }

    /// The number of rows of the sum.
    pub closed spec fn height(&self) -> nat {
        image_height(self.sum)
    }

    /// The number of pixels in each row of the sum.
    pub closed spec fn width(&self) -> nat {
        image_width(self.sum)
    }

    pub open spec fn action(&self) -> FrameAction {
        action_at(self.cursor(), self.total(), self.stride())
    }

    pub closed spec fn wf(&self) -> bool {
        &&& self.step >= 1
        &&& image_wf(self.sum)
        &&& self.cursor <= self.num_frames
        &&& self.decoded as nat == selected_count(self.cursor as nat, self.step as nat)
    }

    /// An accumulator over `num_frames` frames of `width * height` pixels
    /// that decodes every `skip_frames`-th frame (every frame where it is
    /// `None`).
    pub fn new(width: u32, height: u32, num_frames: u32, skip_frames: Option<u32>) -> (r: Result<
        Self,
        EerError,
    >)
        requires
            width as nat * height as nat <= isize::MAX,
            width <= isize::MAX,
            height <= isize::MAX,
        ensures
            skip_frames == Some(0u32) <==> r == Err::<Self, EerError>(EerError::ZeroStride),
            skip_frames != Some(0u32) ==> r is Ok,
            r is Ok ==> {
                let a = r->Ok_0;
                &&& a.wf()
                &&& a.total() == num_frames
                &&& a.stride() == match skip_frames {
                    Some(s) => s as nat,
                    None => 1,
                }
                &&& a.cursor() == 0
                &&& a.decoded() == 0
                &&& a.image() == zero_image(width as nat * height as nat)
                &&& a.height() == height
                &&& a.width() == width
            },
    {
        let step = match skip_frames {
            Some(s) => s,
            None => 1,
        };
        if step == 0 {
            return Err(EerError::ZeroStride);
        }
        assert(height as nat * width as nat == width as nat * height as nat) by (nonlinear_arith);
        let sum = CountImage::zeros(height as usize, width as usize);
        Ok(FrameAccumulator { num_frames, step, cursor: 0, decoded: 0, sum })
    }

    /// What to do with the frame at the cursor.
    pub fn next_action(&self) -> (r: FrameAction)
        requires
            self.wf(),
        ensures
            r == self.action(),
    {
        if self.cursor >= self.num_frames {
            FrameAction::Done
        } else if self.cursor % self.step == 0 {
            FrameAction::Decode
        } else {
            FrameAction::Skip
        }
    }

    /// Adds the decoded frame at the cursor to the sum and moves on.
    pub fn add_frame(&mut self, frame: &CountImage) -> (r: Result<(), EerError>)
        requires
            old(self).wf(),
            old(self).action() == FrameAction::Decode,
            image_wf(*frame),
        ensures
            final(self).wf(),
            final(self).total() == old(self).total(),
            final(self).stride() == old(self).stride(),
            final(self).height() == old(self).height(),
            final(self).width() == old(self).width(),
            !same_shape(*frame, old(self).height(), old(self).width()) ==> r == Err::<(), EerError>(
                EerError::FrameSizeMismatch,
            ) && *final(self) == *old(self),
            same_shape(*frame, old(self).height(), old(self).width()) ==> {
                &&& r is Ok
                &&& final(self).image() == add_images(old(self).image(), image_counts(*frame))
                &&& final(self).cursor() == old(self).cursor() + 1
                &&& final(self).decoded() == old(self).decoded() + 1
            },
    {
        let (height, width) = self.sum.dim();
        let (frame_height, frame_width) = frame.dim();
        if frame_height != height || frame_width != width {
            return Err(EerError::FrameSizeMismatch);
        }
        add_frame_into(&mut self.sum, frame);
        proof {
            lemma_selected_count(self.cursor as nat, self.step as nat);
            lemma_selected_count((self.cursor + 1) as nat, self.step as nat);
            assert(selected_count((self.cursor + 1) as nat, self.step as nat)
                == selected_count(self.cursor as nat, self.step as nat) + 1);
            lemma_selected_bound(self.cursor as nat, self.step as nat);
        }
        self.cursor = self.cursor + 1;
        self.decoded = self.decoded + 1;
        Ok(())
    }

    /// Steps over the frame at the cursor without decoding it.
    pub fn skip_frame(&mut self)
        requires
            old(self).wf(),
            old(self).action() == FrameAction::Skip,
        ensures
            final(self).wf(),
            final(self).total() == old(self).total(),
            final(self).stride() == old(self).stride(),
            final(self).image() == old(self).image(),
            final(self).height() == old(self).height(),
            final(self).width() == old(self).width(),
            final(self).cursor() == old(self).cursor() + 1,
            final(self).decoded() == old(self).decoded(),
    {
        self.cursor = self.cursor + 1;
    }

    /// How many frames have been added to the sum.
    pub fn frames_decoded(&self) -> (r: u32)
        ensures
            r as nat == self.decoded(),
    {
        self.decoded
    }

    /// The sum of the frames added so far.
    pub fn into_image(self) -> (r: CountImage)
        ensures
            image_counts(r) == self.image(),
            image_height(r) == self.height(),
            image_width(r) == self.width(),
    {
        self.sum
    }
}

proof fn lemma_selected_bound(n: nat, step: nat)
    ensures
        selected_count(n, step) <= n,
    decreases n,
{
    if n > 0 {
        lemma_selected_bound((n - 1) as nat, step);
    }
}

/// Once an accumulator has walked the whole stack, it has decoded
/// `total / stride` rounded up frames.
pub proof fn lemma_finished_decoded_count(a: FrameAccumulator)
    requires
        a.wf(),
        a.action() == FrameAction::Done,
    ensures
        a.decoded() == ceil_div(a.total(), a.stride()),
{
    lemma_selected_count(a.total(), a.stride());
}

} // verus!
