use vstd::prelude::*;

verus! {

/// Frame-in-flight bookkeeping of a swapchain: the frame slot whose
/// synchronization objects the next frame uses, and, for each swapchain
/// image, the frame slot whose fence last guarded its use.
pub struct FramePacer {
    currentFrame: usize,
    framesInFlight: usize,
    imagesInFlight: Vec<Option<usize>>,
}

impl FramePacer {
    pub closed spec fn current(&self) -> nat {
        self.currentFrame as nat
    }

    pub closed spec fn frames(&self) -> nat {
        self.framesInFlight as nat
    }

    /// For each swapchain image, the frame slot that last used it.
    pub closed spec fn images(&self) -> Seq<Option<usize>> {
        self.imagesInFlight@
    }

    /// The current slot and every recorded slot exist.
    pub open spec fn wf(&self) -> bool {
        &&& self.frames() > 0
        &&& self.current() < self.frames()
        &&& forall|i: int| 0 <= i < self.images().len() ==> (#[trigger] self.images()[i] matches Some(f) ==> f < self.frames())
    }

    /// `framesInFlight` frame slots, starting at the first; no swapchain
    /// image yet.
    pub fn new(framesInFlight: usize) -> (p: FramePacer)
        requires
            framesInFlight > 0,
        ensures
            p.wf(),
            p.current() == 0,
            p.frames() == framesInFlight,
            p.images().len() == 0,
    {
        FramePacer { currentFrame: 0, framesInFlight, imagesInFlight: Vec::new() }
    }

    /// The frame slot of the next frame.
    pub fn currentFrame(&self) -> (f: usize)
        ensures
            f == self.current(),
    {
        self.currentFrame
    }

    /// A new swapchain of `imageCount` images, none in use.
    pub fn resetImages(&mut self, imageCount: usize)
        requires
            old(self).wf(),
        ensures
            final(self).wf(),
            final(self).current() == old(self).current(),
            final(self).frames() == old(self).frames(),
            final(self).images() == Seq::new(imageCount as nat, |i: int| None::<usize>),
    {
        let mut images: Vec<Option<usize>> = Vec::new();
        let mut i: usize = 0;
        while i < imageCount
            invariant
                i <= imageCount,
                images@ == Seq::new(i as nat, |j: int| None::<usize>),
            decreases imageCount - i,
        {
            images.push(None);
            i = i + 1;
            proof {
                assert(images@ =~= Seq::new(i as nat, |j: int| None::<usize>));
            }
        }
        self.imagesInFlight = images;
    }

    /// The swapchain is gone: no image is tracked.
    pub fn clearImages(&mut self)
        requires
            old(self).wf(),
        ensures
            final(self).wf(),
            final(self).current() == old(self).current(),
            final(self).frames() == old(self).frames(),
            final(self).images().len() == 0,
    {
        self.imagesInFlight = Vec::new();
    }

    /// Image `imageIndex` was acquired for the current frame: returns the
    /// frame slot whose fence must be waited for before the image is used
    /// (the one that used it last, if any), and records the current slot as
    /// its user.
    pub fn acquireImage(&mut self, imageIndex: usize) -> (wait: Option<usize>)
        requires
            old(self).wf(),
            imageIndex < old(self).images().len(),
        ensures
            final(self).wf(),
            wait == old(self).images()[imageIndex as int],
            wait matches Some(f) ==> f < old(self).frames(),
            final(self).images() == old(self).images().update(imageIndex as int, Some(old(self).current() as usize)),
            final(self).current() == old(self).current(),
            final(self).frames() == old(self).frames(),
    {
        let wait = self.imagesInFlight[imageIndex];
        self.imagesInFlight.set(imageIndex, Some(self.currentFrame));
        wait
    }

    /// The frame was submitted and presented: the next frame uses the next
    /// slot, the first after the last.
    pub fn finishFrame(&mut self)
        requires
            old(self).wf(),
        ensures
            final(self).wf(),
            final(self).current() == (old(self).current() + 1) % old(self).frames(),
            final(self).frames() == old(self).frames(),
            final(self).images() == old(self).images(),
    {
        self.currentFrame = (self.currentFrame + 1) % self.framesInFlight;
    }
}

/// Frames take the slots in turn: after as many frames as there are slots,
/// the same slot comes again.
pub proof fn lemma_slots_rotate(current: nat, frames: nat, k: nat)
    requires
        frames > 0,
        current < frames,
    ensures
        (current + k) % frames == (current + k + frames) % frames,
{
    vstd::arithmetic::div_mod::lemma_mod_add_multiples_vanish((current + k) as int, frames as int);
}

/// What acquiring a swapchain image gave.
#[derive(Debug, Clone, Copy, PartialEq, Eq)]
pub enum AcquireResult {
    /// An image, possibly from a swapchain that no longer matches the surface.
    Image { index: u32, suboptimal: bool },
    /// The swapchain no longer fits the surface.
    OutOfDate,
    /// Any other failure.
    Failed,
}

/// What a frame does after acquiring.
#[derive(Debug, Clone, Copy, PartialEq, Eq)]
pub enum AcquireAction {
    /// Draw into this image; a suboptimal swapchain is tolerated.
    Draw(u32),
    /// Rebuild the swapchain and skip this frame.
    RecreateAndSkip,
    /// Report the failure.
    Fail,
}

/// The action for each acquire result.
pub open spec fn acquire_action_spec(r: AcquireResult) -> AcquireAction {
    match r {
        AcquireResult::Image { index, suboptimal } => AcquireAction::Draw(index),
        AcquireResult::OutOfDate => AcquireAction::RecreateAndSkip,
        AcquireResult::Failed => AcquireAction::Fail,
    }
}

/// Decides what a frame does once acquiring has answered: only an
/// out-of-date swapchain is rebuilt, and the frame is then skipped.
pub fn acquire_action(r: AcquireResult) -> (a: AcquireAction)
    ensures
        a == acquire_action_spec(r),
{
    match r {
        AcquireResult::Image { index, suboptimal: _ } => AcquireAction::Draw(index),
        AcquireResult::OutOfDate => AcquireAction::RecreateAndSkip,
        AcquireResult::Failed => AcquireAction::Fail,
    }
}

/// What presenting a frame gave.
#[derive(Debug, Clone, Copy, PartialEq, Eq)]
pub enum PresentResult {
    Presented { suboptimal: bool },
    OutOfDate,
    Failed,
}

/// Whether a present result is a failure to report. A suboptimal or
/// out-of-date present is tolerated: the frame still counts, and the
/// swapchain is rebuilt only when acquiring finds it out of date or the
/// window is resized.
pub fn present_failed(r: PresentResult) -> (failed: bool)
    ensures
        failed == (r == PresentResult::Failed),
{
    match r {
        PresentResult::Failed => true,
        _ => false,
    }
}

} // verus!
