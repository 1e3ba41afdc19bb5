use mc_client::pacing::{acquire_action, present_failed, AcquireAction, AcquireResult, FramePacer, PresentResult};

#[test]
fn frames_take_the_slots_in_turn() {
    let mut pacer = FramePacer::new(2);
    assert_eq!(pacer.currentFrame(), 0);
    pacer.finishFrame();
    assert_eq!(pacer.currentFrame(), 1);
    pacer.finishFrame();
    assert_eq!(pacer.currentFrame(), 0);
}

#[test]
fn an_image_waits_for_the_slot_that_used_it_last() {
    let mut pacer = FramePacer::new(2);
    pacer.resetImages(3);
    assert_eq!(pacer.acquireImage(1), None);
    pacer.finishFrame();
    assert_eq!(pacer.acquireImage(2), None);
    pacer.finishFrame();
    // slot 0 again, and image 1 was last used by slot 0
    assert_eq!(pacer.acquireImage(1), Some(0));
    pacer.finishFrame();
    assert_eq!(pacer.acquireImage(1), Some(0));
    pacer.finishFrame();
    assert_eq!(pacer.acquireImage(1), Some(1));
    pacer.clearImages();
    pacer.resetImages(1);
    assert_eq!(pacer.acquireImage(0), None);
}

#[test]
fn only_an_out_of_date_acquire_rebuilds_the_swapchain() {
    assert_eq!(acquire_action(AcquireResult::Image { index: 2, suboptimal: true }), AcquireAction::Draw(2));
    assert_eq!(acquire_action(AcquireResult::Image { index: 0, suboptimal: false }), AcquireAction::Draw(0));
    assert_eq!(acquire_action(AcquireResult::OutOfDate), AcquireAction::RecreateAndSkip);
    assert_eq!(acquire_action(AcquireResult::Failed), AcquireAction::Fail);
    assert!(!present_failed(PresentResult::Presented { suboptimal: true }));
    assert!(!present_failed(PresentResult::OutOfDate));
    assert!(present_failed(PresentResult::Failed));
}
