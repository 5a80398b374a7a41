use mini_projects::timer::TimerFuture;
use mini_projects::timer::TimerPoll;

#[test]
fn poll_before_completion_is_pending_and_registers_the_waker() {
    let mut t = TimerFuture::new();
    assert_eq!(t.poll(7), TimerPoll::Pending);
    assert_eq!(t.complete(), Some(7));
}

#[test]
fn poll_after_completion_is_ready() {
    let mut t = TimerFuture::new();
    t.complete();
    assert_eq!(t.poll(1), TimerPoll::Ready);
    assert_eq!(t.poll(2), TimerPoll::Ready);
}

#[test]
fn every_poll_re_registers_a_fresh_waker() {
    // the future may move between executor tasks mid-wait: only the token
    // of the latest suspension attempt may be woken
    let mut t = TimerFuture::new();
    assert_eq!(t.poll(1), TimerPoll::Pending);
    assert_eq!(t.poll(2), TimerPoll::Pending);
    assert_eq!(t.complete(), Some(2));
}

#[test]
fn completion_without_a_registered_waker_wakes_nobody() {
    let mut t = TimerFuture::new();
    assert_eq!(t.complete(), None);
}

#[test]
fn the_stored_callback_is_taken_out_exactly_once() {
    let mut t = TimerFuture::new();
    assert_eq!(t.poll(9), TimerPoll::Pending);
    assert_eq!(t.complete(), Some(9));
    assert_eq!(t.complete(), None);
}
