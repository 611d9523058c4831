//! Raw 16-bit audio and the frames of a stream.

use rnnoise::pcm::{fill_step, Fill, FrameAction, Framing, FRAME_BYTES};

#[test]
fn reading_goes_on_until_the_buffer_is_full() {
    assert_eq!(fill_step(0, 100, 960), Fill::More(100));
    assert_eq!(fill_step(100, 860, 960), Fill::Done(960));
    assert_eq!(fill_step(100, 859, 960), Fill::More(959));
    // A read of nothing marks the end.
    assert_eq!(fill_step(100, 0, 960), Fill::Done(100));
    assert_eq!(fill_step(0, 0, 960), Fill::Done(0));
}

#[test]
fn the_output_of_the_first_frame_is_dropped() {
    let mut framing = Framing::new();
    let mut written = 0;
    for n in [FRAME_BYTES, FRAME_BYTES, FRAME_BYTES, FRAME_BYTES - 1] {
        match framing.on_read(n) {
            FrameAction::Process { write } => written += write as usize,
            FrameAction::Stop => assert_eq!(n, FRAME_BYTES - 1),
        }
    }
    assert_eq!(written, 2);
}

#[test]
fn a_short_first_read_ends_the_stream() {
    let mut framing = Framing::new();
    assert_eq!(framing.on_read(0), FrameAction::Stop);
    assert_eq!(framing, Framing::new());
    assert_eq!(framing.on_read(FRAME_BYTES), FrameAction::Process { write: false });
    assert_eq!(framing.on_read(FRAME_BYTES), FrameAction::Process { write: true });
}
