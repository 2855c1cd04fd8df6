use kaleidomo_core::rlib::{ExportStep, VideoExport};
use kaleidomo_core::video_sink::{VideoFrameSink, VideoSinkError};

#[derive(Default)]
struct RecordingSink {
    frames: Vec<Vec<u8>>,
    finished: usize,
    fail_after: Option<usize>,
}

impl VideoFrameSink for RecordingSink {
    fn write_rgba_frame(&mut self, rgba: &[u8]) -> Result<(), VideoSinkError> {
        if Some(self.frames.len()) == self.fail_after {
            return Err(VideoSinkError { message: "disk full".to_string() });
        }
        self.frames.push(rgba.to_vec());
        Ok(())
    }

    fn finish(&mut self) -> Result<(), VideoSinkError> {
        self.finished += 1;
        Ok(())
    }
}

fn run(mut export: VideoExport) -> Vec<ExportStep> {
    let mut steps = Vec::new();
    loop {
        let step = export.next_step();
        steps.push(step);
        export.advance();
        if step == ExportStep::Done {
            break;
        }
    }
    steps
}

#[test]
fn export_renders_then_repeats_then_finishes() {
    let steps = run(VideoExport::new(3, 2, false));
    assert_eq!(
        steps,
        vec![
            ExportStep::RenderFrame(0),
            ExportStep::RenderFrame(1),
            ExportStep::RenderFrame(2),
            ExportStep::RepeatLastFrame,
            ExportStep::RepeatLastFrame,
            ExportStep::Finish,
            ExportStep::Done,
        ]
    );
}

#[test]
fn export_without_frames_still_finishes() {
    // The CPU exporters repeat a blank frame; the pipelined one writes no stills.
    assert_eq!(
        run(VideoExport::new(0, 2, false)),
        vec![ExportStep::RepeatLastFrame, ExportStep::RepeatLastFrame, ExportStep::Finish, ExportStep::Done]
    );
    assert_eq!(run(VideoExport::new(0, 2, true)), vec![ExportStep::Finish, ExportStep::Done]);
    assert_eq!(
        run(VideoExport::new(1, 1, true)),
        vec![ExportStep::RenderFrame(0), ExportStep::RepeatLastFrame, ExportStep::Finish, ExportStep::Done]
    );
}

#[test]
fn done_is_final() {
    let mut export = VideoExport::new(0, 0, false);
    assert_eq!(export.next_step(), ExportStep::Finish);
    export.advance();
    export.advance();
    export.advance();
    assert_eq!(export.next_step(), ExportStep::Done);
}

/// Drives a sink through an export the way the exporters do, rendering frame
/// `n` as four bytes of `n`.
fn export_into(sink: &mut RecordingSink, mut export: VideoExport, blank_last: bool) -> Result<(), VideoSinkError> {
    let mut last: Option<Vec<u8>> = if blank_last { Some(vec![0; 4]) } else { None };
    loop {
        match export.next_step() {
            ExportStep::RenderFrame(n) => {
                let frame = vec![n as u8; 4];
                sink.write_rgba_frame(&frame)?;
                last = Some(frame);
            }
            ExportStep::RepeatLastFrame => {
                let frame = last.clone().unwrap();
                sink.write_rgba_frame(&frame)?;
            }
            ExportStep::Finish => sink.finish()?,
            ExportStep::Done => return Ok(()),
        }
        export.advance();
    }
}

#[test]
fn export_repeats_the_last_frame_then_finishes_once() {
    let mut sink = RecordingSink::default();
    export_into(&mut sink, VideoExport::new(2, 3, false), true).unwrap();
    assert_eq!(sink.frames, vec![vec![0; 4], vec![1; 4], vec![1; 4], vec![1; 4], vec![1; 4]]);
    assert_eq!(sink.finished, 1);

    let mut pipelined = RecordingSink::default();
    export_into(&mut pipelined, VideoExport::new(0, 5, true), false).unwrap();
    assert!(pipelined.frames.is_empty());
    assert_eq!(pipelined.finished, 1);
}

#[test]
fn export_stops_at_the_first_sink_error() {
    let mut sink = RecordingSink { fail_after: Some(1), ..Default::default() };
    let err = export_into(&mut sink, VideoExport::new(3, 1, false), true).unwrap_err();
    assert_eq!(err, VideoSinkError { message: "disk full".to_string() });
    assert_eq!(sink.frames.len(), 1);
    assert_eq!(sink.finished, 0);
}
