use frame_harness::generator::GenerateError;
use frame_harness::harness::{
    can_handle, draw, init, summary, update, Command, Label, Model, Msg, Summary, LABEL_FONT_PX,
    SURFACE_HEIGHT, SURFACE_WIDTH,
};
use frame_harness::reader::{ChunkRequest, FileSource};
use frame_harness::registry::SurfaceHandle;

fn started() -> Model {
    let (mut model, commands) = init();
    for command in commands {
        if let Command::Send(msg) = command {
            update(msg, &mut model);
        }
    }
    model
}

fn notes() -> FileSource {
    FileSource { name: "notes.txt".to_string(), byte_length: 300 }
}

#[test]
fn init_arms_the_first_tick_and_asks_for_one_surface() {
    let (model, commands) = init();
    assert_eq!(commands, vec![Command::ArmNextTick, Command::Send(Msg::AddSurface)]);
    assert_eq!(model.render.render_count(), 0);
    assert_eq!(model.render.last_render_timestamp(), 0);
    assert_eq!(model.render.min_interval(), 50_000);
    assert!(!model.render.noise_enabled());
    assert_eq!(model.surfaces.count(), 0);
    assert_eq!(model.surfaces.width(), SURFACE_WIDTH);
    assert_eq!(model.surfaces.height(), SURFACE_HEIGHT);
    assert!(!model.reader.has_source());
    assert_eq!(model.reader.cursor_offset(), 0);
}

#[test]
fn the_surfaces_are_a_hundred_pixels_square() {
    assert_eq!(SURFACE_WIDTH, 100);
    assert_eq!(SURFACE_HEIGHT, 100);
    assert_eq!(LABEL_FONT_PX, 30);
}

#[test]
fn an_accepted_tick_redraws_and_rearms() {
    let mut model = started();
    update(Msg::AddSurfaces(2), &mut model);
    let commands = update(Msg::Tick(50_001), &mut model);
    assert_eq!(
        commands,
        vec![
            Command::Redraw { surface: 0, noise: false },
            Command::Redraw { surface: 1, noise: false },
            Command::Redraw { surface: 2, noise: false },
            Command::ArmNextTick,
        ]
    );
    assert_eq!(model.render.render_count(), 1);
    assert_eq!(model.render.last_render_timestamp(), 50_001);
}

#[test]
fn a_rejected_tick_only_rearms() {
    let mut model = started();
    let commands = update(Msg::Tick(50_000), &mut model);
    assert_eq!(commands, vec![Command::ArmNextTick]);
    assert_eq!(model.render.render_count(), 0);
    assert_eq!(model.render.last_render_timestamp(), 0);
}

#[test]
fn redraws_carry_the_noise_switch() {
    let mut model = started();
    assert_eq!(update(Msg::NoiseToggle, &mut model), vec![]);
    assert!(model.render.noise_enabled());
    let commands = update(Msg::Tick(1_000_000), &mut model);
    assert_eq!(commands, vec![Command::Redraw { surface: 0, noise: true }, Command::ArmNextTick]);
    update(Msg::NoiseToggle, &mut model);
    let commands = update(Msg::Tick(2_000_000), &mut model);
    assert_eq!(commands, vec![Command::Redraw { surface: 0, noise: false }, Command::ArmNextTick]);
}

#[test]
fn the_delay_message_sets_or_keeps_the_interval() {
    let mut model = started();
    assert_eq!(update(Msg::DelayChanged("250".to_string()), &mut model), vec![]);
    assert_eq!(model.render.min_interval(), 250_000);
    for text in ["0", "-5", "abc"] {
        assert_eq!(update(Msg::DelayChanged(text.to_string()), &mut model), vec![]);
        assert_eq!(model.render.min_interval(), 250_000);
    }
    let commands = update(Msg::Tick(250_000), &mut model);
    assert_eq!(commands, vec![Command::ArmNextTick]);
    let commands = update(Msg::Tick(250_001), &mut model);
    assert_eq!(commands, vec![Command::Redraw { surface: 0, noise: false }, Command::ArmNextTick]);
}

#[test]
fn surfaces_are_added_one_or_many_at_a_time() {
    let mut model = started();
    assert_eq!(model.surfaces.count(), 1);
    assert_eq!(update(Msg::AddSurface, &mut model), vec![]);
    assert_eq!(model.surfaces.count(), 2);
    assert_eq!(update(Msg::AddSurfaces(10), &mut model), vec![]);
    assert_eq!(model.surfaces.count(), 12);
    for index in 0..12usize {
        assert_eq!(
            model.surfaces.get(index),
            Some(SurfaceHandle { index, width: 100, height: 100 })
        );
    }
}

#[test]
fn a_chunk_request_without_a_source_does_nothing() {
    let mut model = started();
    assert!(can_handle(&model, &Msg::RequestNextChunk));
    assert_eq!(update(Msg::RequestNextChunk, &mut model), vec![]);
    assert_eq!(model.reader.cursor_offset(), 0);
    assert!(!model.reader.has_source());
}

#[test]
fn chunk_requests_walk_the_picked_source() {
    let mut model = started();
    assert_eq!(update(Msg::FileSelected(Some(notes())), &mut model), vec![]);
    assert_eq!(model.reader.source(), &Some(notes()));
    assert!(can_handle(&model, &Msg::RequestNextChunk));
    assert_eq!(
        update(Msg::RequestNextChunk, &mut model),
        vec![Command::ReadSlice(ChunkRequest { start: 0, end: 120 })]
    );
    assert_eq!(model.reader.cursor_offset(), 128);
    assert_eq!(
        update(Msg::RequestNextChunk, &mut model),
        vec![Command::ReadSlice(ChunkRequest { start: 128, end: 248 })]
    );
    assert_eq!(model.reader.cursor_offset(), 256);
}

#[test]
fn leaving_the_picker_empty_changes_nothing() {
    let mut model = started();
    update(Msg::FileSelected(Some(notes())), &mut model);
    update(Msg::RequestNextChunk, &mut model);
    assert_eq!(update(Msg::FileSelected(None), &mut model), vec![]);
    assert_eq!(model.reader.source(), &Some(notes()));
    assert_eq!(model.reader.cursor_offset(), 128);
}

#[test]
fn picking_again_starts_from_the_first_byte() {
    let mut model = started();
    update(Msg::FileSelected(Some(notes())), &mut model);
    update(Msg::RequestNextChunk, &mut model);
    let other = FileSource { name: "other.txt".to_string(), byte_length: 5 };
    update(Msg::FileSelected(Some(other.clone())), &mut model);
    assert_eq!(model.reader.source(), &Some(other));
    assert_eq!(model.reader.cursor_offset(), 0);
}

#[test]
fn text_that_was_read_is_handed_on() {
    let mut model = started();
    let commands = update(Msg::ChunkRead("hello".to_string()), &mut model);
    assert_eq!(commands, vec![Command::DeliverText("hello".to_string())]);
    let commands = update(Msg::ChunkRead(String::new()), &mut model);
    assert_eq!(commands, vec![Command::DeliverText(String::new())]);
    assert_eq!(model.render.render_count(), 0);
    assert_eq!(model.reader.cursor_offset(), 0);
}

#[test]
fn every_message_can_be_handled_at_the_start() {
    let model = started();
    let messages = vec![
        Msg::Tick(5),
        Msg::DelayChanged("x".to_string()),
        Msg::NoiseToggle,
        Msg::AddSurface,
        Msg::AddSurfaces(3),
        Msg::FileSelected(None),
        Msg::RequestNextChunk,
        Msg::ChunkRead(String::new()),
    ];
    for msg in messages.iter() {
        assert!(can_handle(&model, msg));
    }
}

#[test]
fn draw_plans_noise_under_a_centred_label() {
    let plan = draw(100, 100, true, 7).unwrap();
    assert_eq!(plan.width, 100);
    assert_eq!(plan.height, 100);
    assert_eq!(plan.label, Label { index: 7, x: 50, y: 50, font_px: 30 });
    assert_eq!(plan.pixels.len(), 40_000);
    for pixel in plan.pixels.chunks(4) {
        assert_eq!(pixel[0], pixel[1]);
        assert_eq!(pixel[0], pixel[2]);
        assert_eq!(pixel[3], 200);
    }
}

#[test]
fn draw_plans_the_flat_pattern_under_a_centred_label() {
    let plan = draw(2, 2, false, 20).unwrap();
    assert_eq!(plan.label, Label { index: 20, x: 1, y: 1, font_px: 30 });
    assert_eq!(
        plan.pixels,
        vec![0, 0, 0, 255, 80, 80, 80, 255, 80, 80, 80, 255, 0, 0, 0, 255]
    );
    let plan = draw(5, 3, false, 0).unwrap();
    assert_eq!(plan.label, Label { index: 0, x: 2, y: 1, font_px: 30 });
}

#[test]
fn draw_fails_where_no_buffer_can_be_generated() {
    assert_eq!(draw(0, 100, false, 0), Err(GenerateError::EmptySurface));
    assert_eq!(draw(100, 0, true, 0), Err(GenerateError::EmptySurface));
    assert_eq!(draw(u32::MAX, u32::MAX, true, 0), Err(GenerateError::TooLarge));
}

#[test]
fn the_summary_shows_the_model() {
    let mut model = started();
    update(Msg::AddSurfaces(4), &mut model);
    update(Msg::NoiseToggle, &mut model);
    update(Msg::DelayChanged("12.5".to_string()), &mut model);
    update(Msg::Tick(1_234_567), &mut model);
    assert_eq!(
        summary(&model),
        Summary {
            render_count: 1,
            last_render_millis: 1_234,
            min_interval: 12_500,
            noise_enabled: true,
            surface_count: 5,
        }
    );
}
