//! The harness as one state machine.
//!
//! The host turns everything that happens into a message, hands it to
//! `update` together with the model, and carries out the commands that come
//! back: it redraws surfaces, arms the next tick, slices the picked source
//! and shows text that was read.

use crate::generator::{can_generate, generate, is_generated, GenerateError};
use crate::reader::{ChunkRequest, ChunkedFileReader, FileSource, ReaderView, STEP_SIZE};
use crate::registry::{placeholder, placeholders, SurfaceHandle, SurfaceRegistry};
use crate::scheduler::{on_tick, RenderState, RenderStateView};
use vstd::prelude::*;

verus! {

/// The width in pixels of every surface of the harness.
pub const SURFACE_WIDTH: u32 = 100;

/// The height in pixels of every surface of the harness.
pub const SURFACE_HEIGHT: u32 = 100;

/// The size in pixels of the font that labels a surface with its index.
pub const LABEL_FONT_PX: u32 = 30;

/// What can happen to the harness.
#[derive(Clone, Debug, PartialEq, Eq)]
pub enum Msg {
    /// The display was refreshed at this time, in microseconds.
    Tick(u64),
    /// The interval control was set to this text, in milliseconds.
    DelayChanged(String),
    /// The noise toggle was hit.
    NoiseToggle,
    /// One more surface was asked for.
    AddSurface,
    /// This many more surfaces were asked for.
    AddSurfaces(usize),
    /// The user picked a source, or left the picker without one.
    FileSelected(Option<FileSource>),
    /// The next chunk of the picked source was asked for.
    RequestNextChunk,
    /// A chunk was read and decoded to this text.
    ChunkRead(String),
}

/// What the host is to do.
#[derive(Clone, Debug, PartialEq, Eq)]
pub enum Command {
    /// Redraw the surface at place `surface`, as noise or as the flat
    /// pattern.
    Redraw { surface: usize, noise: bool },
    /// Call again with a `Tick` at the next display refresh.
    ArmNextTick,
    /// Slice this byte range off the picked source, decode it as UTF-8 text
    /// and come back with a `ChunkRead`.
    ReadSlice(ChunkRequest),
    /// Hand this text to whatever shows what was read.
    DeliverText(String),
    /// Hand this message to `update` before anything else happens.
    Send(Msg),
}

/// The whole state of the harness.
pub struct Model {
    /// The state of the throttle.
    pub render: RenderState,
    /// The surfaces, in the order in which they were added.
    pub surfaces: SurfaceRegistry,
    /// The cursor over the picked source.
    pub reader: ChunkedFileReader,
}

/// What a model holds, as plain values.
pub struct ModelView {
    /// The state of the throttle.
    pub render: RenderStateView,
    /// The handles of the surfaces, in the order in which they were added.
    pub surfaces: Seq<SurfaceHandle>,
    /// The width that every surface has.
    pub surface_width: u32,
    /// The height that every surface has.
    pub surface_height: u32,
    /// The cursor over the picked source.
    pub reader: ReaderView,
}

impl View for Model {
    type V = ModelView;

    open spec fn view(&self) -> ModelView {
        ModelView {
            render: self.render@,
            surfaces: self.surfaces@,
            surface_width: self.surfaces.surface_width(),
            surface_height: self.surfaces.surface_height(),
            reader: self.reader@,
        }
    }
}

/// The redraw commands for the first `count` surfaces, in their order.
pub open spec fn redraw_commands(count: nat, noise: bool) -> Seq<Command> {
    Seq::new(count, |i: int| Command::Redraw { surface: i as usize, noise })
}

impl ModelView {
    /// The model after `msg`.
    pub open spec fn next(self, msg: Msg) -> ModelView {
        match msg {
            Msg::Tick(timestamp) => ModelView { render: self.render.tick(timestamp as nat), ..self },
            Msg::DelayChanged(text) => ModelView {
                render: self.render.with_interval_text(text@),
                ..self
            },
            Msg::NoiseToggle => ModelView { render: self.render.toggled(), ..self },
            Msg::AddSurface => ModelView {
                surfaces: self.surfaces.push(
                    placeholder(self.surfaces.len() as int, self.surface_width, self.surface_height),
                ),
                ..self
            },
            Msg::AddSurfaces(n) => ModelView {
                surfaces: self.surfaces + placeholders(
                    self.surfaces.len() as int,
                    n as int,
                    self.surface_width,
                    self.surface_height,
                ),
                ..self
            },
            Msg::FileSelected(Some(source)) => ModelView {
                reader: self.reader.with_source(source),
                ..self
            },
            Msg::FileSelected(None) => self,
            Msg::RequestNextChunk => ModelView { reader: self.reader.advanced(), ..self },
            Msg::ChunkRead(_) => self,
        }
    }

    /// What the host is to do after `msg`, in the order in which it is to do
    /// it.
    pub open spec fn commands(self, msg: Msg) -> Seq<Command> {
        match msg {
            Msg::Tick(timestamp) => {
                let redraws = if self.render.accepts(timestamp as nat) {
                    redraw_commands(self.surfaces.len(), self.render.noise_enabled)
                } else {
                    Seq::empty()
                };
                redraws.push(Command::ArmNextTick)
            },
            Msg::RequestNextChunk => if self.reader.source is Some {
                seq![
                    Command::ReadSlice(
                        ChunkRequest {
                            start: self.reader.window_start() as u64,
                            end: self.reader.window_end() as u64,
                        },
                    ),
                ]
            } else {
                Seq::empty()
            },
            Msg::ChunkRead(text) => seq![Command::DeliverText(text)],
            _ => Seq::empty(),
        }
    }

    /// Whether `msg` can be handled without the cursor of the reader leaving
    /// the range of `u64`. Only a request for a chunk can fail this, after
    /// some 2^57 chunks of one source.
    pub open spec fn can_handle(self, msg: Msg) -> bool {
        msg is RequestNextChunk && self.reader.source is Some ==> self.reader.cursor_offset
            + STEP_SIZE <= u64::MAX
    }
}

/// The model that the harness starts with, and what the host is to do first:
/// nothing was rendered, there is no surface and no source yet; the host arms
/// the first tick and asks for one surface.
pub fn init() -> (start: (Model, Vec<Command>))
    ensures
        start.0@ == (ModelView {
            render: RenderStateView::initial(),
            surfaces: Seq::empty(),
            surface_width: SURFACE_WIDTH,
            surface_height: SURFACE_HEIGHT,
            reader: ReaderView::idle(),
        }),
        start.1@ == seq![Command::ArmNextTick, Command::Send(Msg::AddSurface)],
{
    let model = Model {
        render: RenderState::new(),
        surfaces: SurfaceRegistry::new(SURFACE_WIDTH, SURFACE_HEIGHT),
        reader: ChunkedFileReader::new(),
    };
    let mut commands: Vec<Command> = Vec::new();
    commands.push(Command::ArmNextTick);
    commands.push(Command::Send(Msg::AddSurface));
    assert(commands@ =~= seq![Command::ArmNextTick, Command::Send(Msg::AddSurface)]);
    (model, commands)
}

/// Whether `update` can handle `msg` in this model.
pub fn can_handle(model: &Model, msg: &Msg) -> (can: bool)
    ensures
        can == model@.can_handle(*msg),
{
    match msg {
        Msg::RequestNextChunk => !model.reader.has_source() || model.reader.can_advance(),
        _ => true,
    }
}

/// Handles one message: moves the model on and says what the host is to do.
pub fn update(msg: Msg, model: &mut Model) -> (commands: Vec<Command>)
    requires
        old(model)@.can_handle(msg),
    ensures
        final(model)@ == old(model)@.next(msg),
        commands@ == old(model)@.commands(msg),
{
    let mut commands: Vec<Command> = Vec::new();
    match msg {
        Msg::Tick(timestamp) => {
            let noise = model.render.noise_enabled();
            let outcome = on_tick(&mut model.render, &model.surfaces, timestamp);
            let mut i: usize = 0;
            while i < outcome.redraw.len()
                invariant
                    i <= outcome.redraw@.len(),
                    forall|k: int| 0 <= k < outcome.redraw@.len() ==> outcome.redraw@[k] == k as usize,
                    commands@ == redraw_commands(i as nat, noise),
                decreases outcome.redraw@.len() - i,
            {
                commands.push(Command::Redraw { surface: outcome.redraw[i], noise });
                assert(commands@ =~= redraw_commands((i + 1) as nat, noise));
                i = i + 1;
            }
            if outcome.rearm {
                commands.push(Command::ArmNextTick);
            }
        },
        Msg::DelayChanged(text) => {
            model.render.delay_changed(text.as_str());
        },
        Msg::NoiseToggle => {
            model.render.toggle_noise();
        },
        Msg::AddSurface => {
            model.surfaces.add_one();
        },
        Msg::AddSurfaces(n) => {
            model.surfaces.add_n(n);
        },
        Msg::FileSelected(Some(source)) => {
            model.reader.set_source(source);
        },
        Msg::FileSelected(None) => {},
        Msg::RequestNextChunk => {
            match model.reader.read_next_chunk() {
                Some(range) => {
                    commands.push(Command::ReadSlice(range));
                },
                None => {},
            }
        },
        Msg::ChunkRead(text) => {
            commands.push(Command::DeliverText(text));
        },
    }
    assert(commands@ =~= old(model)@.commands(msg));
    commands
}

/// Where and how tall the index of a surface is written over it.
#[derive(Clone, Copy, Debug, PartialEq, Eq, Structural)]
pub struct Label {
    /// The index to write, in decimal.
    pub index: usize,
    /// The column of the centre of the text.
    pub x: u32,
    /// The row of the middle of the text.
    pub y: u32,
    /// The size of the font in pixels.
    pub font_px: u32,
}

/// What the host puts on one surface: the pixels first, the label over them.
#[derive(Clone, Debug, PartialEq, Eq)]
pub struct DrawPlan {
    /// The width of the surface in pixels.
    pub width: u32,
    /// The height of the surface in pixels.
    pub height: u32,
    /// The RGBA bytes of the surface, row after row.
    pub pixels: Vec<u8>,
    /// The index of the surface, written over its centre.
    pub label: Label,
}

/// The label of surface `index` on a `width` by `height` surface.
pub open spec fn label_for(width: u32, height: u32, index: usize) -> Label {
    Label { index, x: width / 2, y: height / 2, font_px: LABEL_FONT_PX }
}

/// Plans the redraw of one surface: generates its pixels, as noise or as the
/// flat pattern of its index, and centres its index over them. It fails
/// where `generate` fails.
pub fn draw(width: u32, height: u32, noise: bool, index: usize) -> (result: Result<
    DrawPlan,
    GenerateError,
>)
    ensures
        result is Ok <==> can_generate(width, height),
        result matches Ok(plan) ==> {
            &&& plan.width == width
            &&& plan.height == height
            &&& plan.label == label_for(width, height, index)
            &&& is_generated(plan.pixels@, width, height, noise, index)
        },
        result matches Err(error) ==> (error == GenerateError::EmptySurface <==> width == 0
            || height == 0),
{
    match generate(width, height, noise, index) {
        Ok(pixels) => Ok(
            DrawPlan {
                width,
                height,
                pixels,
                label: Label { index, x: width / 2, y: height / 2, font_px: LABEL_FONT_PX },
            },
        ),
        Err(error) => Err(error),
    }
}

/// What the host shows of a model.
#[derive(Clone, Copy, Debug, PartialEq, Eq, Structural)]
pub struct Summary {
    /// The number of accepted ticks.
    pub render_count: u64,
    /// The time of the last accepted tick, in whole milliseconds.
    pub last_render_millis: u64,
    /// The minimum interval, in microseconds.
    pub min_interval: u64,
    /// Whether surfaces are redrawn as noise.
    pub noise_enabled: bool,
    /// The number of surfaces.
    pub surface_count: usize,
}

/// Sums a model up for display.
pub fn summary(model: &Model) -> (shown: Summary)
    ensures
        shown.render_count == model@.render.render_count,
        shown.last_render_millis == model@.render.last_render_timestamp / 1000,
        shown.min_interval == model@.render.min_interval,
        shown.noise_enabled == model@.render.noise_enabled,
        shown.surface_count == model@.surfaces.len(),
{
    Summary {
        render_count: model.render.render_count(),
        last_render_millis: model.render.last_render_timestamp() / 1000,
        min_interval: model.render.min_interval(),
        noise_enabled: model.render.noise_enabled(),
        surface_count: model.surfaces.count(),
    }
}

} // verus!
