//! A character-grid compositing engine for terminal user interfaces.
//!
//! Styled text is arranged in positioned single-row runs ([`Span`]), stacked
//! into non-overlapping [`Layer`]s, composed by z-order on a [`Canvas`],
//! flattened to dense [`View`]s, queued on a [`Window`], and finally
//! run-length encoded into absolute paint commands ([`DrawableSpan`]).

pub mod annot;
pub mod canvas;
pub mod cell;
pub mod draw;
pub mod layer;
pub mod span;
pub mod view;
pub mod window;

pub use annot::Annot;
pub use annot::Annotate;
pub use annot::Rect;
pub use canvas::Canvas;
pub use cell::Cell;
pub use cell::Style;
pub use draw::DrawableSpan;
pub use layer::Layer;
pub use span::Span;
pub use view::View;
pub use window::VTerm;
pub use window::Window;
pub use window::convert_to_spans;
pub use window::create_virtual_terminal;
