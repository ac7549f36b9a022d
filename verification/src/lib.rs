//! ANSI art editing library: a character-cell canvas, CP437 text, the .ANS
//! file format with SAUCE metadata, half-block pixel drawing, TheDraw fonts
//! and raster output.
pub mod canvas;
pub mod cp437;
pub mod decimal;
pub mod date;
pub mod ansi;
pub mod ansi_roundtrip;
pub mod sauce;
pub mod render_png;
pub mod animate;
pub mod import_image;
pub mod halfblock;
pub mod tdf;
pub mod tools;
pub mod editor;
pub mod dialogs;
