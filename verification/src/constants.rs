//! The exact terminal escape sequences that the renderer emits.
//!
//! Each sequence exists twice: a spec function giving the character sequence
//! that contracts speak of, and an executable function returning the literal.

use vstd::prelude::*;

verus! {

/// Color for removed ("old") text: red.
pub open spec fn old_color() -> Seq<char> {
    "\x1b[31m"@
}

/// Color for added ("new") text: green.
pub open spec fn new_color() -> Seq<char> {
    "\x1b[32m"@
}

/// Color for structural errors (trailing whitespace, stray tabs): red.
pub open spec fn error_color() -> Seq<char> {
    "\x1b[31m"@
}

/// Switches the terminal to inverse video.
pub open spec fn inverse_video() -> Seq<char> {
    "\x1b[7m"@
}

/// Switches the terminal back out of inverse video.
pub open spec fn not_inverse_video() -> Seq<char> {
    "\x1b[27m"@
}

/// Faint style, used for the synthesized "no newline at end of file" line.
pub open spec fn no_eof_newline_color() -> Seq<char> {
    "\x1b[2m"@
}

/// The default "no newline at end of file" marker text.
pub open spec fn no_eof_newline_marker() -> Seq<char> {
    "\\ No newline at end of file"@
}

/// Bold style.
pub open spec fn bold() -> Seq<char> {
    "\x1b[1m"@
}

/// Faint style.
pub open spec fn faint() -> Seq<char> {
    "\x1b[2m"@
}

/// Color for hunk headers: cyan.
pub open spec fn hunk_header_color() -> Seq<char> {
    "\x1b[36m"@
}

/// Resets all styling.
pub open spec fn normal() -> Seq<char> {
    "\x1b[0m"@
}

/// The glyph made visible in place of a highlighted newline.
pub open spec fn newline_glyph() -> Seq<char> {
    "\u{23ce}"@
}

pub fn old_color_str() -> (r: &'static str)
    ensures
        r@ == old_color(),
{
    "\x1b[31m"
}

pub fn new_color_str() -> (r: &'static str)
    ensures
        r@ == new_color(),
{
    "\x1b[32m"
}

pub fn error_color_str() -> (r: &'static str)
    ensures
        r@ == error_color(),
{
    "\x1b[31m"
}

pub fn inverse_video_str() -> (r: &'static str)
    ensures
        r@ == inverse_video(),
{
    "\x1b[7m"
}

pub fn not_inverse_video_str() -> (r: &'static str)
    ensures
        r@ == not_inverse_video(),
{
    "\x1b[27m"
}

pub fn no_eof_newline_color_str() -> (r: &'static str)
    ensures
        r@ == no_eof_newline_color(),
{
    "\x1b[2m"
}

pub fn no_eof_newline_marker_str() -> (r: &'static str)
    ensures
        r@ == no_eof_newline_marker(),
{
    "\\ No newline at end of file"
}

pub fn bold_str() -> (r: &'static str)
    ensures
        r@ == bold(),
{
    "\x1b[1m"
}

pub fn faint_str() -> (r: &'static str)
    ensures
        r@ == faint(),
{
    "\x1b[2m"
}

pub fn hunk_header_color_str() -> (r: &'static str)
    ensures
        r@ == hunk_header_color(),
{
    "\x1b[36m"
}

pub fn normal_str() -> (r: &'static str)
    ensures
        r@ == normal(),
{
    "\x1b[0m"
}

pub fn newline_glyph_str() -> (r: &'static str)
    ensures
        r@ == newline_glyph(),
{
    "\u{23ce}"
}

} // verus!
