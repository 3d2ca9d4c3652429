//! Terminal styling of text with ANSI escape sequences (through `owo_colors`).
use vstd::prelude::*;
use owo_colors::OwoColorize;

verus! {

/// `s` between an opening and a closing escape sequence.
pub open spec fn styled(open: Seq<char>, s: Seq<char>, close: Seq<char>) -> Seq<char> {
    open + s + close
}

/// Calls `OwoColorize::cyan` and formats the result: the foreground colour code 36, the
/// text, then the default-foreground code 39.
#[verifier::external_body]
fn paint_cyan(s: &str) -> (r: String)
    ensures
        r@ == styled("\x1b[36m"@, s@, "\x1b[39m"@),
{
    s.cyan().to_string()
}

/// Calls `OwoColorize::yellow` and formats the result: code 33, the text, code 39.
#[verifier::external_body]
fn paint_yellow(s: &str) -> (r: String)
    ensures
        r@ == styled("\x1b[33m"@, s@, "\x1b[39m"@),
{
    s.yellow().to_string()
}

/// Calls `OwoColorize::red` and formats the result: code 31, the text, code 39.
#[verifier::external_body]
fn paint_red(s: &str) -> (r: String)
    ensures
        r@ == styled("\x1b[31m"@, s@, "\x1b[39m"@),
{
    s.red().to_string()
}

/// Calls `OwoColorize::green` and formats the result: code 32, the text, code 39.
#[verifier::external_body]
fn paint_green(s: &str) -> (r: String)
    ensures
        r@ == styled("\x1b[32m"@, s@, "\x1b[39m"@),
{
    s.green().to_string()
}

/// Calls `OwoColorize::dimmed` and formats the result: code 2, the text, the reset code 0.
#[verifier::external_body]
fn paint_dimmed(s: &str) -> (r: String)
    ensures
        r@ == styled("\x1b[2m"@, s@, "\x1b[0m"@),
{
    s.dimmed().to_string()
}

/// Calls `OwoColorize::bold` and formats the result: code 1, the text, the reset code 0.
#[verifier::external_body]
fn paint_bold(s: &str) -> (r: String)
    ensures
        r@ == styled("\x1b[1m"@, s@, "\x1b[0m"@),
{
    s.bold().to_string()
}

/// Cyan text.
pub open spec fn cyan_text(s: Seq<char>) -> Seq<char> {
    styled("\x1b[36m"@, s, "\x1b[39m"@)
}

/// Dim text.
pub open spec fn dim_text(s: Seq<char>) -> Seq<char> {
    styled("\x1b[2m"@, s, "\x1b[0m"@)
}

/// Yellow text.
pub open spec fn yellow_text(s: Seq<char>) -> Seq<char> {
    styled("\x1b[33m"@, s, "\x1b[39m"@)
}

/// Red text.
pub open spec fn red_text(s: Seq<char>) -> Seq<char> {
    styled("\x1b[31m"@, s, "\x1b[39m"@)
}

/// Green text.
pub open spec fn green_text(s: Seq<char>) -> Seq<char> {
    styled("\x1b[32m"@, s, "\x1b[39m"@)
}

/// Bold text.
pub open spec fn bold_text(s: Seq<char>) -> Seq<char> {
    styled("\x1b[1m"@, s, "\x1b[0m"@)
}

/// Informational text (cyan).
pub fn info(s: &str) -> (r: String)
    ensures
        r@ == styled("\x1b[36m"@, s@, "\x1b[39m"@),
{
    paint_cyan(s)
}

/// De-emphasized text (dim).
pub fn dim(s: &str) -> (r: String)
    ensures
        r@ == styled("\x1b[2m"@, s@, "\x1b[0m"@),
{
    paint_dimmed(s)
}

/// Warning text (yellow).
pub fn warn(s: &str) -> (r: String)
    ensures
        r@ == styled("\x1b[33m"@, s@, "\x1b[39m"@),
{
    paint_yellow(s)
}

/// Error text (red).
pub fn error(s: &str) -> (r: String)
    ensures
        r@ == styled("\x1b[31m"@, s@, "\x1b[39m"@),
{
    paint_red(s)
}

/// Success text (green).
pub fn success(s: &str) -> (r: String)
    ensures
        r@ == styled("\x1b[32m"@, s@, "\x1b[39m"@),
{
    paint_green(s)
}

/// Emphasized text (bold).
pub fn bold(s: &str) -> (r: String)
    ensures
        r@ == styled("\x1b[1m"@, s@, "\x1b[0m"@),
{
    paint_bold(s)
}

} // verus!
