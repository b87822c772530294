use vstd::prelude::*;

verus! {

/// Whether the line `line_count` of a song is shown while the typing stands
/// at line `actual_line`: it is at most `top_displayed_line` lines above it
/// and at most `bottom_displayed_line` lines below it.
pub open spec fn shown(
    line_count: int,
    actual_line: int,
    top_displayed_line: int,
    bottom_displayed_line: int,
) -> bool {
    -top_displayed_line <= line_count - actual_line <= bottom_displayed_line
}

/// Decides whether a line of the song is displayed, as `shown` says. The
/// values must fit in an `isize`, in which the difference of lines is taken.
pub fn line_is_displayed(
    line_count: usize,
    actual_line: usize,
    top_displayed_line: usize,
    bottom_displayed_line: usize,
) -> (r: bool)
    requires
        line_count <= isize::MAX,
        actual_line <= isize::MAX,
        top_displayed_line <= isize::MAX,
        bottom_displayed_line <= isize::MAX,
    ensures
        r == shown(
            line_count as int,
            actual_line as int,
            top_displayed_line as int,
            bottom_displayed_line as int,
        ),
{
    if line_count >= actual_line {
        line_count - actual_line <= bottom_displayed_line
    } else {
        actual_line - line_count <= top_displayed_line
    }
}

} // verus!
