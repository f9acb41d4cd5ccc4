//! Touch-gesture decisions of the tracker's screens. Coordinates are the
//! integer client coordinates that touch events report.
use vstd::prelude::*;
use vstd::string::*;

verus! {

/// A swipe back: it starts within 40 px of the left edge and moves right by
/// more than 50 px and by more than it moves vertically.
pub open spec fn swipe_back(start_x: int, start_y: int, end_x: int, end_y: int) -> bool {
    let dx = end_x - start_x;
    let dy = if end_y >= start_y {
        end_y - start_y
    } else {
        start_y - end_y
    };
    start_x < 40 && dx > 50 && dx > dy
}

/// Whether a touch from `(start_x, start_y)` to `(end_x, end_y)` is the
/// swipe that leaves a detail screen.
pub fn is_swipe_back(start_x: i32, start_y: i32, end_x: i32, end_y: i32) -> (res: bool)
    ensures
        res == swipe_back(start_x as int, start_y as int, end_x as int, end_y as int),
{
    let dx: i64 = end_x as i64 - start_x as i64;
    let dy: i64 = if end_y >= start_y {
        end_y as i64 - start_y as i64
    } else {
        start_y as i64 - end_y as i64
    };
    start_x < 40 && dx > 50 && dx > dy
}

/// The view of an optional string.
pub open spec fn opt_view(o: Option<String>) -> Option<Seq<char>> {
    match o {
        Some(s) => Some(s@),
        None => None,
    }
}

/// The row whose delete button shows after a horizontal swipe of `dx` on the
/// row `row_id`: a swipe left by more than 50 px reveals this row's button; a
/// swipe right by more than 20 px on the revealed row hides it; anything else
/// leaves the revealed row as it was.
pub open spec fn swiped_after(current: Option<Seq<char>>, row_id: Seq<char>, dx: int) -> Option<
    Seq<char>,
> {
    if dx < -50 {
        Some(row_id)
    } else if dx > 20 && current == Some(row_id) {
        None
    } else {
        current
    }
}

/// The revealed row after a horizontal swipe of `dx` on the row `row_id`.
pub fn row_swipe(current: Option<String>, row_id: &str, dx: i64) -> (res: Option<String>)
    ensures
        opt_view(res) == swiped_after(opt_view(current), row_id@, dx as int),
{
    let id = String::from_str(row_id);
    if dx < -50 {
        Some(id)
    } else {
        let revealed_here = match &current {
            Some(c) => *c == id,
            None => false,
        };
        if dx > 20 && revealed_here {
            None
        } else {
            current
        }
    }
}

/// A swipe back is exactly a touch that starts within 40 px of the left edge
/// and moves right by more than 50 px, further than it moves up and further
/// than it moves down. So a touch that moves at least as far vertically as
/// to the right is never one, and going up or down the same distance decides
/// alike.
pub proof fn law_swipe_back_is_mostly_horizontal(
    start_x: int,
    start_y: int,
    end_x: int,
    end_y: int,
)
    ensures
        swipe_back(start_x, start_y, end_x, end_y) == (start_x < 40 && end_x - start_x > 50
            && end_x - start_x > end_y - start_y && end_x - start_x > start_y - end_y),
        end_y - start_y >= end_x - start_x ==> !swipe_back(start_x, start_y, end_x, end_y),
        start_y - end_y >= end_x - start_x ==> !swipe_back(start_x, start_y, end_x, end_y),
        swipe_back(start_x, start_y, end_x, end_y) == swipe_back(start_x, end_y, end_x, start_y),
{
}

/// A swipe left by more than 50 px reveals the swiped row's delete button; a
/// swipe right by more than 20 px on the revealed row hides it; any other
/// swipe leaves the revealed row as it was, and no swipe reveals another row.
pub proof fn law_row_swipe_outcomes(current: Option<Seq<char>>, row_id: Seq<char>, dx: int)
    ensures
        dx < -50 ==> swiped_after(current, row_id, dx) == Some(row_id),
        -50 <= dx <= 20 ==> swiped_after(current, row_id, dx) == current,
        dx > 20 && current == Some(row_id) ==> swiped_after(current, row_id, dx) is None,
        dx > 20 && current != Some(row_id) ==> swiped_after(current, row_id, dx) == current,
        swiped_after(current, row_id, dx) == current || swiped_after(current, row_id, dx) == Some(
            row_id,
        ) || swiped_after(current, row_id, dx) is None,
{
}

} // verus!
