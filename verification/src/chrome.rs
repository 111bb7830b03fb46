//! Clickable regions of the status bar and toolbar, and the action a click
//! lands on.

use vstd::prelude::*;

use crate::text::{dec_chars, push_chars, push_dec_chars, string_from_chars};

verus! {

/// Client-chrome actions triggered by mouse clicks or keyboard shortcuts.
#[derive(Debug, Clone, Copy, PartialEq, Eq, Structural)]
pub enum ChromeAction {
    SpawnAgent,
    ToggleLayout,
    OpenSettings,
    ZoomIn,
    ZoomOut,
}

/// A rectangle of terminal cells: top-left corner and size.
#[derive(Debug, Clone, Copy, PartialEq, Eq, Structural)]
pub struct CellRect {
    pub x: u16,
    pub y: u16,
    pub width: u16,
    pub height: u16,
}

/// A screen region associated with a chrome action.
#[derive(Debug, Clone, Copy, PartialEq, Eq, Structural)]
pub struct HitRect {
    pub rect: CellRect,
    pub action: ChromeAction,
}

/// Cell `(col, row)` lies inside `r`.
pub open spec fn rect_contains(r: CellRect, col: u16, row: u16) -> bool {
    r.x <= col < r.x + r.width && r.y <= row < r.y + r.height
}

/// The action of the first region containing `(col, row)`.
pub open spec fn first_hit(hits: Seq<HitRect>, col: u16, row: u16) -> Option<ChromeAction>
    decreases hits.len(),
{
    if hits.len() == 0 {
        None
    } else if rect_contains(hits[0].rect, col, row) {
        Some(hits[0].action)
    } else {
        first_hit(hits.drop_first(), col, row)
    }
}

/// A click resolves to the action of the earliest listed region that
/// contains the cell (`x ≤ col < x + width`, `y ≤ row < y + height`), and to
/// nothing when no region contains it.
pub proof fn lemma_first_hit_earliest(hits: Seq<HitRect>, col: u16, row: u16)
    ensures
        first_hit(hits, col, row) matches Some(a) ==> exists|i: int|
            #![trigger hits[i]]
            0 <= i < hits.len() && hits[i].action == a && hits[i].rect.x <= col < hits[i].rect.x + hits[i].rect.width
                && hits[i].rect.y <= row < hits[i].rect.y + hits[i].rect.height && forall|j: int|
                #![trigger hits[j]]
                0 <= j < i ==> !(hits[j].rect.x <= col < hits[j].rect.x + hits[j].rect.width && hits[j].rect.y <= row
                    < hits[j].rect.y + hits[j].rect.height),
        first_hit(hits, col, row) is None ==> forall|j: int|
            #![trigger hits[j]]
            0 <= j < hits.len() ==> !(hits[j].rect.x <= col < hits[j].rect.x + hits[j].rect.width && hits[j].rect.y
                <= row < hits[j].rect.y + hits[j].rect.height),
    decreases hits.len(),
{
    if hits.len() > 0 && !rect_contains(hits[0].rect, col, row) {
        let rest = hits.drop_first();
        lemma_first_hit_earliest(rest, col, row);
        if first_hit(hits, col, row) is Some {
            let i = choose|i: int|
                #![trigger rest[i]]
                0 <= i < rest.len() && rest[i].action == first_hit(hits, col, row)->0 && rest[i].rect.x <= col
                    < rest[i].rect.x + rest[i].rect.width && rest[i].rect.y <= row < rest[i].rect.y + rest[i].rect.height
                    && forall|j: int|
                    #![trigger rest[j]]
                    0 <= j < i ==> !(rest[j].rect.x <= col < rest[j].rect.x + rest[j].rect.width && rest[j].rect.y <= row
                        < rest[j].rect.y + rest[j].rect.height);
            assert(hits[i + 1] == rest[i]);
            assert forall|j: int| #![trigger hits[j]] 0 <= j < i + 1 implies !(hits[j].rect.x <= col < hits[j].rect.x + hits[j].rect.width
                && hits[j].rect.y <= row < hits[j].rect.y + hits[j].rect.height) by {
                if j > 0 {
                    assert(hits[j] == rest[j - 1]);
                }
            }
        } else {
            assert forall|j: int| #![trigger hits[j]] 0 <= j < hits.len() implies !(hits[j].rect.x <= col < hits[j].rect.x
                + hits[j].rect.width && hits[j].rect.y <= row < hits[j].rect.y + hits[j].rect.height) by {
                if j > 0 {
                    assert(hits[j] == rest[j - 1]);
                }
            }
        }
    }
}

/// Resolve a click at `(col, row)` to the action of the first region
/// containing it.
pub fn hit_test(hits: &[HitRect], col: u16, row: u16) -> (r: Option<ChromeAction>)
    ensures
        r == first_hit(hits@, col, row),
{
    let mut i: usize = 0;
    assert(hits@.skip(0) =~= hits@);
    while i < hits.len()
        invariant
            i <= hits@.len(),
            first_hit(hits@, col, row) == first_hit(hits@.skip(i as int), col, row),
        decreases hits@.len() - i,
    {
        let h = hits[i];
        let ghost rest = hits@.skip(i as int);
        assert(rest[0] == h);
        let c = col as u32;
        let r = row as u32;
        if c >= h.rect.x as u32 && c < h.rect.x as u32 + h.rect.width as u32 && r >= h.rect.y as u32
            && r < h.rect.y as u32 + h.rect.height as u32 {
            return Some(h.action);
        }
        assert(rest.drop_first() =~= hits@.skip(i + 1));
        i = i + 1;
    }
    None
}

/// The caption under the office view: the status message framed by spaces
/// when there is one, else the number of agents, ` 1 agent ` or ` N agents `.
pub open spec fn office_caption_text(status: Option<Seq<char>>, agents: usize) -> Seq<char> {
    match status {
        Some(t) => " "@ + t + " "@,
        None => " "@ + dec_chars(agents as nat) + " agent"@ + (if agents == 1 { ""@ } else { "s"@ }) + " "@,
    }
}

/// The caption under the office view.
pub fn office_caption(status: Option<&str>, agents: usize) -> (s: String)
    ensures
        s@ == office_caption_text(
            match status {
                Some(t) => Some(t@),
                None => None,
            },
            agents,
        ),
{
    let mut cs: Vec<char> = Vec::new();
    match status {
        Some(t) => {
            push_chars(&mut cs, " ");
            push_chars(&mut cs, t);
            push_chars(&mut cs, " ");
        },
        None => {
            push_chars(&mut cs, " ");
            push_dec_chars(&mut cs, agents as u64);
            push_chars(&mut cs, " agent");
            if agents != 1 {
                push_chars(&mut cs, "s");
            }
            proof {
                reveal_strlit("");
                assert(cs@ + ""@ =~= cs@);
            }
            push_chars(&mut cs, " ");
        },
    }
    string_from_chars(&cs)
}

} // verus!
