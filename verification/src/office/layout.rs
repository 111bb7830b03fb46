//! What the placed furniture makes of the floor: the tiles it blocks and
//! the seats its chairs offer, with the direction a seated character faces.

use std::collections::BTreeSet;
use vstd::prelude::*;
use vstd::string::*;

use crate::keyed::{by_key, insert_by_key, lemma_by_key_at, position_by_key, sorted_by_key, Keyed};
use crate::office::catalog::{FurnitureCatalog, FurnitureCatalogEntry};
use crate::office::types::{Direction, Seat};
use crate::text::{dec_chars, push_dec_chars, str_eq, string_from_chars};

verus! {

/// A furniture item placed on the grid, as the layout logic reads it.
#[derive(Debug, Clone)]
pub struct PlacedItem {
    pub uid: String,
    pub type_id: String,
    pub col: i32,
    pub row: i32,
}

/// The entry an item places, if the catalog lists its type.
pub open spec fn entry_for(cat: Map<Seq<char>, FurnitureCatalogEntry>, it: PlacedItem) -> Option<FurnitureCatalogEntry> {
    if cat.contains_key(it.type_id@) { Some(cat[it.type_id@]) } else { None }
}

/// The first footprint row that blocks: the background rows on top do not.
pub open spec fn first_solid_row(e: FurnitureCatalogEntry) -> int {
    if e.background_tiles > 0 { e.background_tiles as int } else { 0 }
}

/// Tile `t` lies in rows `from..` of the item's footprint.
pub open spec fn in_footprint(it: PlacedItem, e: FurnitureCatalogEntry, from: int, t: (i32, i32)) -> bool {
    &&& it.col <= t.0 < it.col + e.footprint_w
    &&& it.row + from <= t.1 < it.row + e.footprint_h
}

/// The item's solid rows cover tile `t` (an item of an unlisted type
/// covers nothing).
pub open spec fn item_blocks(cat: Map<Seq<char>, FurnitureCatalogEntry>, it: PlacedItem, t: (i32, i32)) -> bool {
    match entry_for(cat, it) {
        Some(e) => in_footprint(it, e, first_solid_row(e), t),
        None => false,
    }
}

/// Some listed item blocks tile `t` with its solid rows.
pub open spec fn blocked_by(items: Seq<PlacedItem>, cat: Map<Seq<char>, FurnitureCatalogEntry>, t: (i32, i32)) -> bool {
    exists|i: int| 0 <= i < items.len() && #[trigger] item_blocks(cat, items[i], t)
}

/// The solid part of the item's footprint has its tile coordinates in
/// `i32`.
pub open spec fn solid_fits(it: PlacedItem, e: FurnitureCatalogEntry) -> bool {
    (e.footprint_w > 0 && e.footprint_h > first_solid_row(e)) ==> (it.col + e.footprint_w - 1 <= i32::MAX
        && it.row + e.footprint_h - 1 <= i32::MAX)
}

/// Tile `t` is in the optional exclusion set.
pub open spec fn excluded(exclude: Option<Set<(i32, i32)>>, t: (i32, i32)) -> bool {
    exclude matches Some(x) && x.contains(t)
}

/// Add the solid footprint of one item, minus the excluded tiles.
fn block_footprint(
    tiles: &mut BTreeSet<(i32, i32)>,
    it: &PlacedItem,
    e: &FurnitureCatalogEntry,
    exclude: Option<&BTreeSet<(i32, i32)>>,
)
    requires
        solid_fits(*it, *e),
    ensures
        final(tiles)@ == old(tiles)@.union(
            Set::new(
                |t: (i32, i32)|
                    in_footprint(*it, *e, first_solid_row(*e), t) && !excluded(
                        match exclude {
                            Some(x) => Some(x@),
                            None => None,
                        },
                        t,
                    ),
            ),
        ),
{
    let ghost ex: Option<Set<(i32, i32)>> = match exclude {
        Some(x) => Some(x@),
        None => None,
    };
    let ghost base = tiles@;
    let first: i32 = if e.background_tiles > 0 { e.background_tiles } else { 0 };
    let mut dr: i32 = first;
    while dr < e.footprint_h
        invariant
            first == first_solid_row(*e),
            first <= dr,
            dr <= e.footprint_h || dr == first,
            solid_fits(*it, *e),
            ex == (match exclude {
                Some(x) => Some(x@),
                None => None::<Set<(i32, i32)>>,
            }),
            tiles@ == base.union(
                Set::new(
                    |t: (i32, i32)|
                        it.col <= t.0 < it.col + e.footprint_w && it.row + first <= t.1 < it.row + dr && !excluded(ex, t),
                ),
            ),
        decreases e.footprint_h - dr,
    {
        let ghost r = it.row + dr;
        let mut dc: i32 = 0;
        let ghost row_base = tiles@;
        while dc < e.footprint_w
            invariant
                first == first_solid_row(*e),
                first <= dr < e.footprint_h,
                0 <= dc,
                e.footprint_w >= 0 ==> dc <= e.footprint_w,
                e.footprint_w < 0 ==> dc == 0,
                r == it.row + dr,
                solid_fits(*it, *e),
                ex == (match exclude {
                    Some(x) => Some(x@),
                    None => None::<Set<(i32, i32)>>,
                }),
                tiles@ == row_base.union(
                    Set::new(|t: (i32, i32)| it.col <= t.0 < it.col + dc && t.1 == r && !excluded(ex, t)),
                ),
            decreases e.footprint_w - dc,
        {
            let key = (it.col + dc, it.row + dr);
            let skip = match exclude {
                Some(x) => x.contains(&key),
                None => false,
            };
            if !skip {
                tiles.insert(key);
            }
            proof {
                assert(tiles@ =~= row_base.union(
                    Set::new(|t: (i32, i32)| it.col <= t.0 < it.col + dc + 1 && t.1 == r && !excluded(ex, t)),
                ));
            }
            dc = dc + 1;
        }
        proof {
            assert(tiles@ =~= base.union(
                Set::new(
                    |t: (i32, i32)|
                        it.col <= t.0 < it.col + e.footprint_w && it.row + first <= t.1 < it.row + dr + 1 && !excluded(ex, t),
                ),
            ));
        }
        dr = dr + 1;
    }
    proof {
        assert(tiles@ =~= base.union(
            Set::new(|t: (i32, i32)| in_footprint(*it, *e, first_solid_row(*e), t) && !excluded(ex, t)),
        ));
    }
}

/// The tiles the furniture blocks: the footprint of each item whose type
/// the catalog lists, without its background rows, minus the `exclude`
/// tiles (used to carve out seats).
pub fn get_blocked_tiles(
    furniture: &[PlacedItem],
    catalog: &FurnitureCatalog,
    exclude: Option<&BTreeSet<(i32, i32)>>,
) -> (r: BTreeSet<(i32, i32)>)
    requires
        catalog.wf(),
        forall|i: int|
            0 <= i < furniture@.len() ==> (#[trigger] entry_for(catalog.by_id(), furniture@[i]) matches Some(e)
                ==> solid_fits(furniture@[i], e)),
    ensures
        r@ == Set::new(
            |t: (i32, i32)|
                blocked_by(furniture@, catalog.by_id(), t) && !excluded(
                    match exclude {
                        Some(x) => Some(x@),
                        None => None,
                    },
                    t,
                ),
        ),
{
    let ghost ex: Option<Set<(i32, i32)>> = match exclude {
        Some(x) => Some(x@),
        None => None,
    };
    let ghost cat = catalog.by_id();
    let mut tiles: BTreeSet<(i32, i32)> = BTreeSet::new();
    let mut i: usize = 0;
    proof {
        assert(tiles@ =~= Set::new(|t: (i32, i32)| blocked_by(furniture@.take(0), cat, t) && !excluded(ex, t)));
    }
    while i < furniture.len()
        invariant
            i <= furniture@.len(),
            catalog.wf(),
            cat == catalog.by_id(),
            ex == (match exclude {
                Some(x) => Some(x@),
                None => None::<Set<(i32, i32)>>,
            }),
            forall|j: int|
                0 <= j < furniture@.len() ==> (#[trigger] entry_for(cat, furniture@[j]) matches Some(e)
                    ==> solid_fits(furniture@[j], e)),
            tiles@ == Set::new(|t: (i32, i32)| blocked_by(furniture@.take(i as int), cat, t) && !excluded(ex, t)),
        decreases furniture@.len() - i,
    {
        let ghost before = tiles@;
        let it = &furniture[i];
        let ghost pre = furniture@.take(i as int);
        let ghost post = furniture@.take(i + 1);
        proof {
            assert(post =~= pre.push(*it));
        }
        match catalog.get(it.type_id.as_str()) {
            Some(e) => {
                assert(entry_for(cat, furniture@[i as int]) == Some(*e));
                block_footprint(&mut tiles, it, e, exclude);
                proof {
                    assert forall|t: (i32, i32)| #![auto] blocked_by(post, cat, t) == (blocked_by(pre, cat, t)
                        || in_footprint(*it, *e, first_solid_row(*e), t)) by {
                        if blocked_by(post, cat, t) {
                            let j = choose|j: int| 0 <= j < post.len() && #[trigger] item_blocks(cat, post[j], t);
                            if j < pre.len() {
                                assert(pre[j] == post[j]);
                            }
                        }
                        if blocked_by(pre, cat, t) {
                            let j = choose|j: int| 0 <= j < pre.len() && #[trigger] item_blocks(cat, pre[j], t);
                            assert(post[j] == pre[j]);
                        }
                        if in_footprint(*it, *e, first_solid_row(*e), t) {
                            assert(post[i as int] == *it);
                            assert(item_blocks(cat, post[i as int], t));
                        }
                    }
                    assert(tiles@ =~= Set::new(|t: (i32, i32)| blocked_by(post, cat, t) && !excluded(ex, t)));
                }
            },
            None => {
                proof {
                    assert forall|t: (i32, i32)| #![auto] blocked_by(post, cat, t) == blocked_by(pre, cat, t) by {
                        if blocked_by(post, cat, t) {
                            let j = choose|j: int| 0 <= j < post.len() && #[trigger] item_blocks(cat, post[j], t);
                            if j < pre.len() {
                                assert(pre[j] == post[j]);
                            } else {
                                assert(post[j] == *it);
                            }
                        }
                        if blocked_by(pre, cat, t) {
                            let j = choose|j: int| 0 <= j < pre.len() && #[trigger] item_blocks(cat, pre[j], t);
                            assert(post[j] == pre[j]);
                        }
                    }
                    assert(tiles@ =~= Set::new(|t: (i32, i32)| blocked_by(post, cat, t) && !excluded(ex, t)));
                }
            },
        }
        i = i + 1;
    }
    proof {
        assert(furniture@.take(i as int) =~= furniture@);
    }
    tiles
}

// ── Seats ───────────────────────────────────────────────────────────────────

impl Keyed for Seat {
    open spec fn key_text(&self) -> Seq<char> {
        self.uid@
    }

    fn key_str(&self) -> (r: &str) {
        self.uid.as_str()
    }
}

/// Some desk's footprint covers tile `t`.
pub open spec fn desk_covers(cat: Map<Seq<char>, FurnitureCatalogEntry>, it: PlacedItem, t: (i32, i32)) -> bool {
    match entry_for(cat, it) {
        Some(e) => e.is_desk && in_footprint(it, e, 0, t),
        None => false,
    }
}

/// The tiles covered by desks.
pub open spec fn desk_tiles(items: Seq<PlacedItem>, cat: Map<Seq<char>, FurnitureCatalogEntry>) -> Set<(i32, i32)> {
    Set::new(|t: (i32, i32)| exists|i: int| 0 <= i < items.len() && #[trigger] desk_covers(cat, items[i], t))
}

/// The whole footprint has its tile coordinates in `i32`.
pub open spec fn footprint_fits(it: PlacedItem, e: FurnitureCatalogEntry) -> bool {
    (e.footprint_w > 0 && e.footprint_h > 0) ==> (it.col + e.footprint_w - 1 <= i32::MAX && it.row
        + e.footprint_h - 1 <= i32::MAX)
}

/// The entry is a chair.
pub open spec fn is_chair(e: FurnitureCatalogEntry) -> bool {
    e.category@ == "chairs"@
}

/// The seat rows of a chair (from its background row count on) and the
/// tiles around them have coordinates in `i32`.
pub open spec fn seats_fit(it: PlacedItem, e: FurnitureCatalogEntry) -> bool {
    (e.footprint_w > 0 && e.footprint_h > e.background_tiles) ==> (it.col - 1 >= i32::MIN && it.col
        + e.footprint_w <= i32::MAX && it.row + e.background_tiles - 1 >= i32::MIN && it.row + e.footprint_h
        <= i32::MAX)
}

/// Every listed item's coordinates fit, as the seat computation needs.
pub open spec fn layout_fits(items: Seq<PlacedItem>, cat: Map<Seq<char>, FurnitureCatalogEntry>) -> bool {
    forall|i: int|
        0 <= i < items.len() ==> match #[trigger] entry_for(cat, items[i]) {
            Some(e) => footprint_fits(items[i], e) && (is_chair(e) ==> seats_fit(items[i], e)),
            None => true,
        }
}

/// The direction a chair's orientation makes its sitter face.
pub open spec fn orientation_facing(o: Seq<char>) -> Direction {
    if o == "front"@ {
        Direction::Down
    } else if o == "back"@ {
        Direction::Up
    } else if o == "left"@ {
        Direction::Left
    } else if o == "right"@ || o == "side"@ {
        Direction::Right
    } else {
        Direction::Down
    }
}

/// Every seat of a chair from row `dr`, column `dc` on faces the way an
/// oriented chair points.
proof fn lemma_chair_seats_oriented(
    it: PlacedItem,
    e: FurnitureCatalogEntry,
    desks: Set<(i32, i32)>,
    dr: int,
    dc: int,
    n: nat,
    o: String,
)
    requires
        e.orientation == Some(o),
    ensures
        forall|k: int| 0 <= k < chair_seats(it, e, desks, dr, dc, n).len() ==> (#[trigger] chair_seats(it, e, desks, dr, dc, n)[k]).3
            == orientation_facing(o@),
    decreases e.footprint_h - dr, e.footprint_w - dc,
{
    if dr >= e.footprint_h || e.footprint_w <= 0 {
    } else if dc >= e.footprint_w {
        lemma_chair_seats_oriented(it, e, desks, dr + 1, 0, n, o);
    } else {
        lemma_chair_seats_oriented(it, e, desks, dr, dc + 1, n + 1, o);
        let rest = chair_seats(it, e, desks, dr, dc + 1, n + 1);
        let all = chair_seats(it, e, desks, dr, dc, n);
        assert forall|k: int| 0 <= k < all.len() implies (#[trigger] all[k]).3 == orientation_facing(o@) by {
            if k > 0 {
                assert(all[k] == rest[k - 1]);
            }
        }
    }
}

/// A chair whose catalog entry names an orientation seats everyone facing
/// that way: `front` faces down, `back` up, `left` left, and `right` or
/// `side` right, for every one of its seats.
pub proof fn lemma_oriented_chair_facing(
    cat: Map<Seq<char>, FurnitureCatalogEntry>,
    desks: Set<(i32, i32)>,
    it: PlacedItem,
    o: String,
)
    requires
        entry_for(cat, it) matches Some(e) && e.orientation == Some(o),
    ensures
        forall|k: int| 0 <= k < item_seats(cat, desks, it).len() ==> {
            let f = (#[trigger] item_seats(cat, desks, it)[k]).3;
            &&& o@ == "front"@ ==> f == Direction::Down
            &&& o@ == "back"@ ==> f == Direction::Up
            &&& o@ == "left"@ ==> f == Direction::Left
            &&& o@ == "right"@ ==> f == Direction::Right
            &&& o@ == "side"@ ==> f == Direction::Right
        },
{
    let e = entry_for(cat, it)->0;
    lemma_chair_seats_oriented(it, e, desks, e.background_tiles as int, 0, 0, o);
    reveal_strlit("front");
    reveal_strlit("back");
    reveal_strlit("left");
    reveal_strlit("right");
    reveal_strlit("side");
    assert("back"@[0] != "front"@[0]);
    assert("left"@[0] != "front"@[0]);
    assert("left"@[0] != "back"@[0]);
    assert("right"@[0] != "front"@[0]);
    assert("right"@[0] != "back"@[0]);
    assert("right"@[0] != "left"@[0]);
    assert("side"@[0] != "front"@[0]);
    assert("side"@[0] != "back"@[0]);
    assert("side"@[0] != "left"@[0]);
}

/// Facing for a seat at `(c, r)` of a chair without orientation: towards
/// the first adjacent desk tile, looking up, down, left, then right; down
/// when no desk is adjacent.
pub open spec fn desk_facing(desks: Set<(i32, i32)>, c: int, r: int) -> Direction {
    if desks.contains((c as i32, (r - 1) as i32)) {
        Direction::Up
    } else if desks.contains((c as i32, (r + 1) as i32)) {
        Direction::Down
    } else if desks.contains(((c - 1) as i32, r as i32)) {
        Direction::Left
    } else if desks.contains(((c + 1) as i32, r as i32)) {
        Direction::Right
    } else {
        Direction::Down
    }
}

/// A seat of a chair without orientation faces an adjacent desk tile when
/// there is one, preferring the tile above, then below, then left, then
/// right; with no desk tile next to it, it faces down.
pub proof fn lemma_desk_facing_adjacent(desks: Set<(i32, i32)>, c: i32, r: i32)
    requires
        i32::MIN < c < i32::MAX,
        i32::MIN < r < i32::MAX,
    ensures
        ({
            let above = desks.contains((c, (r - 1) as i32));
            let below = desks.contains((c, (r + 1) as i32));
            let left = desks.contains(((c - 1) as i32, r));
            let right = desks.contains(((c + 1) as i32, r));
            let d = desk_facing(desks, c as int, r as int);
            &&& d == Direction::Up <==> above
            &&& d == Direction::Down <==> (!above && below) || (!above && !below && !left && !right)
            &&& d == Direction::Left <==> !above && !below && left
            &&& d == Direction::Right <==> !above && !below && !left && right
        }),
{
}

/// The uid of a chair's `n`-th seat: the chair's uid, then `:n` from the
/// second seat on.
pub open spec fn seat_uid(uid: Seq<char>, n: nat) -> Seq<char> {
    if n == 0 { uid } else { uid + seq![':'] + dec_chars(n) }
}

/// What a seat holds: uid, tile and facing.
pub type SeatView = (Seq<char>, i32, i32, Direction);

/// What a seat holds.
pub open spec fn seat_view(s: Seat) -> SeatView {
    (s.uid@, s.seat_col, s.seat_row, s.facing_dir)
}

/// The `n`-th seat of a chair, at footprint row `dr` and column `dc`.
pub open spec fn seat_at(
    it: PlacedItem,
    e: FurnitureCatalogEntry,
    desks: Set<(i32, i32)>,
    dr: int,
    dc: int,
    n: nat,
) -> SeatView {
    (
        seat_uid(it.uid@, n),
        (it.col + dc) as i32,
        (it.row + dr) as i32,
        match e.orientation {
            Some(o) => orientation_facing(o@),
            None => desk_facing(desks, it.col + dc, it.row + dr),
        },
    )
}

/// The seats of a chair from row `dr`, column `dc` on, row by row, the first
/// numbered `n`.
pub open spec fn chair_seats(
    it: PlacedItem,
    e: FurnitureCatalogEntry,
    desks: Set<(i32, i32)>,
    dr: int,
    dc: int,
    n: nat,
) -> Seq<SeatView>
    decreases e.footprint_h - dr, e.footprint_w - dc,
{
    if dr >= e.footprint_h || e.footprint_w <= 0 {
        Seq::empty()
    } else if dc >= e.footprint_w {
        chair_seats(it, e, desks, dr + 1, 0, n)
    } else {
        seq![seat_at(it, e, desks, dr, dc, n)] + chair_seats(it, e, desks, dr, dc + 1, n + 1)
    }
}

/// The seats an item offers: a chair one per footprint tile from its
/// background row count on; anything else none.
pub open spec fn item_seats(cat: Map<Seq<char>, FurnitureCatalogEntry>, desks: Set<(i32, i32)>, it: PlacedItem) -> Seq<SeatView> {
    match entry_for(cat, it) {
        Some(e) => if is_chair(e) {
            chair_seats(it, e, desks, e.background_tiles as int, 0, 0)
        } else {
            Seq::empty()
        },
        None => Seq::empty(),
    }
}

/// The seats of the listed items, in order.
pub open spec fn seat_list(items: Seq<PlacedItem>, cat: Map<Seq<char>, FurnitureCatalogEntry>, desks: Set<(i32, i32)>) -> Seq<SeatView>
    decreases items.len(),
{
    if items.len() == 0 {
        Seq::empty()
    } else {
        seat_list(items.drop_last(), cat, desks) + item_seats(cat, desks, items.last())
    }
}

/// `m` with the seats of `l` put in, in order, each replacing the seat
/// with the same uid.
pub open spec fn insert_views(m: Map<Seq<char>, SeatView>, l: Seq<SeatView>) -> Map<Seq<char>, SeatView>
    decreases l.len(),
{
    if l.len() == 0 {
        m
    } else {
        insert_views(m, l.drop_last()).insert(l.last().0, l.last())
    }
}

proof fn lemma_insert_views_concat(m: Map<Seq<char>, SeatView>, a: Seq<SeatView>, b: Seq<SeatView>)
    ensures
        insert_views(m, a + b) == insert_views(insert_views(m, a), b),
    decreases b.len(),
{
    if b.len() == 0 {
        assert(a + b =~= a);
    } else {
        assert((a + b).drop_last() =~= a + b.drop_last());
        lemma_insert_views_concat(m, a, b.drop_last());
    }
}

/// What the seats of a map hold, by uid.
pub open spec fn seat_views(m: Map<Seq<char>, Seat>) -> Map<Seq<char>, SeatView> {
    m.map_values(|s: Seat| seat_view(s))
}

/// No seat is taken.
pub open spec fn none_assigned(m: Map<Seq<char>, Seat>) -> bool {
    forall|k: Seq<char>| #[trigger] m.contains_key(k) ==> !m[k].assigned
}

/// The seats of a layout, by uid: a strictly ordered list.
pub struct SeatMap {
    seats: Vec<Seat>,
}

impl SeatMap {
    /// The seats, ordered by uid.
    pub closed spec fn listed(&self) -> Seq<Seat> {
        self.seats@
    }

    /// The seats by uid.
    pub open spec fn by_uid(&self) -> Map<Seq<char>, Seat> {
        by_key(self.listed())
    }

    /// Seats are kept strictly ordered by uid.
    pub open spec fn wf(&self) -> bool {
        sorted_by_key(self.listed())
    }

    /// No seats.
    pub fn new() -> (m: Self)
        ensures
            m.wf(),
            m.listed().len() == 0,
    {
        SeatMap { seats: Vec::new() }
    }

    /// The seats, ordered by uid.
    pub fn as_slice(&self) -> (r: &[Seat])
        ensures
            r@ == self.listed(),
    {
        self.seats.as_slice()
    }

    /// Add a seat, replacing the one with the same uid.
    pub fn insert(&mut self, seat: Seat)
        requires
            old(self).wf(),
        ensures
            final(self).wf(),
            final(self).by_uid() == old(self).by_uid().insert(seat.uid@, seat),
    {
        insert_by_key(&mut self.seats, seat);
    }

    /// The seat with uid `uid`, if any.
    pub fn get(&self, uid: &str) -> (r: Option<&Seat>)
        requires
            self.wf(),
        ensures
            match r {
                Some(s) => self.by_uid().contains_key(uid@) && self.by_uid()[uid@] == *s,
                None => !self.by_uid().contains_key(uid@),
            },
    {
        match position_by_key(&self.seats, uid) {
            Some(i) => {
                proof {
                    lemma_by_key_at(self.seats@, i as int);
                }
                Some(&self.seats[i])
            },
            None => None,
        }
    }
}

/// The uid of a chair's `n`-th seat.
fn make_seat_uid(uid: &String, n: u64) -> (r: String)
    ensures
        r@ == seat_uid(uid@, n as nat),
{
    if n == 0 {
        return uid.clone();
    }
    let s = uid.as_str();
    let len = s.unicode_len();
    let mut cs: Vec<char> = Vec::new();
    let mut i: usize = 0;
    while i < len
        invariant
            len == s@.len(),
            s@ == uid@,
            i <= len,
            cs@ == s@.take(i as int),
        decreases len - i,
    {
        cs.push(s.get_char(i));
        proof {
            assert(s@.take(i + 1) =~= s@.take(i as int).push(s@[i as int]));
        }
        i = i + 1;
    }
    proof {
        assert(s@.take(len as int) =~= s@);
    }
    cs.push(':');
    push_dec_chars(&mut cs, n);
    string_from_chars(&cs)
}

/// The direction a chair's orientation makes its sitter face.
fn orientation_to_facing(o: &str) -> (d: Direction)
    ensures
        d == orientation_facing(o@),
{
    if str_eq(o, "front") {
        Direction::Down
    } else if str_eq(o, "back") {
        Direction::Up
    } else if str_eq(o, "left") {
        Direction::Left
    } else if str_eq(o, "right") || str_eq(o, "side") {
        Direction::Right
    } else {
        Direction::Down
    }
}

/// Facing towards the first adjacent desk tile.
fn facing_desk(desks: &BTreeSet<(i32, i32)>, c: i32, r: i32) -> (d: Direction)
    requires
        c > i32::MIN,
        c < i32::MAX,
        r > i32::MIN,
        r < i32::MAX,
    ensures
        d == desk_facing(desks@, c as int, r as int),
{
    if desks.contains(&(c, r - 1)) {
        Direction::Up
    } else if desks.contains(&(c, r + 1)) {
        Direction::Down
    } else if desks.contains(&(c - 1, r)) {
        Direction::Left
    } else if desks.contains(&(c + 1, r)) {
        Direction::Right
    } else {
        Direction::Down
    }
}

/// Add the full footprint of every desk.
fn collect_desk_tiles(furniture: &[PlacedItem], catalog: &FurnitureCatalog) -> (r: BTreeSet<(i32, i32)>)
    requires
        catalog.wf(),
        layout_fits(furniture@, catalog.by_id()),
    ensures
        r@ == desk_tiles(furniture@, catalog.by_id()),
{
    let ghost cat = catalog.by_id();
    let mut tiles: BTreeSet<(i32, i32)> = BTreeSet::new();
    let mut i: usize = 0;
    proof {
        assert(tiles@ =~= desk_tiles(furniture@.take(0), cat));
    }
    while i < furniture.len()
        invariant
            i <= furniture@.len(),
            catalog.wf(),
            cat == catalog.by_id(),
            layout_fits(furniture@, cat),
            tiles@ == desk_tiles(furniture@.take(i as int), cat),
        decreases furniture@.len() - i,
    {
        let it = &furniture[i];
        let ghost pre = furniture@.take(i as int);
        let ghost post = furniture@.take(i + 1);
        proof {
            assert(post =~= pre.push(*it));
            assert(entry_for(cat, furniture@[i as int]) == entry_for(cat, *it));
        }
        let ghost before = tiles@;
        match catalog.get(it.type_id.as_str()) {
            Some(e) => {
                assert(entry_for(cat, *it) == Some(*e));
                if e.is_desk {
                    let mut dr: i32 = 0;
                    while dr < e.footprint_h
                        invariant
                            0 <= dr,
                            e.footprint_h >= 0 ==> dr <= e.footprint_h,
                            e.footprint_h < 0 ==> dr == 0,
                            footprint_fits(*it, *e),
                            tiles@ == before.union(
                                Set::new(|t: (i32, i32)| it.col <= t.0 < it.col + e.footprint_w && it.row <= t.1 < it.row + dr),
                            ),
                        decreases e.footprint_h - dr,
                    {
                        let ghost row_base = tiles@;
                        let mut dc: i32 = 0;
                        while dc < e.footprint_w
                            invariant
                                0 <= dr < e.footprint_h,
                                0 <= dc,
                                e.footprint_w >= 0 ==> dc <= e.footprint_w,
                                e.footprint_w < 0 ==> dc == 0,
                                footprint_fits(*it, *e),
                                tiles@ == row_base.union(
                                    Set::new(|t: (i32, i32)| it.col <= t.0 < it.col + dc && t.1 == it.row + dr),
                                ),
                            decreases e.footprint_w - dc,
                        {
                            tiles.insert((it.col + dc, it.row + dr));
                            proof {
                                assert(tiles@ =~= row_base.union(
                                    Set::new(|t: (i32, i32)| it.col <= t.0 < it.col + dc + 1 && t.1 == it.row + dr),
                                ));
                            }
                            dc = dc + 1;
                        }
                        proof {
                            assert(tiles@ =~= before.union(
                                Set::new(|t: (i32, i32)| it.col <= t.0 < it.col + e.footprint_w && it.row <= t.1 < it.row + dr + 1),
                            ));
                        }
                        dr = dr + 1;
                    }
                    proof {
                        assert(tiles@ =~= before.union(Set::new(|t: (i32, i32)| desk_covers(cat, *it, t))));
                    }
                } else {
                    proof {
                        assert(tiles@ =~= before.union(Set::new(|t: (i32, i32)| desk_covers(cat, *it, t))));
                    }
                }
            },
            None => {
                proof {
                    assert(tiles@ =~= before.union(Set::new(|t: (i32, i32)| desk_covers(cat, *it, t))));
                }
            },
        }
        proof {
            assert forall|t: (i32, i32)| #![auto] desk_tiles(post, cat).contains(t) == (desk_tiles(pre, cat).contains(t)
                || desk_covers(cat, *it, t)) by {
                if desk_tiles(post, cat).contains(t) {
                    let j = choose|j: int| 0 <= j < post.len() && #[trigger] desk_covers(cat, post[j], t);
                    if j < pre.len() {
                        assert(pre[j] == post[j]);
                    }
                }
                if desk_tiles(pre, cat).contains(t) {
                    let j = choose|j: int| 0 <= j < pre.len() && #[trigger] desk_covers(cat, pre[j], t);
                    assert(post[j] == pre[j]);
                }
                if desk_covers(cat, *it, t) {
                    assert(post[i as int] == *it);
                }
            }
            assert(tiles@ =~= desk_tiles(post, cat));
        }
        i = i + 1;
    }
    proof {
        assert(furniture@.take(i as int) =~= furniture@);
    }
    tiles
}

/// Add the seats of one chair.
fn add_chair_seats(seats: &mut SeatMap, it: &PlacedItem, e: &FurnitureCatalogEntry, desks: &BTreeSet<(i32, i32)>)
    requires
        old(seats).wf(),
        none_assigned(old(seats).by_uid()),
        seats_fit(*it, *e),
    ensures
        final(seats).wf(),
        none_assigned(final(seats).by_uid()),
        seat_views(final(seats).by_uid()) == insert_views(
            seat_views(old(seats).by_uid()),
            chair_seats(*it, *e, desks@, e.background_tiles as int, 0, 0),
        ),
{
    let ghost full = chair_seats(*it, *e, desks@, e.background_tiles as int, 0, 0);
    let ghost base = seat_views(seats.by_uid());
    let ghost bg = e.background_tiles as int;
    if e.footprint_w <= 0 || e.background_tiles >= e.footprint_h {
        proof {
            assert(full =~= Seq::<SeatView>::empty());
        }
        return;
    }
    let mut dr: i32 = e.background_tiles;
    let mut n: u64 = 0;
    let ghost mut done: Seq<SeatView> = Seq::empty();
    proof {
        assert(done + full =~= full);
    }
    while dr < e.footprint_h
        invariant
            bg == e.background_tiles,
            bg <= dr <= e.footprint_h,
            e.footprint_w > 0,
            seats_fit(*it, *e),
            n as int == (dr - bg) * e.footprint_w,
            done + chair_seats(*it, *e, desks@, dr as int, 0, n as nat) == full,
            seats.wf(),
            none_assigned(seats.by_uid()),
            seat_views(seats.by_uid()) == insert_views(base, done),
        decreases e.footprint_h - dr,
    {
        let mut dc: i32 = 0;
        while dc < e.footprint_w
            invariant
                bg == e.background_tiles,
                bg <= dr < e.footprint_h,
                0 <= dc <= e.footprint_w,
                seats_fit(*it, *e),
                n as int == (dr - bg) * e.footprint_w + dc,
                done + chair_seats(*it, *e, desks@, dr as int, dc as int, n as nat) == full,
                seats.wf(),
                none_assigned(seats.by_uid()),
                seat_views(seats.by_uid()) == insert_views(base, done),
            decreases e.footprint_w - dc,
        {
            let uid = make_seat_uid(&it.uid, n);
            let col = it.col + dc;
            let row = it.row + dr;
            let facing = match &e.orientation {
                Some(o) => orientation_to_facing(o.as_str()),
                None => facing_desk(desks, col, row),
            };
            let seat = Seat { uid, seat_col: col, seat_row: row, facing_dir: facing, assigned: false };
            let ghost v = seat_view(seat);
            proof {
                assert(v == seat_at(*it, *e, desks@, dr as int, dc as int, n as nat));
            }
            let ghost old_map = seats.by_uid();
            seats.insert(seat);
            proof {
                let rest = chair_seats(*it, *e, desks@, dr as int, dc + 1, (n + 1) as nat);
                assert(chair_seats(*it, *e, desks@, dr as int, dc as int, n as nat) == seq![v] + rest);
                assert(done.push(v) + rest =~= done + (seq![v] + rest));
                assert(done.push(v).drop_last() =~= done);
                assert(seat_views(seats.by_uid()) =~= seat_views(old_map).insert(v.0, v));
                assert forall|k: Seq<char>| #[trigger] seats.by_uid().contains_key(k) implies !seats.by_uid()[k].assigned by {
                    if k != v.0 {
                        assert(old_map.contains_key(k));
                    }
                }
                done = done.push(v);
                assert((dr - bg) * e.footprint_w + dc < (e.footprint_h - bg) * e.footprint_w) by (nonlinear_arith)
                    requires
                        bg <= dr < e.footprint_h,
                        0 <= dc < e.footprint_w,
                ;
                assert((e.footprint_h - bg) * e.footprint_w <= 0x1_0000_0000 * 0x8000_0000) by (nonlinear_arith)
                    requires
                        0 < e.footprint_h - bg <= 0x1_0000_0000,
                        0 < e.footprint_w <= 0x8000_0000,
                ;
            }
            n = n + 1;
            dc = dc + 1;
        }
        proof {
            assert(chair_seats(*it, *e, desks@, dr as int, dc as int, n as nat) == chair_seats(
                *it,
                *e,
                desks@,
                dr + 1,
                0,
                n as nat,
            ));
            assert((dr - bg) * e.footprint_w + e.footprint_w == (dr + 1 - bg) * e.footprint_w) by (nonlinear_arith);
        }
        dr = dr + 1;
    }
    proof {
        assert(chair_seats(*it, *e, desks@, dr as int, 0, n as nat) =~= Seq::<SeatView>::empty());
        assert(done + Seq::<SeatView>::empty() =~= done);
    }
}

/// The seats the chairs offer, by uid: one per footprint tile of each chair
/// from its background row count on, row by row; the first keeps the
/// chair's uid, the `n`-th after it is named `uid:n`. A chair with an
/// orientation faces that way, otherwise towards an adjacent desk tile. A
/// later seat replaces an earlier one with the same uid. No seat is taken.
pub fn layout_to_seats(furniture: &[PlacedItem], catalog: &FurnitureCatalog) -> (r: SeatMap)
    requires
        catalog.wf(),
        layout_fits(furniture@, catalog.by_id()),
    ensures
        r.wf(),
        none_assigned(r.by_uid()),
        seat_views(r.by_uid()) == insert_views(
            Map::empty(),
            seat_list(furniture@, catalog.by_id(), desk_tiles(furniture@, catalog.by_id())),
        ),
{
    let ghost cat = catalog.by_id();
    let desks = collect_desk_tiles(furniture, catalog);
    let ghost d = desks@;
    let mut seats = SeatMap::new();
    let mut i: usize = 0;
    proof {
        assert(seats.by_uid() =~= Map::<Seq<char>, Seat>::empty());
        assert(seat_views(seats.by_uid()) =~= Map::<Seq<char>, SeatView>::empty());
        assert(furniture@.take(0) =~= Seq::<PlacedItem>::empty());
    }
    while i < furniture.len()
        invariant
            i <= furniture@.len(),
            catalog.wf(),
            cat == catalog.by_id(),
            d == desks@,
            layout_fits(furniture@, cat),
            seats.wf(),
            none_assigned(seats.by_uid()),
            seat_views(seats.by_uid()) == insert_views(Map::empty(), seat_list(furniture@.take(i as int), cat, d)),
        decreases furniture@.len() - i,
    {
        let it = &furniture[i];
        let ghost pre = furniture@.take(i as int);
        let ghost post = furniture@.take(i + 1);
        proof {
            assert(post.drop_last() =~= pre);
            assert(post.last() == *it);
            lemma_insert_views_concat(Map::empty(), seat_list(pre, cat, d), item_seats(cat, d, *it));
        }
        match catalog.get(it.type_id.as_str()) {
            Some(e) => {
                assert(entry_for(cat, *it) == Some(*e));
                assert(entry_for(cat, furniture@[i as int]) == Some(*e));
                if str_eq(e.category.as_str(), "chairs") {
                    add_chair_seats(&mut seats, it, e, &desks);
                } else {
                    proof {
                        assert(item_seats(cat, d, *it) =~= Seq::<SeatView>::empty());
                        assert(seat_list(pre, cat, d) + Seq::<SeatView>::empty() =~= seat_list(pre, cat, d));
                    }
                }
            },
            None => {
                proof {
                    assert(item_seats(cat, d, *it) =~= Seq::<SeatView>::empty());
                    assert(seat_list(pre, cat, d) + Seq::<SeatView>::empty() =~= seat_list(pre, cat, d));
                }
            },
        }
        i = i + 1;
    }
    proof {
        assert(furniture@.take(i as int) =~= furniture@);
    }
    seats
}

// ── Seat assignment ─────────────────────────────────────────────────────────

/// The uids of a seat list, in order.
pub open spec fn uids_of(s: Seq<Seat>) -> Seq<Seq<char>> {
    s.map_values(|x: Seat| x.uid@)
}

/// Which seats of a list are taken, in order.
pub open spec fn flags_of(s: Seq<Seat>) -> Seq<bool> {
    s.map_values(|x: Seat| x.assigned)
}

/// The position of `u` in `uids`, the last one if listed twice.
pub open spec fn uid_index(uids: Seq<Seq<char>>, u: Seq<char>) -> Option<int>
    decreases uids.len(),
{
    if uids.len() == 0 {
        None
    } else if uids.last() == u {
        Some(uids.len() - 1)
    } else {
        uid_index(uids.drop_last(), u)
    }
}

/// The first seat not taken.
pub open spec fn first_free(flags: Seq<bool>) -> Option<int>
    decreases flags.len(),
{
    if flags.len() == 0 {
        None
    } else {
        match first_free(flags.drop_last()) {
            Some(i) => Some(i),
            None => if !flags.last() { Some(flags.len() - 1) } else { None },
        }
    }
}

/// First pass of seat assignment: each character keeps the seat it wants
/// when that seat exists and is still free.
pub open spec fn keep_seats(uids: Seq<Seq<char>>, flags: Seq<bool>, wants: Seq<Option<Seq<char>>>) -> (Seq<bool>, Seq<Option<Seq<char>>>)
    decreases wants.len(),
{
    if wants.len() == 0 {
        (flags, Seq::empty())
    } else {
        let (f, r) = keep_seats(uids, flags, wants.drop_last());
        match wants.last() {
            Some(u) => match uid_index(uids, u) {
                Some(i) => if !f[i] { (f.update(i, true), r.push(Some(u))) } else { (f, r.push(None)) },
                None => (f, r.push(None)),
            },
            None => (f, r.push(None)),
        }
    }
}

/// Second pass: each character still without a seat takes the first free
/// one, in uid order.
pub open spec fn fill_seats(uids: Seq<Seq<char>>, flags: Seq<bool>, kept: Seq<Option<Seq<char>>>) -> (Seq<bool>, Seq<Option<Seq<char>>>)
    decreases kept.len(),
{
    if kept.len() == 0 {
        (flags, Seq::empty())
    } else {
        let (f, r) = fill_seats(uids, flags, kept.drop_last());
        match kept.last() {
            Some(u) => (f, r.push(Some(u))),
            None => match first_free(f) {
                Some(i) => (f.update(i, true), r.push(Some(uids[i]))),
                None => (f, r.push(None)),
            },
        }
    }
}

/// The views of optional texts.
pub open spec fn opt_views(v: Seq<Option<String>>) -> Seq<Option<Seq<char>>> {
    v.map_values(|o: Option<String>| match o {
        Some(s) => Some(s@),
        None => None,
    })
}

proof fn lemma_uid_index(uids: Seq<Seq<char>>, u: Seq<char>, i: int)
    requires
        0 <= i < uids.len(),
        uids[i] == u,
        forall|j: int| 0 <= j < uids.len() && j != i ==> uids[j] != u,
    ensures
        uid_index(uids, u) == Some(i),
    decreases uids.len(),
{
    if i < uids.len() - 1 {
        let d = uids.drop_last();
        assert forall|j: int| 0 <= j < d.len() && j != i implies d[j] != u by {
            assert(d[j] == uids[j]);
        }
        lemma_uid_index(d, u, i);
    }
}

proof fn lemma_uid_index_none(uids: Seq<Seq<char>>, u: Seq<char>)
    requires
        forall|j: int| 0 <= j < uids.len() ==> uids[j] != u,
    ensures
        uid_index(uids, u) is None,
    decreases uids.len(),
{
    if uids.len() > 0 {
        let d = uids.drop_last();
        assert forall|j: int| 0 <= j < d.len() implies d[j] != u by {
            assert(d[j] == uids[j]);
        }
        lemma_uid_index_none(d, u);
    }
}

proof fn lemma_first_free(flags: Seq<bool>, i: int)
    requires
        0 <= i <= flags.len(),
        forall|j: int| 0 <= j < i ==> flags[j],
        i == flags.len() || !flags[i],
    ensures
        first_free(flags) == (if i < flags.len() { Some(i) } else { None::<int> }),
    decreases flags.len(),
{
    if flags.len() > 0 {
        let d = flags.drop_last();
        if i < flags.len() - 1 {
            assert forall|j: int| 0 <= j < i implies d[j] by {
                assert(d[j] == flags[j]);
            }
            assert(!d[i]);
            lemma_first_free(d, i);
        } else {
            assert forall|j: int| 0 <= j < d.len() implies d[j] by {
                assert(d[j] == flags[j]);
            }
            lemma_first_free(d, d.len() as int);
        }
    }
}

impl SeatMap {
    /// Mark the `i`-th listed seat taken or free.
    fn set_flag(&mut self, i: usize, v: bool)
        requires
            old(self).wf(),
            i < old(self).listed().len(),
        ensures
            final(self).wf(),
            uids_of(final(self).listed()) == uids_of(old(self).listed()),
            flags_of(final(self).listed()) == flags_of(old(self).listed()).update(i as int, v),
            final(self).listed().map_values(|x: Seat| seat_view(x)) == old(self).listed().map_values(|x: Seat| seat_view(x)),
    {
        let ghost before = self.seats@;
        let mut s = self.seats.remove(i);
        s.assigned = v;
        self.seats.insert(i, s);
        proof {
            let a = self.seats@;
            assert(a.len() == before.len());
            assert forall|j: int| 0 <= j < a.len() implies #[trigger] a[j].uid@ == before[j].uid@ && seat_view(a[j])
                == seat_view(before[j]) && a[j].assigned == (if j == i { v } else { before[j].assigned }) by {
                if j < i {
                    assert(a[j] == before[j]);
                } else if j > i {
                    assert(a[j] == before[j]);
                }
            }
            assert forall|p: int, q: int| 0 <= p < q < a.len() implies crate::text::lex_lt(
                crate::keyed::text_key(#[trigger] a[p].key_text()),
                crate::keyed::text_key(#[trigger] a[q].key_text()),
            ) by {
                assert(crate::text::lex_lt(
                    crate::keyed::text_key(before[p].key_text()),
                    crate::keyed::text_key(before[q].key_text()),
                ));
            }
            assert(uids_of(a) =~= uids_of(before));
            assert(flags_of(a) =~= flags_of(before).update(i as int, v));
            assert(a.map_values(|x: Seat| seat_view(x)) =~= before.map_values(|x: Seat| seat_view(x)));
        }
    }

    /// The index of the first free seat, in uid order.
    fn first_free_index(&self) -> (r: Option<usize>)
        ensures
            match first_free(flags_of(self.listed())) {
                Some(i) => r matches Some(j) && j as int == i,
                None => r is None,
            },
    {
        let mut i: usize = 0;
        while i < self.seats.len()
            invariant
                i <= self.seats@.len(),
                forall|j: int| 0 <= j < i ==> #[trigger] self.seats@[j].assigned,
            decreases self.seats@.len() - i,
        {
            if !self.seats[i].assigned {
                proof {
                    lemma_first_free(flags_of(self.seats@), i as int);
                }
                return Some(i);
            }
            i = i + 1;
        }
        proof {
            lemma_first_free(flags_of(self.seats@), i as int);
        }
        None
    }

    /// The uid of the first free seat, in uid order.
    pub fn find_free_seat_uid(&self) -> (r: Option<String>)
        ensures
            match first_free(flags_of(self.listed())) {
                Some(i) => r matches Some(u) && u@ == self.listed()[i].uid@,
                None => r is None,
            },
    {
        match self.first_free_index() {
            Some(i) => {
                proof {
                    lemma_first_free_range(flags_of(self.seats@));
                }
                Some(self.seats[i].uid.clone())
            },
            None => None,
        }
    }

    /// The position of the seat with uid `u`.
    fn index_of(&self, u: &str) -> (r: Option<usize>)
        requires
            self.wf(),
        ensures
            match uid_index(uids_of(self.listed()), u@) {
                Some(i) => r matches Some(j) && j as int == i && i < self.listed().len(),
                None => r is None,
            },
            r matches Some(j) ==> j < self.listed().len(),
    {
        let r = position_by_key(&self.seats, u);
        proof {
            let uids = uids_of(self.seats@);
            match r {
                Some(i) => {
                    assert forall|j: int| 0 <= j < uids.len() && j != i implies uids[j] != u@ by {
                        crate::keyed::lemma_sorted_distinct(self.seats@, j, i as int);
                    }
                    lemma_uid_index(uids, u@, i as int);
                },
                None => {
                    assert forall|j: int| 0 <= j < uids.len() implies uids[j] != u@ by {
                        if uids[j] == u@ {
                            lemma_by_key_at(self.seats@, j);
                        }
                    }
                    lemma_uid_index_none(uids, u@);
                },
            }
        }
        r
    }

    /// Free every seat.
    pub fn reset_assignments(&mut self)
        requires
            old(self).wf(),
        ensures
            final(self).wf(),
            uids_of(final(self).listed()) == uids_of(old(self).listed()),
            flags_of(final(self).listed()) == Seq::new(old(self).listed().len(), |j: int| false),
            final(self).listed().map_values(|x: Seat| seat_view(x)) == old(self).listed().map_values(|x: Seat| seat_view(x)),
    {
        let ghost before = self.seats@;
        let mut i: usize = 0;
        while i < self.seats.len()
            invariant
                i <= self.seats@.len(),
                self.wf(),
                uids_of(self.seats@) == uids_of(before),
                self.seats@.len() == before.len(),
                flags_of(self.seats@) == Seq::new(i as nat, |j: int| false) + flags_of(before).skip(i as int),
                self.seats@.map_values(|x: Seat| seat_view(x)) == before.map_values(|x: Seat| seat_view(x)),
            decreases self.seats@.len() - i,
        {
            let ghost f = flags_of(self.seats@);
            self.set_flag(i, false);
            proof {
                assert(flags_of(self.seats@) =~= Seq::new((i + 1) as nat, |j: int| false) + flags_of(before).skip(i + 1));
            }
            i = i + 1;
        }
        proof {
            assert(flags_of(self.seats@) =~= Seq::new(before.len(), |j: int| false));
        }
    }

    /// Re-seat characters after the seats were rebuilt. Every seat is freed;
    /// then each character, in order, keeps the seat it wants when that seat
    /// exists and is still free; then each character left without one takes
    /// the first free seat in uid order. Returns each character's seat.
    pub fn reassign(&mut self, wants: &[Option<String>]) -> (r: Vec<Option<String>>)
        requires
            old(self).wf(),
        ensures
            final(self).wf(),
            uids_of(final(self).listed()) == uids_of(old(self).listed()),
            final(self).listed().map_values(|x: Seat| seat_view(x)) == old(self).listed().map_values(|x: Seat| seat_view(x)),
            ({
                let uids = uids_of(old(self).listed());
                let (f1, k1) = keep_seats(uids, Seq::new(uids.len(), |j: int| false), opt_views(wants@));
                let (f2, k2) = fill_seats(uids, f1, k1);
                &&& flags_of(final(self).listed()) == f2
                &&& opt_views(r@) == k2
            }),
    {
        self.reset_assignments();
        let ghost uids = uids_of(self.seats@);
        let ghost all_free = flags_of(self.seats@);
        let ghost w = opt_views(wants@);
        let mut kept: Vec<Option<String>> = Vec::new();
        let mut i: usize = 0;
        while i < wants.len()
            invariant
                i <= wants@.len(),
                self.wf(),
                uids == uids_of(self.seats@),
                uids.len() == self.seats@.len(),
                w == opt_views(wants@),
                self.seats@.map_values(|x: Seat| seat_view(x)) == old(self).seats@.map_values(|x: Seat| seat_view(x)),
                (flags_of(self.seats@), opt_views(kept@)) == keep_seats(uids, all_free, w.take(i as int)),
            decreases wants@.len() - i,
        {
            let ghost pre = w.take(i as int);
            proof {
                assert(w.take(i + 1).drop_last() =~= pre);
                assert(w.take(i + 1).last() == w[i as int]);
            }
            let ghost kept0 = kept@;
            match &wants[i] {
                Some(sid) => {
                    match self.index_of(sid.as_str()) {
                        Some(j) => {
                            if !self.seats[j].assigned {
                                self.set_flag(j, true);
                                kept.push(Some(sid.clone()));
                            } else {
                                kept.push(None);
                            }
                        },
                        None => {
                            kept.push(None);
                        },
                    }
                },
                None => {
                    kept.push(None);
                },
            }
            proof {
                assert(opt_views(kept@) =~= opt_views(kept0).push(opt_views(kept@).last()));
            }
            i = i + 1;
        }
        proof {
            assert(w.take(i as int) =~= w);
        }
        let ghost f1 = flags_of(self.seats@);
        let ghost k1 = opt_views(kept@);
        let mut out: Vec<Option<String>> = Vec::new();
        let mut j: usize = 0;
        while j < kept.len()
            invariant
                j <= kept@.len(),
                self.wf(),
                uids == uids_of(self.seats@),
                uids.len() == self.seats@.len(),
                k1 == opt_views(kept@),
                self.seats@.map_values(|x: Seat| seat_view(x)) == old(self).seats@.map_values(|x: Seat| seat_view(x)),
                (flags_of(self.seats@), opt_views(out@)) == fill_seats(uids, f1, k1.take(j as int)),
            decreases kept@.len() - j,
        {
            proof {
                assert(k1.take(j + 1).drop_last() =~= k1.take(j as int));
                assert(k1.take(j + 1).last() == k1[j as int]);
            }
            let ghost out0 = out@;
            match &kept[j] {
                Some(s) => {
                    out.push(Some(s.clone()));
                },
                None => {
                    match self.first_free_index() {
                        Some(p) => {
                            proof {
                                lemma_first_free_range(flags_of(self.seats@));
                            }
                            let u = self.seats[p].uid.clone();
                            self.set_flag(p, true);
                            out.push(Some(u));
                        },
                        None => {
                            out.push(None);
                        },
                    }
                },
            }
            proof {
                assert(opt_views(out@) =~= opt_views(out0).push(opt_views(out@).last()));
            }
            j = j + 1;
        }
        proof {
            assert(k1.take(j as int) =~= k1);
        }
        out
    }
}

proof fn lemma_first_free_range(flags: Seq<bool>)
    ensures
        first_free(flags) matches Some(i) ==> 0 <= i < flags.len() && !flags[i],
    decreases flags.len(),
{
    if flags.len() > 0 {
        lemma_first_free_range(flags.drop_last());
    }
}

/// The seat a new character gets: the one it prefers when that seat exists
/// and is free, otherwise the first free seat in uid order.
pub open spec fn seat_choice(uids: Seq<Seq<char>>, flags: Seq<bool>, preferred: Option<Seq<char>>) -> Option<int> {
    match preferred {
        Some(p) => match uid_index(uids, p) {
            Some(i) => if !flags[i] { Some(i) } else { first_free(flags) },
            None => first_free(flags),
        },
        None => first_free(flags),
    }
}

impl SeatMap {
    /// Seat a new character: take the preferred seat when it exists and is
    /// free, otherwise the first free seat in uid order. Returns the seat
    /// taken, if any.
    pub fn claim_seat(&mut self, preferred: Option<&str>) -> (r: Option<String>)
        requires
            old(self).wf(),
        ensures
            final(self).wf(),
            uids_of(final(self).listed()) == uids_of(old(self).listed()),
            final(self).listed().map_values(|x: Seat| seat_view(x)) == old(self).listed().map_values(|x: Seat| seat_view(x)),
            match seat_choice(uids_of(old(self).listed()), flags_of(old(self).listed()), match preferred {
                Some(p) => Some(p@),
                None => None,
            }) {
                Some(i) => r matches Some(u) && u@ == uids_of(old(self).listed())[i] && !flags_of(old(self).listed())[i]
                    && flags_of(final(self).listed()) == flags_of(old(self).listed()).update(i, true),
                None => r is None && flags_of(final(self).listed()) == flags_of(old(self).listed()),
            },
    {
        let pick = match preferred {
            Some(p) => match self.index_of(p) {
                Some(i) => if !self.seats[i].assigned { Some(i) } else { self.first_free_index() },
                None => self.first_free_index(),
            },
            None => self.first_free_index(),
        };
        proof {
            lemma_first_free_range(flags_of(self.seats@));
        }
        match pick {
            Some(i) => {
                let u = self.seats[i].uid.clone();
                self.set_flag(i, true);
                Some(u)
            },
            None => None,
        }
    }

    /// Free the seat with uid `uid`, if there is one.
    pub fn release_seat(&mut self, uid: &str)
        requires
            old(self).wf(),
        ensures
            final(self).wf(),
            uids_of(final(self).listed()) == uids_of(old(self).listed()),
            final(self).listed().map_values(|x: Seat| seat_view(x)) == old(self).listed().map_values(|x: Seat| seat_view(x)),
            flags_of(final(self).listed()) == match uid_index(uids_of(old(self).listed()), uid@) {
                Some(i) => flags_of(old(self).listed()).update(i, false),
                None => flags_of(old(self).listed()),
            },
    {
        match self.index_of(uid) {
            Some(i) => self.set_flag(i, false),
            None => {},
        }
    }
}

/// Each seat handed out is taken, and no seat is handed out twice.
pub open spec fn seating_exclusive(uids: Seq<Seq<char>>, flags: Seq<bool>, r: Seq<Option<Seq<char>>>) -> bool {
    &&& flags.len() == uids.len()
    &&& forall|j: int| 0 <= j < r.len() && #[trigger] r[j] is Some ==> seat_taken(uids, flags, r[j]->0)
    &&& forall|j1: int, j2: int|
        0 <= j1 < j2 < r.len() && #[trigger] r[j1] is Some && #[trigger] r[j2] is Some ==> r[j1] != r[j2]
}

/// The seat with uid `u` exists and is taken.
pub open spec fn seat_taken(uids: Seq<Seq<char>>, flags: Seq<bool>, u: Seq<char>) -> bool {
    uid_index(uids, u) matches Some(i) && 0 <= i < flags.len() && flags[i]
}

proof fn lemma_uid_index_range(uids: Seq<Seq<char>>, u: Seq<char>)
    ensures
        uid_index(uids, u) matches Some(i) ==> 0 <= i < uids.len() && uids[i] == u,
    decreases uids.len(),
{
    if uids.len() > 0 {
        lemma_uid_index_range(uids.drop_last(), u);
    }
}

/// Handing out a free seat, or nothing, keeps the seating exclusive.
proof fn lemma_exclusive_push(uids: Seq<Seq<char>>, f: Seq<bool>, r: Seq<Option<Seq<char>>>, x: Option<Seq<char>>, i: int)
    requires
        seating_exclusive(uids, f, r),
        x matches Some(u) ==> (uid_index(uids, u) == Some(i) && 0 <= i < f.len() && !f[i]),
    ensures
        seating_exclusive(uids, if x is Some { f.update(i, true) } else { f }, r.push(x)),
{
    let f2 = if x is Some { f.update(i, true) } else { f };
    let r2 = r.push(x);
    assert forall|j: int| 0 <= j < r2.len() && #[trigger] r2[j] is Some implies seat_taken(uids, f2, r2[j]->0) by {
        if j < r.len() {
            assert(r2[j] == r[j]);
            assert(seat_taken(uids, f, r[j]->0));
        }
    }
    assert forall|j1: int, j2: int| 0 <= j1 < j2 < r2.len() && #[trigger] r2[j1] is Some && #[trigger] r2[j2] is Some implies r2[j1] != r2[j2] by {
        assert(r2[j1] == r[j1]);
        if j2 < r.len() {
            assert(r2[j2] == r[j2]);
        } else {
            assert(seat_taken(uids, f, r[j1]->0));
        }
    }
}

/// The first pass hands out each seat at most once.
proof fn lemma_keep_exclusive(uids: Seq<Seq<char>>, flags: Seq<bool>, wants: Seq<Option<Seq<char>>>)
    requires
        seating_exclusive(uids, flags, Seq::empty()),
    ensures
        seating_exclusive(uids, keep_seats(uids, flags, wants).0, keep_seats(uids, flags, wants).1),
        keep_seats(uids, flags, wants).1.len() == wants.len(),
        forall|i: int| 0 <= i < flags.len() && flags[i] ==> #[trigger] keep_seats(uids, flags, wants).0[i],
    decreases wants.len(),
{
    if wants.len() > 0 {
        lemma_keep_exclusive(uids, flags, wants.drop_last());
        let (f, r) = keep_seats(uids, flags, wants.drop_last());
        match wants.last() {
            Some(u) => {
                lemma_uid_index_range(uids, u);
                match uid_index(uids, u) {
                    Some(i) => {
                        if !f[i] {
                            lemma_exclusive_push(uids, f, r, Some(u), i);
                        } else {
                            lemma_exclusive_push(uids, f, r, None, 0);
                        }
                    },
                    None => lemma_exclusive_push(uids, f, r, None, 0),
                }
            },
            None => lemma_exclusive_push(uids, f, r, None, 0),
        }
    }
}

/// The second pass keeps the seats of the first and hands out free ones
/// at most once.
proof fn lemma_fill_exclusive(uids: Seq<Seq<char>>, flags: Seq<bool>, kept: Seq<Option<Seq<char>>>, n: int)
    requires
        seating_exclusive(uids, flags, kept),
        forall|a: int, b: int| 0 <= a < b < uids.len() ==> uids[a] != uids[b],
        0 <= n <= kept.len(),
    ensures
        seating_exclusive(uids, fill_seats(uids, flags, kept.take(n)).0, fill_seats(uids, flags, kept.take(n)).1),
        fill_seats(uids, flags, kept.take(n)).1.len() == n,
        forall|i: int| 0 <= i < flags.len() && flags[i] ==> #[trigger] fill_seats(uids, flags, kept.take(n)).0[i],
        forall|j: int| 0 <= j < n && kept[j] is Some ==> #[trigger] fill_seats(uids, flags, kept.take(n)).1[j] == kept[j],
        forall|j: int, m: int|
            0 <= m < n <= j < kept.len() && #[trigger] kept[j] is Some ==> #[trigger] fill_seats(uids, flags, kept.take(n)).1[m]
                != kept[j],
    decreases n,
{
    let (f, r) = fill_seats(uids, flags, kept.take(n));
    if n == 0 {
        assert(kept.take(0) =~= Seq::<Option<Seq<char>>>::empty());
    } else {
        lemma_fill_exclusive(uids, flags, kept, n - 1);
        assert(kept.take(n).drop_last() =~= kept.take(n - 1));
        assert(kept.take(n).last() == kept[n - 1]);
        let (f0, r0) = fill_seats(uids, flags, kept.take(n - 1));
        match kept[n - 1] {
            Some(u) => {
                assert(seat_taken(uids, flags, u));
                lemma_uid_index_range(uids, u);
                let i = uid_index(uids, u)->0;
                assert(f0[i]);
                assert forall|m: int| 0 <= m < r0.len() implies #[trigger] r0[m] != Some(u) by {
                    assert(r0[m] != kept[n - 1]);
                }
                assert(seating_exclusive(uids, f, r)) by {
                    assert forall|j: int| 0 <= j < r.len() && #[trigger] r[j] is Some implies seat_taken(uids, f, r[j]->0) by {
                        if j < r0.len() {
                            assert(r[j] == r0[j]);
                        }
                    }
                    assert forall|j1: int, j2: int| 0 <= j1 < j2 < r.len() && #[trigger] r[j1] is Some && #[trigger] r[j2] is Some implies r[j1] != r[j2] by {
                        assert(r[j1] == r0[j1]);
                        if j2 < r0.len() {
                            assert(r[j2] == r0[j2]);
                        }
                    }
                }
            },
            None => {
                lemma_first_free_range(f0);
                match first_free(f0) {
                    Some(i) => {
                        lemma_uid_index(uids, uids[i], i);
                        lemma_exclusive_push(uids, f0, r0, Some(uids[i]), i);
                    },
                    None => {
                        lemma_exclusive_push(uids, f0, r0, None, 0);
                    },
                }
            },
        }
        assert forall|j: int| 0 <= j < n && kept[j] is Some implies #[trigger] r[j] == kept[j] by {
            if j < n - 1 {
                assert(r[j] == r0[j]);
            }
        }
        assert forall|j: int, m: int| 0 <= m < n <= j < kept.len() && #[trigger] kept[j] is Some implies #[trigger] r[m] != kept[j] by {
            assert(seat_taken(uids, flags, kept[j]->0));
            lemma_uid_index_range(uids, kept[j]->0);
            if m < n - 1 {
                assert(r[m] == r0[m]);
            } else if kept[n - 1] is Some {
                assert(r[m] == kept[n - 1]);
                assert(kept[n - 1] != kept[j]);
            } else if r[m] is Some {
                let i = first_free(f0)->0;
                lemma_first_free_range(f0);
                lemma_uid_index_range(uids, kept[j]->0);
                assert(r[m] == Some(uids[i]));
                assert(!f0[i]);
                if uids[i] == kept[j]->0 {
                    lemma_uid_index(uids, uids[i], i);
                }
            }
        }
    }
}

/// Re-seating never gives one seat to two characters: every character given
/// a seat holds a distinct, existing seat, and that seat is marked taken.
pub proof fn lemma_reassign_exclusive(uids: Seq<Seq<char>>, wants: Seq<Option<Seq<char>>>)
    requires
        forall|a: int, b: int| 0 <= a < b < uids.len() ==> uids[a] != uids[b],
    ensures
        ({
            let (f1, k1) = keep_seats(uids, Seq::new(uids.len(), |j: int| false), wants);
            let (f2, k2) = fill_seats(uids, f1, k1);
            seating_exclusive(uids, f2, k2)
        }),
{
    let none = Seq::new(uids.len(), |j: int| false);
    lemma_keep_exclusive(uids, none, wants);
    let (f1, k1) = keep_seats(uids, none, wants);
    lemma_fill_exclusive(uids, f1, k1, k1.len() as int);
    assert(k1.take(k1.len() as int) =~= k1);
}

proof fn lemma_first_free_none(flags: Seq<bool>)
    ensures
        first_free(flags) is None ==> forall|j: int| 0 <= j < flags.len() ==> #[trigger] flags[j],
    decreases flags.len(),
{
    if flags.len() > 0 {
        lemma_first_free_none(flags.drop_last());
        if first_free(flags) is None {
            assert forall|j: int| 0 <= j < flags.len() implies #[trigger] flags[j] by {
                if j < flags.len() - 1 {
                    assert(flags.drop_last()[j] == flags[j]);
                }
            }
        }
    }
}

proof fn lemma_keep_len(uids: Seq<Seq<char>>, flags: Seq<bool>, wants: Seq<Option<Seq<char>>>)
    requires
        flags.len() == uids.len(),
    ensures
        keep_seats(uids, flags, wants).0.len() == flags.len(),
        keep_seats(uids, flags, wants).1.len() == wants.len(),
    decreases wants.len(),
{
    if wants.len() > 0 {
        lemma_keep_len(uids, flags, wants.drop_last());
        if let Some(u) = wants.last() {
            lemma_uid_index_range(uids, u);
        }
    }
}

proof fn lemma_fill_full(uids: Seq<Seq<char>>, flags: Seq<bool>, kept: Seq<Option<Seq<char>>>)
    requires
        flags.len() == uids.len(),
    ensures
        ({
            let (f, r) = fill_seats(uids, flags, kept);
            &&& f.len() == flags.len()
            &&& r.len() == kept.len()
            &&& forall|i: int| 0 <= i < flags.len() && flags[i] ==> #[trigger] f[i]
            &&& (exists|j: int| 0 <= j < r.len() && #[trigger] r[j] is None) ==> forall|i: int| 0 <= i < f.len() ==> #[trigger] f[i]
        }),
    decreases kept.len(),
{
    if kept.len() > 0 {
        lemma_fill_full(uids, flags, kept.drop_last());
        let (f0, r0) = fill_seats(uids, flags, kept.drop_last());
        let (f, r) = fill_seats(uids, flags, kept);
        lemma_first_free_range(f0);
        lemma_first_free_none(f0);
        if exists|j: int| 0 <= j < r.len() && #[trigger] r[j] is None {
            let j = choose|j: int| 0 <= j < r.len() && #[trigger] r[j] is None;
            if j < r0.len() {
                assert(r[j] == r0[j]);
            }
        }
    }
}

/// Re-seating leaves nobody standing while a seat is free: each character
/// gets an answer, and when any character is left without a seat, every
/// seat is taken.
pub proof fn lemma_reassign_full(uids: Seq<Seq<char>>, wants: Seq<Option<Seq<char>>>)
    ensures
        ({
            let (f1, k1) = keep_seats(uids, Seq::new(uids.len(), |j: int| false), wants);
            let (f2, k2) = fill_seats(uids, f1, k1);
            &&& f2.len() == uids.len()
            &&& k2.len() == wants.len()
            &&& (exists|j: int| 0 <= j < k2.len() && #[trigger] k2[j] is None) ==> forall|i: int|
                0 <= i < uids.len() ==> #[trigger] f2[i]
        }),
{
    let none = Seq::new(uids.len(), |j: int| false);
    lemma_keep_len(uids, none, wants);
    let (f1, k1) = keep_seats(uids, none, wants);
    lemma_fill_full(uids, f1, k1);
}

/// The seats of a well-formed map have distinct uids, as re-seating's law
/// asks.
pub proof fn lemma_seat_uids_distinct(m: &SeatMap)
    requires
        m.wf(),
    ensures
        forall|a: int, b: int|
            0 <= a < b < uids_of(m.listed()).len() ==> uids_of(m.listed())[a] != uids_of(m.listed())[b],
{
    assert forall|a: int, b: int| 0 <= a < b < uids_of(m.listed()).len() implies uids_of(m.listed())[a] != uids_of(
        m.listed(),
    )[b] by {
        crate::keyed::lemma_sorted_distinct(m.listed(), a, b);
    }
}

} // verus!
