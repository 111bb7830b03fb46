//! The furniture catalog sent by the daemon: entries by asset id, rotation
//! cycles of orientation groups, and on/off state partners.

use vstd::prelude::*;
use vstd::utf8::{encode_utf8, encode_utf8_decode_utf8};

use crate::text::{bytes_lt, lemma_lex_irreflexive, lemma_lex_total, lemma_lex_transitive, lex_lt, str_eq};

verus! {

/// One catalog entry.
#[derive(Debug, Clone)]
pub struct FurnitureCatalogEntry {
    pub id: String,
    pub name: String,
    pub category: String,
    pub footprint_w: i32,
    pub footprint_h: i32,
    pub is_desk: bool,
    pub can_place_on_walls: bool,
    pub can_place_on_surfaces: bool,
    pub background_tiles: i32,
    pub orientation: Option<String>,
    pub group_id: Option<String>,
    /// Pixel height of the sprite.
    pub sprite_height: i32,
    /// `on`, `off` or none.
    pub state: Option<String>,
}

/// The ordering key of a text: its UTF-8 bytes.
pub open spec fn key(s: Seq<char>) -> Seq<u8> {
    encode_utf8(s)
}

/// Texts with equal keys are equal.
pub proof fn lemma_key_injective(a: Seq<char>, b: Seq<char>)
    ensures
        key(a) == key(b) ==> a == b,
{
    encode_utf8_decode_utf8(a);
    encode_utf8_decode_utf8(b);
}

/// Entries strictly increasing by id.
pub open spec fn sorted_by_id(es: Seq<FurnitureCatalogEntry>) -> bool {
    forall|i: int, j: int| 0 <= i < j < es.len() ==> lex_lt(key(#[trigger] es[i].id@), key(#[trigger] es[j].id@))
}

/// The entries by id of an entry list (a later entry wins).
pub open spec fn entries_by_id(es: Seq<FurnitureCatalogEntry>) -> Map<Seq<char>, FurnitureCatalogEntry>
    decreases es.len(),
{
    if es.len() == 0 {
        Map::empty()
    } else {
        entries_by_id(es.drop_last()).insert(es.last().id@, es.last())
    }
}

proof fn lemma_entries_dom(es: Seq<FurnitureCatalogEntry>, id: Seq<char>)
    ensures
        entries_by_id(es).contains_key(id) <==> exists|i: int| 0 <= i < es.len() && #[trigger] es[i].id@ == id,
    decreases es.len(),
{
    if es.len() > 0 {
        lemma_entries_dom(es.drop_last(), id);
        if exists|i: int| 0 <= i < es.drop_last().len() && #[trigger] es.drop_last()[i].id@ == id {
            let i = choose|i: int| 0 <= i < es.drop_last().len() && #[trigger] es.drop_last()[i].id@ == id;
            assert(es[i].id@ == id);
        }
        if exists|i: int| 0 <= i < es.len() && #[trigger] es[i].id@ == id {
            let i = choose|i: int| 0 <= i < es.len() && #[trigger] es[i].id@ == id;
            if i < es.len() - 1 {
                assert(es.drop_last()[i].id@ == id);
            }
        }
    }
}

/// The catalog the first `n` listed items make: items with an empty id are
/// skipped, a later item replaces an earlier one with the same id.
pub open spec fn catalog_of(items: Seq<FurnitureCatalogEntry>, n: nat) -> Map<Seq<char>, FurnitureCatalogEntry>
    decreases n,
{
    if n == 0 {
        Map::empty()
    } else {
        let m = catalog_of(items, (n - 1) as nat);
        let it = items[n - 1];
        if it.id@.len() == 0 {
            m
        } else {
            m.insert(it.id@, it)
        }
    }
}

proof fn lemma_sorted_distinct(es: Seq<FurnitureCatalogEntry>, i: int, j: int)
    requires
        sorted_by_id(es),
        0 <= i < es.len(),
        0 <= j < es.len(),
        i != j,
    ensures
        es[i].id@ != es[j].id@,
{
    if i < j {
        assert(lex_lt(key(es[i].id@), key(es[j].id@)));
        lemma_lex_irreflexive(key(es[i].id@));
    } else {
        assert(lex_lt(key(es[j].id@), key(es[i].id@)));
        lemma_lex_irreflexive(key(es[j].id@));
    }
}

proof fn lemma_entry_at(es: Seq<FurnitureCatalogEntry>, i: int)
    requires
        sorted_by_id(es),
        0 <= i < es.len(),
    ensures
        entries_by_id(es).contains_key(es[i].id@),
        entries_by_id(es)[es[i].id@] == es[i],
    decreases es.len(),
{
    if i < es.len() - 1 {
        let d = es.drop_last();
        assert(sorted_by_id(d)) by {
            assert forall|a: int, b: int| 0 <= a < b < d.len() implies lex_lt(key(#[trigger] d[a].id@), key(#[trigger] d[b].id@)) by {
                assert(lex_lt(key(es[a].id@), key(es[b].id@)));
            }
        }
        assert(d[i] == es[i]);
        lemma_entry_at(d, i);
        lemma_sorted_distinct(es, i, es.len() - 1);
    }
}

/// Entry lists are compared as maps.
proof fn lemma_entries_ext(a: Seq<FurnitureCatalogEntry>, m: Map<Seq<char>, FurnitureCatalogEntry>)
    requires
        sorted_by_id(a),
        forall|i: int| 0 <= i < a.len() ==> m.contains_key(#[trigger] a[i].id@) && m[a[i].id@] == a[i],
        forall|id: Seq<char>| #[trigger] m.contains_key(id) ==> exists|i: int| 0 <= i < a.len() && a[i].id@ == id,
    ensures
        entries_by_id(a) == m,
{
    assert forall|id: Seq<char>| entries_by_id(a).contains_key(id) == m.contains_key(id) by {
        lemma_entries_dom(a, id);
        if entries_by_id(a).contains_key(id) {
            let i = choose|i: int| 0 <= i < a.len() && #[trigger] a[i].id@ == id;
            assert(m.contains_key(a[i].id@));
        }
        if m.contains_key(id) {
            let i = choose|i: int| 0 <= i < a.len() && a[i].id@ == id;
            assert(a[i].id@ == id);
        }
    }
    assert forall|id: Seq<char>| #[trigger] entries_by_id(a).contains_key(id) implies entries_by_id(a)[id] == m[id] by {
        lemma_entries_dom(a, id);
        let i = choose|i: int| 0 <= i < a.len() && #[trigger] a[i].id@ == id;
        lemma_entry_at(a, i);
    }
    assert(entries_by_id(a) =~= m);
}

/// Put `e` into the strictly sorted list `es`, replacing an entry with the
/// same id.
fn insert_entry(es: &mut Vec<FurnitureCatalogEntry>, e: FurnitureCatalogEntry)
    requires
        sorted_by_id(old(es)@),
    ensures
        sorted_by_id(final(es)@),
        entries_by_id(final(es)@) == entries_by_id(old(es)@).insert(e.id@, e),
{
    let ghost old_es = es@;
    let ghost m = entries_by_id(old_es).insert(e.id@, e);
    let mut p: usize = 0;
    while p < es.len() && bytes_lt(es[p].id.as_str().as_bytes(), e.id.as_str().as_bytes())
        invariant
            es@ == old_es,
            p <= es@.len(),
            forall|k: int| 0 <= k < p ==> lex_lt(key(#[trigger] es@[k].id@), key(e.id@)),
        decreases es@.len() - p,
    {
        p = p + 1;
    }
    proof {
        assert forall|i: int| 0 <= i < old_es.len() implies m.contains_key(#[trigger] old_es[i].id@) by {
            lemma_entry_at(old_es, i);
        }
    }
    if p < es.len() && str_eq(es[p].id.as_str(), e.id.as_str()) {
        es.set(p, e);
        proof {
            let a = es@;
            assert forall|i: int, j: int| 0 <= i < j < a.len() implies lex_lt(key(#[trigger] a[i].id@), key(#[trigger] a[j].id@)) by {
                assert(lex_lt(key(old_es[i].id@), key(old_es[j].id@)));
            }
            assert forall|i: int| 0 <= i < a.len() implies m.contains_key(#[trigger] a[i].id@) && m[a[i].id@] == a[i] by {
                if i != p {
                    lemma_sorted_distinct(old_es, i, p as int);
                    lemma_entry_at(old_es, i);
                }
            }
            assert forall|id: Seq<char>| #[trigger] m.contains_key(id) implies exists|i: int| 0 <= i < a.len() && a[i].id@ == id by {
                if id == e.id@ {
                    assert(a[p as int].id@ == id);
                } else {
                    lemma_entries_dom(old_es, id);
                    let i = choose|i: int| 0 <= i < old_es.len() && #[trigger] old_es[i].id@ == id;
                    assert(a[i].id@ == id);
                }
            }
            lemma_entries_ext(a, m);
        }
    } else {
        proof {
            if p < old_es.len() {
                lemma_lex_total(key(old_es[p as int].id@), key(e.id@));
                if key(old_es[p as int].id@) == key(e.id@) {
                    lemma_key_injective(old_es[p as int].id@, e.id@);
                }
                assert(lex_lt(key(e.id@), key(old_es[p as int].id@)));
            }
        }
        es.insert(p, e);
        proof {
            let a = es@;
            assert forall|i: int, j: int| 0 <= i < j < a.len() implies lex_lt(key(#[trigger] a[i].id@), key(#[trigger] a[j].id@)) by {
                if j < p {
                    assert(lex_lt(key(old_es[i].id@), key(old_es[j].id@)));
                } else if j == p {
                    assert(lex_lt(key(old_es[i].id@), key(e.id@)));
                } else if i > p {
                    assert(lex_lt(key(old_es[i - 1].id@), key(old_es[j - 1].id@)));
                } else if i == p {
                    if j - 1 > p {
                        assert(lex_lt(key(old_es[p as int].id@), key(old_es[j - 1].id@)));
                        lemma_lex_transitive(key(e.id@), key(old_es[p as int].id@), key(old_es[j - 1].id@));
                    }
                } else {
                    assert(lex_lt(key(old_es[i].id@), key(e.id@)));
                    if j - 1 > p {
                        assert(lex_lt(key(old_es[p as int].id@), key(old_es[j - 1].id@)));
                        lemma_lex_transitive(key(e.id@), key(old_es[p as int].id@), key(old_es[j - 1].id@));
                    }
                    lemma_lex_transitive(key(old_es[i].id@), key(e.id@), key(old_es[j - 1].id@));
                }
            }
            assert forall|i: int| 0 <= i < a.len() implies m.contains_key(#[trigger] a[i].id@) && m[a[i].id@] == a[i] by {
                if i != p {
                    let oi = if i < p { i } else { i - 1 };
                    assert(a[i] == old_es[oi]);
                    lemma_entry_at(old_es, oi);
                    if old_es[oi].id@ == e.id@ {
                        assert(a[p as int].id@ == a[i].id@);
                        lemma_sorted_distinct(a, i, p as int);
                    }
                }
            }
            assert forall|id: Seq<char>| #[trigger] m.contains_key(id) implies exists|i: int| 0 <= i < a.len() && a[i].id@ == id by {
                if id == e.id@ {
                    assert(a[p as int].id@ == id);
                } else {
                    lemma_entries_dom(old_es, id);
                    let i = choose|i: int| 0 <= i < old_es.len() && #[trigger] old_es[i].id@ == id;
                    if i < p {
                        assert(a[i].id@ == id);
                    } else {
                        assert(a[i + 1].id@ == id);
                    }
                }
            }
            lemma_entries_ext(a, m);
        }
    }
}

/// The orientation an entry is grouped under: its own, empty when it has
/// none.
pub open spec fn orient_of(e: FurnitureCatalogEntry) -> Seq<char> {
    match e.orientation {
        Some(o) => o@,
        None => Seq::empty(),
    }
}

/// `e` belongs to group `g` with orientation `o`.
pub open spec fn in_bucket(e: FurnitureCatalogEntry, g: Seq<char>, o: Seq<char>) -> bool {
    &&& e.group_id matches Some(gid) && gid@ == g
    &&& orient_of(e) == o
}

/// `e` is the "on" variant of a toggleable item.
pub open spec fn is_on(e: FurnitureCatalogEntry) -> bool {
    e.state matches Some(st) && st@ == "on"@
}

/// Whether `e` passes the state filter: any state, only "on", or only not
/// "on".
pub open spec fn state_ok(e: FurnitureCatalogEntry, want: Option<bool>) -> bool {
    match want {
        None => true,
        Some(w) => is_on(e) == w,
    }
}

/// The first entry at or after `j` in bucket `(g, o)` passing the state
/// filter.
pub open spec fn first_in(es: Seq<FurnitureCatalogEntry>, j: int, g: Seq<char>, o: Seq<char>, want: Option<bool>) -> Option<int>
    decreases es.len() - j,
{
    if j < 0 || j >= es.len() {
        None
    } else if in_bucket(es[j], g, o) && state_ok(es[j], want) {
        Some(j)
    } else {
        first_in(es, j + 1, g, o, want)
    }
}

/// The on/off partner of an item: within its group and orientation, the
/// first entry not "on" and the first "on" entry are partners of each other.
pub open spec fn state_partner(es: Seq<FurnitureCatalogEntry>, id: Seq<char>) -> Option<Seq<char>> {
    let m = entries_by_id(es);
    if m.contains_key(id) && m[id].group_id is Some {
        let e = m[id];
        let g = e.group_id->0@;
        let o = orient_of(e);
        match (first_in(es, 0, g, o, Some(false)), first_in(es, 0, g, o, Some(true))) {
            (Some(off), Some(on)) => if es[off].id@ == id {
                Some(es[on].id@)
            } else if es[on].id@ == id {
                Some(es[off].id@)
            } else {
                None
            },
            _ => None,
        }
    } else {
        None
    }
}

proof fn lemma_first_in_props(es: Seq<FurnitureCatalogEntry>, j: int, g: Seq<char>, o: Seq<char>, want: Option<bool>)
    requires
        0 <= j,
    ensures
        match first_in(es, j, g, o, want) {
            Some(k) => j <= k < es.len() && in_bucket(es[k], g, o) && state_ok(es[k], want)
                && forall|m: int| j <= m < k ==> !(in_bucket(#[trigger] es[m], g, o) && state_ok(es[m], want)),
            None => forall|m: int| j <= m < es.len() ==> !(in_bucket(#[trigger] es[m], g, o) && state_ok(es[m], want)),
        },
    decreases es.len() - j,
{
    if j < es.len() && !(in_bucket(es[j], g, o) && state_ok(es[j], want)) {
        lemma_first_in_props(es, j + 1, g, o, want);
    }
}

fn orient_str(e: &FurnitureCatalogEntry) -> (s: &str)
    ensures
        s@ == orient_of(*e),
{
    proof {
        reveal_strlit("");
    }
    match &e.orientation {
        Some(o) => o.as_str(),
        None => "",
    }
}

fn entry_in_bucket(e: &FurnitureCatalogEntry, g: &str, o: &str) -> (r: bool)
    ensures
        r == in_bucket(*e, g@, o@),
{
    match &e.group_id {
        Some(gid) => str_eq(gid.as_str(), g) && str_eq(orient_str(e), o),
        None => false,
    }
}

fn entry_is_on(e: &FurnitureCatalogEntry) -> (r: bool)
    ensures
        r == is_on(*e),
{
    match &e.state {
        Some(st) => str_eq(st.as_str(), "on"),
        None => false,
    }
}

/// The first entry of bucket `(g, o)` passing the state filter.
fn find_first(es: &Vec<FurnitureCatalogEntry>, g: &str, o: &str, want: Option<bool>) -> (r: Option<usize>)
    ensures
        match r {
            Some(j) => first_in(es@, 0, g@, o@, want) == Some(j as int),
            None => first_in(es@, 0, g@, o@, want) is None,
        },
{
    let mut j: usize = 0;
    while j < es.len()
        invariant
            j <= es@.len(),
            first_in(es@, 0, g@, o@, want) == first_in(es@, j as int, g@, o@, want),
        decreases es@.len() - j,
    {
        let e = &es[j];
        let ok = match want {
            None => true,
            Some(w) => entry_is_on(e) == w,
        };
        if entry_in_bucket(e, g, o) && ok {
            return Some(j);
        }
        j = j + 1;
    }
    None
}

/// The orientation cycle order: `front`, `back`, `side`, `left`, `right`,
/// `top`; any other orientation ranks after them.
pub open spec fn rank(o: Seq<char>) -> int {
    if o == "front"@ {
        0
    } else if o == "back"@ {
        1
    } else if o == "side"@ {
        2
    } else if o == "left"@ {
        3
    } else if o == "right"@ {
        4
    } else if o == "top"@ {
        5
    } else {
        6
    }
}

/// The named orientation of rank `k`.
pub open spec fn known_orientation(k: int) -> Seq<char> {
    if k == 0 {
        "front"@
    } else if k == 1 {
        "back"@
    } else if k == 2 {
        "side"@
    } else if k == 3 {
        "left"@
    } else if k == 4 {
        "right"@
    } else {
        "top"@
    }
}

/// The orientations present in group `g`.
pub open spec fn orientations(es: Seq<FurnitureCatalogEntry>, g: Seq<char>) -> Set<Seq<char>> {
    Set::new(|o: Seq<char>| exists|j: int| 0 <= j < es.len() && #[trigger] in_bucket(es[j], g, o))
}

/// Orientations in cycle order: by rank, the unranked ones byte-wise.
pub open spec fn cycle_ordered(os: Seq<Seq<char>>) -> bool {
    forall|a: int, b: int| 0 <= a < b < os.len() ==> rank(#[trigger] os[a]) < rank(#[trigger] os[b]) || (rank(os[a]) == 6
        && rank(os[b]) == 6 && lex_lt(key(os[a]), key(os[b])))
}

/// The entry standing for orientation `o` of group `g` in the rotation: the
/// first entry that is not "on", else the first entry.
pub open spec fn representative(es: Seq<FurnitureCatalogEntry>, g: Seq<char>, o: Seq<char>) -> Seq<char> {
    match first_in(es, 0, g, o, Some(false)) {
        Some(j) => es[j].id@,
        None => match first_in(es, 0, g, o, None) {
            Some(j) => es[j].id@,
            None => Seq::empty(),
        },
    }
}

fn rank_of(o: &str) -> (r: usize)
    ensures
        r == rank(o@),
{
    if str_eq(o, "front") {
        0
    } else if str_eq(o, "back") {
        1
    } else if str_eq(o, "side") {
        2
    } else if str_eq(o, "left") {
        3
    } else if str_eq(o, "right") {
        4
    } else if str_eq(o, "top") {
        5
    } else {
        6
    }
}

proof fn lemma_known_ranks(k: int)
    requires
        0 <= k < 6,
    ensures
        rank(known_orientation(k)) == k,
{
    reveal_strlit("front");
    reveal_strlit("back");
    reveal_strlit("side");
    reveal_strlit("left");
    reveal_strlit("right");
    reveal_strlit("top");
    assert("front"@[0] == 'f' && "back"@[0] == 'b' && "side"@[0] == 's');
    assert("left"@[0] == 'l' && "right"@[0] == 'r' && "top"@[0] == 't');
}

proof fn lemma_ranked_is_known(o: Seq<char>)
    requires
        rank(o) < 6,
    ensures
        o == known_orientation(rank(o)),
{
}

/// Strings strictly increasing byte-wise.
pub open spec fn strictly_sorted(v: Seq<Seq<char>>) -> bool {
    forall|a: int, b: int| 0 <= a < b < v.len() ==> lex_lt(key(#[trigger] v[a]), key(#[trigger] v[b]))
}

/// Put `s` into the strictly sorted `v` unless it is there.
fn insert_sorted_unique(v: &mut Vec<String>, s: &str)
    requires
        strictly_sorted(views(old(v)@)),
    ensures
        strictly_sorted(views(final(v)@)),
        views(final(v)@).to_set() == views(old(v)@).to_set().insert(s@),
{
    let ghost ov = views(old(v)@);
    let mut p: usize = 0;
    while p < v.len() && bytes_lt(v[p].as_str().as_bytes(), s.as_bytes())
        invariant
            views(v@) == ov,
            p <= v@.len(),
            forall|k: int| 0 <= k < p ==> lex_lt(key(#[trigger] ov[k]), key(s@)),
        decreases v@.len() - p,
    {
        proof {
            assert(ov[p as int] == v@[p as int]@);
        }
        p = p + 1;
    }
    if p < v.len() && str_eq(v[p].as_str(), s) {
        proof {
            assert(ov[p as int] == s@);
            assert(ov.to_set().insert(s@) =~= ov.to_set());
        }
        return;
    }
    proof {
        if p < ov.len() {
            assert(ov[p as int] == v@[p as int]@);
            lemma_lex_total(key(ov[p as int]), key(s@));
            if key(ov[p as int]) == key(s@) {
                lemma_key_injective(ov[p as int], s@);
            }
            assert(lex_lt(key(s@), key(ov[p as int])));
        }
    }
    v.insert(p, s.to_owned());
    proof {
        let a = views(v@);
        assert(a =~= ov.insert(p as int, s@));
        assert forall|i: int, j: int| 0 <= i < j < a.len() implies lex_lt(key(#[trigger] a[i]), key(#[trigger] a[j])) by {
            if j < p {
                assert(lex_lt(key(ov[i]), key(ov[j])));
            } else if j == p {
                assert(lex_lt(key(ov[i]), key(s@)));
            } else if i > p {
                assert(lex_lt(key(ov[i - 1]), key(ov[j - 1])));
            } else if i == p {
                if j - 1 > p {
                    assert(lex_lt(key(ov[p as int]), key(ov[j - 1])));
                    lemma_lex_transitive(key(s@), key(ov[p as int]), key(ov[j - 1]));
                }
            } else {
                assert(lex_lt(key(ov[i]), key(s@)));
                if j - 1 > p {
                    assert(lex_lt(key(ov[p as int]), key(ov[j - 1])));
                    lemma_lex_transitive(key(s@), key(ov[p as int]), key(ov[j - 1]));
                }
                lemma_lex_transitive(key(ov[i]), key(s@), key(ov[j - 1]));
            }
        }
        assert forall|x: Seq<char>| a.to_set().contains(x) == ov.to_set().insert(s@).contains(x) by {
            if a.to_set().contains(x) {
                let i = choose|i: int| 0 <= i < a.len() && a[i] == x;
                if i < p {
                    assert(ov[i] == x);
                } else if i > p {
                    assert(ov[i - 1] == x);
                }
            }
            if ov.to_set().contains(x) {
                let i = choose|i: int| 0 <= i < ov.len() && ov[i] == x;
                if i < p {
                    assert(a[i] == x);
                } else {
                    assert(a[i + 1] == x);
                }
            }
            if x == s@ {
                assert(a[p as int] == x);
            }
        }
        assert(a.to_set() =~= ov.to_set().insert(s@));
    }
}

/// The furniture catalog: entries by asset id.
pub struct FurnitureCatalog {
    entries: Vec<FurnitureCatalogEntry>,
}

impl FurnitureCatalog {
    /// The entries, ordered by id.
    pub closed spec fn listed(&self) -> Seq<FurnitureCatalogEntry> {
        self.entries@
    }

    /// The entries by id.
    pub open spec fn by_id(&self) -> Map<Seq<char>, FurnitureCatalogEntry> {
        entries_by_id(self.listed())
    }

    /// Entries are kept strictly ordered by id.
    pub open spec fn wf(&self) -> bool {
        sorted_by_id(self.listed())
    }

    /// A catalog with no entries.
    pub fn empty() -> (c: Self)
        ensures
            c.wf(),
            c.by_id() == Map::<Seq<char>, FurnitureCatalogEntry>::empty(),
    {
        FurnitureCatalog { entries: Vec::new() }
    }

    /// The catalog of the listed items: items with an empty id are skipped,
    /// and a later item replaces an earlier one with the same id.
    pub fn from_entries(items: Vec<FurnitureCatalogEntry>) -> (c: Self)
        ensures
            c.wf(),
            c.by_id() == catalog_of(items@, items@.len()),
    {
        let ghost all = items@;
        let mut rest = items;
        let mut entries: Vec<FurnitureCatalogEntry> = Vec::new();
        let ghost mut i: int = 0;
        assert(all.skip(0) =~= all);
        while rest.len() > 0
            invariant
                0 <= i <= all.len(),
                rest@ == all.skip(i),
                sorted_by_id(entries@),
                entries_by_id(entries@) == catalog_of(all, i as nat),
            decreases rest@.len(),
        {
            let it = rest.remove(0);
            assert(it == all[i]);
            assert(rest@ =~= all.skip(i + 1));
            let n = it.id.as_str().as_bytes().len();
            proof {
                vstd::utf8::encode_utf8_decode_utf8(it.id@);
                if it.id@.len() > 0 {
                    assert(vstd::utf8::decode_utf8(vstd::utf8::encode_utf8(it.id@)).len() > 0);
                }
            }
            if n > 0 {
                insert_entry(&mut entries, it);
            }
            proof {
                i = i + 1;
            }
        }
        FurnitureCatalog { entries }
    }
}

impl FurnitureCatalog {
    fn position(&self, id: &str) -> (r: Option<usize>)
        requires
            self.wf(),
        ensures
            match r {
                Some(i) => i < self.listed().len() && self.listed()[i as int].id@ == id@,
                None => !self.by_id().contains_key(id@),
            },
    {
        let mut i: usize = 0;
        while i < self.entries.len()
            invariant
                i <= self.entries@.len(),
                forall|j: int| 0 <= j < i ==> self.entries@[j].id@ != id@,
            decreases self.entries@.len() - i,
        {
            if str_eq(self.entries[i].id.as_str(), id) {
                return Some(i);
            }
            i = i + 1;
        }
        proof {
            lemma_entries_dom(self.entries@, id@);
        }
        None
    }

    /// The entry of `id`, if listed.
    pub fn get(&self, id: &str) -> (r: Option<&FurnitureCatalogEntry>)
        requires
            self.wf(),
        ensures
            match r {
                Some(e) => self.by_id().contains_key(id@) && self.by_id()[id@] == *e,
                None => !self.by_id().contains_key(id@),
            },
    {
        match self.position(id) {
            Some(i) => {
                proof {
                    lemma_entry_at(self.entries@, i as int);
                }
                Some(&self.entries[i])
            },
            None => None,
        }
    }

    /// The id of the on/off partner of `id`: within its group and
    /// orientation, the first entry not "on" and the first "on" entry are
    /// each other's partner.
    pub fn get_on_state(&self, id: &str) -> (r: Option<&str>)
        requires
            self.wf(),
        ensures
            match state_partner(self.listed(), id@) {
                Some(p) => r matches Some(s) && s@ == p,
                None => r is None,
            },
    {
        let i = match self.position(id) {
            Some(i) => i,
            None => return None,
        };
        proof {
            lemma_entry_at(self.entries@, i as int);
        }
        let e = &self.entries[i];
        let g = match &e.group_id {
            Some(g) => g.as_str(),
            None => return None,
        };
        let o = orient_str(e);
        let off = find_first(&self.entries, g, o, Some(false));
        let on = find_first(&self.entries, g, o, Some(true));
        proof {
            lemma_first_in_props(self.entries@, 0, g@, o@, Some(false));
            lemma_first_in_props(self.entries@, 0, g@, o@, Some(true));
            assert(entries_by_id(self.entries@)[id@] == self.entries@[i as int]);
            assert(e.group_id->0@ == g@);
            assert(orient_of(*e) == o@);
        }
        let ghost es = self.entries@;
        let ghost sp = state_partner(es, id@);
        assert(entries_by_id(es).contains_key(id@));
        assert(entries_by_id(es)[id@].group_id is Some);
        match (off, on) {
            (Some(a), Some(b)) => {
                assert(first_in(es, 0, g@, o@, Some(false)) == Some(a as int));
                assert(first_in(es, 0, g@, o@, Some(true)) == Some(b as int));
                if str_eq(self.entries[a].id.as_str(), id) {
                    assert(sp == Some(es[b as int].id@));
                    Some(self.entries[b].id.as_str())
                } else if str_eq(self.entries[b].id.as_str(), id) {
                    Some(self.entries[a].id.as_str())
                } else {
                    None
                }
            },
            _ => None,
        }
    }

    /// The listed ids, in order.
    pub fn ids(&self) -> (r: Vec<String>)
        ensures
            r@.len() == self.listed().len(),
            forall|i: int| 0 <= i < r@.len() ==> r@[i]@ == self.listed()[i].id@,
    {
        let mut r: Vec<String> = Vec::new();
        let mut i: usize = 0;
        while i < self.entries.len()
            invariant
                i <= self.entries@.len(),
                r@.len() == i,
                forall|j: int| 0 <= j < i ==> r@[j]@ == self.entries@[j].id@,
            decreases self.entries@.len() - i,
        {
            r.push(self.entries[i].id.clone());
            i = i + 1;
        }
        r
    }
}

/// The texts of a list of strings.
pub open spec fn views(v: Seq<String>) -> Seq<Seq<char>> {
    v.map_values(|s: String| s@)
}

fn known_name(k: usize) -> (s: &'static str)
    requires
        k < 6,
    ensures
        s@ == known_orientation(k as int),
{
    if k == 0 {
        "front"
    } else if k == 1 {
        "back"
    } else if k == 2 {
        "side"
    } else if k == 3 {
        "left"
    } else if k == 4 {
        "right"
    } else {
        "top"
    }
}

fn rep_of(es: &Vec<FurnitureCatalogEntry>, g: &str, o: &str) -> (r: String)
    ensures
        r@ == representative(es@, g@, o@),
{
    proof {
        lemma_first_in_props(es@, 0, g@, o@, Some(false));
        lemma_first_in_props(es@, 0, g@, o@, None);
    }
    match find_first(es, g, o, Some(false)) {
        Some(j) => es[j].id.clone(),
        None => match find_first(es, g, o, None) {
            Some(j) => es[j].id.clone(),
            None => String::new(),
        },
    }
}

proof fn lemma_cycle_ordered_distinct(os: Seq<Seq<char>>)
    requires
        cycle_ordered(os),
    ensures
        os.no_duplicates(),
{
    assert forall|a: int, b: int| 0 <= a < os.len() && 0 <= b < os.len() && a != b implies os[a] != os[b] by {
        let (x, y) = if a < b { (a, b) } else { (b, a) };
        assert(rank(os[x]) < rank(os[y]) || (rank(os[x]) == 6 && rank(os[y]) == 6 && lex_lt(key(os[x]), key(os[y]))));
        lemma_lex_irreflexive(key(os[x]));
    }
}

impl FurnitureCatalog {
    /// The rotation cycle of group `gid`: the representative of each of its
    /// orientations, in cycle order; none when the group has fewer than two
    /// orientations.
    pub fn rotation_cycle(&self, gid: &str) -> (r: Option<Vec<String>>)
        requires
            self.wf(),
        ensures
            match r {
                Some(c) => exists|os: Seq<Seq<char>>| {
                    &&& cycle_ordered(os)
                    &&& os.to_set() == orientations(self.listed(), gid@)
                    &&& os.len() >= 2
                    &&& views(c@) == os.map_values(|o: Seq<char>| representative(self.listed(), gid@, o))
                },
                None => orientations(self.listed(), gid@).finite() && orientations(self.listed(), gid@).len() < 2,
            },
    {
        let es = &self.entries;
        let ghost E = es@;
        let ghost orients = orientations(E, gid@);
        let mut os: Vec<String> = Vec::new();
        let mut k: usize = 0;
        while k < 6
            invariant
                k <= 6,
                E == es@,
                forall|a: int| 0 <= a < os@.len() ==> rank(#[trigger] views(os@)[a]) < k,
                cycle_ordered(views(os@)),
                forall|x: Seq<char>| #![trigger views(os@).contains(x)] #![trigger orients.contains(x)]
                    views(os@).contains(x) <==> (rank(x) < k && orients.contains(x)),
                orients == orientations(E, gid@),
            decreases 6 - k,
        {
            let name = known_name(k);
            proof {
                lemma_known_ranks(k as int);
                lemma_first_in_props(E, 0, gid@, name@, None);
            }
            let ghost before = views(os@);
            if find_first(es, gid, name, None).is_some() {
                let owned = name.to_owned();
                os.push(owned);
                proof {
                    assert(views(os@) =~= before.push(name@));
                    let j = first_in(E, 0, gid@, name@, None)->0;
                    assert(in_bucket(E[j], gid@, name@));
                    assert(orients.contains(name@));
                    assert forall|x: Seq<char>| views(os@).contains(x) <==> (rank(x) < k + 1 && orients.contains(x)) by {
                        let n = before.len() as int;
                        if views(os@).contains(x) {
                            let a = choose|a: int| 0 <= a < views(os@).len() && views(os@)[a] == x;
                            if a < n {
                                assert(before[a] == x);
                                assert(before.contains(x));
                            } else {
                                assert(x == name@);
                            }
                        }
                        if rank(x) < k + 1 && orients.contains(x) {
                            if rank(x) == k {
                                lemma_ranked_is_known(x);
                                assert(views(os@)[n] == x);
                            } else {
                                assert(before.contains(x));
                                let a = choose|a: int| 0 <= a < before.len() && before[a] == x;
                                assert(views(os@)[a] == x);
                            }
                        }
                    }
                }
            } else {
                proof {
                    assert forall|x: Seq<char>| views(os@).contains(x) <==> (rank(x) < k + 1 && orients.contains(x)) by {
                        if rank(x) == k && orients.contains(x) {
                            lemma_ranked_is_known(x);
                            let j = choose|j: int| 0 <= j < E.len() && #[trigger] in_bucket(E[j], gid@, x);
                            assert(in_bucket(E[j], gid@, name@));
                        }
                    }
                }
            }
            k = k + 1;
        }
        let ghost known_part = views(os@);
        let mut unknown: Vec<String> = Vec::new();
        let mut j: usize = 0;
        while j < es.len()
            invariant
                j <= es@.len(),
                E == es@,
                strictly_sorted(views(unknown@)),
                orients == orientations(E, gid@),
                forall|x: Seq<char>| #![trigger views(unknown@).contains(x)] #![trigger rank(x)]
                    views(unknown@).contains(x) <==> (rank(x) == 6 && exists|m: int| 0 <= m < j
                    && #[trigger] in_bucket(E[m], gid@, x)),
            decreases es@.len() - j,
        {
            let e = &es[j];
            let o = orient_str(e);
            let in_group = match &e.group_id {
                Some(g) => str_eq(g.as_str(), gid),
                None => false,
            };
            let ghost before = views(unknown@);
            if in_group && rank_of(o) == 6 {
                insert_sorted_unique(&mut unknown, o);
                proof {
                    assert(in_bucket(E[j as int], gid@, o@));
                    assert forall|x: Seq<char>| #![trigger views(unknown@).contains(x)] #![trigger rank(x)]
                        views(unknown@).contains(x) <==> (rank(x) == 6 && exists|m: int| 0 <= m < j + 1
                        && #[trigger] in_bucket(E[m], gid@, x)) by {
                        assert(views(unknown@).contains(x) == views(unknown@).to_set().contains(x));
                        assert(before.contains(x) == before.to_set().contains(x));
                        if views(unknown@).contains(x) {
                            if x == o@ {
                                assert(in_bucket(E[j as int], gid@, x));
                            } else {
                                assert(before.contains(x));
                                let m = choose|m: int| 0 <= m < j && #[trigger] in_bucket(E[m], gid@, x);
                                assert(in_bucket(E[m], gid@, x));
                            }
                        }
                        if rank(x) == 6 && exists|m: int| 0 <= m < j + 1 && #[trigger] in_bucket(E[m], gid@, x) {
                            let m = choose|m: int| 0 <= m < j + 1 && #[trigger] in_bucket(E[m], gid@, x);
                            if m < j {
                                assert(in_bucket(E[m], gid@, x));
                                assert(before.contains(x));
                            } else {
                                assert(x == o@);
                            }
                        }
                    }
                }
            } else {
                proof {
                    assert forall|x: Seq<char>| #![trigger views(unknown@).contains(x)] #![trigger rank(x)]
                        views(unknown@).contains(x) <==> (rank(x) == 6 && exists|m: int| 0 <= m < j + 1
                        && #[trigger] in_bucket(E[m], gid@, x)) by {
                        if views(unknown@).contains(x) {
                            let m = choose|m: int| 0 <= m < j && #[trigger] in_bucket(E[m], gid@, x);
                            assert(in_bucket(E[m], gid@, x));
                        }
                        if rank(x) == 6 && exists|m: int| 0 <= m < j + 1 && #[trigger] in_bucket(E[m], gid@, x) {
                            let m = choose|m: int| 0 <= m < j + 1 && #[trigger] in_bucket(E[m], gid@, x);
                            if m < j {
                                assert(in_bucket(E[m], gid@, x));
                            } else {
                                assert(in_bucket(E[j as int], gid@, x));
                                assert(x == o@);
                                assert(false);
                            }
                        }
                    }
                }
            }
            j = j + 1;
        }
        let ghost unknown_part = views(unknown@);
        let mut u: usize = 0;
        while u < unknown.len()
            invariant
                u <= unknown@.len(),
                views(unknown@) == unknown_part,
                views(os@) == known_part + unknown_part.take(u as int),
            decreases unknown@.len() - u,
        {
            let ghost before = views(os@);
            let x = unknown[u].clone();
            assert(x@ == unknown_part[u as int]);
            os.push(x);
            assert(views(os@) =~= before.push(unknown_part[u as int]));
            u = u + 1;
            assert(views(os@) =~= known_part + unknown_part.take(u as int));
        }
        assert(unknown_part.take(unknown_part.len() as int) =~= unknown_part);
        let ghost all = views(os@);
        proof {
            assert forall|a: int, b: int| 0 <= a < b < all.len() implies rank(#[trigger] all[a]) < rank(#[trigger] all[b]) || (rank(all[a]) == 6
                && rank(all[b]) == 6 && lex_lt(key(all[a]), key(all[b]))) by {
                let kl = known_part.len() as int;
                if b < kl {
                    assert(all[a] == known_part[a] && all[b] == known_part[b]);
                } else if a >= kl {
                    assert(all[a] == unknown_part[a - kl] && all[b] == unknown_part[b - kl]);
                    assert(unknown_part.contains(unknown_part[a - kl]));
                    assert(unknown_part.contains(unknown_part[b - kl]));
                } else {
                    assert(all[a] == known_part[a]);
                    assert(rank(known_part[a]) < 6);
                    assert(all[b] == unknown_part[b - kl]);
                    assert(unknown_part.contains(unknown_part[b - kl]));
                }
            }
            assert forall|x: Seq<char>| all.to_set().contains(x) == orients.contains(x) by {
                assert(all.to_set().contains(x) == all.contains(x));
                let kl = known_part.len() as int;
                if all.contains(x) {
                    let a = choose|a: int| 0 <= a < all.len() && all[a] == x;
                    if a < kl {
                        assert(known_part.contains(x));
                    } else {
                        assert(unknown_part[a - kl] == x);
                        assert(unknown_part.contains(x));
                    }
                }
                if orients.contains(x) {
                    if rank(x) < 6 {
                        assert(known_part.contains(x));
                        let a = choose|a: int| 0 <= a < known_part.len() && known_part[a] == x;
                        assert(all[a] == x);
                    } else {
                        let m = choose|m: int| 0 <= m < E.len() && #[trigger] in_bucket(E[m], gid@, x);
                        assert(unknown_part.contains(x));
                        let a = choose|a: int| 0 <= a < unknown_part.len() && unknown_part[a] == x;
                        assert(all[kl + a] == x);
                    }
                }
            }
            assert(all.to_set() =~= orients);
            lemma_cycle_ordered_distinct(all);
            all.unique_seq_to_set();
        }
        if os.len() < 2 {
            return None;
        }
        let mut c: Vec<String> = Vec::new();
        let mut t: usize = 0;
        while t < os.len()
            invariant
                t <= os@.len(),
                E == es@,
                views(os@) == all,
                views(c@) == all.take(t as int).map_values(|o: Seq<char>| representative(E, gid@, o)),
            decreases os@.len() - t,
        {
            let ghost before = views(c@);
            assert(os@[t as int]@ == all[t as int]);
            let r = rep_of(es, gid, os[t].as_str());
            c.push(r);
            assert(views(c@) =~= before.push(representative(E, gid@, all[t as int])));
            t = t + 1;
            assert(views(c@) =~= all.take(t as int).map_values(|o: Seq<char>| representative(E, gid@, o)));
        }
        assert(all.take(all.len() as int) =~= all);
        Some(c)
    }
}

/// On/off partners come in pairs: if `b` is the partner of `a`, then `a` is
/// the partner of `b`; the two are distinct listed entries of the same group
/// and orientation, and exactly one of them is the "on" variant.
pub proof fn lemma_partner_symmetric(es: Seq<FurnitureCatalogEntry>, a: Seq<char>, b: Seq<char>)
    requires
        sorted_by_id(es),
        state_partner(es, a) == Some(b),
    ensures
        state_partner(es, b) == Some(a),
        a != b,
        entries_by_id(es).contains_key(a) && entries_by_id(es).contains_key(b),
        entries_by_id(es)[b].group_id matches Some(gb) && gb@ == entries_by_id(es)[a].group_id->0@,
        orient_of(entries_by_id(es)[b]) == orient_of(entries_by_id(es)[a]),
        is_on(entries_by_id(es)[a]) != is_on(entries_by_id(es)[b]),
{
    let m = entries_by_id(es);
    let e = m[a];
    let g = e.group_id->0@;
    let o = orient_of(e);
    let off = first_in(es, 0, g, o, Some(false))->0;
    let on = first_in(es, 0, g, o, Some(true))->0;
    lemma_first_in_props(es, 0, g, o, Some(false));
    lemma_first_in_props(es, 0, g, o, Some(true));
    assert(off != on);
    lemma_sorted_distinct(es, off, on);
    lemma_entry_at(es, off);
    lemma_entry_at(es, on);
    if es[off].id@ == a {
        assert(b == es[on].id@);
        assert(m[b] == es[on]);
    } else {
        assert(es[on].id@ == a);
        assert(b == es[off].id@);
        assert(m[b] == es[off]);
    }
}

} // verus!
