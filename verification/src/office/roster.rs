//! Who is in the office: the palettes new agents get, where sub-agents
//! appear, and the registry of sub-agents by their parent and tool.

use std::collections::BTreeSet;
use vstd::prelude::*;

use crate::office::types::NUM_PALETTES;
use crate::text::str_eq;

verus! {

/// How many of the characters use palette `p` (sub-agents and palettes out
/// of range are not counted).
pub open spec fn palette_count(chars: Seq<(u8, bool)>, p: int) -> nat
    decreases chars.len(),
{
    if chars.len() == 0 {
        0
    } else {
        palette_count(chars.drop_last(), p) + if !chars.last().1 && chars.last().0 == p { 1nat } else { 0nat }
    }
}

/// The palettes used least among characters `(palette, is_subagent)`, in
/// increasing order, and how often they are used. A new agent without a
/// palette of its own takes one of these; when they are used at all, it also
/// gets a random hue shift.
pub fn least_used_palettes(chars: &[(u8, bool)]) -> (r: (Vec<u8>, usize))
    ensures
        exists|p: int| 0 <= p < NUM_PALETTES && r.1 == palette_count(chars@, p),
        forall|p: int| 0 <= p < NUM_PALETTES ==> r.1 <= palette_count(chars@, p),
        forall|i: int| 0 <= i < r.0@.len() ==> (r.0@[i] as int) < NUM_PALETTES && palette_count(chars@, r.0@[i] as int) == r.1,
        forall|p: int| 0 <= p < NUM_PALETTES && palette_count(chars@, p) == r.1 ==> r.0@.contains(p as u8),
        forall|i: int, j: int| 0 <= i < j < r.0@.len() ==> r.0@[i] < r.0@[j],
        r.0@.len() >= 1,
{
    let mut counts: Vec<usize> = vec![0, 0, 0, 0, 0, 0];
    let mut k: usize = 0;
    proof {
        assert(chars@.take(0) =~= Seq::<(u8, bool)>::empty());
    }
    while k < chars.len()
        invariant
            k <= chars@.len(),
            counts@.len() == NUM_PALETTES,
            forall|p: int| 0 <= p < NUM_PALETTES ==> counts@[p] == palette_count(chars@.take(k as int), p),
            forall|p: int| 0 <= p < NUM_PALETTES ==> counts@[p] <= k,
        decreases chars@.len() - k,
    {
        let (pal, sub) = chars[k];
        proof {
            assert(chars@.take(k + 1).drop_last() =~= chars@.take(k as int));
            assert(chars@.take(k + 1).last() == chars@[k as int]);
        }
        if !sub && (pal as usize) < NUM_PALETTES {
            let c = counts[pal as usize];
            counts.set(pal as usize, c + 1);
        }
        k = k + 1;
    }
    proof {
        assert(chars@.take(k as int) =~= chars@);
    }
    let mut min_count: usize = counts[0];
    let mut p: usize = 1;
    while p < NUM_PALETTES
        invariant
            1 <= p <= NUM_PALETTES,
            counts@.len() == NUM_PALETTES,
            forall|q: int| 0 <= q < NUM_PALETTES ==> counts@[q] == palette_count(chars@, q),
            forall|q: int| 0 <= q < p ==> min_count <= counts@[q],
            exists|q: int| 0 <= q < p && min_count == counts@[q],
        decreases NUM_PALETTES - p,
    {
        if counts[p] < min_count {
            min_count = counts[p];
        }
        p = p + 1;
    }
    let mut available: Vec<u8> = Vec::new();
    let mut q: usize = 0;
    while q < NUM_PALETTES
        invariant
            q <= NUM_PALETTES,
            counts@.len() == NUM_PALETTES,
            forall|x: int| 0 <= x < NUM_PALETTES ==> counts@[x] == palette_count(chars@, x),
            forall|x: int| 0 <= x < NUM_PALETTES ==> min_count <= counts@[x],
            exists|x: int| 0 <= x < NUM_PALETTES && min_count == counts@[x],
            forall|i: int| 0 <= i < available@.len() ==> (available@[i] as int) < q && counts@[available@[i] as int] == min_count,
            forall|x: int| 0 <= x < q && counts@[x] == min_count ==> available@.contains(x as u8),
            forall|i: int, j: int| 0 <= i < j < available@.len() ==> available@[i] < available@[j],
        decreases NUM_PALETTES - q,
    {
        if counts[q] == min_count {
            let ghost before = available@;
            available.push(q as u8);
            proof {
                assert forall|x: int| 0 <= x < q + 1 && counts@[x] == min_count implies available@.contains(x as u8) by {
                    if x < q {
                        let i = choose|i: int| 0 <= i < before.len() && before[i] == x as u8;
                        assert(available@[i] == x as u8);
                    } else {
                        assert(available@[before.len() as int] == x as u8);
                    }
                }
            }
        }
        q = q + 1;
    }
    proof {
        let x = choose|x: int| 0 <= x < NUM_PALETTES && min_count == counts@[x];
        assert(available@.contains(x as u8));
    }
    (available, min_count)
}

/// While some palette is unused, a new agent's palette is one nobody uses:
/// so the first agents, up to one per palette, all differ.
pub proof fn lemma_unused_palette_first(chars: Seq<(u8, bool)>, p: int, least: Seq<u8>, min_count: nat, i: int)
    requires
        0 <= p < NUM_PALETTES,
        palette_count(chars, p) == 0,
        forall|q: int| 0 <= q < NUM_PALETTES ==> min_count <= palette_count(chars, q),
        forall|j: int| 0 <= j < least.len() ==> palette_count(chars, least[j] as int) == min_count,
        0 <= i < least.len(),
    ensures
        palette_count(chars, least[i] as int) == 0,
{
}

/// The Manhattan distance between two tiles.
pub open spec fn manhattan(a: (i32, i32), b: (i32, i32)) -> int {
    (if a.0 >= b.0 { a.0 - b.0 } else { b.0 - a.0 }) + (if a.1 >= b.1 { a.1 - b.1 } else { b.1 - a.1 })
}

/// The distance between the two tiles can be computed in `i32`.
pub open spec fn distance_fits(a: (i32, i32), b: (i32, i32)) -> bool {
    &&& i32::MIN < a.0 - b.0 <= i32::MAX
    &&& i32::MIN < a.1 - b.1 <= i32::MAX
    &&& manhattan(a, b) <= i32::MAX
}

/// The distance between two tiles.
fn distance(a: (i32, i32), b: (i32, i32)) -> (d: i32)
    requires
        distance_fits(a, b),
    ensures
        d == manhattan(a, b),
{
    let dx = a.0 - b.0;
    let dy = a.1 - b.1;
    let ax = if dx < 0 { -dx } else { dx };
    let ay = if dy < 0 { -dy } else { dy };
    ax + ay
}

/// Where a sub-agent appears: the walkable tile nearest (by Manhattan
/// distance) to its parent that no character stands on, the first such in
/// the walkable list on ties; `None` when every walkable tile is occupied.
pub fn nearest_free_tile(walkable: &[(i32, i32)], occupied: &BTreeSet<(i32, i32)>, from: (i32, i32)) -> (r: Option<(i32, i32)>)
    requires
        forall|i: int| 0 <= i < walkable@.len() ==> distance_fits(#[trigger] walkable@[i], from),
    ensures
        match r {
            Some(t) => exists|i: int|
                0 <= i < walkable@.len() && walkable@[i] == t && !occupied@.contains(t) && (forall|j: int|
                    0 <= j < walkable@.len() && !occupied@.contains(#[trigger] walkable@[j]) ==> manhattan(t, from)
                        <= manhattan(walkable@[j], from)) && (forall|j: int|
                    0 <= j < i && !occupied@.contains(#[trigger] walkable@[j]) ==> manhattan(t, from) < manhattan(
                        walkable@[j],
                        from,
                    )),
            None => forall|j: int| 0 <= j < walkable@.len() ==> occupied@.contains(#[trigger] walkable@[j]),
        },
{
    let mut best: Option<(usize, i32)> = None;
    let mut i: usize = 0;
    while i < walkable.len()
        invariant
            i <= walkable@.len(),
            forall|k: int| 0 <= k < walkable@.len() ==> distance_fits(#[trigger] walkable@[k], from),
            match best {
                Some((b, d)) => b < i && d == manhattan(walkable@[b as int], from) && !occupied@.contains(
                    walkable@[b as int],
                ) && (forall|j: int|
                    0 <= j < i && !occupied@.contains(#[trigger] walkable@[j]) ==> d <= manhattan(walkable@[j], from))
                    && (forall|j: int|
                    0 <= j < b && !occupied@.contains(#[trigger] walkable@[j]) ==> d < manhattan(walkable@[j], from)),
                None => forall|j: int| 0 <= j < i ==> occupied@.contains(#[trigger] walkable@[j]),
            },
        decreases walkable@.len() - i,
    {
        let t = walkable[i];
        if !occupied.contains(&t) {
            let d = distance(t, from);
            match best {
                Some((_, bd)) => {
                    if d < bd {
                        best = Some((i, d));
                    }
                },
                None => {
                    best = Some((i, d));
                },
            }
        }
        i = i + 1;
    }
    match best {
        Some((b, _)) => Some(walkable[b]),
        None => None,
    }
}

/// The sub-agents in the office, by parent agent and tool call, with the
/// ids they were given: negative, counting down from -1.
pub struct SubagentRegistry {
    entries: Vec<(i32, String, i32)>,
    next_id: i32,
}

/// The id registered for a parent and tool, in a list of registrations.
pub open spec fn registered(es: Seq<(i32, String, i32)>, parent: i32, tool: Seq<char>) -> Option<i32>
    decreases es.len(),
{
    if es.len() == 0 {
        None
    } else if es.last().0 == parent && es.last().1@ == tool {
        Some(es.last().2)
    } else {
        registered(es.drop_last(), parent, tool)
    }
}

proof fn lemma_registered_absent(es: Seq<(i32, String, i32)>, parent: i32, tool: Seq<char>)
    requires
        forall|i: int| 0 <= i < es.len() ==> !(#[trigger] es[i].0 == parent && es[i].1@ == tool),
    ensures
        registered(es, parent, tool) is None,
    decreases es.len(),
{
    if es.len() > 0 {
        assert forall|i: int| 0 <= i < es.drop_last().len() implies !(#[trigger] es.drop_last()[i].0 == parent
            && es.drop_last()[i].1@ == tool) by {
            assert(es.drop_last()[i] == es[i]);
        }
        lemma_registered_absent(es.drop_last(), parent, tool);
    }
}

proof fn lemma_registered_at(es: Seq<(i32, String, i32)>, parent: i32, tool: Seq<char>, i: int)
    requires
        0 <= i < es.len(),
        es[i].0 == parent && es[i].1@ == tool,
        forall|j: int| 0 <= j < es.len() && j != i ==> !(#[trigger] es[j].0 == parent && es[j].1@ == tool),
    ensures
        registered(es, parent, tool) == Some(es[i].2),
    decreases es.len(),
{
    if i < es.len() - 1 {
        assert forall|j: int| 0 <= j < es.drop_last().len() && j != i implies !(#[trigger] es.drop_last()[j].0
            == parent && es.drop_last()[j].1@ == tool) by {
            assert(es.drop_last()[j] == es[j]);
        }
        assert(es.drop_last()[i] == es[i]);
        lemma_registered_at(es.drop_last(), parent, tool, i);
    }
}

impl SubagentRegistry {
    /// The registrations, oldest first.
    pub closed spec fn listed(&self) -> Seq<(i32, String, i32)> {
        self.entries@
    }

    /// The id the next sub-agent gets.
    pub closed spec fn next(&self) -> i32 {
        self.next_id
    }

    /// No parent and tool is registered twice.
    pub closed spec fn wf(&self) -> bool {
        &&& forall|i: int, j: int|
            0 <= i < j < self.entries@.len() ==> !(#[trigger] self.entries@[i].0 == #[trigger] self.entries@[j].0
                && self.entries@[i].1@ == self.entries@[j].1@)
        &&& self.next_id < 0
        &&& forall|i: int| 0 <= i < self.entries@.len() ==> self.next_id < #[trigger] self.entries@[i].2
    }

    /// Every registered id lies above the next one handed out: a new
    /// sub-agent's id is below all earlier ones, so never reused.
    pub proof fn lemma_fresh_ids_below(&self)
        requires
            self.wf(),
        ensures
            forall|p: i32, t: Seq<char>| #[trigger] self.id_of(p, t) matches Some(x) ==> self.next() < x,
    {
        assert forall|p: i32, t: Seq<char>| #[trigger] self.id_of(p, t) is Some implies self.next() < self.id_of(p, t)->0 by {
            lemma_registered_in(self.entries@, p, t);
        }
    }

    /// The id registered for a parent and tool.
    pub open spec fn id_of(&self, parent: i32, tool: Seq<char>) -> Option<i32> {
        registered(self.listed(), parent, tool)
    }

    /// No sub-agents; the first gets id -1.
    pub fn new() -> (r: Self)
        ensures
            r.wf(),
            r.next() == -1,
            forall|p: i32, t: Seq<char>| r.id_of(p, t) is None,
    {
        SubagentRegistry { entries: Vec::new(), next_id: -1 }
    }

    /// The id the next new sub-agent gets.
    pub fn next_id(&self) -> (r: i32)
        ensures
            r == self.next(),
    {
        self.next_id
    }

    fn find(&self, parent: i32, tool: &str) -> (r: Option<usize>)
        requires
            self.wf(),
        ensures
            match r {
                Some(i) => i < self.listed().len() && self.listed()[i as int].0 == parent && self.listed()[i as int].1@
                    == tool@ && self.id_of(parent, tool@) == Some(self.listed()[i as int].2),
                None => self.id_of(parent, tool@) is None,
            },
    {
        let mut i: usize = 0;
        while i < self.entries.len()
            invariant
                i <= self.entries@.len(),
                self.wf(),
                forall|j: int| 0 <= j < i ==> !(#[trigger] self.entries@[j].0 == parent && self.entries@[j].1@ == tool@),
            decreases self.entries@.len() - i,
        {
            if self.entries[i].0 == parent && str_eq(self.entries[i].1.as_str(), tool) {
                proof {
                    assert forall|j: int| 0 <= j < self.entries@.len() && j != i implies !(#[trigger] self.entries@[j].0
                        == parent && self.entries@[j].1@ == tool@) by {
                        if j > i {
                            assert(!(self.entries@[i as int].0 == self.entries@[j].0 && self.entries@[i as int].1@
                                == self.entries@[j].1@));
                        }
                    }
                    lemma_registered_at(self.entries@, parent, tool@, i as int);
                }
                return Some(i);
            }
            i = i + 1;
        }
        proof {
            lemma_registered_absent(self.entries@, parent, tool@);
        }
        None
    }

    /// The id of the sub-agent of `parent` running tool call `tool`.
    pub fn get(&self, parent: i32, tool: &str) -> (r: Option<i32>)
        requires
            self.wf(),
        ensures
            r == self.id_of(parent, tool@),
    {
        match self.find(parent, tool) {
            Some(i) => Some(self.entries[i].2),
            None => None,
        }
    }

    /// Register the sub-agent of `parent` running `tool`: the id it already
    /// has, or the next id. Returns the id and whether it is new.
    pub fn register(&mut self, parent: i32, tool: &str) -> (r: (i32, bool))
        requires
            old(self).wf(),
            old(self).id_of(parent, tool@) is None ==> old(self).next() > i32::MIN,
        ensures
            final(self).wf(),
            match old(self).id_of(parent, tool@) {
                Some(id) => r == (id, false) && final(self).listed() == old(self).listed() && final(self).next()
                    == old(self).next(),
                None => r == (old(self).next(), true) && final(self).next() == old(self).next() - 1 && forall|
                    p: i32,
                    t: Seq<char>,
                | #[trigger] final(self).id_of(p, t) == (if p == parent && t == tool@ {
                    Some(old(self).next())
                } else {
                    old(self).id_of(p, t)
                }),
            },
    {
        match self.find(parent, tool) {
            Some(i) => (self.entries[i].2, false),
            None => {
                let id = self.next_id;
                let ghost before = self.entries@;
                self.entries.push((parent, tool.to_string(), id));
                self.next_id = id - 1;
                proof {
                    let a = self.entries@;
                    assert(a.drop_last() =~= before);
                    assert forall|i: int, j: int| 0 <= i < j < a.len() implies !(#[trigger] a[i].0 == #[trigger] a[j].0
                        && a[i].1@ == a[j].1@) by {
                        if j == a.len() - 1 {
                            assert(a[i] == before[i]);
                            if a[i].0 == parent && a[i].1@ == tool@ {
                                assert(registered(before, parent, tool@) is None);
                                lemma_registered_absent_contra(before, parent, tool@, i);
                            }
                        } else {
                            assert(a[i] == before[i] && a[j] == before[j]);
                        }
                    }
                }
                (id, true)
            },
        }
    }

    /// Forget the sub-agent of `parent` running `tool`; returns its id.
    pub fn unregister(&mut self, parent: i32, tool: &str) -> (r: Option<i32>)
        requires
            old(self).wf(),
        ensures
            final(self).wf(),
            r == old(self).id_of(parent, tool@),
            final(self).next() == old(self).next(),
            forall|p: i32, t: Seq<char>| #[trigger] final(self).id_of(p, t) == (if p == parent && t == tool@ {
                None
            } else {
                old(self).id_of(p, t)
            }),
    {
        match self.find(parent, tool) {
            Some(i) => {
                let ghost before = self.entries@;
                let e = self.entries.remove(i);
                proof {
                    let a = self.entries@;
                    assert forall|x: int, y: int| 0 <= x < y < a.len() implies !(#[trigger] a[x].0 == #[trigger] a[y].0
                        && a[x].1@ == a[y].1@) by {
                        let ox = if x < i { x } else { x + 1 };
                        let oy = if y < i { y } else { y + 1 };
                        assert(a[x] == before[ox] && a[y] == before[oy]);
                    }
                    assert forall|p: i32, t: Seq<char>| #[trigger] registered(a, p, t) == (if p == parent && t == tool@ {
                        None
                    } else {
                        registered(before, p, t)
                    }) by {
                        if p == parent && t == tool@ {
                            assert forall|k: int| 0 <= k < a.len() implies !(#[trigger] a[k].0 == p && a[k].1@ == t) by {
                                let ok = if k < i { k } else { k + 1 };
                                assert(a[k] == before[ok]);
                            }
                            lemma_registered_absent(a, p, t);
                        } else if exists|k: int| 0 <= k < before.len() && #[trigger] before[k].0 == p && before[k].1@ == t {
                            let k = choose|k: int| 0 <= k < before.len() && #[trigger] before[k].0 == p && before[k].1@ == t;
                            assert(k != i);
                            assert forall|j: int| 0 <= j < before.len() && j != k implies !(#[trigger] before[j].0 == p
                                && before[j].1@ == t) by {
                                if j < k {
                                    assert(!(before[j].0 == before[k].0 && before[j].1@ == before[k].1@));
                                } else {
                                    assert(!(before[k].0 == before[j].0 && before[k].1@ == before[j].1@));
                                }
                            }
                            lemma_registered_at(before, p, t, k);
                            let nk = if k < i { k } else { k - 1 };
                            assert(a[nk] == before[k]);
                            assert forall|j: int| 0 <= j < a.len() && j != nk implies !(#[trigger] a[j].0 == p && a[j].1@
                                == t) by {
                                let oj = if j < i { j } else { j + 1 };
                                assert(a[j] == before[oj]);
                            }
                            lemma_registered_at(a, p, t, nk);
                        } else {
                            lemma_registered_absent(before, p, t);
                            assert forall|k: int| 0 <= k < a.len() implies !(#[trigger] a[k].0 == p && a[k].1@ == t) by {
                                let ok = if k < i { k } else { k + 1 };
                                assert(a[k] == before[ok]);
                            }
                            lemma_registered_absent(a, p, t);
                        }
                    }
                }
                Some(e.2)
            },
            None => None,
        }
    }
}

/// A registered id is the id of some registration.
proof fn lemma_registered_in(es: Seq<(i32, String, i32)>, parent: i32, tool: Seq<char>)
    ensures
        registered(es, parent, tool) matches Some(x) ==> exists|i: int| 0 <= i < es.len() && #[trigger] es[i].2 == x,
    decreases es.len(),
{
    if es.len() > 0 && !(es.last().0 == parent && es.last().1@ == tool) {
        lemma_registered_in(es.drop_last(), parent, tool);
        if registered(es, parent, tool) is Some {
            let i = choose|i: int| 0 <= i < es.drop_last().len() && #[trigger] es.drop_last()[i].2 == registered(es, parent, tool)->0;
            assert(es[i] == es.drop_last()[i]);
        }
    } else if es.len() > 0 {
        assert(es[es.len() - 1].2 == es.last().2);
    }
}

proof fn lemma_registered_absent_contra(es: Seq<(i32, String, i32)>, parent: i32, tool: Seq<char>, i: int)
    requires
        0 <= i < es.len(),
        es[i].0 == parent && es[i].1@ == tool,
    ensures
        registered(es, parent, tool) is Some,
    decreases es.len(),
{
    if !(es.last().0 == parent && es.last().1@ == tool) {
        assert(i < es.len() - 1);
        assert(es.drop_last()[i] == es[i]);
        lemma_registered_absent_contra(es.drop_last(), parent, tool, i);
    }
}

} // verus!
