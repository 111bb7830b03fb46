//! Key bindings of the client-level actions: the built-in chords, chord
//! parsing (`"ctrl+alt+q"`), and overrides read from the `[bindings]` table
//! of a TOML text.

use vstd::prelude::*;
use vstd::string::*;

use crate::keys::{KeyCode, KeyMods, MOD_ALT, MOD_CONTROL, MOD_SHIFT};
use crate::text::{lowercase, str_eq, to_lowercase};

verus! {

/// An action a key chord can be bound to.
#[derive(Debug, Clone, Copy, PartialEq, Eq, Hash, Structural)]
pub enum Action {
    Quit,
    ToggleLayout,
    FocusOffice,
}

// ── Chord parsing ────────────────────────────────────────────────────────────

/// `s` split at every `+`, as `str::split` does: always at least one part,
/// and empty parts where `+` signs are adjacent or at either end.
pub open spec fn split_plus(s: Seq<char>) -> Seq<Seq<char>>
    decreases s.len(),
{
    if s.len() == 0 {
        seq![Seq::empty()]
    } else {
        let init = split_plus(s.drop_last());
        if s.last() == '+' {
            init.push(Seq::empty())
        } else {
            init.update(init.len() - 1, init.last().push(s.last()))
        }
    }
}

/// The modifier a lower-cased name stands for, as a bit.
pub open spec fn modifier_named(n: Seq<char>) -> Option<u8> {
    if n == "ctrl"@ || n == "control"@ {
        Some(MOD_CONTROL)
    } else if n == "alt"@ {
        Some(MOD_ALT)
    } else if n == "shift"@ {
        Some(MOD_SHIFT)
    } else {
        None
    }
}

/// Every part names a modifier, in any case.
pub open spec fn all_modifiers(ms: Seq<Seq<char>>) -> bool {
    forall|j: int| 0 <= j < ms.len() ==> (#[trigger] modifier_named(lowercase(ms[j]))) is Some
}

/// The modifier bits the parts name together.
pub open spec fn modifier_bits(ms: Seq<Seq<char>>) -> u8
    decreases ms.len(),
{
    if ms.len() == 0 {
        0
    } else {
        modifier_bits(ms.drop_last()) | modifier_named(lowercase(ms.last()))->0
    }
}

/// The key a lower-cased name stands for: a named key, or a single ASCII
/// character.
pub open spec fn key_named(n: Seq<char>) -> Option<KeyCode> {
    if n == "tab"@ {
        Some(KeyCode::Tab)
    } else if n == "esc"@ || n == "escape"@ {
        Some(KeyCode::Esc)
    } else if n == "enter"@ || n == "return"@ {
        Some(KeyCode::Enter)
    } else if n == "up"@ {
        Some(KeyCode::Up)
    } else if n == "down"@ {
        Some(KeyCode::Down)
    } else if n == "left"@ {
        Some(KeyCode::Left)
    } else if n == "right"@ {
        Some(KeyCode::Right)
    } else if n == "backspace"@ {
        Some(KeyCode::Backspace)
    } else if n == "delete"@ || n == "del"@ {
        Some(KeyCode::Delete)
    } else if n == "home"@ {
        Some(KeyCode::Home)
    } else if n == "end"@ {
        Some(KeyCode::End)
    } else if n == "pageup"@ {
        Some(KeyCode::PageUp)
    } else if n == "pagedown"@ {
        Some(KeyCode::PageDown)
    } else if n.len() == 1 && (n[0] as u32) < 0x80 {
        Some(KeyCode::Char(n[0]))
    } else {
        None
    }
}

/// The chord a text such as `"ctrl+alt+q"` names: the parts before the last
/// `+` are modifiers, the last part is the key, all in any case.
pub open spec fn chord_of(s: Seq<char>) -> Option<(KeyMods, KeyCode)> {
    let parts = split_plus(s);
    let mods = parts.drop_last();
    if all_modifiers(mods) {
        match key_named(lowercase(parts.last())) {
            Some(k) => Some((KeyMods { bits: modifier_bits(mods) }, k)),
            None => None,
        }
    } else {
        None
    }
}

proof fn lemma_split_nonempty(s: Seq<char>)
    ensures
        split_plus(s).len() >= 1,
    decreases s.len(),
{
    if s.len() > 0 {
        lemma_split_nonempty(s.drop_last());
    }
}

/// The modifier a name stands for, compared after lower-casing.
fn modifier_bit(part: &str) -> (r: Option<u8>)
    ensures
        r == modifier_named(lowercase(part@)),
{
    let lower = to_lowercase(part);
    let n = lower.as_str();
    if str_eq(n, "ctrl") || str_eq(n, "control") {
        Some(MOD_CONTROL)
    } else if str_eq(n, "alt") {
        Some(MOD_ALT)
    } else if str_eq(n, "shift") {
        Some(MOD_SHIFT)
    } else {
        None
    }
}

/// The key a name stands for, compared after lower-casing.
fn key_of(part: &str) -> (r: Option<KeyCode>)
    ensures
        r == key_named(lowercase(part@)),
{
    let lower = to_lowercase(part);
    let n = lower.as_str();
    if str_eq(n, "tab") {
        Some(KeyCode::Tab)
    } else if str_eq(n, "esc") || str_eq(n, "escape") {
        Some(KeyCode::Esc)
    } else if str_eq(n, "enter") || str_eq(n, "return") {
        Some(KeyCode::Enter)
    } else if str_eq(n, "up") {
        Some(KeyCode::Up)
    } else if str_eq(n, "down") {
        Some(KeyCode::Down)
    } else if str_eq(n, "left") {
        Some(KeyCode::Left)
    } else if str_eq(n, "right") {
        Some(KeyCode::Right)
    } else if str_eq(n, "backspace") {
        Some(KeyCode::Backspace)
    } else if str_eq(n, "delete") || str_eq(n, "del") {
        Some(KeyCode::Delete)
    } else if str_eq(n, "home") {
        Some(KeyCode::Home)
    } else if str_eq(n, "end") {
        Some(KeyCode::End)
    } else if str_eq(n, "pageup") {
        Some(KeyCode::PageUp)
    } else if str_eq(n, "pagedown") {
        Some(KeyCode::PageDown)
    } else if n.unicode_len() == 1 && (n.get_char(0) as u32) < 0x80 {
        Some(KeyCode::Char(n.get_char(0)))
    } else {
        None
    }
}

/// Parse a chord such as `"ctrl+alt+q"`. `None` when a modifier or the key
/// is unknown.
pub fn parse_chord(s: &str) -> (r: Option<(KeyMods, KeyCode)>)
    ensures
        r == chord_of(s@),
{
    let n = s.unicode_len();
    let mut bits: u8 = 0;
    let mut start: usize = 0;
    let mut i: usize = 0;
    let ghost mut done: Seq<Seq<char>> = Seq::empty();
    proof {
        assert(s@.take(0) =~= Seq::<char>::empty());
        assert(done.push(s@.subrange(0, 0)) =~= seq![Seq::<char>::empty()]);
    }
    while i < n
        invariant
            n == s@.len(),
            start <= i <= n,
            split_plus(s@.take(i as int)) == done.push(s@.subrange(start as int, i as int)),
            all_modifiers(done),
            bits == modifier_bits(done),
        decreases n - i,
    {
        proof {
            assert(s@.take(i + 1).drop_last() =~= s@.take(i as int));
            assert(s@.take(i + 1).last() == s@[i as int]);
        }
        if s.get_char(i) == '+' {
            let part = s.substring_char(start, i);
            match modifier_bit(part) {
                Some(b) => {
                    proof {
                        let old_done = done;
                        done = done.push(s@.subrange(start as int, i as int));
                        assert(done.drop_last() =~= old_done);
                        assert forall|j: int| 0 <= j < done.len() implies (#[trigger] modifier_named(lowercase(done[j]))) is Some by {
                            if j < old_done.len() {
                                assert(done[j] == old_done[j]);
                            }
                        }
                    }
                    bits = bits | b;
                    start = i + 1;
                    proof {
                        assert(s@.subrange(start as int, (i + 1) as int) =~= Seq::<char>::empty());
                    }
                },
                None => {
                    proof {
                        let parts = split_plus(s@);
                        let k = done.len() as int;
                        lemma_split_prefix(s@, i as int);
                        assert(parts.drop_last()[k] == s@.subrange(start as int, i as int));
                        assert(modifier_named(lowercase(parts.drop_last()[k])) is None);
                    }
                    return None;
                },
            }
        } else {
            proof {
                assert(s@.subrange(start as int, (i + 1) as int) =~= s@.subrange(start as int, i as int).push(s@[i as int]));
            }
        }
        i = i + 1;
    }
    proof {
        assert(s@.take(n as int) =~= s@);
        assert(split_plus(s@).drop_last() =~= done);
    }
    let last = s.substring_char(start, n);
    match key_of(last) {
        Some(k) => Some((KeyMods { bits }, k)),
        None => None,
    }
}

/// The parts of `s` up to a `+` at `i` come first, in order, among the parts
/// of all of `s`: the part that `i` closes is one of the modifier parts.
proof fn lemma_split_prefix(s: Seq<char>, i: int)
    requires
        0 <= i < s.len(),
        s[i] == '+',
    ensures
        split_plus(s).len() > split_plus(s.take(i)).len(),
        split_plus(s).subrange(0, split_plus(s.take(i)).len() as int) == split_plus(s.take(i)),
    decreases s.len(),
{
    lemma_split_nonempty(s.take(i));
    if i == s.len() - 1 {
        assert(s.drop_last() =~= s.take(i));
        assert(split_plus(s).subrange(0, split_plus(s.take(i)).len() as int) =~= split_plus(s.take(i)));
    } else {
        let t = s.drop_last();
        assert(t.take(i) =~= s.take(i));
        assert(t[i] == s[i]);
        lemma_split_prefix(t, i);
        let p = split_plus(s.take(i));
        assert(split_plus(s).subrange(0, p.len() as int) =~= p);
    }
}

// ── The binding table ────────────────────────────────────────────────────────

/// The action bound to a chord in a list of bindings: the last entry for it.
pub open spec fn lookup(s: Seq<(KeyMods, KeyCode, Action)>, k: (KeyMods, KeyCode)) -> Option<Action>
    decreases s.len(),
{
    if s.len() == 0 {
        None
    } else if (s.last().0, s.last().1) == k {
        Some(s.last().2)
    } else {
        lookup(s.drop_last(), k)
    }
}

/// No chord is listed twice.
pub open spec fn distinct_chords(s: Seq<(KeyMods, KeyCode, Action)>) -> bool {
    forall|i: int, j: int|
        0 <= i < j < s.len() ==> (#[trigger] s[i].0, s[i].1) != (#[trigger] s[j].0, s[j].1)
}

/// The bindings as a map from chord to action.
pub open spec fn binding_map(s: Seq<(KeyMods, KeyCode, Action)>) -> Map<(KeyMods, KeyCode), Action> {
    Map::new(|k: (KeyMods, KeyCode)| lookup(s, k) is Some, |k: (KeyMods, KeyCode)| lookup(s, k)->0)
}

proof fn lemma_lookup_at(s: Seq<(KeyMods, KeyCode, Action)>, i: int)
    requires
        distinct_chords(s),
        0 <= i < s.len(),
    ensures
        lookup(s, (s[i].0, s[i].1)) == Some(s[i].2),
    decreases s.len(),
{
    if i < s.len() - 1 {
        let t = s.drop_last();
        assert(s[i] == t[i]);
        assert((s[i].0, s[i].1) != (s[s.len() - 1].0, s[s.len() - 1].1));
        lemma_lookup_at(t, i);
    }
}

proof fn lemma_lookup_absent(s: Seq<(KeyMods, KeyCode, Action)>, k: (KeyMods, KeyCode))
    requires
        forall|i: int| 0 <= i < s.len() ==> (#[trigger] s[i].0, s[i].1) != k,
    ensures
        lookup(s, k) is None,
    decreases s.len(),
{
    if s.len() > 0 {
        let t = s.drop_last();
        assert forall|i: int| 0 <= i < t.len() implies (#[trigger] t[i].0, t[i].1) != k by {
            assert(t[i] == s[i]);
        }
        assert((s[s.len() - 1].0, s[s.len() - 1].1) != k);
        lemma_lookup_absent(t, k);
    }
}

/// The lookup of a chord in distinct bindings: the entry listing it, or none.
proof fn lemma_lookup(s: Seq<(KeyMods, KeyCode, Action)>, k: (KeyMods, KeyCode))
    requires
        distinct_chords(s),
    ensures
        (exists|i: int| 0 <= i < s.len() && (#[trigger] s[i].0, s[i].1) == k) ==> lookup(s, k) == Some(
            s[choose|i: int| 0 <= i < s.len() && (#[trigger] s[i].0, s[i].1) == k].2,
        ),
        !(exists|i: int| 0 <= i < s.len() && (#[trigger] s[i].0, s[i].1) == k) ==> lookup(s, k) is None,
{
    if exists|i: int| 0 <= i < s.len() && (#[trigger] s[i].0, s[i].1) == k {
        let i = choose|i: int| 0 <= i < s.len() && (#[trigger] s[i].0, s[i].1) == k;
        lemma_lookup_at(s, i);
    } else {
        lemma_lookup_absent(s, k);
    }
}

/// The bindings without the chords bound to `a`.
pub open spec fn without_action(m: Map<(KeyMods, KeyCode), Action>, a: Action) -> Map<(KeyMods, KeyCode), Action> {
    Map::new(|k: (KeyMods, KeyCode)| m.contains_key(k) && m[k] != a, |k: (KeyMods, KeyCode)| m[k])
}

/// Key bindings of the client-level actions.
pub struct Keymap {
    bindings: Vec<(KeyMods, KeyCode, Action)>,
}

impl View for Keymap {
    type V = Map<(KeyMods, KeyCode), Action>;

    closed spec fn view(&self) -> Map<(KeyMods, KeyCode), Action> {
        binding_map(self.bindings@)
    }
}

impl Keymap {
    /// The table lists no chord twice.
    pub closed spec fn wf(&self) -> bool {
        distinct_chords(self.bindings@)
    }

    /// The built-in bindings: Control+Alt+q quits, Control+Alt+l toggles the
    /// layout, Control+Alt+o focuses the office.
    pub fn defaults() -> (km: Keymap)
        ensures
            km.wf(),
            km@ == map![
                (KeyMods { bits: (MOD_CONTROL | MOD_ALT) as u8 }, KeyCode::Char('q')) => Action::Quit,
                (KeyMods { bits: (MOD_CONTROL | MOD_ALT) as u8 }, KeyCode::Char('l')) => Action::ToggleLayout,
                (KeyMods { bits: (MOD_CONTROL | MOD_ALT) as u8 }, KeyCode::Char('o')) => Action::FocusOffice
            ],
    {
        let ca = KeyMods { bits: MOD_CONTROL | MOD_ALT };
        let mut km = Keymap { bindings: Vec::new() };
        proof {
            assert(km@ =~= Map::empty());
        }
        km.bind((ca, KeyCode::Char('q')), Action::Quit);
        km.bind((ca, KeyCode::Char('l')), Action::ToggleLayout);
        km.bind((ca, KeyCode::Char('o')), Action::FocusOffice);
        proof {
            assert(km@ =~= map![
                (KeyMods { bits: (MOD_CONTROL | MOD_ALT) as u8 }, KeyCode::Char('q')) => Action::Quit,
                (KeyMods { bits: (MOD_CONTROL | MOD_ALT) as u8 }, KeyCode::Char('l')) => Action::ToggleLayout,
                (KeyMods { bits: (MOD_CONTROL | MOD_ALT) as u8 }, KeyCode::Char('o')) => Action::FocusOffice
            ]);
        }
        km
    }

    /// The action bound to a key event, if any.
    pub fn matches(&self, mods: KeyMods, code: KeyCode) -> (r: Option<Action>)
        requires
            self.wf(),
        ensures
            r == (if self@.contains_key((mods, code)) { Some(self@[(mods, code)]) } else { None }),
    {
        let n = self.bindings.len();
        let mut i: usize = 0;
        while i < n
            invariant
                n == self.bindings@.len(),
                i <= n,
                distinct_chords(self.bindings@),
                forall|j: int| 0 <= j < i ==> (#[trigger] self.bindings@[j].0, self.bindings@[j].1) != (mods, code),
            decreases n - i,
        {
            let e = &self.bindings[i];
            if e.0 == mods && e.1 == code {
                proof {
                    lemma_lookup_at(self.bindings@, i as int);
                }
                return Some(e.2);
            }
            i = i + 1;
        }
        proof {
            lemma_lookup_absent(self.bindings@, (mods, code));
        }
        None
    }

    /// Bind `chord` to `a`, replacing what it was bound to.
    fn bind(&mut self, chord: (KeyMods, KeyCode), a: Action)
        requires
            old(self).wf(),
        ensures
            final(self).wf(),
            final(self)@ == old(self)@.insert(chord, a),
    {
        let n = self.bindings.len();
        let mut i: usize = 0;
        while i < n
            invariant
                n == self.bindings@.len(),
                i <= n,
                self.bindings@ == old(self).bindings@,
                distinct_chords(self.bindings@),
                forall|j: int| 0 <= j < i ==> (#[trigger] self.bindings@[j].0, self.bindings@[j].1) != chord,
            decreases n - i,
        {
            if self.bindings[i].0 == chord.0 && self.bindings[i].1 == chord.1 {
                let ghost s = self.bindings@;
                self.bindings.set(i, (chord.0, chord.1, a));
                proof {
                    let t = self.bindings@;
                    assert(t == s.update(i as int, (chord.0, chord.1, a)));
                    assert forall|p: int, q: int| 0 <= p < q < t.len() implies (#[trigger] t[p].0, t[p].1) != (#[trigger] t[q].0, t[q].1) by {
                        assert((s[p].0, s[p].1) != (s[q].0, s[q].1));
                    }
                    assert(binding_map(t) =~= binding_map(s).insert(chord, a)) by {
                        assert forall|k: (KeyMods, KeyCode)| #![auto] lookup(t, k) == (if k == chord { Some(a) } else { lookup(s, k) }) by {
                            lemma_lookup(t, k);
                            lemma_lookup(s, k);
                            if k == chord {
                                lemma_lookup_at(t, i as int);
                            } else if exists|j: int| 0 <= j < s.len() && (#[trigger] s[j].0, s[j].1) == k {
                                let j = choose|j: int| 0 <= j < s.len() && (#[trigger] s[j].0, s[j].1) == k;
                                lemma_lookup_at(s, j);
                                lemma_lookup_at(t, j);
                            } else {
                                assert forall|j: int| 0 <= j < t.len() implies (#[trigger] t[j].0, t[j].1) != k by {
                                    if j != i {
                                        assert(t[j] == s[j]);
                                    }
                                }
                                lemma_lookup_absent(t, k);
                            }
                        }
                    }
                }
                return;
            }
            i = i + 1;
        }
        let ghost s = self.bindings@;
        self.bindings.push((chord.0, chord.1, a));
        proof {
            let t = self.bindings@;
            assert(t == s.push((chord.0, chord.1, a)));
            assert forall|p: int, q: int| 0 <= p < q < t.len() implies (#[trigger] t[p].0, t[p].1) != (#[trigger] t[q].0, t[q].1) by {
                if q < s.len() {
                    assert((s[p].0, s[p].1) != (s[q].0, s[q].1));
                } else {
                    assert(t[p] == s[p]);
                }
            }
            assert(t.drop_last() =~= s);
            assert(binding_map(t) =~= binding_map(s).insert(chord, a));
        }
    }

    /// Unbind every chord bound to `a`.
    fn unbind_action(&mut self, a: Action)
        requires
            old(self).wf(),
        ensures
            final(self).wf(),
            final(self)@ == without_action(old(self)@, a),
    {
        let ghost s = self.bindings@;
        let n = self.bindings.len();
        let mut kept: Vec<(KeyMods, KeyCode, Action)> = Vec::new();
        let mut i: usize = 0;
        while i < n
            invariant
                n == s.len(),
                self.bindings@ == s,
                i <= n,
                kept@ == drop_action(s.take(i as int), a),
            decreases n - i,
        {
            let e = self.bindings[i];
            proof {
                assert(s.take(i + 1).drop_last() =~= s.take(i as int));
            }
            if e.2 != a {
                kept.push(e);
            }
            i = i + 1;
        }
        proof {
            assert(s.take(n as int) =~= s);
            lemma_drop_action(s, a);
        }
        self.bindings = kept;
        proof {
            assert(binding_map(self.bindings@) =~= without_action(binding_map(s), a));
        }
    }
}

/// The entries of `s` not bound to `a`, in order.
pub open spec fn drop_action(s: Seq<(KeyMods, KeyCode, Action)>, a: Action) -> Seq<(KeyMods, KeyCode, Action)>
    decreases s.len(),
{
    if s.len() == 0 {
        s
    } else {
        let t = drop_action(s.drop_last(), a);
        if s.last().2 == a { t } else { t.push(s.last()) }
    }
}

proof fn lemma_drop_action(s: Seq<(KeyMods, KeyCode, Action)>, a: Action)
    requires
        distinct_chords(s),
    ensures
        distinct_chords(drop_action(s, a)),
        forall|j: int| #![trigger drop_action(s, a)[j]] 0 <= j < drop_action(s, a).len() ==> exists|p: int| 0 <= p < s.len() && s[p] == drop_action(s, a)[j],
        forall|k: (KeyMods, KeyCode)| #![trigger lookup(drop_action(s, a), k)] lookup(drop_action(s, a), k) == (if lookup(s, k) == Some(a) { None } else { lookup(s, k) }),
    decreases s.len(),
{
    if s.len() > 0 {
        let init = s.drop_last();
        let last = s.last();
        assert forall|i: int, j: int| 0 <= i < j < init.len() implies (#[trigger] init[i].0, init[i].1) != (#[trigger] init[j].0, init[j].1) by {
            assert(init[i] == s[i] && init[j] == s[j]);
        }
        lemma_drop_action(init, a);
        let t = drop_action(init, a);
        let d = drop_action(s, a);
        assert forall|p: int| 0 <= p < init.len() implies (#[trigger] init[p].0, init[p].1) != (last.0, last.1) by {
            assert(init[p] == s[p]);
        }
        if last.2 != a {
            assert(d == t.push(last));
            assert forall|i: int, j: int| 0 <= i < j < d.len() implies (#[trigger] d[i].0, d[i].1) != (#[trigger] d[j].0, d[j].1) by {
                if j < t.len() {
                    assert(d[i] == t[i] && d[j] == t[j]);
                } else {
                    assert(d[i] == t[i]);
                    let p = choose|p: int| 0 <= p < init.len() && init[p] == t[i];
                    assert((init[p].0, init[p].1) != (last.0, last.1));
                }
            }
            assert forall|j: int| #![trigger d[j]] 0 <= j < d.len() implies exists|p: int| 0 <= p < s.len() && s[p] == d[j] by {
                if j < t.len() {
                    assert(d[j] == t[j]);
                    let p = choose|p: int| 0 <= p < init.len() && init[p] == t[j];
                    assert(s[p] == init[p]);
                } else {
                    assert(s[s.len() - 1] == d[j]);
                }
            }
        } else {
            assert(d == t);
            assert forall|j: int| #![trigger d[j]] 0 <= j < d.len() implies exists|p: int| 0 <= p < s.len() && s[p] == d[j] by {
                let p = choose|p: int| 0 <= p < init.len() && init[p] == t[j];
                assert(s[p] == init[p]);
            }
        }
        assert forall|k: (KeyMods, KeyCode)| #![trigger lookup(d, k)] lookup(d, k) == (if lookup(s, k) == Some(a) { None } else { lookup(s, k) }) by {
            assert(lookup(t, k) == (if lookup(init, k) == Some(a) { None } else { lookup(init, k) }));
            assert(s.drop_last() == init);
            if (last.0, last.1) == k {
                lemma_lookup_absent(init, k);
            }
            if last.2 != a {
                assert(d.drop_last() == t);
                assert(d.last() == last);
            }
        }
    }
}

// ── Overrides ───────────────────────────────────────────────────────────────

/// A value of the `[bindings]` table: one chord, a list of chords (items
/// that are not strings kept as `None`), or anything else.
#[derive(Debug, Clone)]
pub enum BindingValue {
    One(String),
    Many(Vec<Option<String>>),
    Other,
}

/// What a [`BindingValue`] holds.
pub enum BindingSpec {
    One(Seq<char>),
    Many(Seq<Option<Seq<char>>>),
    Other,
}

/// The text of an optional string.
pub open spec fn opt_text(o: Option<String>) -> Option<Seq<char>> {
    match o {
        Some(s) => Some(s@),
        None => None,
    }
}

impl View for BindingValue {
    type V = BindingSpec;

    open spec fn view(&self) -> BindingSpec {
        match self {
            BindingValue::One(s) => BindingSpec::One(s@),
            BindingValue::Many(v) => BindingSpec::Many(v@.map_values(|o: Option<String>| opt_text(o))),
            BindingValue::Other => BindingSpec::Other,
        }
    }
}

/// What a list of table entries holds.
pub open spec fn entries_view(es: Seq<(String, BindingValue)>) -> Seq<(Seq<char>, BindingSpec)> {
    es.map_values(|e: (String, BindingValue)| (e.0@, e.1@))
}

/// The action an entry name stands for.
pub open spec fn action_named(n: Seq<char>) -> Option<Action> {
    if n == "quit"@ {
        Some(Action::Quit)
    } else if n == "toggle_layout"@ {
        Some(Action::ToggleLayout)
    } else if n == "focus_office"@ {
        Some(Action::FocusOffice)
    } else {
        None
    }
}

/// The strings of a list, in order, skipping the items that are not strings.
pub open spec fn present(a: Seq<Option<Seq<char>>>) -> Seq<Seq<char>>
    decreases a.len(),
{
    if a.len() == 0 {
        Seq::empty()
    } else {
        let init = present(a.drop_last());
        match a.last() {
            Some(c) => init.push(c),
            None => init,
        }
    }
}

/// The chords a value lists, or `None` when it is neither a string nor a
/// list.
pub open spec fn chords_listed(v: BindingSpec) -> Option<Seq<Seq<char>>> {
    match v {
        BindingSpec::One(c) => Some(seq![c]),
        BindingSpec::Many(a) => Some(present(a)),
        BindingSpec::Other => None,
    }
}

/// Bind each chord in turn to `a`, skipping those that do not parse.
pub open spec fn install(m: Map<(KeyMods, KeyCode), Action>, cs: Seq<Seq<char>>, a: Action) -> Map<(KeyMods, KeyCode), Action>
    decreases cs.len(),
{
    if cs.len() == 0 {
        m
    } else {
        let m1 = install(m, cs.drop_last(), a);
        match chord_of(cs.last()) {
            Some(k) => m1.insert(k, a),
            None => m1,
        }
    }
}

/// One table entry applied: an entry naming a known action and listing
/// chords replaces that action's chords by those that parse; other entries
/// change nothing.
pub open spec fn apply_entry(m: Map<(KeyMods, KeyCode), Action>, e: (Seq<char>, BindingSpec)) -> Map<(KeyMods, KeyCode), Action> {
    match action_named(e.0) {
        Some(a) => match chords_listed(e.1) {
            Some(cs) => install(without_action(m, a), cs, a),
            None => m,
        },
        None => m,
    }
}

/// The table entries applied in order.
pub open spec fn apply_entries(m: Map<(KeyMods, KeyCode), Action>, es: Seq<(Seq<char>, BindingSpec)>) -> Map<(KeyMods, KeyCode), Action>
    decreases es.len(),
{
    if es.len() == 0 {
        m
    } else {
        apply_entry(apply_entries(m, es.drop_last()), es.last())
    }
}

/// The entries of table `section` of a TOML text, in key order, each value
/// read as a binding; `None` when the text is not TOML or has no such table.
pub uninterp spec fn toml_table_entries_of(text: Seq<char>, section: Seq<char>) -> Option<Seq<(Seq<char>, BindingSpec)>>;

/// `str::parse::<toml::Table>`, then `Table::get(section)` and
/// `Value::as_table`: the entries of that table, each value converted to a
/// [`BindingValue`] (`toml::Value::as_str` for the items of an array).
#[verifier::external_body]
fn toml_table_entries(s: &str, section: &str) -> (r: Option<Vec<(String, BindingValue)>>)
    ensures
        toml_table_entries_of(s@, section@) == (match r {
            Some(v) => Some(entries_view(v@)),
            None => None,
        }),
{
    let table = s.parse::<toml::Table>().ok()?;
    let entries = table.get(section)?.as_table()?;
    Some(entries.iter().map(|(k, v)| (k.clone(), match v {
        toml::Value::String(c) => BindingValue::One(c.clone()),
        toml::Value::Array(a) => BindingValue::Many(a.iter().map(|x| x.as_str().map(|c| c.to_string())).collect()),
        _ => BindingValue::Other,
    })).collect())
}

/// The action an entry name stands for.
fn action_of(name: &str) -> (r: Option<Action>)
    ensures
        r == action_named(name@),
{
    if str_eq(name, "quit") {
        Some(Action::Quit)
    } else if str_eq(name, "toggle_layout") {
        Some(Action::ToggleLayout)
    } else if str_eq(name, "focus_office") {
        Some(Action::FocusOffice)
    } else {
        None
    }
}

impl Keymap {
    /// Bind the chord a text names to `a`; a text that does not parse
    /// changes nothing.
    fn install_chord(&mut self, chord: &str, a: Action)
        requires
            old(self).wf(),
        ensures
            final(self).wf(),
            final(self)@ == (match chord_of(chord@) {
                Some(k) => old(self)@.insert(k, a),
                None => old(self)@,
            }),
    {
        match parse_chord(chord) {
            Some(k) => self.bind(k, a),
            None => {},
        }
    }

    /// Apply the entries of a `[bindings]` table in order: an entry naming
    /// an action (`quit`, `toggle_layout`, `focus_office`) with a chord or a
    /// list of chords replaces that action's chords by those that parse;
    /// unknown names and other values are skipped.
    pub fn apply_bindings(&mut self, entries: &[(String, BindingValue)])
        requires
            old(self).wf(),
        ensures
            final(self).wf(),
            final(self)@ == apply_entries(old(self)@, entries_view(entries@)),
    {
        let ghost es = entries_view(entries@);
        let ghost base = self@;
        let n = entries.len();
        let mut i: usize = 0;
        while i < n
            invariant
                n == entries@.len(),
                es == entries_view(entries@),
                i <= n,
                self.wf(),
                self@ == apply_entries(base, es.take(i as int)),
            decreases n - i,
        {
            let ghost before = self@;
            proof {
                assert(es.take(i + 1).drop_last() =~= es.take(i as int));
                assert(es.take(i + 1).last() == es[i as int]);
            }
            let entry = &entries[i];
            match action_of(entry.0.as_str()) {
                Some(a) => match &entry.1 {
                    BindingValue::One(c) => {
                        self.unbind_action(a);
                        self.install_chord(c.as_str(), a);
                        proof {
                            let cs: Seq<Seq<char>> = seq![c@];
                            assert(cs.drop_last() =~= Seq::<Seq<char>>::empty());
                            assert(cs.last() == c@);
                            assert(install(without_action(before, a), Seq::<Seq<char>>::empty(), a) == without_action(before, a));
                            assert(self@ == install(without_action(before, a), cs, a));
                        }
                    },
                    BindingValue::Many(v) => {
                        self.unbind_action(a);
                        let ghost cleared = self@;
                        let ghost vv = v@.map_values(|o: Option<String>| opt_text(o));
                        let m = v.len();
                        let mut j: usize = 0;
                        proof {
                            assert(vv.take(0) =~= Seq::<Option<Seq<char>>>::empty());
                        }
                        while j < m
                            invariant
                                m == v@.len(),
                                vv == v@.map_values(|o: Option<String>| opt_text(o)),
                                j <= m,
                                self.wf(),
                                self@ == install(cleared, present(vv.take(j as int)), a),
                            decreases m - j,
                        {
                            proof {
                                assert(vv.take(j + 1).drop_last() =~= vv.take(j as int));
                                assert(vv.take(j + 1).last() == vv[j as int]);
                            }
                            match &v[j] {
                                Some(c) => {
                                    self.install_chord(c.as_str(), a);
                                    proof {
                                        let p = present(vv.take(j as int));
                                        assert(p.push(c@).drop_last() =~= p);
                                    }
                                },
                                None => {},
                            }
                            j = j + 1;
                        }
                        proof {
                            assert(vv.take(m as int) =~= vv);
                        }
                    },
                    BindingValue::Other => {},
                },
                None => {},
            }
            i = i + 1;
        }
        proof {
            assert(es.take(n as int) =~= es);
        }
    }

    /// Apply the `[bindings]` table of a TOML text; a text that is not TOML,
    /// or has no such table, changes nothing.
    pub fn apply_toml(&mut self, s: &str)
        requires
            old(self).wf(),
        ensures
            final(self).wf(),
            final(self)@ == (match toml_table_entries_of(s@, "bindings"@) {
                Some(es) => apply_entries(old(self)@, es),
                None => old(self)@,
            }),
    {
        match toml_table_entries(s, "bindings") {
            Some(entries) => self.apply_bindings(entries.as_slice()),
            None => {},
        }
    }
}

} // verus!
