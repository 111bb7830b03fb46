//! Lists kept strictly ordered by a text key, in the byte order of `str`:
//! the order in which an ordered map keyed by `String` walks its entries.

use vstd::prelude::*;
use vstd::utf8::{encode_utf8, encode_utf8_decode_utf8};

use crate::text::{bytes_lt, lemma_lex_irreflexive, lemma_lex_total, lemma_lex_transitive, lex_lt, str_eq};

verus! {

/// A value with a text key.
pub trait Keyed {
    /// The key.
    spec fn key_text(&self) -> Seq<char>;

    /// The key, as text.
    fn key_str(&self) -> (r: &str)
        ensures
            r@ == self.key_text(),
    ;
}

/// The ordering key of a text: its UTF-8 bytes.
pub open spec fn text_key(s: Seq<char>) -> Seq<u8> {
    encode_utf8(s)
}

/// Texts with equal ordering keys are equal.
pub proof fn lemma_text_key_injective(a: Seq<char>, b: Seq<char>)
    ensures
        text_key(a) == text_key(b) ==> a == b,
{
    encode_utf8_decode_utf8(a);
    encode_utf8_decode_utf8(b);
}

/// Items strictly increasing by key.
pub open spec fn sorted_by_key<T: Keyed>(es: Seq<T>) -> bool {
    forall|i: int, j: int|
        0 <= i < j < es.len() ==> lex_lt(text_key(#[trigger] es[i].key_text()), text_key(#[trigger] es[j].key_text()))
}

/// The items by key (a later item wins).
pub open spec fn by_key<T: Keyed>(es: Seq<T>) -> Map<Seq<char>, T>
    decreases es.len(),
{
    if es.len() == 0 {
        Map::empty()
    } else {
        by_key(es.drop_last()).insert(es.last().key_text(), es.last())
    }
}

pub proof fn lemma_by_key_dom<T: Keyed>(es: Seq<T>, k: Seq<char>)
    ensures
        by_key(es).contains_key(k) <==> exists|i: int| 0 <= i < es.len() && #[trigger] es[i].key_text() == k,
    decreases es.len(),
{
    if es.len() > 0 {
        lemma_by_key_dom(es.drop_last(), k);
        if exists|i: int| 0 <= i < es.drop_last().len() && #[trigger] es.drop_last()[i].key_text() == k {
            let i = choose|i: int| 0 <= i < es.drop_last().len() && #[trigger] es.drop_last()[i].key_text() == k;
            assert(es[i].key_text() == k);
        }
        if exists|i: int| 0 <= i < es.len() && #[trigger] es[i].key_text() == k {
            let i = choose|i: int| 0 <= i < es.len() && #[trigger] es[i].key_text() == k;
            if i < es.len() - 1 {
                assert(es.drop_last()[i].key_text() == k);
            }
        }
    }
}

pub proof fn lemma_sorted_distinct<T: Keyed>(es: Seq<T>, i: int, j: int)
    requires
        sorted_by_key(es),
        0 <= i < es.len(),
        0 <= j < es.len(),
        i != j,
    ensures
        es[i].key_text() != es[j].key_text(),
{
    if i < j {
        assert(lex_lt(text_key(es[i].key_text()), text_key(es[j].key_text())));
        lemma_lex_irreflexive(text_key(es[i].key_text()));
    } else {
        assert(lex_lt(text_key(es[j].key_text()), text_key(es[i].key_text())));
        lemma_lex_irreflexive(text_key(es[j].key_text()));
    }
}

pub proof fn lemma_by_key_at<T: Keyed>(es: Seq<T>, i: int)
    requires
        sorted_by_key(es),
        0 <= i < es.len(),
    ensures
        by_key(es).contains_key(es[i].key_text()),
        by_key(es)[es[i].key_text()] == es[i],
    decreases es.len(),
{
    if i < es.len() - 1 {
        let d = es.drop_last();
        assert(sorted_by_key(d)) by {
            assert forall|a: int, b: int| 0 <= a < b < d.len() implies lex_lt(
                text_key(#[trigger] d[a].key_text()),
                text_key(#[trigger] d[b].key_text()),
            ) by {
                assert(lex_lt(text_key(es[a].key_text()), text_key(es[b].key_text())));
            }
        }
        assert(d[i] == es[i]);
        lemma_by_key_at(d, i);
        lemma_sorted_distinct(es, i, es.len() - 1);
    }
}

/// A sorted list is determined, as a map, by its items.
pub proof fn lemma_by_key_ext<T: Keyed>(a: Seq<T>, m: Map<Seq<char>, T>)
    requires
        sorted_by_key(a),
        forall|i: int| 0 <= i < a.len() ==> m.contains_key(#[trigger] a[i].key_text()) && m[a[i].key_text()] == a[i],
        forall|k: Seq<char>| #[trigger] m.contains_key(k) ==> exists|i: int| 0 <= i < a.len() && a[i].key_text() == k,
    ensures
        by_key(a) == m,
{
    assert forall|k: Seq<char>| by_key(a).contains_key(k) == m.contains_key(k) by {
        lemma_by_key_dom(a, k);
        if by_key(a).contains_key(k) {
            let i = choose|i: int| 0 <= i < a.len() && #[trigger] a[i].key_text() == k;
            assert(m.contains_key(a[i].key_text()));
        }
        if m.contains_key(k) {
            let i = choose|i: int| 0 <= i < a.len() && a[i].key_text() == k;
            assert(a[i].key_text() == k);
        }
    }
    assert forall|k: Seq<char>| #[trigger] by_key(a).contains_key(k) implies by_key(a)[k] == m[k] by {
        lemma_by_key_dom(a, k);
        let i = choose|i: int| 0 <= i < a.len() && #[trigger] a[i].key_text() == k;
        lemma_by_key_at(a, i);
    }
    assert(by_key(a) =~= m);
}

/// The index of the item with key `k` in a sorted list.
pub fn position_by_key<T: Keyed>(es: &Vec<T>, k: &str) -> (r: Option<usize>)
    requires
        sorted_by_key(es@),
    ensures
        match r {
            Some(i) => i < es@.len() && es@[i as int].key_text() == k@,
            None => !by_key(es@).contains_key(k@),
        },
{
    let mut i: usize = 0;
    while i < es.len()
        invariant
            i <= es@.len(),
            forall|j: int| 0 <= j < i ==> es@[j].key_text() != k@,
        decreases es@.len() - i,
    {
        if str_eq(es[i].key_str(), k) {
            return Some(i);
        }
        i = i + 1;
    }
    proof {
        lemma_by_key_dom(es@, k@);
    }
    None
}

/// Put `e` into the strictly sorted list `es`, replacing the item with the
/// same key.
pub fn insert_by_key<T: Keyed>(es: &mut Vec<T>, e: T)
    requires
        sorted_by_key(old(es)@),
    ensures
        sorted_by_key(final(es)@),
        by_key(final(es)@) == by_key(old(es)@).insert(e.key_text(), e),
{
    let ghost old_es = es@;
    let ghost ek = e.key_text();
    let ghost m = by_key(old_es).insert(ek, e);
    let mut p: usize = 0;
    while p < es.len() && bytes_lt(es[p].key_str().as_bytes(), e.key_str().as_bytes())
        invariant
            es@ == old_es,
            ek == e.key_text(),
            p <= es@.len(),
            forall|k: int| 0 <= k < p ==> lex_lt(text_key(#[trigger] es@[k].key_text()), text_key(ek)),
        decreases es@.len() - p,
    {
        p = p + 1;
    }
    proof {
        assert forall|i: int| 0 <= i < old_es.len() implies m.contains_key(#[trigger] old_es[i].key_text()) by {
            lemma_by_key_at(old_es, i);
        }
    }
    if p < es.len() && str_eq(es[p].key_str(), e.key_str()) {
        es.set(p, e);
        proof {
            let a = es@;
            assert forall|i: int, j: int| 0 <= i < j < a.len() implies lex_lt(
                text_key(#[trigger] a[i].key_text()),
                text_key(#[trigger] a[j].key_text()),
            ) by {
                assert(lex_lt(text_key(old_es[i].key_text()), text_key(old_es[j].key_text())));
            }
            assert forall|i: int| 0 <= i < a.len() implies m.contains_key(#[trigger] a[i].key_text()) && m[a[i].key_text()] == a[i] by {
                if i != p {
                    lemma_sorted_distinct(old_es, i, p as int);
                    lemma_by_key_at(old_es, i);
                }
            }
            assert forall|k: Seq<char>| #[trigger] m.contains_key(k) implies exists|i: int| 0 <= i < a.len() && a[i].key_text() == k by {
                if k == ek {
                    assert(a[p as int].key_text() == k);
                } else {
                    lemma_by_key_dom(old_es, k);
                    let i = choose|i: int| 0 <= i < old_es.len() && #[trigger] old_es[i].key_text() == k;
                    assert(a[i].key_text() == k);
                }
            }
            lemma_by_key_ext(a, m);
        }
    } else {
        proof {
            if p < old_es.len() {
                lemma_lex_total(text_key(old_es[p as int].key_text()), text_key(ek));
                if text_key(old_es[p as int].key_text()) == text_key(ek) {
                    lemma_text_key_injective(old_es[p as int].key_text(), ek);
                }
                assert(lex_lt(text_key(ek), text_key(old_es[p as int].key_text())));
            }
        }
        es.insert(p, e);
        proof {
            let a = es@;
            assert forall|i: int, j: int| 0 <= i < j < a.len() implies lex_lt(
                text_key(#[trigger] a[i].key_text()),
                text_key(#[trigger] a[j].key_text()),
            ) by {
                if j < p {
                    assert(lex_lt(text_key(old_es[i].key_text()), text_key(old_es[j].key_text())));
                } else if j == p {
                    assert(lex_lt(text_key(old_es[i].key_text()), text_key(ek)));
                } else if i > p {
                    assert(lex_lt(text_key(old_es[i - 1].key_text()), text_key(old_es[j - 1].key_text())));
                } else if i == p {
                    if j - 1 > p {
                        assert(lex_lt(text_key(old_es[p as int].key_text()), text_key(old_es[j - 1].key_text())));
                        lemma_lex_transitive(text_key(ek), text_key(old_es[p as int].key_text()), text_key(old_es[j - 1].key_text()));
                    }
                } else {
                    assert(lex_lt(text_key(old_es[i].key_text()), text_key(ek)));
                    if j - 1 > p {
                        assert(lex_lt(text_key(old_es[p as int].key_text()), text_key(old_es[j - 1].key_text())));
                        lemma_lex_transitive(text_key(ek), text_key(old_es[p as int].key_text()), text_key(old_es[j - 1].key_text()));
                    }
                    lemma_lex_transitive(text_key(old_es[i].key_text()), text_key(ek), text_key(old_es[j - 1].key_text()));
                }
            }
            assert forall|i: int| 0 <= i < a.len() implies m.contains_key(#[trigger] a[i].key_text()) && m[a[i].key_text()] == a[i] by {
                if i != p {
                    let oi = if i < p { i } else { i - 1 };
                    assert(a[i] == old_es[oi]);
                    lemma_by_key_at(old_es, oi);
                    if old_es[oi].key_text() == ek {
                        assert(a[p as int].key_text() == a[i].key_text());
                        lemma_sorted_distinct(a, i, p as int);
                    }
                }
            }
            assert forall|k: Seq<char>| #[trigger] m.contains_key(k) implies exists|i: int| 0 <= i < a.len() && a[i].key_text() == k by {
                if k == ek {
                    assert(a[p as int].key_text() == k);
                } else {
                    lemma_by_key_dom(old_es, k);
                    let i = choose|i: int| 0 <= i < old_es.len() && #[trigger] old_es[i].key_text() == k;
                    if i < p {
                        assert(a[i].key_text() == k);
                    } else {
                        assert(a[i + 1].key_text() == k);
                    }
                }
            }
            lemma_by_key_ext(a, m);
        }
    }
}

} // verus!
