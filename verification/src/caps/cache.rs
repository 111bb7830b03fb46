//! Freshness rule of the capability cache.

use vstd::prelude::*;

use vstd::string::*;

use crate::daemon::RenderingCap;
use crate::text::{str_eq, string_from_chars};

verus! {

/// A cached capability stays valid for seven days.
pub const CACHE_TTL_SECS: u64 = 604800;

/// A capability read back from the cache.
#[derive(Debug, Clone, Copy)]
pub struct CachedCap {
    pub cap: RenderingCap,
    pub cell_px: Option<(u16, u16)>,
}

/// Seconds since the Unix epoch, by the system clock (zero if the clock reads
/// before the epoch).
pub fn now_secs() -> u64 {
    system_secs()
}

/// `SystemTime::now().duration_since(UNIX_EPOCH)` in whole seconds, zero when
/// the clock is before the epoch. Nothing is promised of the value: it is
/// whatever the clock reads.
#[verifier::external_body]
fn system_secs() -> u64 {
    std::time::SystemTime::now()
        .duration_since(std::time::UNIX_EPOCH)
        .unwrap_or(std::time::Duration::ZERO)
        .as_secs()
}

/// Whether a cache entry saved at `saved_at` is too old at time `now`: more
/// than `CACHE_TTL_SECS` seconds have passed (a save time in the future
/// counts as no time passed).
pub fn cache_expired(now: u64, saved_at: u64) -> (r: bool)
    ensures
        r == (now > saved_at && now - saved_at > CACHE_TTL_SECS),
{
    now.saturating_sub(saved_at) > CACHE_TTL_SECS
}

/// The cached capability an entry read from the cache file stands for: only
/// when it was saved for the same environment key and is not expired at
/// `now`; a cell size only when both dimensions were saved.
pub fn cached_entry(
    entry_env_key: &str,
    current_env_key: &str,
    saved_at: u64,
    now: u64,
    cap: RenderingCap,
    cell_px_w: Option<u16>,
    cell_px_h: Option<u16>,
) -> (r: Option<CachedCap>)
    ensures
        match r {
            Some(c) => entry_env_key@ == current_env_key@ && !(now > saved_at && now - saved_at > CACHE_TTL_SECS)
                && c.cap == cap && c.cell_px == (match (cell_px_w, cell_px_h) {
                (Some(w), Some(h)) => Some((w, h)),
                _ => None,
            }),
            None => entry_env_key@ != current_env_key@ || (now > saved_at && now - saved_at > CACHE_TTL_SECS),
        },
{
    if !str_eq(entry_env_key, current_env_key) {
        return None;
    }
    if cache_expired(now, saved_at) {
        return None;
    }
    let cell_px = match (cell_px_w, cell_px_h) {
        (Some(w), Some(h)) => Some((w, h)),
        _ => None,
    };
    Some(CachedCap { cap, cell_px })
}

/// The environment key: the values of the tracked variables joined by `|`,
/// an unset variable counting as empty.
pub open spec fn env_key_of(values: Seq<Seq<char>>) -> Seq<char>
    decreases values.len(),
{
    if values.len() == 0 {
        Seq::empty()
    } else if values.len() == 1 {
        values[0]
    } else {
        env_key_of(values.drop_last()) + seq!['|'] + values.last()
    }
}

/// Join the values of the tracked environment variables into the cache's
/// environment key.
pub fn env_key_from(values: &[String]) -> (r: String)
    ensures
        r@ == env_key_of(values@.map_values(|v: String| v@)),
{
    let ghost vs = values@.map_values(|v: String| v@);
    let mut cs: Vec<char> = Vec::new();
    let mut i: usize = 0;
    proof {
        assert(vs.take(0) =~= Seq::<Seq<char>>::empty());
    }
    while i < values.len()
        invariant
            i <= values@.len(),
            vs == values@.map_values(|v: String| v@),
            cs@ == env_key_of(vs.take(i as int)),
        decreases values@.len() - i,
    {
        let ghost before = cs@;
        if i > 0 {
            cs.push('|');
        }
        let s = values[i].as_str();
        let n = s.unicode_len();
        let mut j: usize = 0;
        let ghost mid = cs@;
        while j < n
            invariant
                n == s@.len(),
                j <= n,
                cs@ == mid + s@.take(j as int),
            decreases n - j,
        {
            cs.push(s.get_char(j));
            proof {
                assert(s@.take(j + 1) =~= s@.take(j as int).push(s@[j as int]));
                assert(cs@ =~= mid + s@.take(j + 1));
            }
            j = j + 1;
        }
        proof {
            assert(s@.take(n as int) =~= s@);
            assert(vs.take(i + 1).drop_last() =~= vs.take(i as int));
            assert(vs.take(i + 1).last() == s@);
            if i == 0 {
                assert(vs.take(1) =~= seq![s@]);
                assert(cs@ =~= s@);
            } else {
                assert(cs@ =~= before + seq!['|'] + s@);
            }
        }
        i = i + 1;
    }
    proof {
        assert(vs.take(i as int) =~= vs);
    }
    string_from_chars(&cs)
}

} // verus!
