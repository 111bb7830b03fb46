//! Asset blob ingestion: asset frames arrive tagged with the numeric id of
//! the requested asset (the djb2 hash of its name) and a tier byte; chunks
//! are gathered per (id, tier) and the finished PNG is decoded to RGBA8.

use std::collections::HashMap;

use vstd::prelude::*;
use vstd::string::*;

use crate::text::{dec_chars, push_dec_chars, str_eq, string_from_chars};

verus! {

broadcast use vstd::std_specs::hash::group_hash_axioms;

/// djb2 over bytes: `h = 5381; h = (h * 33 + byte) mod 2^32` for each byte.
pub open spec fn djb2(b: Seq<u8>) -> u32
    decreases b.len(),
{
    if b.len() == 0 {
        5381
    } else {
        ((djb2(b.drop_last()) as int * 33 + b.last() as int) % 0x1_0000_0000) as u32
    }
}

proof fn lemma_wrapping_step(h: u32, c: u8)
    ensures
        vstd::wrapping::u32_specs::wrapping_add(vstd::wrapping::u32_specs::wrapping_mul(h, 33), c as u32)
            == ((h as int * 33 + c as int) % 0x1_0000_0000) as u32,
{
    let m = (h as nat * 33nat) % 0x1_0000_0000nat;
    assert((h as int * 33 + c as int) % 0x1_0000_0000 == (m + c as int) % 0x1_0000_0000) by (nonlinear_arith)
        requires
            m == (h as nat * 33nat) % 0x1_0000_0000nat,
    ;
}

/// The numeric id the daemon tags an asset's frames with: djb2 over the
/// bytes of its name.
pub fn string_asset_id(id: &str) -> (h: u32)
    ensures
        h == djb2(id.spec_bytes()),
{
    let b = id.as_bytes();
    let mut h: u32 = 5381;
    let mut i: usize = 0;
    while i < b.len()
        invariant
            i <= b@.len(),
            b@ == id.spec_bytes(),
            h == djb2(b@.take(i as int)),
        decreases b@.len() - i,
    {
        proof {
            lemma_wrapping_step(h, b@[i as int]);
            assert(b@.take(i + 1).drop_last() =~= b@.take(i as int));
        }
        h = h.wrapping_mul(33).wrapping_add(b[i] as u32);
        i = i + 1;
    }
    assert(b@.take(i as int) =~= b@);
    h
}

/// A decoded sprite: RGBA8 pixels, row-major, four bytes per pixel.
#[derive(Debug, Clone, Default, PartialEq, Eq)]
pub struct DecodedAsset {
    pub width: u32,
    pub height: u32,
    pub rgba: Vec<u8>,
}

impl DecodedAsset {
    /// The sprite as plain values: width, height and pixel bytes.
    pub open spec fn view_parts(&self) -> (u32, u32, Seq<u8>) {
        (self.width, self.height, self.rgba@)
    }

    /// Whether the pixel buffer holds exactly `width × height` pixels.
    pub open spec fn well_sized(&self) -> bool {
        self.rgba@.len() == self.width * self.height * 4
    }

    /// A copy of the sprite.
    pub fn duplicate(&self) -> (r: DecodedAsset)
        ensures
            r.view_parts() == self.view_parts(),
    {
        let px = self.rgba.clone();
        assert(px@ =~= self.rgba@);
        DecodedAsset { width: self.width, height: self.height, rgba: px }
    }
}

#[verifier::external_type_specification]
#[verifier::external_body]
pub struct ExImageError(image::ImageError);

/// What the PNG decoder makes of a byte string: width, height and RGBA8
/// pixels, or nothing when the bytes are not a PNG it can decode.
pub uninterp spec fn png_decoding(bytes: Seq<u8>) -> Option<(u32, u32, Seq<u8>)>;

/// `image::load_from_memory_with_format(bytes, ImageFormat::Png)` then
/// `to_rgba8`: the decoded image as tightly packed RGBA8, whose buffer holds
/// `width × height × 4` bytes.
#[verifier::external_body]
fn decode_png(bytes: &[u8]) -> (r: Result<DecodedAsset, image::ImageError>)
    ensures
        match r {
            Ok(d) => png_decoding(bytes@) == Some(d.view_parts()) && d.well_sized(),
            Err(_) => png_decoding(bytes@) is None,
        },
{
    let img = image::load_from_memory_with_format(bytes, image::ImageFormat::Png)?;
    let rgba = img.to_rgba8();
    Ok(DecodedAsset { width: rgba.width(), height: rgba.height(), rgba: rgba.into_raw() })
}

/// Why a finished asset could not be stored.
#[derive(Debug, Clone, PartialEq, Eq)]
pub enum AssetError {
    /// The gathered bytes of `asset_id` at `tier` are not a decodable PNG.
    Decode { asset_id: String, tier: u8 },
}

/// The key of the chunk buffer of `(numeric_id, tier)`.
pub open spec fn pending_key(numeric_id: u32, tier: u8) -> u64 {
    (numeric_id as int * 256 + tier as int) as u64
}

/// The name a finished asset is stored under when its id was never
/// requested: `#` and the id in decimal.
pub open spec fn synthetic_name(numeric_id: u32) -> Seq<char> {
    seq!['#'] + dec_chars(numeric_id as nat)
}

/// Accumulates streamed asset frames and keeps decoded sprites by name.
pub struct AssetStore {
    by_numeric: HashMap<u32, String>,
    pending: HashMap<u64, Vec<u8>>,
    decoded: Vec<(String, DecodedAsset)>,
}

impl AssetStore {
    /// The names of requested assets by numeric id.
    pub closed spec fn requested(&self) -> Map<u32, Seq<char>> {
        Map::new(|k: u32| self.by_numeric@.contains_key(k), |k: u32| self.by_numeric@[k]@)
    }

    /// The bytes gathered so far for `(numeric_id, tier)`.
    pub closed spec fn pending_for(&self, numeric_id: u32, tier: u8) -> Seq<u8> {
        let k = pending_key(numeric_id, tier);
        if self.pending@.contains_key(k) {
            self.pending@[k]@
        } else {
            Seq::empty()
        }
    }

    /// The decoded sprites by name.
    pub closed spec fn sprites(&self) -> Map<Seq<char>, (u32, u32, Seq<u8>)> {
        Map::new(
            |name: Seq<char>| exists|i: int| 0 <= i < self.decoded@.len() && #[trigger] self.decoded@[i].0@ == name,
            |name: Seq<char>| {
                let i = choose|i: int| 0 <= i < self.decoded@.len() && #[trigger] self.decoded@[i].0@ == name;
                self.decoded@[i].1.view_parts()
            },
        )
    }

    /// The stored entries in storage order.
    pub closed spec fn entries(&self) -> Seq<(String, DecodedAsset)> {
        self.decoded@
    }

    /// No name is stored twice.
    pub closed spec fn wf(&self) -> bool {
        forall|i: int, j: int|
            0 <= i < j < self.decoded@.len() ==> #[trigger] self.decoded@[i].0@ != #[trigger] self.decoded@[j].0@
    }

    /// An empty store.
    pub fn new() -> (s: Self)
        ensures
            s.wf(),
            s.requested() == Map::<u32, Seq<char>>::empty(),
            s.sprites() == Map::<Seq<char>, (u32, u32, Seq<u8>)>::empty(),
            forall|id: u32, tier: u8| s.pending_for(id, tier) == Seq::<u8>::empty(),
    {
        let s = AssetStore { by_numeric: HashMap::new(), pending: HashMap::new(), decoded: Vec::new() };
        assert(s.requested() =~= Map::<u32, Seq<char>>::empty());
        assert(s.sprites() =~= Map::<Seq<char>, (u32, u32, Seq<u8>)>::empty());
        s
    }
}

/// Distinct (id, tier) pairs have distinct buffer keys.
proof fn lemma_pending_key_injective(a: u32, t: u8, b: u32, u: u8)
    ensures
        pending_key(a, t) == pending_key(b, u) ==> a == b && t == u,
{
    assert(a as int * 256 + t as int <= 0xffff_ffff * 256 + 255);
    assert(b as int * 256 + u as int <= 0xffff_ffff * 256 + 255);
    if a as int * 256 + t as int == b as int * 256 + u as int {
        assert(a == b && t == u) by (nonlinear_arith)
            requires
                a as int * 256 + t as int == b as int * 256 + u as int,
                0 <= t < 256,
                0 <= u < 256,
        ;
    }
}

impl AssetStore {
    proof fn lemma_sprite_at(&self, i: int)
        requires
            self.wf(),
            0 <= i < self.decoded@.len(),
        ensures
            self.sprites().contains_key(self.decoded@[i].0@),
            self.sprites()[self.decoded@[i].0@] == self.decoded@[i].1.view_parts(),
    {
        let name = self.decoded@[i].0@;
        assert(self.decoded@[i].0@ == name);
        let j = choose|j: int| 0 <= j < self.decoded@.len() && #[trigger] self.decoded@[j].0@ == name;
        if j != i {
            if j < i {
                assert(self.decoded@[j].0@ != self.decoded@[i].0@);
            } else {
                assert(self.decoded@[i].0@ != self.decoded@[j].0@);
            }
        }
    }

    /// The position of `name` among the stored entries.
    fn find(&self, name: &str) -> (r: Option<usize>)
        ensures
            match r {
                Some(i) => i < self.decoded@.len() && self.decoded@[i as int].0@ == name@,
                None => forall|i: int| 0 <= i < self.decoded@.len() ==> self.decoded@[i].0@ != name@,
            },
    {
        let mut i: usize = 0;
        while i < self.decoded.len()
            invariant
                i <= self.decoded@.len(),
                forall|j: int| 0 <= j < i ==> self.decoded@[j].0@ != name@,
            decreases self.decoded@.len() - i,
        {
            if str_eq(self.decoded[i].0.as_str(), name) {
                return Some(i);
            }
            i = i + 1;
        }
        None
    }

    /// Store `sprite` under `name`, replacing an earlier sprite of that name.
    fn store(&mut self, name: String, sprite: DecodedAsset)
        requires
            old(self).wf(),
        ensures
            final(self).wf(),
            final(self).sprites() == old(self).sprites().insert(name@, sprite.view_parts()),
            final(self).by_numeric == old(self).by_numeric,
            final(self).pending == old(self).pending,
    {
        let ghost n = name@;
        let ghost p = sprite.view_parts();
        let ghost old_self = *self;
        match self.find(name.as_str()) {
            Some(i) => {
                self.decoded.set(i, (name, sprite));
                proof {
                    assert forall|a: int, b: int| 0 <= a < b < self.decoded@.len() implies
                        #[trigger] self.decoded@[a].0@ != #[trigger] self.decoded@[b].0@ by {
                        assert(old_self.decoded@[a].0@ != old_self.decoded@[b].0@);
                    }
                    assert forall|k: Seq<char>| #[trigger] self.sprites().contains_key(k)
                        == old_self.sprites().insert(n, p).contains_key(k) by {
                        if k != n && self.sprites().contains_key(k) {
                            let j = choose|j: int| 0 <= j < self.decoded@.len() && #[trigger] self.decoded@[j].0@ == k;
                            assert(old_self.decoded@[j].0@ == k);
                        }
                        if k != n && old_self.sprites().contains_key(k) {
                            let j = choose|j: int| 0 <= j < old_self.decoded@.len() && #[trigger] old_self.decoded@[j].0@ == k;
                            assert(self.decoded@[j].0@ == k);
                        }
                        if k == n {
                            assert(self.decoded@[i as int].0@ == k);
                        }
                    }
                    assert forall|k: Seq<char>| #[trigger] self.sprites().contains_key(k) implies
                        self.sprites()[k] == old_self.sprites().insert(n, p)[k] by {
                        let j = choose|j: int| 0 <= j < self.decoded@.len() && #[trigger] self.decoded@[j].0@ == k;
                        self.lemma_sprite_at(j);
                        if k != n {
                            old_self.lemma_sprite_at(j);
                        }
                    }
                    assert(self.sprites() =~= old_self.sprites().insert(n, p));
                }
            },
            None => {
                self.decoded.push((name, sprite));
                proof {
                    let last = self.decoded@.len() - 1;
                    assert forall|a: int, b: int| 0 <= a < b < self.decoded@.len() implies
                        #[trigger] self.decoded@[a].0@ != #[trigger] self.decoded@[b].0@ by {
                        if b < last {
                            assert(old_self.decoded@[a].0@ != old_self.decoded@[b].0@);
                        }
                    }
                    assert forall|k: Seq<char>| #[trigger] self.sprites().contains_key(k)
                        == old_self.sprites().insert(n, p).contains_key(k) by {
                        if k != n && self.sprites().contains_key(k) {
                            let j = choose|j: int| 0 <= j < self.decoded@.len() && #[trigger] self.decoded@[j].0@ == k;
                            assert(old_self.decoded@[j].0@ == k);
                        }
                        if k != n && old_self.sprites().contains_key(k) {
                            let j = choose|j: int| 0 <= j < old_self.decoded@.len() && #[trigger] old_self.decoded@[j].0@ == k;
                            assert(self.decoded@[j].0@ == k);
                        }
                        if k == n {
                            assert(self.decoded@[last].0@ == k);
                        }
                    }
                    assert forall|k: Seq<char>| #[trigger] self.sprites().contains_key(k) implies
                        self.sprites()[k] == old_self.sprites().insert(n, p)[k] by {
                        let j = choose|j: int| 0 <= j < self.decoded@.len() && #[trigger] self.decoded@[j].0@ == k;
                        self.lemma_sprite_at(j);
                        if k != n {
                            old_self.lemma_sprite_at(j);
                        }
                    }
                    assert(self.sprites() =~= old_self.sprites().insert(n, p));
                }
            },
        }
    }
}

impl AssetStore {
    /// Record that `asset_id` was requested; the numeric id the daemon will
    /// tag its frames with is returned.
    pub fn register_request(&mut self, asset_id: &str) -> (numeric: u32)
        requires
            old(self).wf(),
        ensures
            final(self).wf(),
            numeric == djb2(asset_id.spec_bytes()),
            final(self).requested() == old(self).requested().insert(numeric, asset_id@),
            final(self).sprites() == old(self).sprites(),
            forall|id: u32, tier: u8| final(self).pending_for(id, tier) == old(self).pending_for(id, tier),
    {
        let ghost old_self = *self;
        let numeric = string_asset_id(asset_id);
        let name = asset_id.to_owned();
        self.by_numeric.insert(numeric, name);
        assert(self.requested() =~= old_self.requested().insert(numeric, asset_id@));
        assert(self.sprites() =~= old_self.sprites());
        numeric
    }

    /// Finish an asset: store the decoded sprite under `asset_id`, or report
    /// that its bytes did not decode.
    pub fn complete(&mut self, asset_id: String, tier: u8, decoded: Option<DecodedAsset>) -> (r: Result<Option<String>, AssetError>)
        requires
            old(self).wf(),
        ensures
            final(self).wf(),
            final(self).requested() == old(self).requested(),
            forall|id: u32, t: u8| final(self).pending_for(id, t) == old(self).pending_for(id, t),
            match decoded {
                Some(d) => r matches Ok(Some(name)) && name@ == asset_id@
                    && final(self).sprites() == old(self).sprites().insert(asset_id@, d.view_parts()),
                None => r matches Err(AssetError::Decode { asset_id: name, tier: t }) && name@ == asset_id@ && t == tier
                    && final(self).sprites() == old(self).sprites(),
            },
    {
        match decoded {
            Some(d) => {
                let name = asset_id.clone();
                self.store(asset_id, d);
                Ok(Some(name))
            },
            None => Err(AssetError::Decode { asset_id, tier }),
        }
    }

    /// Feed one asset frame. The bytes join those gathered for
    /// `(numeric_id, tier)`; on the final chunk the whole buffer is taken,
    /// decoded and stored under the requested name (or `#<id>` when the id
    /// was never requested), and that name is returned.
    pub fn on_frame(&mut self, numeric_id: u32, tier: u8, is_final: bool, bytes: &[u8]) -> (r: Result<Option<String>, AssetError>)
        requires
            old(self).wf(),
            old(self).pending_for(numeric_id, tier).len() + bytes@.len() <= usize::MAX,
        ensures
            final(self).wf(),
            frame_fed(*old(self), *final(self), numeric_id, tier, is_final, bytes@, r),
    {
        let ghost old_self = *self;
        let key: u64 = numeric_id as u64 * 256 + tier as u64;
        assert(key == pending_key(numeric_id, tier));
        let mut buf: Vec<u8> = match self.pending.remove(&key) {
            Some(b) => b,
            None => Vec::new(),
        };
        assert(buf@ == old_self.pending_for(numeric_id, tier));
        crate::text::append_bytes(&mut buf, bytes);
        proof {
            assert forall|id: u32, t: u8| !(id == numeric_id && t == tier) implies
                self.pending_for(id, t) == old_self.pending_for(id, t) by {
                lemma_pending_key_injective(id, t, numeric_id, tier);
            }
            assert(self.sprites() =~= old_self.sprites());
            assert(self.requested() =~= old_self.requested());
        }
        if !is_final {
            self.pending.insert(key, buf);
            proof {
                assert forall|id: u32, t: u8| !(id == numeric_id && t == tier) implies
                    self.pending_for(id, t) == old_self.pending_for(id, t) by {
                    lemma_pending_key_injective(id, t, numeric_id, tier);
                }
                assert(self.sprites() =~= old_self.sprites());
                assert(self.requested() =~= old_self.requested());
            }
            return Ok(None);
        }
        let name: String = match self.by_numeric.get(&numeric_id) {
            Some(n) => n.clone(),
            None => {
                let mut cs: Vec<char> = Vec::new();
                cs.push('#');
                push_dec_chars(&mut cs, numeric_id as u64);
                string_from_chars(&cs)
            },
        };
        let decoded = match decode_png(buf.as_slice()) {
            Ok(d) => Some(d),
            Err(_) => None,
        };
        self.complete(name, tier, decoded)
    }

    /// The sprite stored under `asset_id`, if any.
    pub fn get(&self, asset_id: &str) -> (r: Option<&DecodedAsset>)
        requires
            self.wf(),
        ensures
            match r {
                Some(d) => self.sprites().contains_key(asset_id@) && self.sprites()[asset_id@] == d.view_parts(),
                None => !self.sprites().contains_key(asset_id@),
            },
    {
        match self.find(asset_id) {
            Some(i) => {
                proof {
                    self.lemma_sprite_at(i as int);
                }
                Some(&self.decoded[i].1)
            },
            None => None,
        }
    }

    /// The stored `(name, sprite)` pairs, in no particular order.
    pub fn iter(&self) -> (r: &[(String, DecodedAsset)])
        requires
            self.wf(),
        ensures
            r@ == self.entries(),
            forall|i: int| 0 <= i < r@.len() ==> self.sprites().contains_key(#[trigger] r@[i].0@)
                && self.sprites()[r@[i].0@] == r@[i].1.view_parts(),
            forall|name: Seq<char>| #[trigger] self.sprites().contains_key(name) ==> exists|i: int| 0 <= i < r@.len() && r@[i].0@ == name,
            forall|i: int, j: int| 0 <= i < j < r@.len() ==> #[trigger] r@[i].0@ != #[trigger] r@[j].0@,
    {
        proof {
            assert forall|i: int| 0 <= i < self.decoded@.len() implies self.sprites().contains_key(#[trigger] self.decoded@[i].0@)
                && self.sprites()[self.decoded@[i].0@] == self.decoded@[i].1.view_parts() by {
                self.lemma_sprite_at(i);
            }
        }
        self.decoded.as_slice()
    }

    /// Whether a sprite is stored under `asset_id`.
    pub fn contains(&self, asset_id: &str) -> (r: bool)
        requires
            self.wf(),
        ensures
            r == self.sprites().contains_key(asset_id@),
    {
        match self.find(asset_id) {
            Some(i) => {
                proof {
                    self.lemma_sprite_at(i as int);
                }
                true
            },
            None => false,
        }
    }

    /// The number of stored sprites.
    pub fn len(&self) -> (n: usize)
        requires
            self.wf(),
        ensures
            n == self.sprites().len(),
    {
        proof {
            self.lemma_sprites_len();
        }
        self.decoded.len()
    }

    /// Whether no sprite is stored.
    pub fn is_empty(&self) -> (r: bool)
        requires
            self.wf(),
        ensures
            r == (self.sprites().len() == 0),
    {
        proof {
            self.lemma_sprites_len();
        }
        self.decoded.len() == 0
    }

    proof fn lemma_sprites_len(&self)
        requires
            self.wf(),
        ensures
            self.sprites().len() == self.decoded@.len(),
            self.sprites().dom().finite(),
    {
        let names = self.decoded@.map_values(|e: (String, DecodedAsset)| e.0@);
        assert forall|i: int, j: int| 0 <= i < j < names.len() implies names[i] != names[j] by {
            assert(self.decoded@[i].0@ != self.decoded@[j].0@);
        }
        assert(names.no_duplicates());
        names.unique_seq_to_set();
        assert(self.sprites().dom() =~= names.to_set()) by {
            assert forall|k: Seq<char>| self.sprites().dom().contains(k) implies names.to_set().contains(k) by {
                let j = choose|j: int| 0 <= j < self.decoded@.len() && #[trigger] self.decoded@[j].0@ == k;
                assert(names[j] == k);
            }
            assert forall|k: Seq<char>| names.to_set().contains(k) implies self.sprites().dom().contains(k) by {
                let j = choose|j: int| 0 <= j < names.len() && names[j] == k;
                assert(self.decoded@[j].0@ == k);
            }
        }
    }
}

/// What feeding one asset frame does to a store: the bytes join those
/// gathered for `(numeric_id, tier)`; a final chunk takes the whole buffer
/// and stores its decoding under the requested name (`#<id>` when the id was
/// never requested), or reports that it does not decode.
pub open spec fn frame_fed(old: AssetStore, new: AssetStore, numeric_id: u32, tier: u8, is_final: bool, bytes: Seq<u8>, r: Result<Option<String>, AssetError>) -> bool {
    let buf = old.pending_for(numeric_id, tier) + bytes;
    let name = if old.requested().contains_key(numeric_id) {
        old.requested()[numeric_id]
    } else {
        synthetic_name(numeric_id)
    };
    &&& new.requested() == old.requested()
    &&& forall|id: u32, t: u8| !(id == numeric_id && t == tier) ==> #[trigger] new.pending_for(id, t) == old.pending_for(id, t)
    &&& if !is_final {
        &&& r matches Ok(None)
        &&& new.pending_for(numeric_id, tier) == buf
        &&& new.sprites() == old.sprites()
    } else {
        &&& new.pending_for(numeric_id, tier) == Seq::<u8>::empty()
        &&& match png_decoding(buf) {
            Some(p) => r matches Ok(Some(s)) && s@ == name && new.sprites() == old.sprites().insert(name, p),
            None => r matches Err(AssetError::Decode { asset_id: s, tier: t }) && s@ == name && t == tier
                && new.sprites() == old.sprites(),
        }
    }
}

/// Chunked delivery reassembles: a non-final chunk followed by the final
/// chunk of the same asset and tier stores the decoding of everything
/// gathered, exactly as one final frame carrying both chunks would.
pub proof fn lemma_chunks_reassemble(
    s0: AssetStore,
    s1: AssetStore,
    s2: AssetStore,
    numeric_id: u32,
    tier: u8,
    first: Seq<u8>,
    last: Seq<u8>,
    r1: Result<Option<String>, AssetError>,
    r2: Result<Option<String>, AssetError>,
)
    requires
        frame_fed(s0, s1, numeric_id, tier, false, first, r1),
        frame_fed(s1, s2, numeric_id, tier, true, last, r2),
    ensures
        frame_fed(s0, s2, numeric_id, tier, true, first + last, r2),
{
    assert(s1.pending_for(numeric_id, tier) + last =~= s0.pending_for(numeric_id, tier) + (first + last));
}

/// An asset frame: numeric id, tier, final flag and payload.
pub type FrameParts = (u32, u8, bool, Seq<u8>);

/// The payloads of `(numeric_id, tier)` among the first `n` frames, in
/// order, joined.
pub open spec fn stream_bytes(frames: Seq<FrameParts>, n: nat, numeric_id: u32, tier: u8) -> Seq<u8>
    decreases n,
{
    if n == 0 {
        Seq::empty()
    } else {
        let f = frames[n - 1];
        let before = stream_bytes(frames, (n - 1) as nat, numeric_id, tier);
        if f.0 == numeric_id && f.1 == tier {
            before + f.3
        } else {
            before
        }
    }
}

/// Feeding the frames one after another takes the store through `states`
/// with the results `rs`.
pub open spec fn fed_in_turn(states: Seq<AssetStore>, frames: Seq<FrameParts>, rs: Seq<Result<Option<String>, AssetError>>) -> bool {
    &&& states.len() == frames.len() + 1
    &&& rs.len() == frames.len()
    &&& forall|i: int|
        0 <= i < frames.len() ==> frame_fed(
            #[trigger] states[i],
            states[i + 1],
            frames[i].0,
            frames[i].1,
            frames[i].2,
            frames[i].3,
            rs[i],
        )
}

proof fn lemma_stream_gathers(
    states: Seq<AssetStore>,
    frames: Seq<FrameParts>,
    rs: Seq<Result<Option<String>, AssetError>>,
    numeric_id: u32,
    tier: u8,
    n: nat,
)
    requires
        fed_in_turn(states, frames, rs),
        n <= frames.len(),
        forall|i: int| 0 <= i < n && (#[trigger] frames[i]).0 == numeric_id && frames[i].1 == tier ==> !frames[i].2,
    ensures
        states[n as int].pending_for(numeric_id, tier) == states[0].pending_for(numeric_id, tier) + stream_bytes(
            frames,
            n,
            numeric_id,
            tier,
        ),
        states[n as int].requested() == states[0].requested(),
    decreases n,
{
    if n > 0 {
        lemma_stream_gathers(states, frames, rs, numeric_id, tier, (n - 1) as nat);
        let i = n - 1;
        assert(frame_fed(states[i], states[i + 1], frames[i].0, frames[i].1, frames[i].2, frames[i].3, rs[i]));
        if frames[i].0 == numeric_id && frames[i].1 == tier {
            assert(states[0].pending_for(numeric_id, tier) + stream_bytes(frames, n, numeric_id, tier) =~= states[0].pending_for(
                numeric_id,
                tier,
            ) + stream_bytes(frames, (n - 1) as nat, numeric_id, tier) + frames[i].3);
        }
    }
}

/// An asset arrives in any number of chunks, split anywhere, with frames of
/// other assets and tiers in between: when its final chunk comes, the bytes
/// its frame decodes (what it had gathered plus the final payload) are
/// exactly all of that asset's payloads in order, and the name it is stored
/// under is the same as at the start; so it stores what one final frame
/// carrying all its bytes would (see [`frame_fed`]), and its buffer is
/// emptied.
pub proof fn lemma_interleaved_chunks_reassemble(
    states: Seq<AssetStore>,
    frames: Seq<FrameParts>,
    rs: Seq<Result<Option<String>, AssetError>>,
)
    requires
        fed_in_turn(states, frames, rs),
        frames.len() > 0,
        frames.last().2,
        forall|i: int|
            0 <= i < frames.len() - 1 && (#[trigger] frames[i]).0 == frames.last().0 && frames[i].1 == frames.last().1
                ==> !frames[i].2,
    ensures
        ({
            let (id, t) = (frames.last().0, frames.last().1);
            &&& states[frames.len() - 1].pending_for(id, t) + frames.last().3 == states[0].pending_for(id, t)
                + stream_bytes(frames, frames.len(), id, t)
            &&& states[frames.len() - 1].requested() == states[0].requested()
            &&& states.last().pending_for(id, t) == Seq::<u8>::empty()
        }),
{
    let n = frames.len();
    let id = frames.last().0;
    let t = frames.last().1;
    lemma_stream_gathers(states, frames, rs, id, t, (n - 1) as nat);
    let i = n - 1;
    assert(frame_fed(states[i], states[i + 1], frames[i].0, frames[i].1, frames[i].2, frames[i].3, rs[i]));
    assert(states[0].pending_for(id, t) + stream_bytes(frames, n, id, t) =~= states[i].pending_for(id, t) + frames[i].3);
}

/// A sprite requested by name is stored under that name: after
/// `register_request` records `name` for `numeric_id`, the final frame of
/// that id stores the decoded sprite under `name` (not `#<id>`) and returns
/// `name`.
pub proof fn lemma_registered_name(
    s0: AssetStore,
    s1: AssetStore,
    s2: AssetStore,
    name: Seq<char>,
    numeric_id: u32,
    tier: u8,
    bytes: Seq<u8>,
    r: Result<Option<String>, AssetError>,
)
    requires
        s1.requested() == s0.requested().insert(numeric_id, name),
        frame_fed(s1, s2, numeric_id, tier, true, bytes, r),
        png_decoding(s1.pending_for(numeric_id, tier) + bytes) is Some,
    ensures
        r matches Ok(Some(stored)) && stored@ == name,
        s2.sprites() == s1.sprites().insert(name, png_decoding(s1.pending_for(numeric_id, tier) + bytes)->0),
{
}

/// Frames of different tiers of one asset gather independently: feeding a
/// chunk of `tier` leaves the bytes gathered for any other tier as they were.
pub proof fn lemma_tiers_independent(
    s0: AssetStore,
    s1: AssetStore,
    numeric_id: u32,
    tier: u8,
    other: u8,
    is_final: bool,
    bytes: Seq<u8>,
    r: Result<Option<String>, AssetError>,
)
    requires
        frame_fed(s0, s1, numeric_id, tier, is_final, bytes, r),
        other != tier,
    ensures
        s1.pending_for(numeric_id, other) == s0.pending_for(numeric_id, other),
{
}

} // verus!
