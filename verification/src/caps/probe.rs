//! What the terminal's replies to the capability probes reveal.

use vstd::prelude::*;

use crate::text::{find_subslice, occurs_at};
use vte::{Params, Parser, Perform};

verus! {

/// What the terminal's replies revealed.
#[derive(Debug, Clone, Copy)]
pub struct ProbeResult {
    pub has_sixel: bool,
    pub has_kitty: bool,
    pub has_iterm2: bool,
    /// Cell size in pixels: (width, height).
    pub cell_px: Option<(u16, u16)>,
}

impl Default for ProbeResult {
    fn default() -> (r: Self)
        ensures
            !r.has_sixel && !r.has_kitty && !r.has_iterm2 && r.cell_px is None,
    {
        ProbeResult { has_sixel: false, has_kitty: false, has_iterm2: false, cell_px: None }
    }
}

/// Index of the first string terminator (ESC `\`) starting at or after `j`.
pub open spec fn find_st(b: Seq<u8>, j: int) -> Option<int>
    decreases b.len() - j,
{
    if j < 0 || j + 1 >= b.len() {
        None
    } else if b[j] == 0x1b && b[j + 1] == 0x5c {
        Some(j)
    } else {
        find_st(b, j + 1)
    }
}

/// The two bytes `OK` stand at `k` and `k + 1`.
pub open spec fn ok_at(body: Seq<u8>, k: int) -> bool {
    0 <= k && k + 1 < body.len() && body[k] == 0x4f && body[k + 1] == 0x4b
}

/// Whether `body` holds the two bytes `OK` next to each other.
pub open spec fn has_ok(body: Seq<u8>) -> bool {
    exists|k: int| #[trigger] ok_at(body, k)
}

/// An APC body that is a Kitty graphics reply (`G…`) reporting `OK`.
pub open spec fn kitty_body_ok(body: Seq<u8>) -> bool {
    body.len() > 0 && body[0] == 0x47 && has_ok(body)
}

/// Scanning from `i`, some APC string (ESC `_` … ESC `\`) is a Kitty graphics
/// reply (body starting with `G`) that reports `OK`. Scanning stops at an APC
/// string that is never terminated.
pub open spec fn kitty_ok_from(b: Seq<u8>, i: int) -> bool
    decreases b.len() - i,
{
    if i < 0 || i + 1 >= b.len() {
        false
    } else if b[i] == 0x1b && b[i + 1] == 0x5f {
        match find_st(b, i + 2) {
            None => false,
            Some(j) => {
                if i + 2 <= j && kitty_body_ok(b.subrange(i + 2, j)) {
                    true
                } else if i < j {
                    proof {
                        lemma_find_st_range(b, i + 2);
                    }
                    kitty_ok_from(b, j + 2)
                } else {
                    false
                }
            },
        }
    } else {
        kitty_ok_from(b, i + 1)
    }
}

/// A string terminator found from `j` lies at or after `j`, inside the bytes.
pub proof fn lemma_find_st_range(b: Seq<u8>, j: int)
    ensures
        find_st(b, j) matches Some(p) ==> j <= p && p + 1 < b.len() && b[p] == 0x1b && b[p + 1] == 0x5c,
    decreases b.len() - j,
{
    if !(j < 0 || j + 1 >= b.len()) && !(b[j] == 0x1b && b[j + 1] == 0x5c) {
        lemma_find_st_range(b, j + 1);
    }
}

/// The first string terminator at or after `from`.
fn find_st_at(b: &[u8], from: usize) -> (r: Option<usize>)
    ensures
        match find_st(b@, from as int) {
            Some(p) => r == Some(p as usize),
            None => r is None,
        },
{
    let n = b.len();
    let mut j = from;
    while j < n && n - j > 1
        invariant
            n == b@.len(),
            from <= j,
            find_st(b@, from as int) == find_st(b@, j as int),
        decreases n - j,
    {
        if b[j] == 0x1b && b[j + 1] == 0x5c {
            return Some(j);
        }
        j = j + 1;
    }
    None
}

/// Whether `b[start..end]` is a Kitty graphics body reporting `OK`.
fn body_ok_at(b: &[u8], start: usize, end: usize) -> (r: bool)
    requires
        start <= end <= b@.len(),
    ensures
        r == kitty_body_ok(b@.subrange(start as int, end as int)),
{
    let ghost body = b@.subrange(start as int, end as int);
    if start == end || b[start] != 0x47 {
        return false;
    }
    let mut k: usize = start;
    while k < end && end - k > 1
        invariant
            start <= k <= end,
            end <= b@.len(),
            body == b@.subrange(start as int, end as int),
            body.len() > 0 && body[0] == 0x47,
            forall|m: int| 0 <= m < k - start ==> !#[trigger] ok_at(body, m),
        decreases end - k,
    {
        if b[k] == 0x4f && b[k + 1] == 0x4b {
            assert(ok_at(body, k - start));
            return true;
        }
        k = k + 1;
    }
    assert(!has_ok(body)) by {
        if has_ok(body) {
            let q = choose|q: int| ok_at(body, q);
            assert(q < k - start);
        }
    }
    false
}

/// Whether the bytes hold a Kitty graphics `OK` reply: `ESC _ G … OK … ESC \`.
pub fn scan_kitty_ok(bytes: &[u8]) -> (r: bool)
    ensures
        r == kitty_ok_from(bytes@, 0),
{
    let n = bytes.len();
    let mut i: usize = 0;
    while i < n && n - i > 1
        invariant
            n == bytes@.len(),
            i <= n,
            kitty_ok_from(bytes@, 0) == kitty_ok_from(bytes@, i as int),
        decreases n - i,
    {
        if bytes[i] == 0x1b && bytes[i + 1] == 0x5f {
            match find_st_at(bytes, i + 2) {
                None => {
                    return false;
                },
                Some(j) => {
                    proof {
                        lemma_find_st_range(bytes@, i + 2);
                    }
                    if body_ok_at(bytes, i + 2, j) {
                        return true;
                    }
                    i = j + 2;
                },
            }
        } else {
            i = i + 1;
        }
    }
    false
}

/// All parameter values of a control sequence in order, sub-parameters
/// included.
pub open spec fn flat_params(p: Seq<Seq<u16>>) -> Seq<u16>
    decreases p.len(),
{
    if p.len() == 0 {
        Seq::empty()
    } else {
        flat_params(p.drop_last()) + p.last()
    }
}

/// The parameter lists of a control sequence, each taken by its view.
pub open spec fn rows16(p: Seq<Vec<u16>>) -> Seq<Seq<u16>> {
    p.map_values(|v: Vec<u16>| v@)
}

/// Byte strings, each taken by its view.
pub open spec fn rows8(p: Seq<Vec<u8>>) -> Seq<Seq<u8>> {
    p.map_values(|v: Vec<u8>| v@)
}

/// The `k`-th parameter value, zero when there are fewer.
pub open spec fn param_or_zero(f: Seq<u16>, k: int) -> u16 {
    if 0 <= k < f.len() {
        f[k]
    } else {
        0
    }
}

/// What a CSI reply adds to the probe result: a DA1 reply (`ESC [ ? … c`)
/// that lists parameter 4 announces Sixel; a `CSI 4 ; h ; w t` reply with
/// both sizes positive gives the cell size as (w, h).
pub open spec fn csi_effect(r: ProbeResult, params: Seq<Seq<u16>>, intermediates: Seq<u8>, action: char) -> ProbeResult {
    let f = flat_params(params);
    let sixel = action == 'c' && intermediates == seq![0x3fu8] && f.contains(4u16);
    let h = param_or_zero(f, 1);
    let w = param_or_zero(f, 2);
    let size = action == 't' && param_or_zero(f, 0) == 4 && w > 0 && h > 0;
    ProbeResult {
        has_sixel: r.has_sixel || sixel,
        has_kitty: r.has_kitty,
        has_iterm2: r.has_iterm2,
        cell_px: if size { Some((w, h)) } else { r.cell_px },
    }
}

fn flatten_params(params: &Vec<Vec<u16>>) -> (f: Vec<u16>)
    ensures
        f@ == flat_params(rows16(params@)),
{
    let mut f: Vec<u16> = Vec::new();
    let mut i: usize = 0;
    while i < params.len()
        invariant
            i <= params@.len(),
            f@ == flat_params(rows16(params@).take(i as int)),
        decreases params@.len() - i,
    {
        let p = &params[i];
        let mut j: usize = 0;
        while j < p.len()
            invariant
                j <= p@.len(),
                i < params@.len(),
                p == params@[i as int],
                f@ == flat_params(rows16(params@).take(i as int)) + p@.take(j as int),
            decreases p@.len() - j,
        {
            f.push(p[j]);
            j = j + 1;
            assert(p@.take(j as int) =~= p@.take(j - 1).push(p@[j - 1]));
        }
        assert(p@.take(j as int) =~= p@);
        assert(rows16(params@).take(i + 1).drop_last() =~= rows16(params@).take(i as int));
        assert(rows16(params@).take(i + 1).last() == p@);
        i = i + 1;
    }
    assert(rows16(params@).take(i as int) =~= rows16(params@));
    f
}

fn contains_four(f: &Vec<u16>) -> (r: bool)
    ensures
        r == f@.contains(4u16),
{
    let mut k: usize = 0;
    while k < f.len()
        invariant
            k <= f@.len(),
            forall|m: int| 0 <= m < k ==> f@[m] != 4,
        decreases f@.len() - k,
    {
        if f[k] == 4 {
            assert(f@[k as int] == 4u16);
            return true;
        }
        k = k + 1;
    }
    false
}

/// Record what a CSI reply (`ESC [ intermediates params action`) reveals.
pub fn csi_reply(result: &mut ProbeResult, params: &Vec<Vec<u16>>, intermediates: &[u8], action: char)
    ensures
        *final(result) == csi_effect(*old(result), rows16(params@), intermediates@, action),
{
    let f = flatten_params(params);
    let da1 = action == 'c' && intermediates.len() == 1 && intermediates[0] == 0x3f;
    proof {
        if intermediates@.len() == 1 && intermediates@[0] == 0x3f {
            assert(intermediates@ =~= seq![0x3fu8]);
        }
    }
    if da1 && contains_four(&f) {
        result.has_sixel = true;
    }
    if action == 't' {
        let first: u16 = if f.len() > 0 { f[0] } else { 0 };
        if first == 4 {
            let h: u16 = if f.len() > 1 { f[1] } else { 0 };
            let w: u16 = if f.len() > 2 { f[2] } else { 0 };
            if w > 0 && h > 0 {
                result.cell_px = Some((w, h));
            }
        }
    }
}

/// `1337`, the OSC number of iTerm2's proprietary sequences.
pub open spec fn osc_iterm2_number() -> Seq<u8> {
    seq![0x31u8, 0x33, 0x33, 0x37]
}

/// `CellSize=`, the start of iTerm2's cell size report.
pub open spec fn cell_size_tag() -> Seq<u8> {
    seq![0x43u8, 0x65, 0x6c, 0x6c, 0x53, 0x69, 0x7a, 0x65, 0x3d]
}

/// `iTerm2`.
pub open spec fn iterm2_name() -> Seq<u8> {
    seq![0x69u8, 0x54, 0x65, 0x72, 0x6d, 0x32]
}

/// An OSC reply comes from iTerm2: its first parameter is `1337` and its
/// second begins with `CellSize=` or names `iTerm2` somewhere.
pub open spec fn osc_from_iterm2(params: Seq<Seq<u8>>) -> bool {
    params.len() >= 2 && params[0] == osc_iterm2_number() && (
        occurs_at(params[1], cell_size_tag(), 0)
        || exists|k: int| #[trigger] occurs_at(params[1], iterm2_name(), k))
}

/// Whether an OSC reply (its `;`-separated parameters) comes from iTerm2.
pub fn osc_reply_is_iterm2(params: &Vec<Vec<u8>>) -> (r: bool)
    ensures
        r == osc_from_iterm2(rows8(params@)),
{
    if params.len() < 2 {
        return false;
    }
    let number: Vec<u8> = vec![0x31u8, 0x33, 0x33, 0x37];
    let p0 = params[0].as_slice();
    if !crate::text::bytes_eq(p0, number.as_slice()) {
        assert(number@ =~= osc_iterm2_number());
        return false;
    }
    assert(number@ =~= osc_iterm2_number());
    let body = params[1].as_slice();
    let tag: Vec<u8> = vec![0x43u8, 0x65, 0x6c, 0x6c, 0x53, 0x69, 0x7a, 0x65, 0x3d];
    let name: Vec<u8> = vec![0x69u8, 0x54, 0x65, 0x72, 0x6d, 0x32];
    assert(tag@ =~= cell_size_tag());
    assert(name@ =~= iterm2_name());
    let starts = match find_subslice(body, tag.as_slice()) {
        Some(k) => k == 0,
        None => false,
    };
    let named = find_subslice(body, name.as_slice()).is_some();
    starts || named
}

/// The probe result before any reply has been read.
pub open spec fn no_caps() -> ProbeResult {
    ProbeResult { has_sixel: false, has_kitty: false, has_iterm2: false, cell_px: None }
}

/// The first index at or after `i` at which `s` holds the byte `b`.
pub open spec fn first_index_from(s: Seq<u8>, b: u8, i: int) -> Option<int>
    decreases s.len() - i,
{
    if i < 0 || i >= s.len() {
        None
    } else if s[i] == b {
        Some(i)
    } else {
        first_index_from(s, b, i + 1)
    }
}

/// A found index lies at or after `i` and holds `b`.
pub proof fn lemma_first_index_range(s: Seq<u8>, b: u8, i: int)
    ensures
        first_index_from(s, b, i) matches Some(p) ==> i <= p < s.len() && s[p] == b,
    decreases s.len() - i,
{
    if !(i < 0 || i >= s.len()) && s[i] != b {
        lemma_first_index_range(s, b, i + 1);
    }
}

/// The text of an iTerm2 cell size report, an OSC `1337 ; CellSize=<h>x<w>`
/// reply, split at the first `x` after the tag: (height text, width text).
/// `None` for any other OSC reply, or a report without an `x`.
pub open spec fn cell_size_text(params: Seq<Seq<u8>>) -> Option<(Seq<u8>, Seq<u8>)> {
    if params.len() >= 2 && params[0] == osc_iterm2_number() && occurs_at(params[1], cell_size_tag(), 0) {
        let rest = params[1].skip(9);
        match first_index_from(rest, 0x78, 0) {
            Some(x) => Some((rest.take(x), rest.skip(x + 1))),
            None => None,
        }
    } else {
        None
    }
}

/// What an OSC reply adds to the probe result: iTerm2's replies set
/// `has_iterm2`; a cell size report whose size `cell` (width, height) was read
/// from its text gives the cell size when both are positive.
pub open spec fn osc_effect(r: ProbeResult, params: Seq<Seq<u8>>, cell: Option<(u16, u16)>) -> ProbeResult {
    let sized = cell_size_text(params) is Some && (cell matches Some(c) && c.0 > 0 && c.1 > 0);
    ProbeResult {
        has_sixel: r.has_sixel,
        has_kitty: r.has_kitty,
        has_iterm2: r.has_iterm2 || osc_from_iterm2(params),
        cell_px: if sized { cell } else { r.cell_px },
    }
}

/// A control sequence of the terminal's replies, as the VT parser dispatched
/// it: a CSI sequence (parameter lists, intermediate bytes, final character)
/// or an OSC string (its `;`-separated parameters).
#[derive(Debug)]
pub enum ReplyEvent {
    Csi { params: Vec<Vec<u16>>, intermediates: Vec<u8>, action: char },
    Osc { params: Vec<Vec<u8>> },
}

/// A [`ReplyEvent`] as plain sequences.
pub enum ReplyEventView {
    Csi { params: Seq<Seq<u16>>, intermediates: Seq<u8>, action: char },
    Osc { params: Seq<Seq<u8>> },
}

impl View for ReplyEvent {
    type V = ReplyEventView;

    open spec fn view(&self) -> ReplyEventView {
        match self {
            ReplyEvent::Csi { params, intermediates, action } => ReplyEventView::Csi {
                params: rows16(params@),
                intermediates: intermediates@,
                action: *action,
            },
            ReplyEvent::Osc { params } => ReplyEventView::Osc { params: rows8(params@) },
        }
    }
}

/// Reply events, each taken by its view.
pub open spec fn events_view(e: Seq<ReplyEvent>) -> Seq<ReplyEventView> {
    e.map_values(|x: ReplyEvent| x@)
}

/// The cell size report text an event carries, if any.
pub open spec fn event_report(e: ReplyEventView) -> Option<(Seq<u8>, Seq<u8>)> {
    match e {
        ReplyEventView::Osc { params } => cell_size_text(params),
        ReplyEventView::Csi { .. } => None,
    }
}

/// What one reply event adds to the probe result, `cell` being the size read
/// from its cell size report.
pub open spec fn event_effect(r: ProbeResult, e: ReplyEventView, cell: Option<(u16, u16)>) -> ProbeResult {
    match e {
        ReplyEventView::Csi { params, intermediates, action } => csi_effect(r, params, intermediates, action),
        ReplyEventView::Osc { params } => osc_effect(r, params, cell),
    }
}

/// The `i`-th read cell size, `None` past the end.
pub open spec fn cell_for(cells: Seq<Option<(u16, u16)>>, i: int) -> Option<(u16, u16)> {
    if 0 <= i < cells.len() {
        cells[i]
    } else {
        None
    }
}

/// The probe result after the events in order, the `i`-th event read with
/// the `i`-th cell size.
pub open spec fn fold_events(evs: Seq<ReplyEventView>, cells: Seq<Option<(u16, u16)>>) -> ProbeResult
    decreases evs.len(),
{
    if evs.len() == 0 {
        no_caps()
    } else {
        event_effect(fold_events(evs.drop_last(), cells), evs.last(), cell_for(cells, evs.len() - 1))
    }
}

/// What the replies reveal: the CSI and OSC events folded in order, and a
/// Kitty graphics `OK` reply found in the raw bytes (the VT parser drops the
/// body of APC strings).
pub open spec fn probe_outcome(evs: Seq<ReplyEventView>, cells: Seq<Option<(u16, u16)>>, bytes: Seq<u8>) -> ProbeResult {
    let r = fold_events(evs, cells);
    ProbeResult {
        has_sixel: r.has_sixel,
        has_kitty: kitty_ok_from(bytes, 0),
        has_iterm2: r.has_iterm2,
        cell_px: r.cell_px,
    }
}

/// The CSI and OSC sequences that `vte::Parser::advance` dispatches for the
/// bytes, in order, each as a [`ReplyEventView`].
pub uninterp spec fn vte_dispatches(bytes: Seq<u8>) -> Seq<ReplyEventView>;

/// Makes `vte::Params` usable in the parser callbacks' signatures.
#[verifier::external_type_specification]
#[verifier::external_body]
pub struct ExParams(Params);

/// Records what the VT parser dispatches.
struct EventLog {
    events: Vec<ReplyEvent>,
}

impl Perform for EventLog {
    /// Called by `vte::Parser::advance` for each complete CSI sequence:
    /// records its parameter lists (sub-parameters kept apart),
    /// intermediate bytes and final character. Nothing is claimed of it.
    #[verifier::external_body]
    fn csi_dispatch(&mut self, params: &Params, intermediates: &[u8], _ignore: bool, action: char) {
        let params: Vec<Vec<u16>> = params.iter().map(|p| p.to_vec()).collect();
        self.events.push(ReplyEvent::Csi { params, intermediates: intermediates.to_vec(), action });
    }

    /// Called by `vte::Parser::advance` for each complete OSC string:
    /// records its `;`-separated parameters. Nothing is claimed of it.
    #[verifier::external_body]
    fn osc_dispatch(&mut self, params: &[&[u8]], _bell_terminated: bool) {
        let params: Vec<Vec<u8>> = params.iter().map(|p| p.to_vec()).collect();
        self.events.push(ReplyEvent::Osc { params });
    }
}

/// Runs `vte::Parser::advance` over the bytes and records each CSI and OSC
/// dispatch, in order, copying its parameters, intermediates and final
/// character. Claimed: the recorded events are [`vte_dispatches`] of the
/// bytes, a function of the bytes alone (the parser starts fresh).
#[verifier::external_body]
fn vte_events(bytes: &[u8]) -> (r: Vec<ReplyEvent>)
    ensures
        events_view(r@) == vte_dispatches(bytes@),
{
    let mut log = EventLog { events: Vec::new() };
    Parser::new().advance(&mut log, bytes);
    log.events
}

/// The first index at which `s` holds the byte `b`.
fn first_index_of(s: &[u8], b: u8) -> (r: Option<usize>)
    ensures
        match first_index_from(s@, b, 0) {
            Some(p) => r == Some(p as usize),
            None => r is None,
        },
{
    let n = s.len();
    let mut i: usize = 0;
    while i < n
        invariant
            n == s@.len(),
            i <= n,
            first_index_from(s@, b, 0) == first_index_from(s@, b, i as int),
        decreases n - i,
    {
        if s[i] == b {
            return Some(i);
        }
        i = i + 1;
    }
    None
}

/// The text of a cell size report, split into (height text, width text).
fn cell_size_split(params: &Vec<Vec<u8>>) -> (r: Option<(Vec<u8>, Vec<u8>)>)
    ensures
        report_view(r) == cell_size_text(rows8(params@)),
{
    let ghost ps = rows8(params@);
    if params.len() < 2 {
        return None;
    }
    let number: Vec<u8> = vec![0x31u8, 0x33, 0x33, 0x37];
    assert(number@ =~= osc_iterm2_number());
    if !crate::text::bytes_eq(params[0].as_slice(), number.as_slice()) {
        return None;
    }
    let body = params[1].as_slice();
    assert(body@ == ps[1]);
    let tag: Vec<u8> = vec![0x43u8, 0x65, 0x6c, 0x6c, 0x53, 0x69, 0x7a, 0x65, 0x3d];
    assert(tag@ =~= cell_size_tag());
    let tagged = match find_subslice(body, tag.as_slice()) {
        Some(k) => k == 0,
        None => false,
    };
    if !tagged {
        return None;
    }
    let mut rest: Vec<u8> = Vec::new();
    crate::text::append_range(&mut rest, body, 9, body.len());
    assert(rest@ =~= ps[1].skip(9));
    match first_index_of(rest.as_slice(), 0x78) {
        None => None,
        Some(x) => {
            proof {
                lemma_first_index_range(rest@, 0x78, 0);
            }
            let mut h: Vec<u8> = Vec::new();
            crate::text::append_range(&mut h, rest.as_slice(), 0, x);
            let mut w: Vec<u8> = Vec::new();
            crate::text::append_range(&mut w, rest.as_slice(), x + 1, rest.len());
            assert(h@ =~= rest@.take(x as int));
            assert(w@ =~= rest@.skip(x + 1));
            Some((h, w))
        },
    }
}

/// A report's texts as plain sequences.
pub open spec fn report_view(o: Option<(Vec<u8>, Vec<u8>)>) -> Option<(Seq<u8>, Seq<u8>)> {
    match o {
        Some((h, w)) => Some((h@, w@)),
        None => None,
    }
}

/// Record what an OSC reply reveals, `cell` being the (width, height) read
/// from its cell size report.
pub fn osc_reply(result: &mut ProbeResult, params: &Vec<Vec<u8>>, cell: Option<(u16, u16)>)
    ensures
        *final(result) == osc_effect(*old(result), rows8(params@), cell),
{
    if osc_reply_is_iterm2(params) {
        result.has_iterm2 = true;
    }
    if cell_size_split(params).is_some() {
        if let Some((w, h)) = cell {
            if w > 0 && h > 0 {
                result.cell_px = Some((w, h));
            }
        }
    }
}

/// Fold the reply events in order into a probe result; the `i`-th entry of
/// `osc_cells` is the (width, height) read from the `i`-th event's cell size
/// report. A Kitty graphics `OK` reply is looked for in the raw bytes.
pub fn probe_from_events(events: &[ReplyEvent], osc_cells: &[Option<(u16, u16)>], bytes: &[u8]) -> (r: ProbeResult)
    ensures
        r == probe_outcome(events_view(events@), osc_cells@, bytes@),
{
    let ghost evs = events_view(events@);
    let mut result = ProbeResult { has_sixel: false, has_kitty: false, has_iterm2: false, cell_px: None };
    let mut i: usize = 0;
    while i < events.len()
        invariant
            i <= events@.len(),
            evs == events_view(events@),
            result == fold_events(evs.take(i as int), osc_cells@),
        decreases events@.len() - i,
    {
        let cell: Option<(u16, u16)> = if i < osc_cells.len() { osc_cells[i] } else { None };
        match &events[i] {
            ReplyEvent::Csi { params, intermediates, action } => {
                csi_reply(&mut result, params, intermediates.as_slice(), *action);
            },
            ReplyEvent::Osc { params } => {
                osc_reply(&mut result, params, cell);
            },
        }
        assert(evs.take(i + 1).drop_last() =~= evs.take(i as int));
        assert(evs.take(i + 1).last() == events@[i as int]@);
        i = i + 1;
    }
    assert(evs.take(i as int) =~= evs);
    result.has_kitty = scan_kitty_ok(bytes);
    result
}

/// Parse raw terminal reply bytes into a probe result. The `i`-th entry of
/// `osc_cells` is the (width, height) read from the text of the `i`-th
/// dispatched sequence, when that is a cell size report (see
/// [`cell_size_reports`]).
pub fn parse_replies(bytes: &[u8], osc_cells: &[Option<(u16, u16)>]) -> (r: ProbeResult)
    ensures
        r == probe_outcome(vte_dispatches(bytes@), osc_cells@, bytes@),
{
    let events = vte_events(bytes);
    probe_from_events(events.as_slice(), osc_cells, bytes)
}

/// For each reply event, the text of its cell size report, if it is one.
pub fn cell_size_reports_in(events: &[ReplyEvent]) -> (r: Vec<Option<(Vec<u8>, Vec<u8>)>>)
    ensures
        r@.len() == events@.len(),
        forall|i: int| 0 <= i < events@.len() ==> report_view(#[trigger] r@[i]) == event_report(events@[i]@),
{
    let mut out: Vec<Option<(Vec<u8>, Vec<u8>)>> = Vec::new();
    let mut i: usize = 0;
    while i < events.len()
        invariant
            i <= events@.len(),
            out@.len() == i,
            forall|k: int| 0 <= k < i ==> report_view(#[trigger] out@[k]) == event_report(events@[k]@),
        decreases events@.len() - i,
    {
        let rep = match &events[i] {
            ReplyEvent::Csi { .. } => None,
            ReplyEvent::Osc { params } => cell_size_split(params),
        };
        out.push(rep);
        i = i + 1;
    }
    out
}

/// For each sequence the VT parser dispatches for the reply bytes, the text
/// of its cell size report, if it is one: (height text, width text).
pub fn cell_size_reports(bytes: &[u8]) -> (r: Vec<Option<(Vec<u8>, Vec<u8>)>>)
    ensures
        r@.len() == vte_dispatches(bytes@).len(),
        forall|i: int| 0 <= i < r@.len() ==> report_view(#[trigger] r@[i]) == event_report(vte_dispatches(bytes@)[i]),
{
    let events = vte_events(bytes);
    cell_size_reports_in(events.as_slice())
}

} // verus!
