//! Bytes sent to an agent's terminal: key presses, pasted text (bracketed
//! when the program asked for it, with embedded end markers removed) and
//! mouse reports in the encoding the program asked for; and the mouse modes a
//! program requests through its output.

use vstd::prelude::*;
use vstd::string::*;

use vstd::utf8::encode_scalar;

use crate::keys::{
    has_mods, KeyCode, KeyMods, MouseButton, MouseEvent, MouseEventKind, MOD_ALT, MOD_CONTROL,
    MOD_SHIFT,
};
use crate::text::{
    append_bytes, append_range, contains_bytes, decimal, find_subslice_from, occurs_at, push_decimal,
    push_utf8,
};

verus! {

/// `ESC [ 200 ~`, the start of a bracketed paste.
pub open spec fn paste_start() -> Seq<u8> {
    seq![0x1bu8, 0x5b, 0x32, 0x30, 0x30, 0x7e]
}

/// `ESC [ 201 ~`, the end of a bracketed paste.
pub open spec fn paste_end() -> Seq<u8> {
    seq![0x1bu8, 0x5b, 0x32, 0x30, 0x31, 0x7e]
}

/// The bytes from `p` on with every end marker removed, scanning left to
/// right.
pub open spec fn strip_from(b: Seq<u8>, p: int) -> Seq<u8>
    decreases b.len() - p,
{
    if p < 0 || p >= b.len() {
        Seq::empty()
    } else if occurs_at(b, paste_end(), p) {
        strip_from(b, p + 6)
    } else {
        seq![b[p]] + strip_from(b, p + 1)
    }
}

proof fn lemma_strip_no_marker(b: Seq<u8>, p: int)
    requires
        0 <= p <= b.len(),
        forall|j: int| p <= j ==> !#[trigger] occurs_at(b, paste_end(), j),
    ensures
        strip_from(b, p) == b.skip(p),
    decreases b.len() - p,
{
    if p < b.len() {
        lemma_strip_no_marker(b, p + 1);
        assert(b.skip(p) =~= seq![b[p]] + b.skip(p + 1));
    } else {
        assert(b.skip(p) =~= Seq::<u8>::empty());
    }
}

proof fn lemma_strip_until_marker(b: Seq<u8>, p: int, k: int)
    requires
        0 <= p <= k,
        occurs_at(b, paste_end(), k),
        forall|j: int| p <= j < k ==> !#[trigger] occurs_at(b, paste_end(), j),
    ensures
        strip_from(b, p) == b.subrange(p, k) + strip_from(b, k + 6),
    decreases k - p,
{
    if p < k {
        lemma_strip_until_marker(b, p + 1, k);
        assert(b.subrange(p, k) =~= seq![b[p]] + b.subrange(p + 1, k));
    } else {
        assert(b.subrange(p, k) =~= Seq::<u8>::empty());
    }
}

/// Without an end marker, stripping changes nothing; with one, it removes
/// at least the marker's six bytes.
pub proof fn lemma_strip_len(b: Seq<u8>, p: int)
    requires
        0 <= p <= b.len(),
    ensures
        strip_from(b, p).len() <= b.len() - p,
        (exists|k: int| p <= k && #[trigger] occurs_at(b, paste_end(), k)) ==> strip_from(b, p).len() < b.len() - p,
    decreases b.len() - p,
{
    if p < b.len() {
        if occurs_at(b, paste_end(), p) {
            lemma_strip_len(b, p + 6);
        } else {
            lemma_strip_len(b, p + 1);
            if exists|k: int| p <= k && #[trigger] occurs_at(b, paste_end(), k) {
                let k = choose|k: int| p <= k && #[trigger] occurs_at(b, paste_end(), k);
                assert(p + 1 <= k);
            }
        }
    }
}

/// The bytes with end markers removed again and again until none is left:
/// removing one can join its neighbours into a new one.
pub open spec fn strip_all(b: Seq<u8>) -> Seq<u8>
    decreases b.len(),
{
    if seen(b, paste_end()) {
        proof {
            let k = choose|k: int| occurs_at(b, paste_end(), k);
            assert(0 <= k && occurs_at(b, paste_end(), k));
            lemma_strip_len(b, 0);
        }
        strip_all(strip_from(b, 0))
    } else {
        b
    }
}

/// What is left after stripping holds no end marker.
proof fn lemma_strip_all_clean(b: Seq<u8>)
    ensures
        !seen(strip_all(b), paste_end()),
    decreases b.len(),
{
    if seen(b, paste_end()) {
        let k = choose|k: int| occurs_at(b, paste_end(), k);
        assert(0 <= k && occurs_at(b, paste_end(), k));
        lemma_strip_len(b, 0);
        lemma_strip_all_clean(strip_from(b, 0));
    }
}

/// One left-to-right pass removing every end marker present.
fn strip_pass(raw: &[u8]) -> (out: Vec<u8>)
    ensures
        out@ == strip_from(raw@, 0),
{
    let end: Vec<u8> = vec![0x1bu8, 0x5b, 0x32, 0x30, 0x31, 0x7e];
    assert(end@ =~= paste_end());
    let mut out: Vec<u8> = Vec::new();
    let n = raw.len();
    let mut pos: usize = 0;
    loop
        invariant_except_break
            out@ + strip_from(raw@, pos as int) == strip_from(raw@, 0),
        invariant
            n == raw@.len(),
            pos <= n,
            end@ == paste_end(),
        ensures
            out@ == strip_from(raw@, 0),
        decreases n - pos,
    {
        match find_subslice_from(raw, end.as_slice(), pos) {
            Some(k) => {
                proof {
                    lemma_strip_until_marker(raw@, pos as int, k as int);
                }
                append_range(&mut out, raw, pos, k);
                pos = k + 6;
                assert(out@ + strip_from(raw@, pos as int) == strip_from(raw@, 0));
            },
            None => {
                proof {
                    lemma_strip_no_marker(raw@, pos as int);
                }
                append_range(&mut out, raw, pos, n);
                assert(raw@.subrange(pos as int, n as int) =~= raw@.skip(pos as int));
                break;
            },
        }
    }
    out
}

/// In `start + m + end`, where `m` holds no end marker, the only end marker
/// is the closing one.
proof fn lemma_one_end_marker(m: Seq<u8>)
    requires
        !seen(m, paste_end()),
    ensures
        forall|k: int|
            #[trigger] occurs_at(paste_start() + m + paste_end(), paste_end(), k) <==> k == m.len() + 6,
{
    let out = paste_start() + m + paste_end();
    let e = paste_end();
    let n = m.len() as int;
    assert(out.len() == n + 12);
    assert(out.subrange(n + 6, n + 12) =~= e);
    assert forall|k: int| #[trigger] occurs_at(out, e, k) implies k == n + 6 by {
        lemma_marker_at(m, k);
    }
}

/// An end marker at `k` in `start + m + end` is the closing one.
#[verifier::spinoff_prover]
proof fn lemma_marker_at(m: Seq<u8>, k: int)
    requires
        !seen(m, paste_end()),
        occurs_at(paste_start() + m + paste_end(), paste_end(), k),
    ensures
        k == m.len() + 6,
{
    let out = paste_start() + m + paste_end();
    let e = paste_end();
    let n = m.len() as int;
    let w = out.subrange(k, k + 6);
    assert(w == e);
    assert(w[0] == out[k]);
    if k < 6 {
        assert(out[k] == paste_start()[k]);
        assert(w[4] == out[k + 4]);
        if k == 0 {
            assert(out[4] == 0x30u8);
        }
    } else if k + 6 <= n + 6 {
        assert forall|j: int| 0 <= j < 6 implies m.subrange(k - 6, k)[j] == e[j] by {
            assert(w[j] == out[k + j]);
            assert(out[k + j] == m[k - 6 + j]);
        }
        assert(m.subrange(k - 6, k) =~= e);
        assert(occurs_at(m, e, k - 6));
    } else if k < n + 6 {
        let j = n + 6 - k;
        assert(w[j] == out[n + 6]);
        assert(out[n + 6] == e[0]);
    }
}

/// Encode pasted text for the agent's terminal: verbatim, or when
/// `bracketed` wrapped in the paste markers with the end markers stripped
/// until none is left, so the paste cannot close the bracket early: the
/// output's only end marker is the closing one.
pub fn encode_paste(text: &str, bracketed: bool) -> (out: Vec<u8>)
    ensures
        !bracketed ==> out@ == text.spec_bytes(),
        bracketed ==> out@ == paste_start() + strip_all(text.spec_bytes()) + paste_end(),
        bracketed ==> forall|k: int| #[trigger] occurs_at(out@, paste_end(), k) <==> k == out@.len() - 6,
{
    let raw = text.as_bytes();
    let mut out: Vec<u8> = Vec::new();
    if !bracketed {
        append_bytes(&mut out, raw);
        return out;
    }
    let end: Vec<u8> = vec![0x1bu8, 0x5b, 0x32, 0x30, 0x31, 0x7e];
    assert(end@ =~= paste_end());
    let mut body: Vec<u8> = Vec::new();
    append_bytes(&mut body, raw);
    while contains_bytes(body.as_slice(), end.as_slice())
        invariant
            end@ == paste_end(),
            strip_all(body@) == strip_all(raw@),
        decreases body@.len(),
    {
        proof {
            let k = choose|k: int| occurs_at(body@, paste_end(), k);
            assert(0 <= k && occurs_at(body@, paste_end(), k));
            lemma_strip_len(body@, 0);
        }
        body = strip_pass(body.as_slice());
    }
    proof {
        lemma_strip_all_clean(raw@);
        lemma_one_end_marker(body@);
    }
    out.push(0x1b);
    out.push(0x5b);
    out.push(0x32);
    out.push(0x30);
    out.push(0x30);
    out.push(0x7e);
    assert(out@ =~= paste_start());
    append_bytes(&mut out, body.as_slice());
    append_bytes(&mut out, end.as_slice());
    assert(out@ =~= paste_start() + body@ + paste_end());
    out
}

/// The C0 control code that Control plus `c` stands for, if any.
pub open spec fn ctrl_code(c: char) -> Option<u8> {
    if 'a' <= c <= 'z' {
        Some((c as int - 0x60) as u8)
    } else if 'A' <= c <= 'Z' {
        Some((c as int - 0x40) as u8)
    } else if c == ' ' || c == '@' {
        Some(0x00)
    } else if c == '[' {
        Some(0x1b)
    } else if c == '\\' {
        Some(0x1c)
    } else if c == ']' {
        Some(0x1d)
    } else if c == '^' {
        Some(0x1e)
    } else if c == '_' || c == '/' {
        Some(0x1f)
    } else {
        None
    }
}

/// `ESC [` followed by `tail`.
pub open spec fn csi(tail: Seq<u8>) -> Seq<u8> {
    seq![0x1bu8, 0x5b] + tail
}

/// The bytes a terminal program expects for a key press, or `None` for keys
/// that are not forwarded (function keys, lone modifiers, Control with a
/// character that has no control code). Alt prefixes characters with `ESC`.
pub open spec fn key_bytes(code: KeyCode, mods: KeyMods) -> Option<Seq<u8>> {
    let ctrl = has_mods(mods.bits, MOD_CONTROL);
    let alt = has_mods(mods.bits, MOD_ALT);
    let esc: Seq<u8> = if alt { seq![0x1bu8] } else { Seq::empty() };
    match code {
        KeyCode::Char(c) => if ctrl {
            match ctrl_code(c) {
                Some(b) => Some(esc + seq![b]),
                None => None,
            }
        } else {
            Some(esc + encode_scalar(c as u32))
        },
        KeyCode::Enter => Some(seq![0x0du8]),
        KeyCode::Tab => Some(seq![0x09u8]),
        KeyCode::BackTab => Some(csi(seq![0x5au8])),
        KeyCode::Backspace => Some(seq![0x7fu8]),
        KeyCode::Esc => Some(seq![0x1bu8]),
        KeyCode::Up => Some(csi(seq![0x41u8])),
        KeyCode::Down => Some(csi(seq![0x42u8])),
        KeyCode::Right => Some(csi(seq![0x43u8])),
        KeyCode::Left => Some(csi(seq![0x44u8])),
        KeyCode::Home => Some(csi(seq![0x48u8])),
        KeyCode::End => Some(csi(seq![0x46u8])),
        KeyCode::PageUp => Some(csi(seq![0x35u8, 0x7e])),
        KeyCode::PageDown => Some(csi(seq![0x36u8, 0x7e])),
        KeyCode::Delete => Some(csi(seq![0x33u8, 0x7e])),
        KeyCode::Insert => Some(csi(seq![0x32u8, 0x7e])),
        _ => None,
    }
}

/// The keys with fixed bytes, whatever the modifiers: the arrows are the
/// xterm cursor sequences `ESC [ A` (up), `ESC [ B` (down), `ESC [ C`
/// (right) and `ESC [ D` (left); Home and End are `ESC [ H` and `ESC [ F`;
/// Page Up, Page Down, Delete and Insert are `ESC [ 5 ~`, `ESC [ 6 ~`,
/// `ESC [ 3 ~` and `ESC [ 2 ~`; Back-Tab is `ESC [ Z`; Enter is CR, Tab is
/// HT, Backspace is DEL and Esc is ESC.
pub proof fn lemma_fixed_key_bytes(mods: KeyMods)
    ensures
        key_bytes(KeyCode::Up, mods) == Some(seq![0x1bu8, 0x5b, 0x41]),
        key_bytes(KeyCode::Down, mods) == Some(seq![0x1bu8, 0x5b, 0x42]),
        key_bytes(KeyCode::Right, mods) == Some(seq![0x1bu8, 0x5b, 0x43]),
        key_bytes(KeyCode::Left, mods) == Some(seq![0x1bu8, 0x5b, 0x44]),
        key_bytes(KeyCode::Home, mods) == Some(seq![0x1bu8, 0x5b, 0x48]),
        key_bytes(KeyCode::End, mods) == Some(seq![0x1bu8, 0x5b, 0x46]),
        key_bytes(KeyCode::PageUp, mods) == Some(seq![0x1bu8, 0x5b, 0x35, 0x7e]),
        key_bytes(KeyCode::PageDown, mods) == Some(seq![0x1bu8, 0x5b, 0x36, 0x7e]),
        key_bytes(KeyCode::Delete, mods) == Some(seq![0x1bu8, 0x5b, 0x33, 0x7e]),
        key_bytes(KeyCode::Insert, mods) == Some(seq![0x1bu8, 0x5b, 0x32, 0x7e]),
        key_bytes(KeyCode::BackTab, mods) == Some(seq![0x1bu8, 0x5b, 0x5a]),
        key_bytes(KeyCode::Enter, mods) == Some(seq![0x0du8]),
        key_bytes(KeyCode::Tab, mods) == Some(seq![0x09u8]),
        key_bytes(KeyCode::Backspace, mods) == Some(seq![0x7fu8]),
        key_bytes(KeyCode::Esc, mods) == Some(seq![0x1bu8]),
{
    assert(csi(seq![0x41u8]) =~= seq![0x1bu8, 0x5b, 0x41]);
    assert(csi(seq![0x42u8]) =~= seq![0x1bu8, 0x5b, 0x42]);
    assert(csi(seq![0x43u8]) =~= seq![0x1bu8, 0x5b, 0x43]);
    assert(csi(seq![0x44u8]) =~= seq![0x1bu8, 0x5b, 0x44]);
    assert(csi(seq![0x48u8]) =~= seq![0x1bu8, 0x5b, 0x48]);
    assert(csi(seq![0x46u8]) =~= seq![0x1bu8, 0x5b, 0x46]);
    assert(csi(seq![0x35u8, 0x7e]) =~= seq![0x1bu8, 0x5b, 0x35, 0x7e]);
    assert(csi(seq![0x36u8, 0x7e]) =~= seq![0x1bu8, 0x5b, 0x36, 0x7e]);
    assert(csi(seq![0x33u8, 0x7e]) =~= seq![0x1bu8, 0x5b, 0x33, 0x7e]);
    assert(csi(seq![0x32u8, 0x7e]) =~= seq![0x1bu8, 0x5b, 0x32, 0x7e]);
    assert(csi(seq![0x5au8]) =~= seq![0x1bu8, 0x5b, 0x5a]);
}

/// Control plus a letter gives the letter's place in the alphabet (A or a
/// is 1, Z or z is 26), whatever its case; Control plus `@` or space is NUL,
/// and `[`, `\\`, `]`, `^`, `_` (also `/`) give 27 to 31.
pub proof fn lemma_control_codes(c: char)
    ensures
        'a' <= c <= 'z' ==> ctrl_code(c) == Some((c as int - 'a' as int + 1) as u8),
        'A' <= c <= 'Z' ==> ctrl_code(c) == Some((c as int - 'A' as int + 1) as u8),
        'A' <= c <= 'Z' ==> ctrl_code(c) == ctrl_code(((c as int) + 32) as char),
        ctrl_code('@') == Some(0u8) && ctrl_code(' ') == Some(0u8),
        ctrl_code('[') == Some(27u8) && ctrl_code('\\') == Some(28u8) && ctrl_code(']') == Some(29u8),
        ctrl_code('^') == Some(30u8) && ctrl_code('_') == Some(31u8) && ctrl_code('/') == Some(31u8),
        ctrl_code(c) matches Some(b) ==> b < 32,
{
    if 'A' <= c <= 'Z' {
        let l = ((c as int) + 32) as char;
        assert('a' <= l <= 'z');
        assert(l as int == c as int + 32);
    }
}

/// The report code of a mouse event: the left, middle and right buttons are
/// 0, 1 and 2 whether pressed, released or dragged; the wheel is 64 (up),
/// 65 (down), 66 (left), 67 (right); motion is 35; Shift adds 4, Alt 8 and
/// Control 16, each on its own.
pub proof fn lemma_mouse_codes(ev: MouseEvent)
    ensures
        mouse_code(ev) == (match ev.kind {
            MouseEventKind::Down(MouseButton::Left) | MouseEventKind::Up(MouseButton::Left) | MouseEventKind::Drag(
                MouseButton::Left,
            ) => 0int,
            MouseEventKind::Down(MouseButton::Middle) | MouseEventKind::Up(MouseButton::Middle) | MouseEventKind::Drag(
                MouseButton::Middle,
            ) => 1int,
            MouseEventKind::Down(MouseButton::Right) | MouseEventKind::Up(MouseButton::Right) | MouseEventKind::Drag(
                MouseButton::Right,
            ) => 2int,
            MouseEventKind::ScrollUp => 64int,
            MouseEventKind::ScrollDown => 65int,
            MouseEventKind::ScrollLeft => 66int,
            MouseEventKind::ScrollRight => 67int,
            MouseEventKind::Moved => 35int,
        }) + (if ev.modifiers.bits & 0x01 == 0x01 { 4int } else { 0int }) + (if ev.modifiers.bits & 0x04 == 0x04 {
            8int
        } else {
            0int
        }) + (if ev.modifiers.bits & 0x02 == 0x02 { 16int } else { 0int }),
{
}

/// The bracketed paste markers are the control sequences `CSI 200 ~`
/// (start) and `CSI 201 ~` (end).
pub proof fn lemma_paste_markers()
    ensures
        paste_start() == csi(decimal(200) + seq![0x7eu8]),
        paste_end() == csi(decimal(201) + seq![0x7eu8]),
{
    reveal_with_fuel(decimal, 3);
    assert(decimal(200) =~= seq![0x32u8, 0x30, 0x30]);
    assert(decimal(201) =~= seq![0x32u8, 0x30, 0x31]);
    assert(paste_start() =~= csi(decimal(200) + seq![0x7eu8]));
    assert(paste_end() =~= csi(decimal(201) + seq![0x7eu8]));
}

/// Control plus `c`, as a C0 control code.
fn control_code(c: char) -> (r: Option<u8>)
    ensures
        r == ctrl_code(c),
{
    if 'a' <= c && c <= 'z' {
        Some((c as u32 - 0x60) as u8)
    } else if 'A' <= c && c <= 'Z' {
        Some((c as u32 - 0x40) as u8)
    } else if c == ' ' || c == '@' {
        Some(0x00)
    } else if c == '[' {
        Some(0x1b)
    } else if c == '\\' {
        Some(0x1c)
    } else if c == ']' {
        Some(0x1d)
    } else if c == '^' {
        Some(0x1e)
    } else if c == '_' || c == '/' {
        Some(0x1f)
    } else {
        None
    }
}

/// `ESC [` followed by `tail`.
fn csi_bytes(tail: &[u8]) -> (r: Vec<u8>)
    ensures
        r@ == csi(tail@),
{
    let mut out: Vec<u8> = Vec::new();
    out.push(0x1b);
    out.push(0x5b);
    append_bytes(&mut out, tail);
    assert(out@ =~= csi(tail@));
    out
}

/// Encode a key press for forwarding to an agent's terminal: printable
/// characters (Alt prefixes `ESC`), Control plus a letter or one of
/// `@[\]^_/` as a control code, Enter, Tab, Backspace, Esc, arrows and the
/// navigation keys. `None` for keys that are not forwarded.
pub fn encode_key(code: KeyCode, mods: KeyMods) -> (r: Option<Vec<u8>>)
    ensures
        match key_bytes(code, mods) {
            Some(b) => r matches Some(v) && v@ == b,
            None => r is None,
        },
{
    let ctrl = mods.contains(MOD_CONTROL);
    let alt = mods.contains(MOD_ALT);
    let mut out: Vec<u8> = Vec::new();
    match code {
        KeyCode::Char(c) => {
            if alt {
                out.push(0x1b);
            }
            if ctrl {
                match control_code(c) {
                    Some(b) => out.push(b),
                    None => return None,
                }
            } else {
                push_utf8(&mut out, c);
            }
            proof {
                if !ctrl {
                    assert(out@ =~= (if alt { seq![0x1bu8] } else { Seq::<u8>::empty() }) + encode_scalar(c as u32));
                } else {
                    assert(out@ =~= (if alt { seq![0x1bu8] } else { Seq::<u8>::empty() }) + seq![ctrl_code(c)->0]);
                }
            }
            Some(out)
        },
        KeyCode::Enter => {
            out.push(0x0d);
            Some(out)
        },
        KeyCode::Tab => {
            out.push(0x09);
            Some(out)
        },
        KeyCode::BackTab => Some(csi_bytes(&[0x5au8])),
        KeyCode::Backspace => {
            out.push(0x7f);
            Some(out)
        },
        KeyCode::Esc => {
            out.push(0x1b);
            Some(out)
        },
        KeyCode::Up => Some(csi_bytes(&[0x41u8])),
        KeyCode::Down => Some(csi_bytes(&[0x42u8])),
        KeyCode::Right => Some(csi_bytes(&[0x43u8])),
        KeyCode::Left => Some(csi_bytes(&[0x44u8])),
        KeyCode::Home => Some(csi_bytes(&[0x48u8])),
        KeyCode::End => Some(csi_bytes(&[0x46u8])),
        KeyCode::PageUp => Some(csi_bytes(&[0x35u8, 0x7e])),
        KeyCode::PageDown => Some(csi_bytes(&[0x36u8, 0x7e])),
        KeyCode::Delete => Some(csi_bytes(&[0x33u8, 0x7e])),
        KeyCode::Insert => Some(csi_bytes(&[0x32u8, 0x7e])),
        _ => None,
    }
}

/// The button part of a mouse report code: left 0, middle 1, right 2;
/// wheel up, down, left, right 64 to 67; motion without a button 35.
pub open spec fn button_code(kind: MouseEventKind) -> int {
    match kind {
        MouseEventKind::Down(b) | MouseEventKind::Up(b) | MouseEventKind::Drag(b) => match b {
            MouseButton::Left => 0,
            MouseButton::Middle => 1,
            MouseButton::Right => 2,
        },
        MouseEventKind::ScrollUp => 64,
        MouseEventKind::ScrollDown => 65,
        MouseEventKind::ScrollLeft => 66,
        MouseEventKind::ScrollRight => 67,
        MouseEventKind::Moved => 35,
    }
}

/// The report code of a mouse event: the button code plus 4 for Shift,
/// 8 for Alt and 16 for Control.
pub open spec fn mouse_code(ev: MouseEvent) -> int {
    button_code(ev.kind) + (if has_mods(ev.modifiers.bits, MOD_SHIFT) { 4int } else { 0int })
        + (if has_mods(ev.modifiers.bits, MOD_ALT) { 8int } else { 0int })
        + (if has_mods(ev.modifiers.bits, MOD_CONTROL) { 16int } else { 0int })
}

/// A cell coordinate read as a signed 16-bit number, the way the reports
/// compute with it.
pub open spec fn signed16(v: u16) -> int {
    if v < 32768 { v as int } else { v - 65536 }
}

/// `v` limited to `lo..=hi`.
pub open spec fn clamp(v: int, lo: int, hi: int) -> int {
    if v < lo { lo } else if v > hi { hi } else { v }
}

/// A coordinate whose 1-based report value plus `offset` fits in a signed
/// 16-bit number.
pub open spec fn coord_fits(v: u16, offset: int) -> bool {
    signed16(v) + offset <= 32767
}

/// The classic X10 mouse report `ESC [ M b x y`: each of the code and the
/// 1-based coordinates offset by 32 and kept to `32..=255`; a release is
/// reported with button code 3.
pub open spec fn x10_bytes(ev: MouseEvent) -> Seq<u8> {
    let code = if ev.kind is Up { 3 } else { mouse_code(ev) };
    csi(seq![
        0x4du8,
        clamp(32 + code, 32, 255) as u8,
        clamp(signed16(ev.column) + 33, 32, 255) as u8,
        clamp(signed16(ev.row) + 33, 32, 255) as u8,
    ])
}

/// The decimal text of an integer, with a leading `-` when negative.
pub open spec fn signed_decimal(v: int) -> Seq<u8> {
    if v < 0 { seq![0x2du8] + decimal((-v) as nat) } else { decimal(v as nat) }
}

/// The SGR mouse report `ESC [ < code ; x ; y M` with 1-based coordinates,
/// ending in `m` for a release.
pub open spec fn sgr_bytes(ev: MouseEvent) -> Seq<u8> {
    csi(seq![0x3cu8]) + signed_decimal(mouse_code(ev)) + seq![0x3bu8] + signed_decimal(
        signed16(ev.column) + 1,
    ) + seq![0x3bu8] + signed_decimal(signed16(ev.row) + 1) + seq![
        if ev.kind is Up { 0x6du8 } else { 0x4du8 },
    ]
}

/// The report code of a mouse event.
fn report_code(ev: &MouseEvent) -> (r: i16)
    ensures
        r == mouse_code(*ev),
        0 <= r <= 95,
{
    let mut code: i16 = match ev.kind {
        MouseEventKind::Down(b) | MouseEventKind::Up(b) | MouseEventKind::Drag(b) => match b {
            MouseButton::Left => 0,
            MouseButton::Middle => 1,
            MouseButton::Right => 2,
        },
        MouseEventKind::ScrollUp => 64,
        MouseEventKind::ScrollDown => 65,
        MouseEventKind::ScrollLeft => 66,
        MouseEventKind::ScrollRight => 67,
        MouseEventKind::Moved => 35,
    };
    if ev.modifiers.contains(MOD_SHIFT) {
        code = code + 4;
    }
    if ev.modifiers.contains(MOD_ALT) {
        code = code + 8;
    }
    if ev.modifiers.contains(MOD_CONTROL) {
        code = code + 16;
    }
    code
}

/// A coordinate as a signed 16-bit number.
fn signed_coord(v: u16) -> (r: i32)
    ensures
        r == signed16(v),
{
    if v < 32768 {
        v as i32
    } else {
        v as i32 - 65536
    }
}

/// `v` limited to `32..=255`, as a byte.
fn clamp_byte(v: i32) -> (r: u8)
    ensures
        r == clamp(v as int, 32, 255),
{
    if v < 32 {
        32
    } else if v > 255 {
        255
    } else {
        v as u8
    }
}

/// Encode a mouse event as a classic X10 report (used when the program
/// enabled mouse tracking without SGR reports).
pub fn encode_mouse_x10(event: &MouseEvent) -> (r: Vec<u8>)
    requires
        coord_fits(event.column, 33),
        coord_fits(event.row, 33),
    ensures
        r@ == x10_bytes(*event),
{
    let mut code = report_code(event);
    if matches!(event.kind, MouseEventKind::Up(_)) {
        code = 3;
    }
    let x = signed_coord(event.column) + 33;
    let y = signed_coord(event.row) + 33;
    let out: Vec<u8> = vec![0x1b, 0x5b, 0x4d, clamp_byte(32 + code as i32), clamp_byte(x), clamp_byte(y)];
    assert(out@ =~= x10_bytes(*event));
    out
}

/// Append the decimal text of `v`, with a leading `-` when negative.
fn push_signed_decimal(out: &mut Vec<u8>, v: i32)
    ensures
        final(out)@ == old(out)@ + signed_decimal(v as int),
{
    if v < 0 {
        out.push(0x2d);
        push_decimal(out, (0 - (v as i64)) as u64);
        assert(out@ =~= old(out)@ + signed_decimal(v as int));
    } else {
        push_decimal(out, v as u64);
    }
}

/// Encode a mouse event as an SGR report (used when the program enabled
/// SGR mouse reports).
pub fn encode_mouse_sgr(event: &MouseEvent) -> (r: Vec<u8>)
    requires
        coord_fits(event.column, 1),
        coord_fits(event.row, 1),
    ensures
        r@ == sgr_bytes(*event),
{
    let code = report_code(event);
    let mut out: Vec<u8> = Vec::new();
    out.push(0x1b);
    out.push(0x5b);
    out.push(0x3c);
    push_signed_decimal(&mut out, code as i32);
    out.push(0x3b);
    push_signed_decimal(&mut out, signed_coord(event.column) + 1);
    out.push(0x3b);
    push_signed_decimal(&mut out, signed_coord(event.row) + 1);
    let last: u8 = if matches!(event.kind, MouseEventKind::Up(_)) { 0x6d } else { 0x4d };
    out.push(last);
    assert(out@ =~= sgr_bytes(*event));
    out
}

/// Encode a mouse event in the encoding the program asked for.
pub fn encode_mouse(event: &MouseEvent, use_sgr: bool) -> (r: Vec<u8>)
    requires
        if use_sgr {
            coord_fits(event.column, 1) && coord_fits(event.row, 1)
        } else {
            coord_fits(event.column, 33) && coord_fits(event.row, 33)
        },
    ensures
        r@ == (if use_sgr { sgr_bytes(*event) } else { x10_bytes(*event) }),
{
    if use_sgr {
        encode_mouse_sgr(event)
    } else {
        encode_mouse_x10(event)
    }
}

/// The mouse modes a program has asked for through its output (private
/// modes 1000, 1002, 1003 and 1006).
#[derive(Debug, Clone, Copy, PartialEq, Eq, Structural)]
pub struct MouseModes {
    /// Basic button tracking (mode 1000).
    pub mouse_tracking: bool,
    /// Button-event tracking (mode 1002).
    pub button_event_mouse: bool,
    /// Any-event tracking (mode 1003).
    pub any_event_mouse: bool,
    /// SGR reports (mode 1006).
    pub sgr_mouse: bool,
}

/// `ESC [ ? 1 0 0 d` followed by `h` (set) or `l` (reset): private mode
/// `100d`.
pub open spec fn decset(d: u8, set: bool) -> Seq<u8> {
    seq![0x1bu8, 0x5b, 0x3f, 0x31, 0x30, 0x30, d, if set { 0x68u8 } else { 0x6cu8 }]
}

/// Whether `pat` occurs anywhere in `b`.
pub open spec fn seen(b: Seq<u8>, pat: Seq<u8>) -> bool {
    exists|k: int| occurs_at(b, pat, k)
}

/// A flag after a chunk: set when the chunk sets it, otherwise cleared when
/// the chunk resets it, otherwise kept.
pub open spec fn flag_after(old: bool, b: Seq<u8>, d: u8) -> bool {
    if seen(b, decset(d, true)) { true } else if seen(b, decset(d, false)) { false } else { old }
}

/// The modes after a chunk of program output. UTF-8 coordinates (mode 1005)
/// turn SGR reports off.
pub open spec fn modes_after(m: MouseModes, b: Seq<u8>) -> MouseModes {
    MouseModes {
        mouse_tracking: flag_after(m.mouse_tracking, b, 0x30),
        button_event_mouse: flag_after(m.button_event_mouse, b, 0x32),
        any_event_mouse: flag_after(m.any_event_mouse, b, 0x33),
        sgr_mouse: if seen(b, decset(0x35, true)) { false } else { flag_after(m.sgr_mouse, b, 0x36) },
    }
}

/// How the program's output switches mouse reporting: `CSI ? 1000 h` /
/// `l` sets or clears basic tracking, `1002` button-event and `1003`
/// any-event tracking, `1006` SGR reports, and `CSI ? 1005 h` (UTF-8
/// coordinates) turns SGR reports off. A set in the chunk wins over a reset
/// in it; a mode the chunk does not mention is kept.
pub proof fn lemma_mouse_mode_sequences(m: MouseModes, b: Seq<u8>)
    ensures
        ({
            let set = |n: nat| seen(b, csi(seq![0x3fu8] + decimal(n) + seq![0x68u8]));
            let reset = |n: nat| seen(b, csi(seq![0x3fu8] + decimal(n) + seq![0x6cu8]));
            let after = modes_after(m, b);
            &&& after.mouse_tracking == (set(1000) || (!reset(1000) && m.mouse_tracking))
            &&& after.button_event_mouse == (set(1002) || (!reset(1002) && m.button_event_mouse))
            &&& after.any_event_mouse == (set(1003) || (!reset(1003) && m.any_event_mouse))
            &&& after.sgr_mouse == (!set(1005) && (set(1006) || (!reset(1006) && m.sgr_mouse)))
        }),
{
    reveal_with_fuel(decimal, 5);
    assert(csi(seq![0x3fu8] + decimal(1000) + seq![0x68u8]) =~= decset(0x30, true));
    assert(csi(seq![0x3fu8] + decimal(1000) + seq![0x6cu8]) =~= decset(0x30, false));
    assert(csi(seq![0x3fu8] + decimal(1002) + seq![0x68u8]) =~= decset(0x32, true));
    assert(csi(seq![0x3fu8] + decimal(1002) + seq![0x6cu8]) =~= decset(0x32, false));
    assert(csi(seq![0x3fu8] + decimal(1003) + seq![0x68u8]) =~= decset(0x33, true));
    assert(csi(seq![0x3fu8] + decimal(1003) + seq![0x6cu8]) =~= decset(0x33, false));
    assert(csi(seq![0x3fu8] + decimal(1005) + seq![0x68u8]) =~= decset(0x35, true));
    assert(csi(seq![0x3fu8] + decimal(1006) + seq![0x68u8]) =~= decset(0x36, true));
    assert(csi(seq![0x3fu8] + decimal(1006) + seq![0x6cu8]) =~= decset(0x36, false));
}

/// The two mouse report formats, for cells whose coordinates fit them:
/// X10 is `ESC [ M`, then `32 + code` (3 for any release), `33 + column`
/// and `33 + row` as single bytes; SGR is `ESC [ <`, the decimal code, `;`,
/// the 1-based column, `;`, the 1-based row, and `M` for a press or motion,
/// `m` for a release.
pub proof fn lemma_mouse_reports(ev: MouseEvent)
    ensures
        ev.column < 223 && ev.row < 223 ==> x10_bytes(ev) == seq![
            0x1bu8,
            0x5b,
            0x4d,
            (32 + (if ev.kind is Up { 3 } else { mouse_code(ev) })) as u8,
            (33 + ev.column) as u8,
            (33 + ev.row) as u8,
        ],
        ev.column < 32768 && ev.row < 32768 ==> sgr_bytes(ev) == seq![0x1bu8, 0x5b, 0x3c] + decimal(mouse_code(ev) as nat)
            + seq![0x3bu8] + decimal((ev.column + 1) as nat) + seq![0x3bu8] + decimal((ev.row + 1) as nat) + seq![
            if ev.kind is Up { 0x6du8 } else { 0x4du8 },
        ],
{
    lemma_mouse_codes(ev);
    assert(0 <= mouse_code(ev) <= 95);
    if ev.column < 223 && ev.row < 223 {
        assert(x10_bytes(ev) =~= seq![
            0x1bu8,
            0x5b,
            0x4d,
            (32 + (if ev.kind is Up { 3 } else { mouse_code(ev) })) as u8,
            (33 + ev.column) as u8,
            (33 + ev.row) as u8,
        ]);
    }
    if ev.column < 32768 && ev.row < 32768 {
        assert(sgr_bytes(ev) =~= seq![0x1bu8, 0x5b, 0x3c] + decimal(mouse_code(ev) as nat) + seq![0x3bu8] + decimal(
            (ev.column + 1) as nat,
        ) + seq![0x3bu8] + decimal((ev.row + 1) as nat) + seq![if ev.kind is Up { 0x6du8 } else { 0x4du8 }]);
    }
}

/// Whether the chunk holds private mode `100d` set or reset.
fn saw_mode(bytes: &[u8], d: u8, set: bool) -> (r: bool)
    ensures
        r == seen(bytes@, decset(d, set)),
{
    let last: u8 = if set { 0x68 } else { 0x6c };
    let pat: Vec<u8> = vec![0x1b, 0x5b, 0x3f, 0x31, 0x30, 0x30, d, last];
    assert(pat@ =~= decset(d, set));
    contains_bytes(bytes, pat.as_slice())
}

/// A flag after a chunk.
fn track_flag(old: bool, bytes: &[u8], d: u8) -> (r: bool)
    ensures
        r == flag_after(old, bytes@, d),
{
    if saw_mode(bytes, d, true) {
        true
    } else if saw_mode(bytes, d, false) {
        false
    } else {
        old
    }
}

impl MouseModes {
    /// No mode requested.
    pub fn new() -> (m: MouseModes)
        ensures
            !m.mouse_tracking && !m.button_event_mouse && !m.any_event_mouse && !m.sgr_mouse,
    {
        MouseModes {
            mouse_tracking: false,
            button_event_mouse: false,
            any_event_mouse: false,
            sgr_mouse: false,
        }
    }

    /// Follow the mode changes in a chunk of program output. Each chunk is
    /// read on its own: a sequence split across chunks is not seen.
    pub fn update(&mut self, bytes: &[u8])
        ensures
            *final(self) == modes_after(*old(self), bytes@),
    {
        self.mouse_tracking = track_flag(self.mouse_tracking, bytes, 0x30);
        self.button_event_mouse = track_flag(self.button_event_mouse, bytes, 0x32);
        self.any_event_mouse = track_flag(self.any_event_mouse, bytes, 0x33);
        let sgr = track_flag(self.sgr_mouse, bytes, 0x36);
        self.sgr_mouse = if saw_mode(bytes, 0x35, true) { false } else { sgr };
    }

    /// Whether the program asked for mouse reports in any tracking mode.
    pub fn tracking(&self) -> (r: bool)
        ensures
            r == (self.mouse_tracking || self.button_event_mouse || self.any_event_mouse),
    {
        self.mouse_tracking || self.button_event_mouse || self.any_event_mouse
    }

    /// Whether the program asked for SGR reports.
    pub fn sgr_enabled(&self) -> (r: bool)
        ensures
            r == self.sgr_mouse,
    {
        self.sgr_mouse
    }
}

} // verus!
