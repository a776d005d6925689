//! Screen-key cast overlay: the recently pressed key chords, shown in a
//! rounded pill at the bottom centre of the canvas.
//!
//! The host calls [`KeyCastOverlay::push`] whenever a non-modifier chord
//! is pressed; identical chords pressed in quick succession collapse into
//! `chord ×N` so a held-down key does not flood the strip. Entries age out
//! after [`MAX_AGE_NS`]. This module holds the state and the pixel work;
//! text shaping stays with the renderer.

use std::collections::VecDeque;
use std::time::Instant;

use vstd::prelude::*;

use crate::clock::{instant_now, nanos_since};
use crate::geometry::{div_trunc, half, max_int, min_int};
use crate::text::{append_decimal, decimal};

verus! {

/// A chord stays on screen this long (2.5 s, in nanoseconds) after its
/// last press.
pub const MAX_AGE_NS: u64 = 2_500_000_000;
/// The same chord pressed again within this window (800 ms, in
/// nanoseconds) collapses into a repeat.
pub const REPEAT_WINDOW_NS: u64 = 800_000_000;
/// At most this many chords are shown; older ones drop off the front.
pub const MAX_ENTRIES: usize = 12;
/// Inner padding around the text inside the pill.
pub const PAD_X: i32 = 14;
pub const PAD_Y: i32 = 8;
/// Pill corner radius (clamped to half the smaller dimension).
pub const CORNER_RADIUS: i32 = 12;
/// Distance from the pill's bottom edge to the canvas bottom.
pub const MARGIN_BOTTOM: i32 = 36;

pub struct KeyEntry {
    pub label: String,
    /// Nanoseconds since the overlay's clock origin.
    pub pressed_at: u64,
    pub repeat: u32,
}

pub struct EntryView {
    pub label: Seq<char>,
    pub pressed_at: u64,
    pub repeat: u32,
}

impl View for KeyEntry {
    type V = EntryView;

    open spec fn view(&self) -> EntryView {
        EntryView { label: self.label@, pressed_at: self.pressed_at, repeat: self.repeat }
    }
}

pub struct KeyCastOverlay {
    enabled: bool,
    entries: VecDeque<KeyEntry>,
    /// Set whenever the visible string must be rebuilt.
    dirty: bool,
    origin: Instant,
    /// The latest reading of the overlay's clock: nanoseconds since
    /// `origin`.
    clock: u64,
}

pub struct OverlayView {
    pub enabled: bool,
    pub entries: Seq<EntryView>,
    pub dirty: bool,
    /// The latest clock reading; no entry is stamped later than it.
    pub clock: u64,
}

pub open spec fn entries_view(s: Seq<KeyEntry>) -> Seq<EntryView> {
    s.map_values(|e: KeyEntry| e@)
}

impl View for KeyCastOverlay {
    type V = OverlayView;

    closed spec fn view(&self) -> OverlayView {
        OverlayView {
            enabled: self.enabled,
            entries: entries_view(self.entries@),
            dirty: self.dirty,
            clock: self.clock,
        }
    }
}

/// `a - b`, or zero when `b` is later.
pub open spec fn since(a: u64, b: u64) -> int {
    if a >= b {
        a - b
    } else {
        0
    }
}

/// What holds of the overlay at all times: a bounded strip, empty while
/// disabled, every entry pressed at least once and no later than the
/// latest clock reading.
pub open spec fn overlay_wf(v: OverlayView) -> bool {
    &&& v.entries.len() <= MAX_ENTRIES
    &&& !v.enabled ==> v.entries.len() == 0
    &&& forall|i: int| 0 <= i < v.entries.len() ==> (#[trigger] v.entries[i]).repeat >= 1
    &&& forall|i: int| 0 <= i < v.entries.len() ==> (#[trigger] v.entries[i]).pressed_at <= v.clock
}

/// The later of two clock readings.
pub open spec fn later(a: u64, b: u64) -> u64 {
    if a >= b {
        a
    } else {
        b
    }
}

/// Entries stamped in the order they were pressed.
pub open spec fn stamped_in_order(entries: Seq<EntryView>) -> bool {
    forall|i: int, j: int|
        0 <= i <= j < entries.len() ==> (#[trigger] entries[i]).pressed_at <= (#[trigger] entries[j]).pressed_at
}

pub open spec fn is_repeat(entries: Seq<EntryView>, label: Seq<char>, now: u64) -> bool {
    entries.len() > 0 && entries.last().label == label && since(now, entries.last().pressed_at)
        < REPEAT_WINDOW_NS
}

/// The strip after `label` is pressed at `now`.
pub open spec fn entries_after_push(entries: Seq<EntryView>, label: Seq<char>, now: u64) -> Seq<
    EntryView,
> {
    if is_repeat(entries, label, now) {
        let last = entries.last();
        entries.update(
            entries.len() - 1,
            EntryView { label: last.label, pressed_at: now, repeat: (last.repeat + 1) as u32 },
        )
    } else {
        let e = entries.push(EntryView { label, pressed_at: now, repeat: 1 });
        if e.len() > MAX_ENTRIES {
            e.subrange(e.len() - MAX_ENTRIES, e.len() as int)
        } else {
            e
        }
    }
}

/// The strip after the entries older than [`MAX_AGE_NS`] at `now` leave
/// the front.
pub open spec fn entries_after_expiry(entries: Seq<EntryView>, now: u64) -> Seq<EntryView>
    decreases entries.len(),
{
    if entries.len() > 0 && since(now, entries[0].pressed_at) >= MAX_AGE_NS {
        entries_after_expiry(entries.drop_first(), now)
    } else {
        entries
    }
}

/// How one entry reads: `label`, or `label ×N` once repeated.
pub open spec fn entry_text(e: EntryView) -> Seq<char> {
    if e.repeat > 1 {
        e.label + seq![' ', '×'] + decimal(e.repeat as nat)
    } else {
        e.label
    }
}

/// The entries' texts joined by two spaces.
pub open spec fn strip_text(s: Seq<EntryView>) -> Seq<char>
    decreases s.len(),
{
    if s.len() == 0 {
        Seq::empty()
    } else if s.len() == 1 {
        entry_text(s[0])
    } else {
        strip_text(s.drop_last()) + seq![' ', ' '] + entry_text(s.last())
    }
}

proof fn lemma_expiry_suffix(entries: Seq<EntryView>, now: u64)
    ensures
        entries_after_expiry(entries, now).len() <= entries.len(),
        entries_after_expiry(entries, now) == entries.subrange(
            entries.len() - entries_after_expiry(entries, now).len(),
            entries.len() as int,
        ),
    decreases entries.len(),
{
    if entries.len() > 0 && since(now, entries[0].pressed_at) >= MAX_AGE_NS {
        lemma_expiry_suffix(entries.drop_first(), now);
        let r = entries_after_expiry(entries.drop_first(), now);
        assert(entries.drop_first().subrange(
            entries.drop_first().len() - r.len(),
            entries.drop_first().len() as int,
        ) =~= entries.subrange(entries.len() - r.len(), entries.len() as int));
    } else {
        assert(entries.subrange(0, entries.len() as int) =~= entries);
    }
}

impl KeyCastOverlay {
    pub open spec fn wf(&self) -> bool {
        overlay_wf(self@)
    }

    /// Whether pressing `label` again cannot overflow the trailing entry's
    /// repeat count: the trailing entry shows another chord, or its count
    /// can grow by one.
    pub open spec fn has_repeat_room_spec(&self, label: Seq<char>) -> bool {
        self@.entries.len() > 0 && self@.entries.last().label == label
            ==> self@.entries.last().repeat < u32::MAX
    }

    /// A disabled overlay with an empty strip.
    pub fn new() -> (r: Self)
        ensures
            r.wf(),
            !r@.enabled,
            r@.entries.len() == 0,
            !r@.dirty,
            r@.clock == 0,
    {
        let r = KeyCastOverlay {
            enabled: false,
            entries: VecDeque::new(),
            dirty: false,
            origin: instant_now(),
            clock: 0,
        };
        assert(entries_view(r.entries@) =~= Seq::<EntryView>::empty());
        r
    }

    /// Toggles visibility. Turning it off clears the strip so that turning
    /// it on later starts blank.
    pub fn set_enabled(&mut self, enabled: bool)
        requires
            old(self).wf(),
        ensures
            final(self).wf(),
            final(self)@.enabled == enabled,
            final(self)@.clock == old(self)@.clock,
            old(self)@.enabled == enabled ==> final(self)@ == old(self)@,
            old(self)@.enabled != enabled ==> {
                &&& final(self)@.dirty
                &&& final(self)@.entries == (if enabled {
                    old(self)@.entries
                } else {
                    Seq::<EntryView>::empty()
                })
            },
    {
        if self.enabled == enabled {
            return;
        }
        self.enabled = enabled;
        if !enabled {
            self.entries.clear();
            assert(entries_view(self.entries@) =~= Seq::<EntryView>::empty());
        }
        self.dirty = true;
    }

    pub fn enabled(&self) -> (b: bool)
        ensures
            b == self@.enabled,
    {
        self.enabled
    }

    pub fn has_repeat_room(&self, label: &String) -> (b: bool)
        ensures
            b == self.has_repeat_room_spec(label@),
    {
        let n = self.entries.len();
        if n == 0 {
            true
        } else {
            proof {
                assert(entries_view(self.entries@).last() == self.entries@[n - 1]@);
            }
            self.entries[n - 1].label != *label || self.entries[n - 1].repeat < u32::MAX
        }
    }

    /// Appends a chord pressed at `now` (nanoseconds on the overlay's
    /// clock). Ignored while disabled. An identical chord within
    /// [`REPEAT_WINDOW_NS`] of the trailing entry bumps its repeat count
    /// instead; otherwise the chord is appended and the oldest entries
    /// beyond [`MAX_ENTRIES`] are dropped.
    pub fn push_at(&mut self, label: String, now: u64)
        requires
            old(self).wf(),
            is_repeat(old(self)@.entries, label@, now) ==> old(self)@.entries.last().repeat < u32::MAX,
        ensures
            final(self).wf(),
            final(self)@.enabled == old(self)@.enabled,
            !old(self)@.enabled ==> final(self)@ == old(self)@,
            old(self)@.enabled ==> {
                &&& final(self)@.entries == entries_after_push(old(self)@.entries, label@, now)
                &&& final(self)@.dirty
                &&& final(self)@.clock == later(old(self)@.clock, now)
            },
    {
        if !self.enabled {
            return;
        }
        let ghost old_view = entries_view(self.entries@);
        let ghost old_clock = self.clock;
        if now > self.clock {
            self.clock = now;
        }
        assert(forall|i: int| 0 <= i < old_view.len() ==> (#[trigger] old_view[i]).pressed_at <= self.clock);
        let n = self.entries.len();
        if n > 0 {
            proof {
                assert(old_view.last() == self.entries@[n - 1]@);
            }
            let same = self.entries[n - 1].label == label;
            let recent = (if now >= self.entries[n - 1].pressed_at {
                now - self.entries[n - 1].pressed_at
            } else {
                0
            }) < REPEAT_WINDOW_NS;
            if same && recent {
                let last = self.entries.pop_back().unwrap();
                let bumped = KeyEntry { label: last.label, pressed_at: now, repeat: last.repeat + 1 };
                self.entries.push_back(bumped);
                self.dirty = true;
                proof {
                    assert(entries_view(self.entries@) =~= entries_after_push(old_view, label@, now));
                    let v = entries_view(self.entries@);
                    assert forall|i: int| 0 <= i < v.len() implies (#[trigger] v[i]).pressed_at <= self.clock by {
                        if i < v.len() - 1 {
                            assert(v[i] == old_view[i]);
                        }
                    }
                }
                return;
            }
        }
        assert(!is_repeat(old_view, label@, now));
        let ghost pushed = old_view.push(EntryView { label: label@, pressed_at: now, repeat: 1 });
        self.entries.push_back(KeyEntry { label, pressed_at: now, repeat: 1 });
        assert(entries_view(self.entries@) =~= pushed);
        proof {
            assert(overlay_wf(OverlayView { enabled: true, entries: old_view, dirty: false, clock: old_clock }));
            assert forall|i: int| 0 <= i < pushed.len() implies (#[trigger] pushed[i]).repeat >= 1
                && pushed[i].pressed_at <= self.clock by {
                if i < old_view.len() {
                    assert(pushed[i] == old_view[i]);
                }
            }
        }
        while self.entries.len() > MAX_ENTRIES
            invariant
                self.enabled,
                self.entries@.len() <= pushed.len(),
                self.entries@.len() == pushed.len() || self.entries@.len() >= MAX_ENTRIES,
                self.entries@.len() <= MAX_ENTRIES + 1,
                pushed.len() <= MAX_ENTRIES + 1,
                forall|i: int| 0 <= i < pushed.len() ==> (#[trigger] pushed[i]).repeat >= 1,
                forall|i: int| 0 <= i < pushed.len() ==> (#[trigger] pushed[i]).pressed_at <= self.clock,
                self.clock == later(old_clock, now),
                entries_view(self.entries@) == pushed.subrange(
                    pushed.len() - self.entries@.len(),
                    pushed.len() as int,
                ),
            decreases self.entries@.len(),
        {
            let ghost before = self.entries@;
            self.entries.pop_front();
            assert(entries_view(self.entries@) =~= entries_view(before).drop_first());
            assert(entries_view(self.entries@) =~= pushed.subrange(
                pushed.len() - self.entries@.len(),
                pushed.len() as int,
            ));
        }
        self.dirty = true;
        assert(entries_view(self.entries@) =~= entries_after_push(old_view, label@, now));
        proof {
            let v = entries_view(self.entries@);
            assert forall|i: int| 0 <= i < v.len() implies (#[trigger] v[i]).repeat >= 1
                && v[i].pressed_at <= self.clock by {
                assert(v[i] == pushed[pushed.len() - v.len() + i]);
            }
        }
    }

    /// Appends a chord pressed now; see [`KeyCastOverlay::push_at`].
    pub fn push(&mut self, label: String)
        requires
            old(self).wf(),
            old(self).has_repeat_room_spec(label@),
        ensures
            final(self).wf(),
            final(self)@.enabled == old(self)@.enabled,
            !old(self)@.enabled ==> final(self)@ == old(self)@,
            old(self)@.enabled ==> final(self)@.dirty,
            old(self)@.enabled ==> exists|now: u64|
                final(self)@.entries == #[trigger] entries_after_push(old(self)@.entries, label@, now),
            old(self)@.enabled ==> {
                &&& final(self)@.clock >= old(self)@.clock
                &&& final(self)@.entries == entries_after_push(
                    old(self)@.entries,
                    label@,
                    final(self)@.clock,
                )
                &&& final(self)@.entries.last().pressed_at == final(self)@.clock
                &&& final(self)@.entries.last().label == label@
                &&& forall|i: int|
                    0 <= i < final(self)@.entries.len() ==> (#[trigger] final(self)@.entries[i]).pressed_at
                        <= final(self)@.entries.last().pressed_at
                &&& stamped_in_order(old(self)@.entries) ==> stamped_in_order(final(self)@.entries)
            },
    {
        if !self.enabled {
            return;
        }
        let now = self.read_clock();
        proof {
            lemma_push_stamps_last(old(self)@.entries, label@, now);
        }
        self.push_at(label, now);
    }

    /// Reads the overlay's clock: nanoseconds since its origin, never
    /// earlier than the previous reading (the clock is monotonic, so in
    /// practice the reading itself).
    fn read_clock(&mut self) -> (now: u64)
        requires
            old(self).wf(),
        ensures
            final(self).wf(),
            now == final(self)@.clock,
            now >= old(self)@.clock,
            final(self)@.enabled == old(self)@.enabled,
            final(self)@.entries == old(self)@.entries,
            final(self)@.dirty == old(self)@.dirty,
    {
        let reading = nanos_since(&self.origin);
        if reading > self.clock {
            self.clock = reading;
        }
        self.clock
    }

    fn front_expired(&self, now: u64) -> (b: bool)
        ensures
            b == (self@.entries.len() > 0 && since(now, self@.entries[0].pressed_at) >= MAX_AGE_NS),
    {
        if self.entries.len() == 0 {
            return false;
        }
        assert(self@.entries[0] == self.entries@[0]@);
        let at = self.entries[0].pressed_at;
        (if now >= at {
            now - at
        } else {
            0
        }) >= MAX_AGE_NS
    }

    /// Drops, from the front, the entries that have aged out at `now`.
    pub fn drop_expired(&mut self, now: u64)
        requires
            old(self).wf(),
        ensures
            final(self).wf(),
            final(self)@.enabled == old(self)@.enabled,
            final(self)@.entries == entries_after_expiry(old(self)@.entries, now),
            final(self)@.dirty == (old(self)@.dirty || final(self)@.entries.len() < old(
                self,
            )@.entries.len()),
            final(self)@.clock == later(old(self)@.clock, now),
    {
        let ghost start = entries_view(self.entries@);
        proof {
            lemma_expiry_suffix(start, now);
        }
        if now > self.clock {
            self.clock = now;
        }
        while self.front_expired(now)
            invariant
                self.enabled == old(self).enabled,
                self.clock == later(old(self)@.clock, now),
                overlay_wf(OverlayView { enabled: self.enabled, entries: start, dirty: false, clock: self.clock }),
                entries_view(self.entries@).len() <= start.len(),
                entries_view(self.entries@) == start.subrange(
                    start.len() - self.entries@.len(),
                    start.len() as int,
                ),
                entries_after_expiry(entries_view(self.entries@), now) == entries_after_expiry(
                    start,
                    now,
                ),
                self.dirty == (old(self).dirty || self.entries@.len() < start.len()),
            decreases self.entries@.len(),
        {
            let ghost cur = entries_view(self.entries@);
            let ghost before = self.entries@;
            assert(cur[0] == self.entries@[0]@);
            self.entries.pop_front();
            assert(entries_view(self.entries@) =~= entries_view(before).drop_first());
            assert(entries_view(self.entries@) =~= cur.drop_first());
            self.dirty = true;
        }
        proof {
            let cur = entries_view(self.entries@);
            if cur.len() > 0 {
                assert(cur[0] == self.entries@[0]@);
            }
            assert forall|i: int| 0 <= i < cur.len() implies (#[trigger] cur[i]).repeat >= 1
                && cur[i].pressed_at <= self.clock by {
                assert(cur[i] == start[start.len() - cur.len() + i]);
            }
        }
    }

    /// Drops the entries that have aged out by now, while enabled.
    pub fn expire(&mut self)
        requires
            old(self).wf(),
        ensures
            final(self).wf(),
            final(self)@.enabled == old(self)@.enabled,
            !old(self)@.enabled ==> final(self)@ == old(self)@,
            old(self)@.enabled ==> exists|now: u64|
                {
                    &&& final(self)@.entries == #[trigger] entries_after_expiry(old(self)@.entries, now)
                    &&& final(self)@.dirty == (old(self)@.dirty || final(self)@.entries.len() < old(
                        self,
                    )@.entries.len())
                },
            old(self)@.enabled ==> {
                &&& final(self)@.clock >= old(self)@.clock
                &&& final(self)@.entries == entries_after_expiry(old(self)@.entries, final(self)@.clock)
                &&& final(self)@.clock >= old(self)@.clock + MAX_AGE_NS ==> final(self)@.entries.len() == 0
                &&& stamped_in_order(old(self)@.entries) ==> forall|i: int|
                    0 <= i < final(self)@.entries.len() ==> since(
                        final(self)@.clock,
                        (#[trigger] final(self)@.entries[i]).pressed_at,
                    ) < MAX_AGE_NS
                &&& old(self)@.entries.len() > 0 && since(
                    final(self)@.clock,
                    old(self)@.entries.last().pressed_at,
                ) < MAX_AGE_NS ==> final(self)@.entries.len() > 0 && final(self)@.entries.last()
                    == old(self)@.entries.last()
            },
    {
        if !self.enabled {
            return;
        }
        let now = self.read_clock();
        proof {
            lemma_stale_strip_empties(self@.entries, old(self)@.clock, now);
            if stamped_in_order(self@.entries) {
                lemma_expiry_keeps_only_fresh(self@.entries, now);
            }
            if self@.entries.len() > 0 {
                lemma_fresh_chord_survives(self@.entries, now);
            }
        }
        self.drop_expired(now);
    }

    /// The strip as shown: each entry's text, joined by two spaces.
    pub fn current_text(&self) -> (s: String)
        ensures
            s@ == strip_text(self@.entries),
    {
        proof {
            reveal_strlit("  ");
            reveal_strlit(" ×");
        }
        let ghost es = entries_view(self.entries@);
        let mut s = String::new();
        let mut i: usize = 0;
        while i < self.entries.len()
            invariant
                i <= self.entries@.len(),
                es == entries_view(self.entries@),
                s@ == strip_text(es.subrange(0, i as int)),
            decreases self.entries@.len() - i,
        {
            proof {
                reveal_strlit("  ");
                reveal_strlit(" ×");
            }
            let e = &self.entries[i];
            assert(es[i as int] == e@);
            let ghost s0 = s@;
            if i > 0 {
                s.append("  ");
            }
            s.append(e.label.as_str());
            if e.repeat > 1 {
                s.append(" ×");
                append_decimal(&mut s, e.repeat as u64);
            }
            proof {
                let pre = es.subrange(0, i as int);
                let post = es.subrange(0, i + 1);
                assert(post.drop_last() =~= pre);
                assert(post.last() == es[i as int]);
                let sep: Seq<char> = if i > 0 { seq![' ', ' '] } else { Seq::empty() };
                assert(s@ =~= s0 + sep + entry_text(e@));
                if i == 0 {
                    assert(pre =~= Seq::<EntryView>::empty());
                    assert(post.len() == 1);
                    assert(post[0] == es[0]);
                }
            }
            i = i + 1;
        }
        assert(es.subrange(0, es.len() as int) =~= es);
        s
    }

    /// Whether the overlay has something to show, and so keeps asking
    /// for frames.
    pub fn needs_frame(&self) -> (b: bool)
        ensures
            b == (self@.enabled && self@.entries.len() > 0),
    {
        self.enabled && self.entries.len() > 0
    }

    /// When the strip is showing and has changed since the last call,
    /// returns the text to rasterise and marks it clean.
    pub fn take_changed_text(&mut self) -> (r: Option<String>)
        ensures
            final(self)@.enabled == old(self)@.enabled,
            final(self)@.entries == old(self)@.entries,
            final(self)@.clock == old(self)@.clock,
            match r {
                Some(t) => old(self)@.enabled && old(self)@.entries.len() > 0 && old(self)@.dirty
                    && t@ == strip_text(old(self)@.entries) && !final(self)@.dirty,
                None => !(old(self)@.enabled && old(self)@.entries.len() > 0 && old(self)@.dirty)
                    && final(self)@ == old(self)@,
            },
    {
        if self.enabled && self.entries.len() > 0 && self.dirty {
            let t = self.current_text();
            self.dirty = false;
            Some(t)
        } else {
            None
        }
    }
}

impl Default for KeyCastOverlay {
    fn default() -> (r: Self)
        ensures
            r.wf(),
            !r@.enabled,
            r@.entries.len() == 0,
            !r@.dirty,
    {
        Self::new()
    }
}

/// The pill's buffer size and corner radius for text whose extent is
/// `inner_w` × `inner_h` pixels.
pub fn pill_size(inner_w: i32, inner_h: i32) -> (r: (i32, i32, i32))
    requires
        inner_w <= i32::MAX - 2 * PAD_X,
        inner_h <= i32::MAX - 2 * PAD_Y,
    ensures
        r.0 == max_int(inner_w + 2 * PAD_X, 1),
        r.1 == max_int(inner_h + 2 * PAD_Y, 1),
        r.2 == min_int(min_int(CORNER_RADIUS as int, div_trunc(r.0 as int, 2)), div_trunc(r.1 as int, 2)),
        0 <= r.2 <= CORNER_RADIUS,
        2 * r.2 <= r.0,
        2 * r.2 <= r.1,
{
    let w = inner_w + PAD_X * 2;
    let buf_w = if w >= 1 { w } else { 1 };
    let h = inner_h + PAD_Y * 2;
    let buf_h = if h >= 1 { h } else { 1 };
    let hw = half(buf_w);
    let hh = half(buf_h);
    let r1 = if CORNER_RADIUS <= hw { CORNER_RADIUS } else { hw };
    let radius = if r1 <= hh { r1 } else { hh };
    (buf_w, buf_h, radius)
}

/// Where the pill's top-left corner goes: centred horizontally, and
/// [`MARGIN_BOTTOM`] above the bottom of the canvas.
pub open spec fn spec_pill_origin(cx: int, cy: int, cw: int, ch: int, lw: int, lh: int) -> (int, int) {
    (cx + div_trunc(cw, 2) - div_trunc(lw, 2), cy + ch - MARGIN_BOTTOM - lh)
}

pub fn pill_origin(cx: i32, cy: i32, cw: i32, ch: i32, lw: i32, lh: i32) -> (r: (i32, i32))
    requires
        i32::MIN <= cx + div_trunc(cw as int, 2) <= i32::MAX,
        i32::MIN <= spec_pill_origin(cx as int, cy as int, cw as int, ch as int, lw as int, lh as int).0 <= i32::MAX,
        i32::MIN <= cy + ch <= i32::MAX,
        i32::MIN <= cy + ch - MARGIN_BOTTOM <= i32::MAX,
        i32::MIN <= spec_pill_origin(cx as int, cy as int, cw as int, ch as int, lw as int, lh as int).1 <= i32::MAX,
    ensures
        r.0 == spec_pill_origin(cx as int, cy as int, cw as int, ch as int, lw as int, lh as int).0,
        r.1 == spec_pill_origin(cx as int, cy as int, cw as int, ch as int, lw as int, lh as int).1,
{
    let center_x = cx + half(cw);
    let pill_x = center_x - half(lw);
    let pill_y = cy + ch - MARGIN_BOTTOM - lh;
    (pill_x, pill_y)
}

// ---------------------------------------------------------------------------
// Rounded rectangle rasteriser
// ---------------------------------------------------------------------------

/// The centre of the corner circle nearest `(x, y)`, or `(x, y)` itself
/// in the straight bands where no rounding applies.
pub open spec fn spec_corner_center(x: int, y: int, w: int, h: int, r: int) -> (int, int) {
    let cx_l = r;
    let cx_r = w - r - 1;
    let cy_t = r;
    let cy_b = h - r - 1;
    let cx = if x < cx_l {
        cx_l
    } else if x > cx_r {
        cx_r
    } else {
        x
    };
    let cy = if y < cy_t {
        cy_t
    } else if y > cy_b {
        cy_b
    } else {
        y
    };
    (cx, cy)
}

pub fn corner_center(x: i32, y: i32, w: i32, h: i32, r: i32) -> (c: (i32, i32))
    requires
        i32::MIN < w - r <= i32::MAX,
        i32::MIN < h - r <= i32::MAX,
    ensures
        c.0 == spec_corner_center(x as int, y as int, w as int, h as int, r as int).0,
        c.1 == spec_corner_center(x as int, y as int, w as int, h as int, r as int).1,
{
    let cx_l = r;
    let cx_r = w - r - 1;
    let cy_t = r;
    let cy_b = h - r - 1;
    let cx = if x < cx_l {
        cx_l
    } else if x > cx_r {
        cx_r
    } else {
        x
    };
    let cy = if y < cy_t {
        cy_t
    } else if y > cy_b {
        cy_b
    } else {
        y
    };
    (cx, cy)
}

/// The corner centre is mirror-symmetric in both axes, and a centre is
/// its own centre, when both corner circles fit across the rectangle.
pub proof fn lemma_corner_center_symmetric(x: int, y: int, w: int, h: int, r: int)
    requires
        0 <= r,
        2 * r + 1 <= w,
        2 * r + 1 <= h,
    ensures
        ({
            let c = spec_corner_center(x, y, w, h, r);
            &&& spec_corner_center(w - 1 - x, y, w, h, r) == (w - 1 - c.0, c.1)
            &&& spec_corner_center(x, h - 1 - y, w, h, r) == (c.0, h - 1 - c.1)
            &&& spec_corner_center(c.0, c.1, w, h, r) == c
        }),
{
}

/// Squared distance from pixel `(x, y)` to its corner centre.
pub open spec fn corner_dist2(x: int, y: int, w: int, h: int, r: int) -> int {
    let c = spec_corner_center(x, y, w, h, r);
    (x - c.0) * (x - c.0) + (y - c.1) * (y - c.1)
}

/// Whether pixel `(x, y)` lies inside the rounded rectangle of size
/// `w` × `h` with corner radius `r`.
pub open spec fn in_rounded_rect(x: int, y: int, w: int, h: int, r: int) -> bool {
    let c = spec_corner_center(x, y, w, h, r);
    (c.0 == x && c.1 == y) || corner_dist2(x, y, w, h, r) <= r * r
}

/// A pixel is painted exactly when it lies within distance `r` of its
/// corner centre: in the straight bands that distance is zero.
pub proof fn lemma_inside_iff_near_centre(x: int, y: int, w: int, h: int, r: int)
    requires
        0 <= r,
    ensures
        in_rounded_rect(x, y, w, h, r) <==> corner_dist2(x, y, w, h, r) <= r * r,
{
    assert(r * r >= 0) by (nonlinear_arith)
        requires
            0 <= r,
    ;
    let c = spec_corner_center(x, y, w, h, r);
    let dx = x - c.0;
    let dy = y - c.1;
    assert(dx * dx >= 0 && dy * dy >= 0) by (nonlinear_arith);
}

/// The rounded rectangle is mirror-symmetric: flipping a pixel
/// left-to-right or top-to-bottom does not change whether it is painted,
/// so all four corners are rounded alike (the radius being at most half
/// of each side, as [`pill_size`] makes it).
pub proof fn lemma_rounded_rect_symmetric(x: int, y: int, w: int, h: int, r: int)
    requires
        0 <= r,
        2 * r <= w,
        2 * r <= h,
    ensures
        in_rounded_rect(x, y, w, h, r) == in_rounded_rect(w - 1 - x, y, w, h, r),
        in_rounded_rect(x, y, w, h, r) == in_rounded_rect(x, h - 1 - y, w, h, r),
{
    let c = spec_corner_center(x, y, w, h, r);
    let cx = spec_corner_center(w - 1 - x, y, w, h, r);
    let cy = spec_corner_center(x, h - 1 - y, w, h, r);
    assert(cx == (w - 1 - c.0, c.1));
    assert(cy == (c.0, h - 1 - c.1));
    let dx = x - c.0;
    let dy = y - c.1;
    assert((-dx) * (-dx) == dx * dx) by (nonlinear_arith);
    assert((-dy) * (-dy) == dy * dy) by (nonlinear_arith);
    assert(corner_dist2(w - 1 - x, y, w, h, r) == corner_dist2(x, y, w, h, r));
    assert(corner_dist2(x, h - 1 - y, w, h, r) == corner_dist2(x, y, w, h, r));
    lemma_inside_iff_near_centre(x, y, w, h, r);
    lemma_inside_iff_near_centre(w - 1 - x, y, w, h, r);
    lemma_inside_iff_near_centre(x, h - 1 - y, w, h, r);
}

/// The byte at index `i` of a `w`-pixel-wide BGRA buffer after the
/// rounded rectangle is painted over it.
pub open spec fn painted_byte(old_byte: u8, i: int, w: int, h: int, r: int, color: Seq<u8>) -> u8 {
    if w > 0 && h > 0 && i < w * h * 4 && in_rounded_rect((i / 4) % w, (i / 4) / w, w, h, r) {
        color[i % 4]
    } else {
        old_byte
    }
}

proof fn lemma_pixel_index(x: int, y: int, w: int, k: int)
    requires
        0 <= x < w,
        0 <= y,
        0 <= k < 4,
    ensures
        ((y * w + x) * 4 + k) / 4 == y * w + x,
        ((y * w + x) * 4 + k) % 4 == k,
        (y * w + x) % w == x,
        (y * w + x) / w == y,
{
    vstd::arithmetic::div_mod::lemma_fundamental_div_mod_converse(
        (y * w + x) * 4 + k,
        4,
        y * w + x,
        k,
    );
    vstd::arithmetic::div_mod::lemma_fundamental_div_mod_converse(y * w + x, w, y, x);
}

/// Inside the rectangle, a pixel is never further than `r` from its
/// corner centre along either axis, so its squared distance fits `i64`.
proof fn lemma_corner_dist_bound(x: int, y: int, w: int, h: int, r: int)
    requires
        0 <= x < w,
        0 <= y < h,
        0 <= r <= i32::MAX,
    ensures
        corner_dist2(x, y, w, h, r) <= 2 * r * r,
        2 * r * r <= i64::MAX,
{
    let c = spec_corner_center(x, y, w, h, r);
    let dx = x - c.0;
    let dy = y - c.1;
    assert(-r <= dx <= r);
    assert(-r <= dy <= r);
    assert(dx * dx <= r * r) by (nonlinear_arith)
        requires
            -r <= dx <= r,
    ;
    assert(dy * dy <= r * r) by (nonlinear_arith)
        requires
            -r <= dy <= r,
    ;
    assert(2 * r * r <= i64::MAX) by (nonlinear_arith)
        requires
            0 <= r <= i32::MAX,
    ;
    assert(2 * r * r == r * r + r * r) by (nonlinear_arith);
    assert(corner_dist2(x, y, w, h, r) == dx * dx + dy * dy);
}

/// Paints a fully opaque rounded rectangle of `w` × `h` BGRA pixels with
/// corner radius `radius` (negative counts as zero) into `data`. Pixels
/// outside the rounded shape, and bytes past the rectangle, are left as
/// they are. No anti-aliasing.
pub fn fill_rounded_rect(data: &mut [u8], w: i32, h: i32, radius: i32, color: &[u8; 4])
    requires
        w > 0 && h > 0 ==> w * h * 4 <= i32::MAX,
        w > 0 && h > 0 ==> w * h * 4 <= old(data)@.len(),
    ensures
        final(data)@.len() == old(data)@.len(),
        forall|i: int|
            0 <= i < old(data)@.len() ==> #[trigger] final(data)@[i] == painted_byte(
                old(data)@[i],
                i,
                w as int,
                h as int,
                max_int(radius as int, 0),
                color@,
            ),
{
    let r = if radius >= 0 { radius } else { 0 };
    let ghost start = data@;
    let ghost rr = r as int;
    if w <= 0 || h <= 0 {
        return;
    }
    assert(w * 4 <= w * h * 4) by (nonlinear_arith)
        requires
            w > 0,
            h > 0,
    ;
    let stride = w * 4;
    let mut y: i32 = 0;
    while y < h
        invariant
            0 < w,
            0 < h,
            w * h * 4 <= i32::MAX,
            w * h * 4 <= start.len(),
            stride == w * 4,
            rr == r,
            r == max_int(radius as int, 0),
            0 <= y <= h,
            data@.len() == start.len(),
            forall|i: int|
                0 <= i < start.len() ==> #[trigger] data@[i] == if i < y * w * 4 {
                    painted_byte(start[i], i, w as int, h as int, rr, color@)
                } else {
                    start[i]
                },
        decreases h - y,
    {
        assert(y * w * 4 + w * 4 <= w * h * 4) by (nonlinear_arith)
            requires
                0 <= y < h,
                w > 0,
        ;
        let mut x: i32 = 0;
        while x < w
            invariant
                0 < w,
                0 < h,
                w * h * 4 <= i32::MAX,
                w * h * 4 <= start.len(),
                stride == w * 4,
                rr == r,
                r == max_int(radius as int, 0),
                0 <= y < h,
                y * w * 4 + w * 4 <= w * h * 4,
                0 <= x <= w,
                data@.len() == start.len(),
                forall|i: int|
                    0 <= i < start.len() ==> #[trigger] data@[i] == if i < y * w * 4 + x * 4 {
                        painted_byte(start[i], i, w as int, h as int, rr, color@)
                    } else {
                        start[i]
                    },
            decreases w - x,
        {
            assert(0 <= y * stride) by (nonlinear_arith)
                requires
                    0 <= y,
                    stride > 0,
            ;
            assert(y * stride == y * w * 4) by (nonlinear_arith)
                requires
                    stride == w * 4,
            ;
            let off = (y * stride + x * 4) as usize;
            let (cx, cy) = corner_center(x, y, w, h, r);
            let inside = if cx == x && cy == y {
                true
            } else {
                let dx = (x - cx) as i64;
                let dy = (y - cy) as i64;
                proof {
                    lemma_corner_dist_bound(x as int, y as int, w as int, h as int, r as int);
                    assert(dx * dx >= 0) by (nonlinear_arith);
                    assert(dy * dy >= 0) by (nonlinear_arith);
                    assert((r as i64) * (r as i64) <= 0x3fff_ffff_0000_0001) by (nonlinear_arith)
                        requires
                            0 <= r <= i32::MAX,
                    ;
                }
                dx * dx + dy * dy <= (r as i64) * (r as i64)
            };
            assert(inside == in_rounded_rect(x as int, y as int, w as int, h as int, rr));
            proof {
                assert(y * w * 4 + x * 4 == (y * w + x) * 4) by (nonlinear_arith);
                lemma_pixel_index(x as int, y as int, w as int, 0);
                lemma_pixel_index(x as int, y as int, w as int, 1);
                lemma_pixel_index(x as int, y as int, w as int, 2);
                lemma_pixel_index(x as int, y as int, w as int, 3);
            }
            let ghost before = data@;
            if inside {
                data[off] = color[0];
                data[off + 1] = color[1];
                data[off + 2] = color[2];
                data[off + 3] = color[3];
            }
            proof {
                assert forall|i: int| 0 <= i < start.len() implies #[trigger] data@[i] == if i < y * w
                    * 4 + (x + 1) * 4 {
                    painted_byte(start[i], i, w as int, h as int, rr, color@)
                } else {
                    start[i]
                } by {
                    if off <= i < off + 4 {
                        let k = i - off;
                        assert(i == (y * w + x) * 4 + k);
                        lemma_pixel_index(x as int, y as int, w as int, k);
                        assert(before[i] == start[i]);
                    }
                }
            }
            x = x + 1;
        }
        assert(y * w * 4 + w * 4 == (y + 1) * w * 4) by (nonlinear_arith);
        y = y + 1;
    }
    proof {
        assert forall|i: int| 0 <= i < start.len() implies #[trigger] data@[i] == painted_byte(
            start[i],
            i,
            w as int,
            h as int,
            rr,
            color@,
        ) by {
            if i >= h * w * 4 {
                assert(h * w * 4 == w * h * 4) by (nonlinear_arith);
            }
        }
    }
}


/// The strip never grows past [`MAX_ENTRIES`].
pub proof fn lemma_push_bounded(entries: Seq<EntryView>, label: Seq<char>, now: u64)
    requires
        entries.len() <= MAX_ENTRIES,
    ensures
        entries_after_push(entries, label, now).len() <= MAX_ENTRIES,
{
}

/// A held-down key does not flood the strip: pressing the trailing chord
/// again within the repeat window leaves the number of entries unchanged
/// and counts one more repeat.
pub proof fn lemma_repeat_keeps_length(entries: Seq<EntryView>, label: Seq<char>, now: u64)
    requires
        is_repeat(entries, label, now),
    ensures
        entries_after_push(entries, label, now).len() == entries.len(),
        entries_after_push(entries, label, now).last().repeat == entries.last().repeat + 1
            || entries.last().repeat == u32::MAX,
        entries_after_push(entries, label, now).last().label == label,
{
}

/// Expiry removes entries from the front only: what is left is the
/// newest part of the strip, in order.
pub proof fn lemma_expiry_keeps_newest(entries: Seq<EntryView>, now: u64)
    ensures
        entries_after_expiry(entries, now).len() <= entries.len(),
        entries_after_expiry(entries, now) == entries.subrange(
            entries.len() - entries_after_expiry(entries, now).len(),
            entries.len() as int,
        ),
{
    lemma_expiry_suffix(entries, now);
}


/// Pushing a chord at `now`, no earlier than any entry's stamp, leaves the
/// chord at the back stamped `now`, no entry stamped later, and a strip
/// stamped in press order still in order.
pub proof fn lemma_push_stamps_last(entries: Seq<EntryView>, label: Seq<char>, now: u64)
    requires
        forall|i: int| 0 <= i < entries.len() ==> (#[trigger] entries[i]).pressed_at <= now,
    ensures
        entries_after_push(entries, label, now).len() > 0,
        entries_after_push(entries, label, now).last().pressed_at == now,
        entries_after_push(entries, label, now).last().label == label,
        forall|i: int|
            0 <= i < entries_after_push(entries, label, now).len() ==> (#[trigger] entries_after_push(
                entries,
                label,
                now,
            )[i]).pressed_at <= now,
        stamped_in_order(entries) ==> stamped_in_order(entries_after_push(entries, label, now)),
{
    let r = entries_after_push(entries, label, now);
    if is_repeat(entries, label, now) {
        assert forall|i: int| 0 <= i < r.len() implies (#[trigger] r[i]).pressed_at <= now by {
            if i < r.len() - 1 {
                assert(r[i] == entries[i]);
            }
        }
        if stamped_in_order(entries) {
            assert forall|i: int, j: int| 0 <= i <= j < r.len() implies (#[trigger] r[i]).pressed_at
                <= (#[trigger] r[j]).pressed_at by {
                if j < r.len() - 1 {
                    assert(r[i] == entries[i] && r[j] == entries[j]);
                } else if i < r.len() - 1 {
                    assert(r[i] == entries[i]);
                }
            }
        }
    } else {
        let e = entries.push(EntryView { label, pressed_at: now, repeat: 1 });
        assert forall|i: int| 0 <= i < e.len() implies (#[trigger] e[i]).pressed_at <= now by {
            if i < entries.len() {
                assert(e[i] == entries[i]);
            }
        }
        let k = e.len() - r.len();
        assert forall|i: int| 0 <= i < r.len() implies (#[trigger] r[i]).pressed_at <= now by {
            assert(r[i] == e[k + i]);
        }
        assert(r.last() == e.last());
        if stamped_in_order(entries) {
            assert forall|i: int, j: int| 0 <= i <= j < r.len() implies (#[trigger] r[i]).pressed_at
                <= (#[trigger] r[j]).pressed_at by {
                assert(r[i] == e[k + i] && r[j] == e[k + j]);
                if k + j < entries.len() {
                    assert(e[k + i] == entries[k + i] && e[k + j] == entries[k + j]);
                } else if k + i < entries.len() {
                    assert(e[k + i] == entries[k + i]);
                }
            }
        }
    }
}

/// A strip nobody typed into for [`MAX_AGE_NS`] is empty after expiry:
/// when every entry was stamped at or before `t`, expiring at
/// `t + MAX_AGE_NS` or later drops them all.
pub proof fn lemma_stale_strip_empties(entries: Seq<EntryView>, t: u64, now: u64)
    requires
        forall|i: int| 0 <= i < entries.len() ==> (#[trigger] entries[i]).pressed_at <= t,
    ensures
        now >= t + MAX_AGE_NS ==> entries_after_expiry(entries, now).len() == 0,
    decreases entries.len(),
{
    if entries.len() > 0 && now >= t + MAX_AGE_NS {
        assert(entries[0].pressed_at <= t);
        let d = entries.drop_first();
        assert forall|i: int| 0 <= i < d.len() implies (#[trigger] d[i]).pressed_at <= t by {
            assert(d[i] == entries[i + 1]);
        }
        lemma_stale_strip_empties(d, t, now);
    }
}

/// On a strip stamped in press order, expiry keeps only chords younger
/// than [`MAX_AGE_NS`].
pub proof fn lemma_expiry_keeps_only_fresh(entries: Seq<EntryView>, now: u64)
    requires
        stamped_in_order(entries),
    ensures
        forall|i: int|
            0 <= i < entries_after_expiry(entries, now).len() ==> since(
                now,
                (#[trigger] entries_after_expiry(entries, now)[i]).pressed_at,
            ) < MAX_AGE_NS,
    decreases entries.len(),
{
    if entries.len() > 0 {
        if since(now, entries[0].pressed_at) >= MAX_AGE_NS {
            let d = entries.drop_first();
            assert forall|i: int, j: int| 0 <= i <= j < d.len() implies (#[trigger] d[i]).pressed_at
                <= (#[trigger] d[j]).pressed_at by {
                assert(d[i] == entries[i + 1] && d[j] == entries[j + 1]);
            }
            lemma_expiry_keeps_only_fresh(d, now);
            assert(entries_after_expiry(entries, now) == entries_after_expiry(d, now));
        } else {
            assert(entries_after_expiry(entries, now) == entries);
            assert forall|i: int| 0 <= i < entries.len() implies since(
                now,
                (#[trigger] entries[i]).pressed_at,
            ) < MAX_AGE_NS by {
                assert(entries[0].pressed_at <= entries[i].pressed_at);
            }
        }
    }
}

/// A chord pressed less than [`MAX_AGE_NS`] ago stays on screen: expiry
/// keeps the trailing entry when it is that young.
pub proof fn lemma_fresh_chord_survives(entries: Seq<EntryView>, now: u64)
    requires
        entries.len() > 0,
    ensures
        since(now, entries.last().pressed_at) < MAX_AGE_NS ==> {
            &&& entries_after_expiry(entries, now).len() > 0
            &&& entries_after_expiry(entries, now).last() == entries.last()
        },
    decreases entries.len(),
{
    if since(now, entries.last().pressed_at) < MAX_AGE_NS && since(now, entries[0].pressed_at) >= MAX_AGE_NS {
        assert(entries.len() > 1);
        let d = entries.drop_first();
        assert(d.last() == entries.last());
        lemma_fresh_chord_survives(d, now);
    }
}

} // verus!
