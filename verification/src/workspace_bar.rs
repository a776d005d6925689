//! Workspace bar: a strip along the top of the screen with one button per
//! workspace. It shows only when there are two or more workspaces;
//! clicking a button switches to that workspace. This module keeps the
//! buttons, their layout and their change tracking; drawing the labels
//! is the renderer's job.

use vstd::prelude::*;

use crate::geometry::Rect;
use crate::text::{append_decimal, decimal};

verus! {

pub const BAR_HEIGHT: i32 = 28;
pub const BUTTON_W: i32 = 40;
pub const BUTTON_H: i32 = 22;
pub const BUTTON_PAD: i32 = 4;
pub const BUTTON_MARGIN_LEFT: i32 = 6;
pub const BUTTON_MARGIN_TOP: i32 = 3;

/// The most buttons whose layout fits in `i32` coordinates.
pub const MAX_BUTTONS: usize = 48_806_446;

/// One workspace button.
pub struct BarButton {
    pub workspace_id: u64,
    pub active: bool,
    /// Logical hit rectangle for click detection.
    pub hit_rect: Rect,
    /// Size of the rendered label, as the renderer reported it.
    pub label_size: (i32, i32),
    /// The label text the current rendering shows.
    pub last_text: String,
    pub last_active: bool,
    /// Bumped (wrapping) whenever the label must be redrawn.
    pub commit: u64,
}

pub struct ButtonView {
    pub workspace_id: u64,
    pub active: bool,
    pub hit_rect: Rect,
    pub label_size: (i32, i32),
    pub last_text: Seq<char>,
    pub last_active: bool,
    pub commit: u64,
}

impl View for BarButton {
    type V = ButtonView;

    open spec fn view(&self) -> ButtonView {
        ButtonView {
            workspace_id: self.workspace_id,
            active: self.active,
            hit_rect: self.hit_rect,
            label_size: self.label_size,
            last_text: self.last_text@,
            last_active: self.last_active,
            commit: self.commit,
        }
    }
}

/// A button that has never been laid out or drawn.
pub open spec fn fresh_button() -> ButtonView {
    ButtonView {
        workspace_id: 0,
        active: false,
        hit_rect: Rect { x: 0, y: 0, w: 0, h: 0 },
        label_size: (0, 0),
        last_text: Seq::empty(),
        last_active: false,
        commit: 0,
    }
}

impl BarButton {
    fn duplicate(&self) -> (b: Self)
        ensures
            b@ == self@,
    {
        BarButton {
            workspace_id: self.workspace_id,
            active: self.active,
            hit_rect: self.hit_rect,
            label_size: self.label_size,
            last_text: self.last_text.clone(),
            last_active: self.last_active,
            commit: self.commit,
        }
    }

    fn new() -> (b: Self)
        ensures
            b@ == fresh_button(),
    {
        BarButton {
            workspace_id: 0,
            active: false,
            hit_rect: Rect { x: 0, y: 0, w: 0, h: 0 },
            label_size: (0, 0),
            last_text: String::new(),
            last_active: false,
            commit: 0,
        }
    }
}

pub struct WorkspaceBar {
    buttons: Vec<BarButton>,
}

impl WorkspaceBar {
    /// Each button's active flag is the one its label was drawn with.
    #[verifier::type_invariant]
    spec fn flags_agree(self) -> bool {
        forall|i: int|
            0 <= i < self.buttons@.len() ==> (#[trigger] self.buttons@[i]).active
                == self.buttons@[i].last_active
    }
}

impl View for WorkspaceBar {
    type V = Seq<ButtonView>;

    closed spec fn view(&self) -> Seq<ButtonView> {
        self.buttons@.map_values(|b: BarButton| b@)
    }
}

/// The hit rectangle of the `i`-th button.
pub open spec fn button_rect(i: int) -> Rect {
    Rect {
        x: (BUTTON_MARGIN_LEFT + i * (BUTTON_W + BUTTON_PAD)) as i32,
        y: BUTTON_MARGIN_TOP,
        w: BUTTON_W,
        h: BUTTON_H,
    }
}

/// Button `i` as it stood before an update: itself, or a fresh one when
/// the pool grows.
pub open spec fn prior_button(old: Seq<ButtonView>, i: int) -> ButtonView {
    if i < old.len() {
        old[i]
    } else {
        fresh_button()
    }
}

/// Whether button `i` must be redrawn to show workspace `id`.
pub open spec fn label_changed(old: Seq<ButtonView>, i: int, id: u64, active_id: u64) -> bool {
    decimal(id as nat) != prior_button(old, i).last_text || (id == active_id)
        != prior_button(old, i).last_active
}

/// Button `i` after the bar is updated to show workspace `id`.
pub open spec fn updated_button(old: Seq<ButtonView>, i: int, id: u64, active_id: u64) -> ButtonView {
    let p = prior_button(old, i);
    if label_changed(old, i, id, active_id) {
        ButtonView {
            workspace_id: id,
            active: id == active_id,
            hit_rect: button_rect(i),
            label_size: p.label_size,
            last_text: decimal(id as nat),
            last_active: id == active_id,
            commit: (if p.commit == u64::MAX { 0 } else { (p.commit + 1) as u64 }),
        }
    } else {
        ButtonView { workspace_id: id, hit_rect: button_rect(i), ..p }
    }
}

/// The indices below `i` whose buttons must be redrawn, in order.
pub open spec fn changed_upto(old: Seq<ButtonView>, ids: Seq<u64>, active_id: u64, i: int) -> Seq<usize>
    decreases i,
{
    if i <= 0 {
        Seq::empty()
    } else if label_changed(old, i - 1, ids[i - 1], active_id) {
        changed_upto(old, ids, active_id, i - 1).push((i - 1) as usize)
    } else {
        changed_upto(old, ids, active_id, i - 1)
    }
}

proof fn lemma_changed_upto(old: Seq<ButtonView>, ids: Seq<u64>, active_id: u64, n: int)
    requires
        0 <= n <= usize::MAX,
    ensures
        forall|k: int| 0 <= k < changed_upto(old, ids, active_id, n).len() ==> #[trigger] changed_upto(old, ids, active_id, n)[k] < n,
        forall|k: int, l: int|
            0 <= k < l < changed_upto(old, ids, active_id, n).len() ==> #[trigger] changed_upto(
                old,
                ids,
                active_id,
                n,
            )[k] < #[trigger] changed_upto(old, ids, active_id, n)[l],
        forall|i: int|
            0 <= i < n ==> (#[trigger] label_changed(old, i, ids[i], active_id) <==> changed_upto(
                old,
                ids,
                active_id,
                n,
            ).contains(i as usize)),
    decreases n,
{
    if n > 0 {
        lemma_changed_upto(old, ids, active_id, n - 1);
        let prev = changed_upto(old, ids, active_id, n - 1);
        let cur = changed_upto(old, ids, active_id, n);
        assert forall|i: int| 0 <= i < n implies (#[trigger] label_changed(old, i, ids[i], active_id)
            <==> cur.contains(i as usize)) by {
            if i < n - 1 {
                if cur.contains(i as usize) {
                    let j = choose|j: int| 0 <= j < cur.len() && cur[j] == i as usize;
                    if j < prev.len() {
                        assert(prev[j] == cur[j]);
                    }
                }
                if prev.contains(i as usize) {
                    let j = choose|j: int| 0 <= j < prev.len() && prev[j] == i as usize;
                    assert(cur[j] == prev[j]);
                }
            } else {
                if label_changed(old, i, ids[i], active_id) {
                    assert(cur[cur.len() - 1] == i as usize);
                } else if cur.contains(i as usize) {
                    let j = choose|j: int| 0 <= j < cur.len() && cur[j] == i as usize;
                    assert(cur[j] == prev[j]);
                }
            }
        }
    }
}

/// Whether pixel `(px, py)` lies in `r` (left and top edges included).
pub open spec fn rect_contains(r: Rect, px: int, py: int) -> bool {
    px >= r.x && px < r.x + r.w && py >= r.y && py < r.y + r.h
}

/// The workspace of the first button, from index `i` on, hit by the
/// point.
pub open spec fn first_hit(buttons: Seq<ButtonView>, i: int, px: int, py: int) -> Option<u64>
    decreases buttons.len() - i,
{
    if i >= buttons.len() || i < 0 {
        None
    } else if rect_contains(buttons[i].hit_rect, px, py) {
        Some(buttons[i].workspace_id)
    } else {
        first_hit(buttons, i + 1, px, py)
    }
}

impl WorkspaceBar {
    pub fn new() -> (r: Self)
        ensures
            r@ == Seq::<ButtonView>::empty(),
    {
        let r = WorkspaceBar { buttons: Vec::new() };
        assert(r@ =~= Seq::<ButtonView>::empty());
        r
    }

    /// The bar shows only with two or more workspaces.
    pub fn visible(&self) -> (b: bool)
        ensures
            b == (self@.len() > 1),
    {
        self.buttons.len() > 1
    }

    pub fn button_count(&self) -> (n: usize)
        ensures
            n == self@.len(),
    {
        self.buttons.len()
    }

    /// The height the bar takes from the top of the output.
    pub fn height(&self) -> (h: i32)
        ensures
            h == (if self@.len() > 1 { BAR_HEIGHT } else { 0 }),
    {
        if self.visible() {
            BAR_HEIGHT
        } else {
            0
        }
    }

    pub fn button(&self, i: usize) -> (b: &BarButton)
        requires
            i < self@.len(),
        ensures
            b@ == self@[i as int],
            b.active == b.last_active,
    {
        proof {
            use_type_invariant(self);
        }
        &self.buttons[i]
    }

    /// Records the size of the label the renderer drew for button `i`.
    pub fn set_label_size(&mut self, i: usize, size: (i32, i32))
        requires
            i < old(self)@.len(),
        ensures
            final(self)@ == old(self)@.update(i as int, ButtonView { label_size: size, ..old(self)@[i as int] }),
    {
        proof {
            use_type_invariant(&*self);
        }
        let mut buttons: Vec<BarButton> = Vec::new();
        std::mem::swap(&mut buttons, &mut self.buttons);
        let ghost before = buttons@;
        let mut b = buttons.remove(i);
        b.label_size = size;
        buttons.insert(i, b);
        assert(buttons@ =~= before.update(i as int, BarButton { label_size: size, ..before[i as int] }));
        self.buttons = buttons;
        assert(self@ =~= old(self)@.update(i as int, ButtonView { label_size: size, ..old(self)@[i as int] }));
    }

    /// Updates the bar to show `workspace_ids`, with `active_id` active.
    /// Returns, in increasing order, the indices of the buttons whose
    /// labels must be redrawn: those whose text or active state changed.
    pub fn update(&mut self, workspace_ids: &[u64], active_id: u64) -> (changed: Vec<usize>)
        requires
            workspace_ids@.len() <= MAX_BUTTONS,
        ensures
            final(self)@.len() == workspace_ids@.len(),
            forall|i: int|
                0 <= i < workspace_ids@.len() ==> #[trigger] final(self)@[i] == updated_button(
                    old(self)@,
                    i,
                    workspace_ids@[i],
                    active_id,
                ),
            changed@ == changed_upto(old(self)@, workspace_ids@, active_id, workspace_ids@.len() as int),
            forall|k: int, l: int| 0 <= k < l < changed@.len() ==> #[trigger] changed@[k] < #[trigger] changed@[l],
            forall|i: int|
                0 <= i < workspace_ids@.len() ==> (#[trigger] label_changed(
                    old(self)@,
                    i,
                    workspace_ids@[i],
                    active_id,
                ) <==> changed@.contains(i as usize)),
            forall|i: int|
                0 <= i < workspace_ids@.len() ==> {
                    &&& (#[trigger] final(self)@[i]).workspace_id == workspace_ids@[i]
                    &&& final(self)@[i].active == (workspace_ids@[i] == active_id)
                    &&& final(self)@[i].last_active == (workspace_ids@[i] == active_id)
                },
    {
        proof {
            use_type_invariant(&*self);
        }
        let ghost old_view = self@;
        let mut old_buttons: Vec<BarButton> = Vec::new();
        std::mem::swap(&mut old_buttons, &mut self.buttons);
        assert(old_view == old_buttons@.map_values(|b: BarButton| b@));
        assert(forall|k: int| 0 <= k < old_buttons@.len() ==> (#[trigger] old_buttons@[k]).active
            == old_buttons@[k].last_active);
        let mut buttons: Vec<BarButton> = Vec::new();
        let mut changed: Vec<usize> = Vec::new();
        let n = workspace_ids.len();
        let mut i: usize = 0;
        while i < n
            invariant
                n == workspace_ids@.len(),
                n <= MAX_BUTTONS,
                old_view == old_buttons@.map_values(|b: BarButton| b@),
                i <= n,
                buttons@.len() == i,
                forall|k: int| 0 <= k < i ==> #[trigger] buttons@[k]@ == updated_button(
                    old_view,
                    k,
                    workspace_ids@[k],
                    active_id,
                ),
                changed@ == changed_upto(old_view, workspace_ids@, active_id, i as int),
                forall|k: int| 0 <= k < old_buttons@.len() ==> (#[trigger] old_buttons@[k]).active
                    == old_buttons@[k].last_active,
                forall|k: int| 0 <= k < i ==> (#[trigger] buttons@[k]).active == buttons@[k].last_active
                    && buttons@[k].last_active == (workspace_ids@[k] == active_id),
            decreases n - i,
        {
            let ws_id = workspace_ids[i];
            let is_active = ws_id == active_id;
            let mut text = String::new();
            append_decimal(&mut text, ws_id);
            assert(text@ =~= decimal(ws_id as nat));
            let mut btn = if i < old_buttons.len() {
                assert(old_view[i as int] == old_buttons@[i as int]@);
                old_buttons[i].duplicate()
            } else {
                BarButton::new()
            };
            assert(btn@ == prior_button(old_view, i as int));
            btn.workspace_id = ws_id;
            let is_changed = !(text == btn.last_text) || is_active != btn.last_active;
            if is_changed {
                btn.active = is_active;
                btn.last_text = text;
                btn.last_active = is_active;
                btn.commit = btn.commit.wrapping_add(1);
                changed.push(i);
            }
            let x = BUTTON_MARGIN_LEFT + (i as i32) * (BUTTON_W + BUTTON_PAD);
            btn.hit_rect = Rect { x, y: BUTTON_MARGIN_TOP, w: BUTTON_W, h: BUTTON_H };
            assert(btn@ == updated_button(old_view, i as int, ws_id, active_id));
            buttons.push(btn);
            i = i + 1;
        }
        self.buttons = buttons;
        assert forall|k: int| 0 <= k < n implies #[trigger] self@[k] == updated_button(
            old_view,
            k,
            workspace_ids@[k],
            active_id,
        ) by {
            assert(self@[k] == self.buttons@[k]@);
        }
        proof {
            lemma_changed_upto(old_view, workspace_ids@, active_id, n as int);
            assert forall|k: int| 0 <= k < n implies {
                &&& (#[trigger] self@[k]).workspace_id == workspace_ids@[k]
                &&& self@[k].active == (workspace_ids@[k] == active_id)
                &&& self@[k].last_active == (workspace_ids@[k] == active_id)
            } by {
                assert(self@[k] == self.buttons@[k]@);
            }
        }
        changed
    }

    /// The workspace whose button contains pixel `(px, py)`, if the bar is
    /// showing and a button is hit; the first such button wins.
    pub fn click_at(&self, px: i32, py: i32) -> (r: Option<u64>)
        ensures
            r == (if self@.len() > 1 {
                first_hit(self@, 0, px as int, py as int)
            } else {
                None
            }),
    {
        if !self.visible() {
            return None;
        }
        let mut i: usize = 0;
        while i < self.buttons.len()
            invariant
                i <= self@.len(),
                self@.len() > 1,
                self@.len() == self.buttons@.len(),
                first_hit(self@, 0, px as int, py as int) == first_hit(self@, i as int, px as int, py as int),
            decreases self.buttons@.len() - i,
        {
            let r = self.buttons[i].hit_rect;
            assert(self@[i as int] == self.buttons@[i as int]@);
            if px as i64 >= r.x as i64 && (px as i64) < r.x as i64 + r.w as i64 && py as i64
                >= r.y as i64 && (py as i64) < r.y as i64 + r.h as i64 {
                assert(rect_contains(self@[i as int].hit_rect, px as int, py as int));
                assert(first_hit(self@, i as int, px as int, py as int) == Some(self@[i as int].workspace_id));
                return Some(self.buttons[i].workspace_id);
            }
            i = i + 1;
        }
        None
    }
}


/// Buttons do not overlap: no pixel lies in two buttons' hit rectangles.
pub proof fn lemma_button_rects_disjoint(i: int, j: int, px: int, py: int)
    requires
        0 <= i < j < MAX_BUTTONS,
    ensures
        !(rect_contains(button_rect(i), px, py) && rect_contains(button_rect(j), px, py)),
{
    assert(i * 44 + 44 <= j * 44) by (nonlinear_arith)
        requires
            i < j,
    ;
    assert(0 <= i * 44) by (nonlinear_arith)
        requires
            0 <= i,
    ;
    assert(j * 44 <= MAX_BUTTONS * 44) by (nonlinear_arith)
        requires
            j < MAX_BUTTONS,
    ;
}

/// Updating the bar twice with the same workspaces redraws nothing the
/// second time.
pub proof fn lemma_update_idempotent(old: Seq<ButtonView>, ids: Seq<u64>, active_id: u64, i: int)
    requires
        0 <= i < ids.len(),
    ensures
        ({
            let new = Seq::new(ids.len(), |k: int| updated_button(old, k, ids[k], active_id));
            !label_changed(new, i, ids[i], active_id) && updated_button(new, i, ids[i], active_id)
                == new[i]
        }),
{
}

/// Horizontal padding between a label buffer's edge and its text.
pub const LABEL_PAD: i32 = 2;

/// Whether pixel `(x, y)` of a `bw` × `bh` buffer lies under a glyph
/// coverage box of `gw` × `gh` placed at `(gx + pad, gy + pad)`.
pub open spec fn glyph_covers(x: int, y: int, bw: int, bh: int, pad: int, gx: int, gy: int, gw: int, gh: int) -> bool {
    &&& 0 <= x < bw
    &&& 0 <= y < bh
    &&& gx + pad <= x < gx + pad + gw
    &&& gy + pad <= y < gy + pad + gh
}

/// `dst` blended towards `src` by `alpha`/255, rounding down.
pub open spec fn blend_channel(dst: u8, src: u8, alpha: u8) -> u8 {
    ((dst * (255 - alpha) + src * alpha) / 255) as u8
}

/// Byte `i` of a BGRA buffer after a glyph box of colour `(r, g, b)` and
/// coverage `alpha` is blended over it: colour channels blend, alpha
/// becomes opaque; bytes outside the box keep their value.
pub open spec fn glyph_byte(
    old_byte: u8,
    i: int,
    bw: int,
    bh: int,
    pad: int,
    gx: int,
    gy: int,
    gw: int,
    gh: int,
    r: u8,
    g: u8,
    b: u8,
    alpha: u8,
) -> u8 {
    if alpha != 0 && bw > 0 && bh > 0 && i < bw * bh * 4 && glyph_covers(
        (i / 4) % bw,
        (i / 4) / bw,
        bw,
        bh,
        pad,
        gx,
        gy,
        gw,
        gh,
    ) {
        let k = i % 4;
        if k == 3 {
            255u8
        } else if k == 0 {
            blend_channel(old_byte, b, alpha)
        } else if k == 1 {
            blend_channel(old_byte, g, alpha)
        } else {
            blend_channel(old_byte, r, alpha)
        }
    } else {
        old_byte
    }
}

proof fn lemma_buffer_pixel(x: int, y: int, w: int, k: int)
    requires
        0 <= x < w,
        0 <= y,
        0 <= k < 4,
    ensures
        ((y * w + x) * 4 + k) / 4 == y * w + x,
        ((y * w + x) * 4 + k) % 4 == k,
        (y * w + x) % w == x,
        (y * w + x) / w == y,
{
    vstd::arithmetic::div_mod::lemma_fundamental_div_mod_converse((y * w + x) * 4 + k, 4, y * w + x, k);
    vstd::arithmetic::div_mod::lemma_fundamental_div_mod_converse(y * w + x, w, y, x);
}

/// Blends one glyph's coverage box into a `buf_w` × `buf_h` BGRA label
/// buffer, offset by `pad`: within the buffer, each covered pixel's colour
/// channels move towards `(r, g, b)` by `alpha`/255 and its alpha channel
/// becomes 255. Nothing changes when `alpha` is zero. The box sizes come
/// as `u32` and are read as `i32`.
pub fn blend_glyph(
    data: &mut [u8],
    buf_w: i32,
    buf_h: i32,
    pad: i32,
    gx: i32,
    gy: i32,
    gw: u32,
    gh: u32,
    r: u8,
    g: u8,
    b: u8,
    alpha: u8,
)
    requires
        buf_w > 0 && buf_h > 0 ==> buf_w * buf_h * 4 <= i32::MAX,
        buf_w > 0 && buf_h > 0 ==> buf_w * buf_h * 4 <= old(data)@.len(),
        pad >= 0,
        (gw as i32) > 0 ==> gx + (gw as i32) + pad <= i32::MAX + 1,
        (gh as i32) > 0 ==> gy + (gh as i32) + pad <= i32::MAX + 1,
    ensures
        final(data)@.len() == old(data)@.len(),
        forall|i: int|
            0 <= i < old(data)@.len() ==> #[trigger] final(data)@[i] == glyph_byte(
                old(data)@[i],
                i,
                buf_w as int,
                buf_h as int,
                pad as int,
                gx as int,
                gy as int,
                (gw as i32) as int,
                (gh as i32) as int,
                r,
                g,
                b,
                alpha,
            ),
{
    if alpha == 0 {
        return;
    }
    let ghost start = data@;
    let gw_i = gw as i32;
    let gh_i = gh as i32;
    if buf_w <= 0 || buf_h <= 0 {
        assert forall|i: int| 0 <= i < start.len() implies #[trigger] data@[i] == glyph_byte(
            start[i], i, buf_w as int, buf_h as int, pad as int, gx as int, gy as int, gw_i as int, gh_i as int, r, g, b, alpha) by {}
        return;
    }
    let inv: u32 = 255 - alpha as u32;
    assert(buf_w * 4 <= buf_w * buf_h * 4) by (nonlinear_arith)
        requires
            buf_w > 0,
            buf_h > 0,
    ;
    let stride = buf_w * 4;
    let mut dy: i32 = 0;
    while dy < gh_i
        invariant
            stride == buf_w * 4,
            alpha != 0,
            inv == 255 - alpha,
            buf_w > 0,
            buf_h > 0,
            buf_w * buf_h * 4 <= i32::MAX,
            buf_w * buf_h * 4 <= start.len(),
            pad >= 0,
            gw_i == gw as i32,
            gh_i == gh as i32,
            gw_i > 0 ==> gx + gw_i + pad <= i32::MAX + 1,
            gh_i > 0 ==> gy + gh_i + pad <= i32::MAX + 1,
            0 <= dy,
            dy <= gh_i || dy == 0,
            data@.len() == start.len(),
            forall|i: int|
                0 <= i < start.len() ==> #[trigger] data@[i] == if i < buf_w * buf_h * 4 && (i / 4) / (buf_w as int) < gy + pad + dy {
                    glyph_byte(start[i], i, buf_w as int, buf_h as int, pad as int, gx as int, gy as int, gw_i as int, gh_i as int, r, g, b, alpha)
                } else {
                    start[i]
                },
        decreases gh_i - dy,
    {
        let mut dx: i32 = 0;
        while dx < gw_i
            invariant
                stride == buf_w * 4,
                alpha != 0,
                inv == 255 - alpha,
                buf_w > 0,
                buf_h > 0,
                buf_w * buf_h * 4 <= i32::MAX,
                buf_w * buf_h * 4 <= start.len(),
                pad >= 0,
                gw_i == gw as i32,
                gh_i == gh as i32,
                gw_i > 0 ==> gx + gw_i + pad <= i32::MAX + 1,
                gh_i > 0 ==> gy + gh_i + pad <= i32::MAX + 1,
                0 <= dy < gh_i,
                0 <= dx,
                dx <= gw_i || dx == 0,
                data@.len() == start.len(),
                forall|i: int|
                    0 <= i < start.len() ==> #[trigger] data@[i] == if i < buf_w * buf_h * 4 && ((i / 4) / (buf_w as int) < gy + pad + dy
                        || ((i / 4) / (buf_w as int) == gy + pad + dy && (i / 4) % (buf_w as int) < gx + pad + dx)) {
                        glyph_byte(start[i], i, buf_w as int, buf_h as int, pad as int, gx as int, gy as int, gw_i as int, gh_i as int, r, g, b, alpha)
                    } else {
                        start[i]
                    },
            decreases gw_i - dx,
        {
            let x = gx + dx + pad;
            let y = gy + dy + pad;
            if !(x < 0 || x >= buf_w || y < 0 || y >= buf_h) {
                proof {
                    assert(0 <= y * buf_w) by (nonlinear_arith)
                        requires
                            0 <= y,
                            0 < buf_w,
                    ;
                    assert(y * buf_w * 4 + x * 4 + 4 <= buf_w * buf_h * 4) by (nonlinear_arith)
                        requires
                            0 <= x < buf_w,
                            0 <= y < buf_h,
                    ;
                    assert(y * (buf_w * 4) == y * buf_w * 4) by (nonlinear_arith);
                    assert(y * buf_w * 4 + x * 4 == (y * buf_w + x) * 4) by (nonlinear_arith);
                }
                let off = (y * stride + x * 4) as usize;
                proof {
                    lemma_buffer_pixel(x as int, y as int, buf_w as int, 0);
                    lemma_buffer_pixel(x as int, y as int, buf_w as int, 1);
                    lemma_buffer_pixel(x as int, y as int, buf_w as int, 2);
                    lemma_buffer_pixel(x as int, y as int, buf_w as int, 3);
                    assert((b as u32) * (alpha as u32) <= 255 * 255) by (nonlinear_arith)
                        requires
                            b <= 255,
                            alpha <= 255,
                    ;
                }
                let ghost before = data@;
                let db = data[off] as u32;
                let dg = data[off + 1] as u32;
                let dr = data[off + 2] as u32;
                proof {
                    assert(db * inv <= 255 * 255) by (nonlinear_arith)
                        requires
                            db <= 255,
                            inv <= 255,
                    ;
                    assert(dg * inv <= 255 * 255) by (nonlinear_arith)
                        requires
                            dg <= 255,
                            inv <= 255,
                    ;
                    assert(dr * inv <= 255 * 255) by (nonlinear_arith)
                        requires
                            dr <= 255,
                            inv <= 255,
                    ;
                    assert((g as u32) * (alpha as u32) <= 255 * 255) by (nonlinear_arith)
                        requires
                            g <= 255,
                            alpha <= 255,
                    ;
                    assert((r as u32) * (alpha as u32) <= 255 * 255) by (nonlinear_arith)
                        requires
                            r <= 255,
                            alpha <= 255,
                    ;
                }
                let a32 = alpha as u32;
                data[off] = ((db * inv + b as u32 * a32) / 255) as u8;
                data[off + 1] = ((dg * inv + g as u32 * a32) / 255) as u8;
                data[off + 2] = ((dr * inv + r as u32 * a32) / 255) as u8;
                data[off + 3] = 255;
                proof {
                    assert forall|i: int| 0 <= i < start.len() implies #[trigger] data@[i] == if i < buf_w * buf_h * 4 && ((i / 4) / (buf_w as int) < gy + pad + dy
                        || ((i / 4) / (buf_w as int) == gy + pad + dy && (i / 4) % (buf_w as int) < gx + pad + dx + 1)) {
                        glyph_byte(start[i], i, buf_w as int, buf_h as int, pad as int, gx as int, gy as int, gw_i as int, gh_i as int, r, g, b, alpha)
                    } else {
                        start[i]
                    } by {
                        if off <= i < off + 4 {
                            let k = i - off;
                            assert(i == (y * buf_w + x) * 4 + k);
                            lemma_buffer_pixel(x as int, y as int, buf_w as int, k);
                            assert(before[i] == start[i]);
                        } else if i < buf_w * buf_h * 4 && (i / 4) / (buf_w as int) == gy + pad + dy && (i / 4) % (buf_w as int) == gx + pad + dx {
                            let p = i / 4;
                            assert(p == y * buf_w + x) by {
                                vstd::arithmetic::div_mod::lemma_fundamental_div_mod(p, buf_w as int);
                                assert((buf_w as int) * (y as int) == (y as int) * (buf_w as int)) by (nonlinear_arith);
                            }
                            assert(i / 4 == y * buf_w + x);
                            vstd::arithmetic::div_mod::lemma_fundamental_div_mod(i, 4);
                            assert(off <= i < off + 4);
                        }
                    }
                }
            } else {
                proof {
                    assert forall|i: int| 0 <= i < start.len() implies #[trigger] data@[i] == if i < buf_w * buf_h * 4 && ((i / 4) / (buf_w as int) < gy + pad + dy
                        || ((i / 4) / (buf_w as int) == gy + pad + dy && (i / 4) % (buf_w as int) < gx + pad + dx + 1)) {
                        glyph_byte(start[i], i, buf_w as int, buf_h as int, pad as int, gx as int, gy as int, gw_i as int, gh_i as int, r, g, b, alpha)
                    } else {
                        start[i]
                    } by {
                        if i < buf_w * buf_h * 4 && (i / 4) / (buf_w as int) == gy + pad + dy && (i / 4) % (buf_w as int) == gx + pad + dx {
                            assert(0 <= (i / 4) % (buf_w as int) < buf_w);
                            assert(0 <= (i / 4) / (buf_w as int) < buf_h) by {
                                vstd::arithmetic::div_mod::lemma_fundamental_div_mod(i / 4, buf_w as int);
                                assert((i / 4) < buf_w * buf_h);
                                if (i / 4) / (buf_w as int) >= buf_h {
                                    assert(buf_w * ((i / 4) / (buf_w as int)) >= buf_w * buf_h) by (nonlinear_arith)
                                        requires
                                            (i / 4) / (buf_w as int) >= buf_h,
                                            buf_w > 0,
                                    ;
                                }
                            }
                        }
                    }
                }
            }
            dx = dx + 1;
        }
        proof {
            assert forall|i: int| 0 <= i < start.len() implies #[trigger] data@[i] == if i < buf_w * buf_h * 4 && (i / 4) / (buf_w as int) < gy + pad + dy + 1 {
                glyph_byte(start[i], i, buf_w as int, buf_h as int, pad as int, gx as int, gy as int, gw_i as int, gh_i as int, r, g, b, alpha)
            } else {
                start[i]
            } by {
                if i < buf_w * buf_h * 4 && (i / 4) / (buf_w as int) == gy + pad + dy && (i / 4) % (buf_w as int) >= gx + pad + gw_i {
                    assert(!glyph_covers((i / 4) % (buf_w as int), (i / 4) / (buf_w as int), buf_w as int, buf_h as int, pad as int, gx as int, gy as int, gw_i as int, gh_i as int));
                }
                if i < buf_w * buf_h * 4 && (i / 4) / (buf_w as int) == gy + pad + dy && (i / 4) % (buf_w as int) < gx + pad {
                    assert(!glyph_covers((i / 4) % (buf_w as int), (i / 4) / (buf_w as int), buf_w as int, buf_h as int, pad as int, gx as int, gy as int, gw_i as int, gh_i as int));
                }
            }
        }
        dy = dy + 1;
    }
    proof {
        assert forall|i: int| 0 <= i < start.len() implies #[trigger] data@[i] == glyph_byte(
            start[i], i, buf_w as int, buf_h as int, pad as int, gx as int, gy as int, gw_i as int, gh_i as int, r, g, b, alpha) by {
            if i < buf_w * buf_h * 4 && (i / 4) / (buf_w as int) >= gy + pad + dy {
                assert(!glyph_covers((i / 4) % (buf_w as int), (i / 4) / (buf_w as int), buf_w as int, buf_h as int, pad as int, gx as int, gy as int, gw_i as int, gh_i as int));
            }
        }
    }
}

} // verus!
