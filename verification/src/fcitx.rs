//! Reply synthesis for intercepted fcitx5 method calls.
//!
//! Given a parsed request header and the classified method, build the
//! bytes the broker writes back to the client. The request is not
//! forwarded to a real fcitx5 on this path.

use vstd::prelude::*;
use vstd::utf8::encode_utf8;

use crate::encode::{
    body_bool, body_empty, body_oay, method_return_bytes, oay_data, opt_len_ok, opt_str_chars,
    Body, MethodReturn,
};
use crate::ic::{ic_path, ic_uuid, is_fresh_state, IcRegistry, IcState};
use crate::message::{opt_chars, spec_parse_header, Header, HeaderView, ParseError};
use crate::roundtrip::{lemma_reply_parses_back, reply_header};
use crate::wire::le_bytes;

verus! {

/// A method call on the fcitx5 input-method interfaces, with its
/// arguments.
#[derive(Debug)]
pub enum FcitxMethod {
    CreateInputContext { hints: Vec<(String, String)> },
    ProcessKeyEvent {
        ic_path: String,
        keyval: u32,
        keycode: u32,
        state: u32,
        is_release: bool,
        time: u32,
    },
    DestroyIC { ic_path: String },
    FocusIn { ic_path: String },
    FocusOut { ic_path: String },
    SetCapability { ic_path: String, capability: u64 },
    SetCursorRect { ic_path: String, x: i32, y: i32, w: i32, h: i32 },
    /// `scale_bits` holds the bit pattern of the `f64` scale factor.
    SetCursorRectV2 { ic_path: String, x: i32, y: i32, w: i32, h: i32, scale_bits: u64 },
    SetCursorLocation { ic_path: String, x: i32, y: i32 },
    Reset { ic_path: String },
    SetSurroundingText { ic_path: String, text: String, cursor: u32, anchor: u32 },
    SetSurroundingTextPosition { ic_path: String, cursor: u32, anchor: u32 },
}

/// The serial that follows `c`: one more, wrapping past `u32::MAX` to 1.
pub open spec fn next_serial(c: u32) -> u32 {
    if c == u32::MAX {
        1
    } else {
        (c + 1) as u32
    }
}

/// Increments `counter`, skipping zero (D-Bus serials must be non-zero),
/// and returns the new value. Wraps around `u32::MAX` to 1.
pub fn next_nonzero(counter: &mut u32) -> (serial: u32)
    ensures
        serial == next_serial(*old(counter)),
        serial != 0,
        *final(counter) == serial,
{
    *counter = counter.wrapping_add(1);
    if *counter == 0 {
        *counter = 1;
    }
    *counter
}

/// The signature of the reply body for `m`.
pub open spec fn reply_signature(m: FcitxMethod) -> Seq<char> {
    match m {
        FcitxMethod::CreateInputContext { .. } => seq!['(', 'o', 'a', 'y', ')'],
        FcitxMethod::ProcessKeyEvent { .. } => seq!['b'],
        _ => Seq::empty(),
    }
}

/// The reply body for `m`; `id` numbers the context a
/// `CreateInputContext` allocates. `ProcessKeyEvent` is answered `false`:
/// the key is not consumed and passes through to the client widget.
pub open spec fn reply_data(m: FcitxMethod, id: nat) -> Seq<u8> {
    match m {
        FcitxMethod::CreateInputContext { .. } => oay_data(encode_utf8(ic_path(id)), ic_uuid(id)),
        FcitxMethod::ProcessKeyEvent { .. } => le_bytes(0),
        _ => Seq::empty(),
    }
}

pub open spec fn with_focus(reg: Map<Seq<char>, IcState>, p: Seq<char>, focused: bool) -> Map<
    Seq<char>,
    IcState,
> {
    if reg.contains_key(p) {
        reg.insert(p, IcState { focused, ..reg[p] })
    } else {
        reg
    }
}

pub open spec fn with_rect(reg: Map<Seq<char>, IcState>, p: Seq<char>, rect: [i32; 4]) -> Map<
    Seq<char>,
    IcState,
> {
    if reg.contains_key(p) {
        reg.insert(p, IcState { cursor_rect: Some(rect), ..reg[p] })
    } else {
        reg
    }
}

/// What every method but `CreateInputContext` does to the registry.
pub open spec fn registry_effect(reg: Map<Seq<char>, IcState>, m: FcitxMethod) -> Map<
    Seq<char>,
    IcState,
> {
    match m {
        FcitxMethod::DestroyIC { ic_path } => reg.remove(ic_path@),
        FcitxMethod::FocusIn { ic_path } => with_focus(reg, ic_path@, true),
        FcitxMethod::FocusOut { ic_path } => with_focus(reg, ic_path@, false),
        FcitxMethod::SetCapability { ic_path, capability } => if reg.contains_key(ic_path@) {
            reg.insert(ic_path@, IcState { capability, ..reg[ic_path@] })
        } else {
            reg
        },
        FcitxMethod::SetCursorRect { ic_path, x, y, w, h } => with_rect(reg, ic_path@, [x, y, w, h]),
        FcitxMethod::SetCursorRectV2 { ic_path, x, y, w, h, .. } => with_rect(
            reg,
            ic_path@,
            [x, y, w, h],
        ),
        FcitxMethod::SetCursorLocation { ic_path, x, y } => with_rect(reg, ic_path@, [x, y, 0, 0]),
        _ => reg,
    }
}

/// The input context a method call names, if it names one.
pub open spec fn method_target(m: FcitxMethod) -> Option<Seq<char>> {
    match m {
        FcitxMethod::CreateInputContext { .. } => None,
        FcitxMethod::ProcessKeyEvent { ic_path, .. } => Some(ic_path@),
        FcitxMethod::DestroyIC { ic_path } => Some(ic_path@),
        FcitxMethod::FocusIn { ic_path } => Some(ic_path@),
        FcitxMethod::FocusOut { ic_path } => Some(ic_path@),
        FcitxMethod::SetCapability { ic_path, .. } => Some(ic_path@),
        FcitxMethod::SetCursorRect { ic_path, .. } => Some(ic_path@),
        FcitxMethod::SetCursorRectV2 { ic_path, .. } => Some(ic_path@),
        FcitxMethod::SetCursorLocation { ic_path, .. } => Some(ic_path@),
        FcitxMethod::Reset { ic_path } => Some(ic_path@),
        FcitxMethod::SetSurroundingText { ic_path, .. } => Some(ic_path@),
        FcitxMethod::SetSurroundingTextPosition { ic_path, .. } => Some(ic_path@),
    }
}

/// Whether the call only reads the registry.
pub open spec fn is_read_only(m: FcitxMethod) -> bool {
    ||| m is ProcessKeyEvent
    ||| m is Reset
    ||| m is SetSurroundingText
    ||| m is SetSurroundingTextPosition
}

/// Only `CreateInputContext` and `DestroyIC` change which contexts are
/// live. Every other call leaves the set of live contexts as it is,
/// changes at most the context it names, and changes nothing when that
/// context is not live; the read-only calls change nothing at all.
/// `DestroyIC` removes exactly the context it names.
pub proof fn lemma_methods_keep_contexts(reg: Map<Seq<char>, IcState>, m: FcitxMethod)
    requires
        !(m is CreateInputContext),
    ensures
        !(m is DestroyIC) ==> registry_effect(reg, m).dom() == reg.dom(),
        m matches FcitxMethod::DestroyIC { ic_path } ==> registry_effect(reg, m).dom() == reg.dom().remove(
            ic_path@,
        ),
        forall|p: Seq<char>|
            reg.contains_key(p) && method_target(m) != Some(p) ==> #[trigger] registry_effect(reg, m).contains_key(p)
                && registry_effect(reg, m)[p] == reg[p],
        method_target(m) matches Some(p) && !reg.contains_key(p) ==> registry_effect(reg, m) == reg,
        is_read_only(m) ==> registry_effect(reg, m) == reg,
{
    let e = registry_effect(reg, m);
    match m {
        FcitxMethod::DestroyIC { ic_path } => {
            assert(e.dom() =~= reg.dom().remove(ic_path@));
            if !reg.contains_key(ic_path@) {
                assert(e =~= reg);
            }
        },
        _ => {
            assert(e.dom() =~= reg.dom());
        },
    }
}

fn opt_as_str(o: &Option<String>) -> (r: Option<&str>)
    ensures
        opt_str_chars(r) == opt_chars(*o),
{
    match o {
        Some(s) => Some(s.as_str()),
        None => None,
    }
}

proof fn lemma_ic_path_bytes(id: u64)
    ensures
        encode_utf8(ic_path(id as nat)).len() <= 4 * 57,
{
    reveal_strlit("/org/freedesktop/portal/inputcontext/");
    crate::text::lemma_decimal_len_u64(id);
    crate::text::lemma_encode_utf8_len(ic_path(id as nat));
}

/// Mints the synthetic method return for `method`.
///
/// `CreateInputContext` allocates a context and `DestroyIC` frees one;
/// focus, capability and cursor calls update the context they name, if it
/// is live; the rest leave the registry as it is. `serial_counter` is the
/// per-connection outgoing serial counter. The reply goes to the request's
/// sender, comes from the request's destination, and answers the
/// request's serial.
pub fn build_reply(
    request: &Header,
    method: &FcitxMethod,
    registry: &mut IcRegistry,
    serial_counter: &mut u32,
) -> (r: Vec<u8>)
    requires
        opt_len_ok(opt_chars(request.sender)),
        opt_len_ok(opt_chars(request.destination)),
        method is CreateInputContext ==> old(registry).allocated() < u64::MAX,
    ensures
        *final(serial_counter) == next_serial(*old(serial_counter)),
        r@ == method_return_bytes(
            next_serial(*old(serial_counter)),
            request.serial,
            opt_chars(request.sender),
            opt_chars(request.destination),
            reply_signature(*method),
            reply_data(*method, old(registry).allocated() + 1),
        ),
        spec_parse_header(r@) == Ok::<HeaderView, ParseError>(
            reply_header(
                next_serial(*old(serial_counter)),
                request.serial,
                opt_chars(request.sender),
                opt_chars(request.destination),
                reply_signature(*method),
                reply_data(*method, old(registry).allocated() + 1).len() as u32,
            ),
        ),
        method is CreateInputContext ==> {
            &&& final(registry).allocated() == old(registry).allocated() + 1
            &&& !old(registry)@.contains_key(ic_path(old(registry).allocated() + 1))
            &&& exists|s: IcState|
                #[trigger] is_fresh_state(s, old(registry).allocated() + 1) && final(registry)@ == old(
                    registry,
                )@.insert(ic_path(old(registry).allocated() + 1), s)
        },
        !(method is CreateInputContext) ==> {
            &&& final(registry).allocated() == old(registry).allocated()
            &&& final(registry)@ == registry_effect(old(registry)@, *method)
        },
        final(registry)@.dom().finite(),
        !(method is CreateInputContext) && !(method is DestroyIC) ==> final(registry)@.dom() == old(
            registry,
        )@.dom(),
        is_read_only(*method) ==> final(registry)@ == old(registry)@,
        method is CreateInputContext ==> final(registry)@.len() == old(registry)@.len() + 1,
        method matches FcitxMethod::DestroyIC { ic_path } ==> final(registry)@.len() == (if old(
            registry,
        )@.contains_key(ic_path@) {
            old(registry)@.len() - 1
        } else {
            old(registry)@.len() as int
        }),
{
    proof {
        registry.lemma_finite();
    }
    let our_serial = next_nonzero(serial_counter);
    let sender = opt_as_str(&request.destination);
    let destination = opt_as_str(&request.sender);
    let reply_to_serial = request.serial;
    let ghost id = registry.allocated() + 1;
    let body: Body = match method {
        FcitxMethod::CreateInputContext { .. } => {
            let (path, state) = registry.allocate();
            proof {
                lemma_ic_path_bytes(id as u64);
            }
            body_oay(path.as_str(), state.uuid.as_slice())
        },
        FcitxMethod::ProcessKeyEvent { .. } => body_bool(false),
        FcitxMethod::DestroyIC { ic_path } => {
            registry.destroy(ic_path);
            body_empty()
        },
        FcitxMethod::FocusIn { ic_path } => {
            registry.set_focused(ic_path, true);
            body_empty()
        },
        FcitxMethod::FocusOut { ic_path } => {
            registry.set_focused(ic_path, false);
            body_empty()
        },
        FcitxMethod::SetCapability { ic_path, capability } => {
            registry.set_capability(ic_path, *capability);
            body_empty()
        },
        FcitxMethod::SetCursorRect { ic_path, x, y, w, h } => {
            registry.set_cursor_rect(ic_path, Some([*x, *y, *w, *h]));
            body_empty()
        },
        FcitxMethod::SetCursorRectV2 { ic_path, x, y, w, h, .. } => {
            registry.set_cursor_rect(ic_path, Some([*x, *y, *w, *h]));
            body_empty()
        },
        FcitxMethod::SetCursorLocation { ic_path, x, y } => {
            registry.set_cursor_rect(ic_path, Some([*x, *y, 0, 0]));
            body_empty()
        },
        FcitxMethod::Reset { .. }
        | FcitxMethod::SetSurroundingText { .. }
        | FcitxMethod::SetSurroundingTextPosition { .. } => body_empty(),
    };
    assert(body.signature@ == reply_signature(*method));
    assert(body.data@ == reply_data(*method, id));
    proof {
        crate::text::lemma_encode_utf8_len(body.signature@);
        lemma_reply_parses_back(
            our_serial,
            reply_to_serial,
            opt_str_chars(destination),
            opt_str_chars(sender),
            body.signature@,
            body.data@,
        );
    }
    proof {
        registry.lemma_finite();
        if !(method is CreateInputContext) {
            lemma_methods_keep_contexts(old(registry)@, *method);
        }
    }
    let reply = MethodReturn { our_serial, reply_to_serial, destination, sender, body };
    reply.encode()
}

} // verus!
