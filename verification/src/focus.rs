//! Which surface receives text-input `enter` and `leave` when keyboard
//! focus moves. Surfaces are named by integer ids.

use vstd::prelude::*;

verus! {

/// One call on the seat's text-input handle.
#[derive(Debug, PartialEq, Eq)]
pub enum TextInputCall {
    /// Point the handle at a surface, or at none.
    SetFocus(Option<u64>),
    /// Send `leave` to the surface the handle points at.
    Leave,
    /// Send `enter` to the surface the handle points at.
    Enter,
}

/// The calls that move text-input focus from `old` to `new`: nothing when
/// focus stays; otherwise `leave` to the old surface (if any), then the
/// handle points at the new surface, which gets `enter` (if any).
pub open spec fn text_input_calls(old: Option<u64>, new: Option<u64>) -> Seq<TextInputCall> {
    if old == new {
        Seq::empty()
    } else {
        let leave = match old {
            Some(_) => seq![TextInputCall::SetFocus(old), TextInputCall::Leave],
            None => Seq::empty(),
        };
        let enter = match new {
            Some(_) => seq![TextInputCall::Enter],
            None => Seq::empty(),
        };
        leave + seq![TextInputCall::SetFocus(new)] + enter
    }
}

/// The calls to make on the text-input handle when keyboard focus moves
/// from the surface `old` to the surface `new`.
pub fn text_input_focus_change(old: Option<u64>, new: Option<u64>) -> (calls: Vec<TextInputCall>)
    ensures
        calls@ == text_input_calls(old, new),
{
    let same = match (old, new) {
        (Some(a), Some(b)) => a == b,
        (None, None) => true,
        _ => false,
    };
    let mut calls: Vec<TextInputCall> = Vec::new();
    if same {
        return calls;
    }
    if old.is_some() {
        calls.push(TextInputCall::SetFocus(old));
        calls.push(TextInputCall::Leave);
    }
    calls.push(TextInputCall::SetFocus(new));
    if new.is_some() {
        calls.push(TextInputCall::Enter);
    }
    proof {
        let leave = match old {
            Some(_) => seq![TextInputCall::SetFocus(old), TextInputCall::Leave],
            None => Seq::<TextInputCall>::empty(),
        };
        let enter = match new {
            Some(_) => seq![TextInputCall::Enter],
            None => Seq::<TextInputCall>::empty(),
        };
        assert(calls@ =~= leave + seq![TextInputCall::SetFocus(new)] + enter);
    }
    calls
}

/// A surface that keeps focus gets neither `leave` nor `enter`; a surface
/// that loses focus gets `leave` exactly once and never `enter`.
pub proof fn lemma_focus_calls_balanced(old: Option<u64>, new: Option<u64>)
    ensures
        old == new ==> text_input_calls(old, new).len() == 0,
        old != new && old is Some ==> {
            &&& text_input_calls(old, new)[0] == TextInputCall::SetFocus(old)
            &&& text_input_calls(old, new)[1] == TextInputCall::Leave
            &&& text_input_calls(old, new).filter(|c: TextInputCall| c == TextInputCall::Leave).len() == 1
        },
        old != new ==> text_input_calls(old, new).last() == (match new {
            Some(_) => TextInputCall::Enter,
            None => TextInputCall::SetFocus(None),
        }),
{
    let calls = text_input_calls(old, new);
    if old != new {
        let leave = match old {
            Some(_) => seq![TextInputCall::SetFocus(old), TextInputCall::Leave],
            None => Seq::<TextInputCall>::empty(),
        };
        let enter = match new {
            Some(_) => seq![TextInputCall::Enter],
            None => Seq::<TextInputCall>::empty(),
        };
        let is_leave = |c: TextInputCall| c == TextInputCall::Leave;
        if old is Some {
            reveal_with_fuel(Seq::filter, 6);
            assert(calls =~= leave + seq![TextInputCall::SetFocus(new)] + enter);
            assert(calls.filter(is_leave) =~= seq![TextInputCall::Leave]) by {
                assert(calls.len() <= 4);
                if new is Some {
                    assert(calls =~= seq![
                        TextInputCall::SetFocus(old),
                        TextInputCall::Leave,
                        TextInputCall::SetFocus(new),
                        TextInputCall::Enter,
                    ]);
                } else {
                    assert(calls =~= seq![
                        TextInputCall::SetFocus(old),
                        TextInputCall::Leave,
                        TextInputCall::SetFocus(new),
                    ]);
                }
            }
        }
    }
}

} // verus!
