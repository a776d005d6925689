//! Requests from the editor for the host window (title, fullscreen,
//! maximized) wait here until the next frame hands them to the window.

use vstd::prelude::*;

verus! {

/// One call on the host window.
#[derive(Debug, PartialEq, Eq)]
pub enum HostWindowCall {
    SetTitle(String),
    /// `true`: borderless fullscreen on the current monitor; `false`: windowed.
    SetFullscreen(bool),
    SetMaximized(bool),
}

pub enum HostWindowCallView {
    SetTitle(Seq<char>),
    SetFullscreen(bool),
    SetMaximized(bool),
}

impl View for HostWindowCall {
    type V = HostWindowCallView;

    open spec fn view(&self) -> HostWindowCallView {
        match self {
            HostWindowCall::SetTitle(t) => HostWindowCallView::SetTitle(t@),
            HostWindowCall::SetFullscreen(b) => HostWindowCallView::SetFullscreen(*b),
            HostWindowCall::SetMaximized(b) => HostWindowCallView::SetMaximized(*b),
        }
    }
}

/// What the editor has asked of the host window since the last frame.
pub struct PendingHostState {
    pub title: Option<String>,
    pub fullscreen: Option<bool>,
    pub maximize: Option<bool>,
}

/// The calls that carry out the pending requests: the title first, then
/// fullscreen, then maximized, each only where it was asked for.
pub open spec fn pending_calls(
    title: Option<Seq<char>>,
    fullscreen: Option<bool>,
    maximize: Option<bool>,
) -> Seq<HostWindowCallView> {
    let t = match title {
        Some(s) => seq![HostWindowCallView::SetTitle(s)],
        None => Seq::empty(),
    };
    let f = match fullscreen {
        Some(b) => seq![HostWindowCallView::SetFullscreen(b)],
        None => Seq::empty(),
    };
    let m = match maximize {
        Some(b) => seq![HostWindowCallView::SetMaximized(b)],
        None => Seq::empty(),
    };
    t + f + m
}

impl PendingHostState {
    pub fn new() -> (s: Self)
        ensures
            s.title is None,
            s.fullscreen is None,
            s.maximize is None,
    {
        PendingHostState { title: None, fullscreen: None, maximize: None }
    }

    /// Takes every pending request, leaving none, and returns the calls
    /// that carry them out.
    pub fn take_calls(&mut self) -> (calls: Vec<HostWindowCall>)
        ensures
            final(self).title is None,
            final(self).fullscreen is None,
            final(self).maximize is None,
            calls@.map_values(|c: HostWindowCall| c@) == pending_calls(
                match old(self).title {
                    Some(t) => Some(t@),
                    None => None,
                },
                old(self).fullscreen,
                old(self).maximize,
            ),
    {
        let mut calls: Vec<HostWindowCall> = Vec::new();
        let title = self.title.take();
        let ghost t = match title {
            Some(ref s) => seq![HostWindowCallView::SetTitle(s@)],
            None => Seq::<HostWindowCallView>::empty(),
        };
        if let Some(s) = title {
            calls.push(HostWindowCall::SetTitle(s));
        }
        assert(calls@.map_values(|c: HostWindowCall| c@) =~= t);
        let ghost f = match self.fullscreen {
            Some(b) => seq![HostWindowCallView::SetFullscreen(b)],
            None => Seq::<HostWindowCallView>::empty(),
        };
        if let Some(b) = self.fullscreen.take() {
            calls.push(HostWindowCall::SetFullscreen(b));
        }
        assert(calls@.map_values(|c: HostWindowCall| c@) =~= t + f);
        let ghost m = match self.maximize {
            Some(b) => seq![HostWindowCallView::SetMaximized(b)],
            None => Seq::<HostWindowCallView>::empty(),
        };
        if let Some(b) = self.maximize.take() {
            calls.push(HostWindowCall::SetMaximized(b));
        }
        assert(calls@.map_values(|c: HostWindowCall| c@) =~= t + f + m);
        calls
    }
}

} // verus!
