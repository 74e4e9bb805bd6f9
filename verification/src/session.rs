//! The per-client session's control discipline: what a subscriber's
//! inbound frame makes the session do.  Sessions never mutate shared
//! state; the caller performs the chosen action.

use vstd::prelude::*;

verus! {

/// What `str::trim` leaves of a string.
pub uninterp spec fn trim_of(s: Seq<char>) -> Seq<char>;

/// Relies on str::trim: the input without leading and trailing
/// whitespace, a function of the string alone.
#[verifier::external_body]
fn str_trim(s: &str) -> (r: &str)
    ensures
        r@ == trim_of(s@),
{
    s.trim()
}

/// An inbound frame, reduced to what the control discipline reads.
pub enum InboundFrame {
    Text(String),
    Close,
    Other,
}

/// What the session does with an inbound frame.
pub enum ControlAction {
    SendTopology,
    Disconnect,
    Ignore,
}

/// The action for a frame: a text frame whose trimmed content is
/// `topology` requests a fresh snapshot, a close frame ends the
/// session, anything else is ignored.
pub open spec fn action_of(f: InboundFrame) -> ControlAction {
    match f {
        InboundFrame::Text(t) => if trim_of(t@) == "topology"@ {
            ControlAction::SendTopology
        } else {
            ControlAction::Ignore
        },
        InboundFrame::Close => ControlAction::Disconnect,
        InboundFrame::Other => ControlAction::Ignore,
    }
}

/// Compare a string slice with `topology`.
fn is_topology_text(t: &str) -> (r: bool)
    ensures
        r == (t@ == "topology"@),
{
    let pat = "topology";
    let n = t.unicode_len();
    let m = pat.unicode_len();
    if n != m {
        return false;
    }
    let mut i: usize = 0;
    while i < n
        invariant
            i <= n,
            n == t@.len(),
            n == pat@.len(),
            pat@ == "topology"@,
            forall|j: int| 0 <= j < i ==> t@[j] == pat@[j],
        decreases n - i,
    {
        if t.get_char(i) != pat.get_char(i) {
            return false;
        }
        i = i + 1;
    }
    proof {
        assert(t@ =~= pat@);
    }
    true
}

/// Decide what to do with an inbound frame.
pub fn control_action(f: &InboundFrame) -> (a: ControlAction)
    ensures
        a == action_of(*f),
{
    match f {
        InboundFrame::Text(t) => {
            let trimmed = str_trim(t.as_str());
            if is_topology_text(trimmed) {
                ControlAction::SendTopology
            } else {
                ControlAction::Ignore
            }
        }
        InboundFrame::Close => ControlAction::Disconnect,
        InboundFrame::Other => ControlAction::Ignore,
    }
}

} // verus!
