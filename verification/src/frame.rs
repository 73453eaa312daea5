//! The course of a session from frame to frame.

use crate::bytes::byte_strings;
use crate::checksum::{digest_checksum, register_bytes, sha256, state_checksum};
use crate::mailbox::{delivered, process_reliable_messages, Effect, Mailbox};
use crate::netplay::{GgrsRequest, InputStatus, Netplay};
use crate::notice::Notice;
use vstd::prelude::*;

verus! {

/// The number by which a session says that no frame is confirmed.
pub const NULL_FRAME: i32 = -1;

/// The number of players on a console.
pub const PORTS: usize = 4;

/// What the session reports.
#[derive(Clone, Copy, Debug, PartialEq, Eq, Structural)]
pub enum SessionEvent {
    Synchronizing,
    Synchronized,
    Disconnected,
    NetworkInterrupted,
    NetworkResumed,
    WaitRecommendation { skip_frames: u32 },
    DesyncDetected,
}

/// Whether the session has ended after these events, and what has to be done about them.
pub open spec fn polled(disconnected: bool, events: Seq<SessionEvent>) -> (bool, Seq<Effect>)
    decreases events.len(),
{
    if events.len() == 0 {
        (disconnected, Seq::empty())
    } else {
        let (ended, effects) = polled(disconnected, events.drop_last());
        match events.last() {
            SessionEvent::Disconnected => (
                true,
                if ended {
                    effects
                } else {
                    effects.push(Effect::Show(Notice::LostConnection))
                },
            ),
            SessionEvent::DesyncDetected => (ended, effects.push(Effect::Show(Notice::Desync))),
            _ => (ended, effects),
        }
    }
}

/// The session has ended after these events exactly if it had before or one of them says that a
/// peer is gone; the player is told of a lost connection at most once, and only if it ended now.
pub proof fn law_polling(disconnected: bool, events: Seq<SessionEvent>)
    ensures
        polled(disconnected, events).0 == (disconnected || events.contains(
            SessionEvent::Disconnected,
        )),
        polled(disconnected, events).1.contains(Effect::Show(Notice::LostConnection)) <==> (
        !disconnected && events.contains(SessionEvent::Disconnected)),
        forall|i: int, j: int|
            0 <= i < polled(disconnected, events).1.len() && 0 <= j < polled(
                disconnected,
                events,
            ).1.len() && #[trigger] polled(disconnected, events).1[i] == Effect::Show(
                Notice::LostConnection,
            ) && #[trigger] polled(disconnected, events).1[j] == Effect::Show(
                Notice::LostConnection,
            ) ==> i == j,
    decreases events.len(),
{
    let lost = Effect::Show(Notice::LostConnection);
    if events.len() > 0 {
        let before = events.drop_last();
        law_polling(disconnected, before);
        let last = events.last();
        let gone = SessionEvent::Disconnected;
        assert(events.contains(gone) == (before.contains(gone) || last == gone)) by {
            if before.contains(gone) {
                let i = choose|i: int| 0 <= i < before.len() && before[i] == gone;
                assert(events[i] == gone);
            }
            if events.contains(gone) {
                let i = choose|i: int| 0 <= i < events.len() && events[i] == gone;
                if i < before.len() {
                    assert(before[i] == gone);
                }
            }
            assert(events[events.len() - 1] == last);
        }
        let e0 = polled(disconnected, before).1;
        let e1 = polled(disconnected, events).1;
        if e0.contains(lost) {
            let i = choose|i: int| 0 <= i < e0.len() && e0[i] == lost;
            assert(e1[i] == lost);
        }
        if e1.contains(lost) {
            let i = choose|i: int| 0 <= i < e1.len() && e1[i] == lost;
            if i < e0.len() {
                assert(e0[i] == lost);
            }
        }
        if last == gone && !polled(disconnected, before).0 {
            assert(e1[e1.len() - 1] == lost);
        }
        assert forall|i: int, j: int|
            0 <= i < e1.len() && 0 <= j < e1.len() && #[trigger] e1[i] == lost
                && #[trigger] e1[j] == lost implies i == j by {
            if i < e0.len() {
                assert(e0[i] == lost);
                assert(e0.contains(lost));
            }
            if j < e0.len() {
                assert(e0[j] == lost);
                assert(e0.contains(lost));
            }
        }
    }
}

/// Follows what the session reports: a peer that is gone ends it.
pub fn poll_clients<I, C>(netplay: &mut Netplay<I, C>, events: &Vec<SessionEvent>) -> (effects: Vec<
    Effect,
>)
    ensures
        (final(netplay).disconnected, effects@) == polled(old(netplay).disconnected, events@),
        *final(netplay) == (Netplay {
            disconnected: final(netplay).disconnected,
            ..*old(netplay)
        }),
        final(netplay).disconnected == (old(netplay).disconnected || events@.contains(
            SessionEvent::Disconnected,
        )),
        effects@.contains(Effect::Show(Notice::LostConnection)) <==> !old(netplay).disconnected
            && final(netplay).disconnected,
        effects@.contains(Effect::Show(Notice::Desync)) <==> events@.contains(
            SessionEvent::DesyncDetected,
        ),
{
    proof {
        law_polling(netplay.disconnected, events@);
        law_desyncs_shown(netplay.disconnected, events@);
        lemma_filter_found(
            polled(netplay.disconnected, events@).1,
            Effect::Show(Notice::Desync),
        );
        lemma_filter_found(events@, SessionEvent::DesyncDetected);
    }
    let mut effects: Vec<Effect> = Vec::new();
    let mut i: usize = 0;
    assert(events@.take(0) =~= Seq::empty());
    while i < events.len()
        invariant
            i <= events@.len(),
            (netplay.disconnected, effects@) == polled(
                old(netplay).disconnected,
                events@.take(i as int),
            ),
            *netplay == (Netplay { disconnected: netplay.disconnected, ..*old(netplay) }),
        decreases events@.len() - i,
    {
        assert(events@.take(i + 1).drop_last() =~= events@.take(i as int));
        match events[i] {
            SessionEvent::Disconnected => {
                if !netplay.disconnected {
                    netplay.disconnected = true;
                    effects.push(Effect::Show(Notice::LostConnection));
                }
            },
            SessionEvent::DesyncDetected => {
                effects.push(Effect::Show(Notice::Desync));
            },
            _ => {},
        }
        i = i + 1;
    }
    assert(events@.take(i as int) =~= events@);
    effects
}

/// The number of frames that wait to be run.
pub open spec fn frames_in<I, C>(requests: Seq<GgrsRequest<I, C>>) -> nat
    decreases requests.len(),
{
    if requests.len() == 0 {
        0
    } else {
        frames_in(requests.drop_last()) + if requests.last() is AdvanceFrame {
            1nat
        } else {
            0nat
        }
    }
}

/// Frames wait to be run exactly if a request to run one waits.
pub proof fn law_rollback<I, C>(requests: Seq<GgrsRequest<I, C>>)
    ensures
        frames_in(requests) != 0 <==> exists|i: int|
            0 <= i < requests.len() && (#[trigger] requests[i]) is AdvanceFrame,
    decreases requests.len(),
{
    if requests.len() > 0 {
        let before = requests.drop_last();
        law_rollback(before);
        if frames_in(before) != 0 {
            let i = choose|i: int| 0 <= i < before.len() && (#[trigger] before[i]) is AdvanceFrame;
            assert(requests[i] is AdvanceFrame);
        }
        if exists|i: int| 0 <= i < requests.len() && (#[trigger] requests[i]) is AdvanceFrame {
            let i = choose|i: int|
                0 <= i < requests.len() && (#[trigger] requests[i]) is AdvanceFrame;
            if i < before.len() {
                assert(before[i] is AdvanceFrame);
            }
        }
        assert(requests[requests.len() - 1] == requests.last());
    }
}

/// Counts the frames that wait to be run.
pub fn pending_frames<I, C>(netplay: &Netplay<I, C>) -> (count: usize)
    ensures
        count == frames_in(netplay.requests@),
        count == netplay.requests@.filter(|r: GgrsRequest<I, C>| r is AdvanceFrame).len(),
{
    let mut count: usize = 0;
    let mut i: usize = 0;
    let ghost all = netplay.requests@;
    assert(all.take(0) =~= Seq::empty());
    while i < netplay.requests.len()
        invariant
            all == netplay.requests@,
            i <= all.len(),
            count <= i,
            count == frames_in(all.take(i as int)),
        decreases all.len() - i,
    {
        assert(all.take(i + 1).drop_last() =~= all.take(i as int));
        if let GgrsRequest::AdvanceFrame { .. } = &netplay.requests[i] {
            count = count + 1;
        }
        i = i + 1;
    }
    assert(all.take(i as int) =~= all);
    proof {
        law_frames_counted(all);
    }
    count
}

/// Whether the session is catching up on frames; there is nothing to catch up without one.
pub fn in_rollback<I, C>(netplay: Option<&Netplay<I, C>>) -> (rolling: bool)
    ensures
        rolling == (match netplay {
            Some(netplay) => frames_in(netplay.requests@) != 0,
            None => false,
        }),
        rolling <==> netplay is Some && exists|i: int|
            0 <= i < netplay->0.requests@.len() && (
            #[trigger] netplay->0.requests@[i]) is AdvanceFrame,
{
    proof {
        if netplay is Some {
            law_rollback(netplay->0.requests@);
        }
    }
    match netplay {
        Some(netplay) => pending_frames(netplay) != 0,
        None => false,
    }
}

/// The next thing that the emulator does for the session.
pub enum RequestStep<I, C> {
    /// Save the state, at that frame and with that checksum, in the cell.
    Save { cell: C, frame: i32, checksum: u128 },
    /// Load the state from the cell.
    Load { cell: C, frame: i32 },
    /// Run one frame with these inputs.
    Advance { inputs: Vec<(I, InputStatus)> },
    /// Nothing is asked for: let the session go on.
    Idle,
}

/// Takes the oldest request of the session. `registers` are the coprocessor registers of the
/// machine.
pub fn process_requests<I, C>(netplay: &mut Netplay<I, C>, registers: &[u64]) -> (step: RequestStep<
    I,
    C,
>)
    ensures
        ({
            let requests = old(netplay).requests@;
            if requests.len() == 0 {
                step is Idle && final(netplay).requests@ == requests
            } else {
                &&& final(netplay).requests@ == requests.drop_first()
                &&& step == (match requests[0] {
                    GgrsRequest::SaveGameState { cell, frame } => RequestStep::Save {
                        cell,
                        frame,
                        checksum: digest_checksum(sha256(register_bytes(registers@))) as u128,
                    },
                    GgrsRequest::LoadGameState { cell, frame } => RequestStep::Load { cell, frame },
                    GgrsRequest::AdvanceFrame { inputs } => RequestStep::Advance { inputs },
                })
            }
        }),
        *final(netplay) == (Netplay { requests: final(netplay).requests, ..*old(netplay) }),
{
    match netplay.requests.pop_front() {
        Some(GgrsRequest::SaveGameState { cell, frame }) => {
            RequestStep::Save { cell, frame, checksum: state_checksum(registers) }
        },
        Some(GgrsRequest::LoadGameState { cell, frame }) => RequestStep::Load { cell, frame },
        Some(GgrsRequest::AdvanceFrame { inputs }) => RequestStep::Advance { inputs },
        None => RequestStep::Idle,
    }
}

/// Where the input of a local player comes from.
#[derive(Clone, Copy, Debug, PartialEq, Eq, Structural)]
pub enum InputSource {
    /// The controller of the same index as the player's slot.
    Controller,
    /// No input.
    Nothing,
}

/// What has happened in the course of a frame.
pub enum FrameEvent<I, C> {
    /// The frame begins, at that number, with that prediction window and these local players.
    Begin { current_frame: i32, max_prediction: usize, local_handles: Vec<usize> },
    /// The inputs have been given, or the session has been polled again.
    Polled { current_frame: i32, confirmed_frame: i32 },
    /// The session has gone on and asks for this.
    Advanced { requests: Vec<GgrsRequest<I, C>> },
    /// The session is too far ahead to go on.
    PredictionThreshold,
}

/// What is done next in the course of a frame.
pub enum FrameAction {
    /// Give the session an input for each of these local players.
    GiveInputs(Vec<(usize, InputSource)>),
    /// Poll the session.
    Poll,
    /// Let the session go on by a frame.
    Advance,
    /// The frame is dealt with.
    Done,
}

/// An input for every local player: from its controller once the session has run for longer than
/// the prediction window, none before.
pub open spec fn local_inputs(
    current_frame: i32,
    max_prediction: usize,
    local_handles: Seq<usize>,
) -> Seq<(usize, InputSource)> {
    let source = if current_frame > max_prediction as i32 {
        InputSource::Controller
    } else {
        InputSource::Nothing
    };
    local_handles.map_values(|handle: usize| (handle, source))
}

/// Whether the session waits for inputs of other machines before it goes on.
pub open spec fn awaits_inputs(disconnected: bool, current_frame: i32, confirmed_frame: i32) -> bool {
    !disconnected && current_frame > confirmed_frame && confirmed_frame != NULL_FRAME
}

/// The inputs of a frame after the session has ended.
pub open spec fn no_inputs<I>(no_input: I) -> Seq<(I, InputStatus)> {
    Seq::new(PORTS as nat, |i: int| (no_input, InputStatus::Disconnected))
}

/// The frame that is run after the session has ended.
pub open spec fn idle_frame<I, C>(request: GgrsRequest<I, C>, no_input: I) -> bool {
    request is AdvanceFrame && request->inputs@ == no_inputs(no_input)
}

fn plan_inputs(current_frame: i32, max_prediction: usize, local_handles: &Vec<usize>) -> (out: Vec<
    (usize, InputSource),
>)
    ensures
        out@ == local_inputs(current_frame, max_prediction, local_handles@),
{
    let source = if current_frame > max_prediction as i32 {
        InputSource::Controller
    } else {
        InputSource::Nothing
    };
    let mut out: Vec<(usize, InputSource)> = Vec::new();
    let mut i: usize = 0;
    while i < local_handles.len()
        invariant
            i <= local_handles@.len(),
            out@ == local_handles@.take(i as int).map_values(|handle: usize| (handle, source)),
        decreases local_handles@.len() - i,
    {
        out.push((local_handles[i], source));
        i = i + 1;
        assert(out@ =~= local_handles@.take(i as int).map_values(
            |handle: usize| (handle, source),
        ));
    }
    assert(local_handles@.take(i as int) =~= local_handles@);
    out
}

/// Goes one step further in the course of a frame. While inputs of other machines are missing the
/// session is polled, so that it never has to take a frame back; once it has ended, the emulator
/// runs on without any input.
pub fn advance_frame<I: Copy, C>(
    netplay: &mut Netplay<I, C>,
    event: FrameEvent<I, C>,
    no_input: I,
) -> (action: FrameAction)
    ensures
        match event {
            FrameEvent::Begin { current_frame, max_prediction, local_handles } => {
                &&& action is GiveInputs
                &&& action->GiveInputs_0@ == local_inputs(
                    current_frame,
                    max_prediction,
                    local_handles@,
                )
                &&& final(netplay).requests@ == old(netplay).requests@
            },
            FrameEvent::Polled { current_frame, confirmed_frame } => if awaits_inputs(
                old(netplay).disconnected,
                current_frame,
                confirmed_frame,
            ) {
                action is Poll && final(netplay).requests@ == old(netplay).requests@
            } else if old(netplay).disconnected {
                &&& action is Done
                &&& final(netplay).requests@.len() == old(netplay).requests@.len() + 1
                &&& final(netplay).requests@.drop_last() == old(netplay).requests@
                &&& idle_frame(final(netplay).requests@.last(), no_input)
            } else {
                action is Advance && final(netplay).requests@ == old(netplay).requests@
            },
            FrameEvent::Advanced { requests } => action is Done && final(netplay).requests@ == old(
                netplay,
            ).requests@ + requests@,
            FrameEvent::PredictionThreshold => action is Done && final(netplay).requests@ == old(
                netplay,
            ).requests@,
        },
        *final(netplay) == (Netplay { requests: final(netplay).requests, ..*old(netplay) }),
        event matches FrameEvent::Polled { current_frame, confirmed_frame } ==> {
            &&& action is Poll <==> !old(netplay).disconnected && confirmed_frame < current_frame
                && confirmed_frame != -1
            &&& action is Advance <==> !old(netplay).disconnected && (current_frame
                <= confirmed_frame || confirmed_frame == -1)
            &&& action is Done <==> old(netplay).disconnected
            &&& action is Done ==> {
                let last = final(netplay).requests@.last();
                &&& last is AdvanceFrame
                &&& last->inputs@.len() == 4
                &&& forall|port: int|
                    0 <= port < 4 ==> #[trigger] last->inputs@[port] == (
                        no_input,
                        InputStatus::Disconnected,
                    )
            }
        },
        event matches FrameEvent::Begin { current_frame, max_prediction, local_handles } ==> {
            let given = action->GiveInputs_0@;
            &&& given.len() == local_handles@.len()
            &&& forall|i: int|
                0 <= i < given.len() ==> (#[trigger] given[i]).0 == local_handles@[i]
                    && given[i].1 == (if current_frame > max_prediction as i32 {
                    InputSource::Controller
                } else {
                    InputSource::Nothing
                })
        },
{
    match event {
        FrameEvent::Begin { current_frame, max_prediction, local_handles } => {
            FrameAction::GiveInputs(plan_inputs(current_frame, max_prediction, &local_handles))
        },
        FrameEvent::Polled { current_frame, confirmed_frame } => {
            if !netplay.disconnected && current_frame > confirmed_frame && confirmed_frame
                != NULL_FRAME {
                FrameAction::Poll
            } else if netplay.disconnected {
                let mut inputs: Vec<(I, InputStatus)> = Vec::new();
                let mut port: usize = 0;
                while port < PORTS
                    invariant
                        port <= PORTS,
                        inputs@ == no_inputs(no_input).take(port as int),
                    decreases PORTS - port,
                {
                    inputs.push((no_input, InputStatus::Disconnected));
                    port = port + 1;
                    assert(inputs@ =~= no_inputs(no_input).take(port as int));
                }
                assert(inputs@ =~= no_inputs(no_input));
                netplay.requests.push_back(GgrsRequest::AdvanceFrame { inputs });
                assert(netplay.requests@.drop_last() =~= old(netplay).requests@);
                FrameAction::Done
            } else {
                FrameAction::Advance
            }
        },
        FrameEvent::Advanced { requests } => {
            let ghost begun = *netplay;
            for request in it: requests
                invariant
                    begun == *old(netplay),
                    netplay.requests@ == begun.requests@ + it.seq().take(it.index() as int),
                    *netplay == (Netplay { requests: netplay.requests, ..begun }),
            {
                netplay.requests.push_back(request);
                assert(it.seq().take(it.index() + 1) =~= it.seq().take(it.index() as int).push(
                    request,
                ));
            }
            assert(requests@.take(requests@.len() as int) =~= requests@);
            FrameAction::Done
        },
        FrameEvent::PredictionThreshold => FrameAction::Done,
    }
}

/// What one turn of a session leads to: what has to be done, in that order, and then how the frame
/// begins; it does not begin if an input delay came that is not eight bytes long.
pub struct Turn {
    pub effects: Vec<Effect>,
    pub action: Option<FrameAction>,
}

/// Takes one turn: follows what the session reports, takes in the messages that have come, and
/// begins the next frame.
pub fn process_netplay<I: Copy, C>(
    netplay: &mut Netplay<I, C>,
    events: &Vec<SessionEvent>,
    received: Vec<Vec<u8>>,
    current_frame: i32,
    max_prediction: usize,
    local_handles: Vec<usize>,
    no_input: I,
) -> (turn: Turn)
    ensures
        ({
            let (ended, first) = polled(old(netplay).disconnected, events@);
            let start = Mailbox { disconnected: ended, ..old(netplay).mailbox() };
            let all = old(netplay).received_data@ + received@;
            let d = delivered(start, byte_strings(all), local_handles@);
            &&& final(netplay).mailbox() == d.mailbox
            &&& final(netplay).received_data@ == all.skip(d.taken as int)
            &&& !d.malformed ==> final(netplay).received_data@.len() == 0
            &&& final(netplay).requests@ == old(netplay).requests@
            &&& turn.effects@ == first + d.effects
            &&& turn.action is None <==> d.malformed
            &&& turn.action matches Some(action) ==> {
                &&& action is GiveInputs
                &&& action->GiveInputs_0@ == local_inputs(
                    current_frame,
                    max_prediction,
                    local_handles@,
                )
            }
        }),
        (Netplay { requests: old(netplay).requests, ..*final(netplay) }).same_outside_mailbox(
            *old(netplay),
        ),
{
    let mut effects = poll_clients(netplay, events);
    assert(netplay.mailbox() == (Mailbox {
        disconnected: netplay.disconnected,
        ..old(netplay).mailbox()
    }));
    let mut reliable = process_reliable_messages(netplay, received, &local_handles);
    effects.append(&mut reliable.effects);
    if reliable.malformed {
        Turn { effects, action: None }
    } else {
        let begin = FrameEvent::Begin { current_frame, max_prediction, local_handles };
        let action = advance_frame(netplay, begin, no_input);
        Turn { effects, action: Some(action) }
    }
}

/// The session goes on by a frame only when no input of another machine is missing: while it has
/// not ended and frames are confirmed at all, it waits exactly as long as the confirmed frame is
/// below the current one, by however much.
pub proof fn law_no_frame_is_taken_back(
    disconnected: bool,
    current_frame: i32,
    confirmed_frame: i32,
)
    ensures
        awaits_inputs(disconnected, current_frame, confirmed_frame) <==> !disconnected
            && confirmed_frame < current_frame && confirmed_frame != -1,
        !disconnected && !awaits_inputs(disconnected, current_frame, confirmed_frame)
            ==> current_frame <= confirmed_frame || confirmed_frame == -1,
        disconnected ==> !awaits_inputs(disconnected, current_frame, confirmed_frame),
{
}

/// A session that waits goes on waiting at every later frame, and for every earlier confirmed one.
pub proof fn law_waiting_is_monotone(
    disconnected: bool,
    current_frame: i32,
    confirmed_frame: i32,
    later_frame: i32,
    earlier_confirmed: i32,
)
    requires
        awaits_inputs(disconnected, current_frame, confirmed_frame),
        later_frame >= current_frame,
        earlier_confirmed <= confirmed_frame,
        earlier_confirmed != -1,
    ensures
        awaits_inputs(disconnected, later_frame, earlier_confirmed),
        !awaits_inputs(disconnected, current_frame, current_frame),
{
}

/// Every local player gets an input, in its own place: that of its controller exactly if the
/// session has run for longer than the prediction window.
pub proof fn law_every_local_player_has_an_input(
    current_frame: i32,
    max_prediction: usize,
    local_handles: Seq<usize>,
)
    ensures
        local_inputs(current_frame, max_prediction, local_handles).len() == local_handles.len(),
        forall|i: int|
            0 <= i < local_handles.len() ==> {
                let given = #[trigger] local_inputs(
                    current_frame,
                    max_prediction,
                    local_handles,
                )[i];
                &&& given.0 == local_handles[i]
                &&& max_prediction <= i32::MAX ==> (given.1 == InputSource::Controller
                    <==> current_frame > max_prediction)
                &&& max_prediction <= i32::MAX ==> (given.1 == InputSource::Nothing
                    <==> current_frame <= max_prediction)
            },
{
}

/// After the end of a session all four ports get the same: no input, from a player who is gone.
pub proof fn law_ended_session_has_no_inputs<I>(no_input: I)
    ensures
        no_inputs(no_input).len() == 4,
        forall|port: int|
            0 <= port < 4 ==> #[trigger] no_inputs(no_input)[port] == (
                no_input,
                InputStatus::Disconnected,
            ),
{
}

/// Whether a frame is one that is run after the end of a session is said by its inputs alone.
pub proof fn law_idle_frame<I, C>(request: GgrsRequest<I, C>, no_input: I)
    ensures
        idle_frame(request, no_input) <==> {
            &&& request is AdvanceFrame
            &&& request->inputs@.len() == 4
            &&& forall|port: int|
                0 <= port < 4 ==> #[trigger] request->inputs@[port] == (
                    no_input,
                    InputStatus::Disconnected,
                )
        },
{
    if request is AdvanceFrame && request->inputs@.len() == 4 && forall|port: int|
        0 <= port < 4 ==> #[trigger] request->inputs@[port] == (
            no_input,
            InputStatus::Disconnected,
        ) {
        assert(request->inputs@ =~= no_inputs(no_input));
    }
    law_ended_session_has_no_inputs(no_input);
}

/// The frames that wait are the requests to run one, counted.
pub proof fn law_frames_counted<I, C>(requests: Seq<GgrsRequest<I, C>>)
    ensures
        frames_in(requests) == requests.filter(|r: GgrsRequest<I, C>| r is AdvanceFrame).len(),
    decreases requests.len(),
{
    reveal(Seq::filter);
    if requests.len() > 0 {
        law_frames_counted(requests.drop_last());
    }
}

/// Events that are reported in two goes lead to what they lead to in one.
pub proof fn law_polling_in_two_goes(
    disconnected: bool,
    first: Seq<SessionEvent>,
    second: Seq<SessionEvent>,
)
    ensures
        ({
            let a = polled(disconnected, first);
            let b = polled(a.0, second);
            polled(disconnected, first + second) == (b.0, a.1 + b.1)
        }),
    decreases second.len(),
{
    let a = polled(disconnected, first);
    if second.len() == 0 {
        assert(first + second =~= first);
        assert(a.1 + Seq::<Effect>::empty() =~= a.1);
    } else {
        law_polling_in_two_goes(disconnected, first, second.drop_last());
        assert((first + second).drop_last() =~= first + second.drop_last());
        let b = polled(a.0, second);
        assert(polled(disconnected, first + second).1 =~= a.1 + b.1);
    }
}

/// Those that equal a value.
pub open spec fn equal_to<T>(value: T) -> spec_fn(T) -> bool {
    |x: T| x == value
}

/// Every desync is shown, as often as it is reported, and nothing is shown but desyncs and a lost
/// connection.
pub proof fn law_desyncs_shown(disconnected: bool, events: Seq<SessionEvent>)
    ensures
        polled(disconnected, events).1.filter(equal_to(Effect::Show(Notice::Desync))).len()
            == events.filter(equal_to(SessionEvent::DesyncDetected)).len(),
        forall|i: int|
            0 <= i < polled(disconnected, events).1.len() ==> {
                let shown = #[trigger] polled(disconnected, events).1[i];
                shown == Effect::Show(Notice::Desync) || shown == Effect::Show(
                    Notice::LostConnection,
                )
            },
    decreases events.len(),
{
    reveal(Seq::filter);
    if events.len() > 0 {
        let before = events.drop_last();
        law_desyncs_shown(disconnected, before);
        let e0 = polled(disconnected, before).1;
        let e1 = polled(disconnected, events).1;
        if e1 != e0 {
            assert(e1.drop_last() =~= e0);
        }
        assert forall|i: int| 0 <= i < e1.len() implies {
            let shown = #[trigger] e1[i];
            shown == Effect::Show(Notice::Desync) || shown == Effect::Show(Notice::LostConnection)
        } by {
            if i < e0.len() {
                assert(e0[i] == e1[i]);
            }
        }
    }
}

/// A list holds a value exactly if something is left when all other values are taken out.
proof fn lemma_filter_found<T>(list: Seq<T>, value: T)
    ensures
        list.contains(value) <==> list.filter(equal_to(value)).len() > 0,
    decreases list.len(),
{
    reveal(Seq::filter);
    if list.len() > 0 {
        let before = list.drop_last();
        lemma_filter_found(before, value);
        if before.contains(value) {
            let i = choose|i: int| 0 <= i < before.len() && before[i] == value;
            assert(list[i] == value);
        }
        if list.contains(value) && list.last() != value {
            let i = choose|i: int| 0 <= i < list.len() && list[i] == value;
            assert(before[i] == value);
        }
        assert(list[list.len() - 1] == list.last());
    }
}

} // verus!
