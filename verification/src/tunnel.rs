//! The tunnel: two recorders, one for each direction, and the rule by which
//! the four relay loops around them end the tunnel.
use crate::recorder::laws::{admitted, lemma_observed_in_order, observed, run, Step};
use crate::recorder::model::RecorderModel;
use crate::recorder::{Recorder, RecorderReader, RecorderWriter};
use vstd::prelude::*;

verus! {

/// One direction of a tunnel: a recorder with its producer and its one
/// consumer, which is registered before anything is written.
pub struct Direction {
    pub recorder: Recorder,
    pub writer: RecorderWriter,
    pub reader: RecorderReader,
}

impl Direction {
    /// The recorder of a direction that nothing has passed through yet: it
    /// is empty and has the one consumer, at the start of the stream.
    pub open spec fn fresh() -> RecorderModel {
        RecorderModel::empty().register()
    }

    /// A direction that nothing has passed through yet.
    pub fn new() -> (direction: Self)
        ensures
            direction.recorder.wf(),
            direction.recorder@ == Self::fresh(),
            direction.reader@ == 0,
    {
        let mut recorder = Recorder::new();
        let reader = RecorderReader::new(&mut recorder);
        Direction { recorder, writer: RecorderWriter {}, reader }
    }
}

/// Whatever is written into a direction and however it is read: what came
/// out so far is the beginning of what went in, byte for byte, and when the
/// consumer has caught up it is all of it.
pub proof fn lemma_direction_relays_exactly(steps: Seq<Step>)
    requires
        admitted(Direction::fresh(), steps),
    ensures
        observed(Direction::fresh(), steps, 0) == run(Direction::fresh(), steps).stream.take(
            run(Direction::fresh(), steps).offsets[0] as int,
        ),
        run(Direction::fresh(), steps).available(0) == 0 ==> observed(Direction::fresh(), steps, 0)
            == run(Direction::fresh(), steps).stream,
{
    let start = Direction::fresh();
    let end = run(start, steps);
    lemma_observed_in_order(start, steps, 0);
    assert(end.stream.subrange(0, end.offsets[0] as int) =~= end.stream.take(end.offsets[0] as int));
    if end.available(0) == 0 {
        assert(end.stream.take(end.offsets[0] as int) =~= end.stream);
    }
}

/// The four relay loops of a tunnel.
#[derive(Debug, Clone, Copy, PartialEq, Eq)]
pub enum Relay {
    /// From the client's socket into the recorder towards the target.
    ClientToRecorder,
    /// From that recorder to the target's socket.
    RecorderToTarget,
    /// From the target's socket into the recorder towards the client.
    TargetToRecorder,
    /// From that recorder to the client's socket.
    RecorderToClient,
}

/// How a tunnel stands.
#[derive(Debug, Clone, Copy, PartialEq, Eq)]
pub enum TunnelStatus {
    /// Some loop still runs and none has failed.
    Running,
    /// All four loops have come to the end of their source.
    Completed,
    /// A loop has failed; the others are given up.
    Failed,
}

/// What a tunnel stands for: the loops that have ended in order, and whether
/// one has failed.
pub struct TunnelView {
    pub ended: Set<Relay>,
    pub failed: bool,
}

impl TunnelView {
    /// The tunnel at its start.
    pub open spec fn start() -> TunnelView {
        TunnelView { ended: Set::empty(), failed: false }
    }

    /// The tunnel after `relay` has ended, by failure or in order. After a
    /// failure nothing changes any more.
    pub open spec fn relay_ended(self, relay: Relay, failure: bool) -> TunnelView {
        if self.failed {
            self
        } else if failure {
            TunnelView { failed: true, ..self }
        } else {
            TunnelView { ended: self.ended.insert(relay), ..self }
        }
    }

    /// Failed as soon as one loop has failed; completed when all four have
    /// ended in order; running otherwise.
    pub open spec fn status(self) -> TunnelStatus {
        if self.failed {
            TunnelStatus::Failed
        } else if self.ended.contains(Relay::ClientToRecorder) && self.ended.contains(
            Relay::RecorderToTarget,
        ) && self.ended.contains(Relay::TargetToRecorder) && self.ended.contains(
            Relay::RecorderToClient,
        ) {
            TunnelStatus::Completed
        } else {
            TunnelStatus::Running
        }
    }
}

/// The record of which relay loops of a tunnel have ended.
pub struct Tunnel {
    client_to_recorder: bool,
    recorder_to_target: bool,
    target_to_recorder: bool,
    recorder_to_client: bool,
    failed: bool,
}

impl View for Tunnel {
    type V = TunnelView;

    closed spec fn view(&self) -> TunnelView {
        TunnelView {
            ended: Set::new(
                |relay: Relay|
                    match relay {
                        Relay::ClientToRecorder => self.client_to_recorder,
                        Relay::RecorderToTarget => self.recorder_to_target,
                        Relay::TargetToRecorder => self.target_to_recorder,
                        Relay::RecorderToClient => self.recorder_to_client,
                    },
            ),
            failed: self.failed,
        }
    }
}

impl Tunnel {
    /// A tunnel whose four loops are about to start.
    pub fn new() -> (tunnel: Self)
        ensures
            tunnel@ == TunnelView::start(),
    {
        let tunnel = Tunnel {
            client_to_recorder: false,
            recorder_to_target: false,
            target_to_recorder: false,
            recorder_to_client: false,
            failed: false,
        };
        assert(tunnel@.ended =~= Set::empty());
        tunnel
    }

    /// How the tunnel stands.
    pub fn status(&self) -> (status: TunnelStatus)
        ensures
            status == self@.status(),
    {
        if self.failed {
            TunnelStatus::Failed
        } else if self.client_to_recorder && self.recorder_to_target && self.target_to_recorder
            && self.recorder_to_client {
            TunnelStatus::Completed
        } else {
            TunnelStatus::Running
        }
    }

    /// Takes note that `relay` has ended, by failure or in order, and tells
    /// how the tunnel stands then.
    pub fn relay_ended(&mut self, relay: Relay, failure: bool) -> (status: TunnelStatus)
        ensures
            final(self)@ == old(self)@.relay_ended(relay, failure),
            status == final(self)@.status(),
    {
        if !self.failed {
            if failure {
                self.failed = true;
            } else {
                match relay {
                    Relay::ClientToRecorder => {
                        self.client_to_recorder = true;
                    },
                    Relay::RecorderToTarget => {
                        self.recorder_to_target = true;
                    },
                    Relay::TargetToRecorder => {
                        self.target_to_recorder = true;
                    },
                    Relay::RecorderToClient => {
                        self.recorder_to_client = true;
                    },
                }
            }
        }
        assert(self@.ended =~= old(self)@.relay_ended(relay, failure).ended);
        self.status()
    }
}

/// The tunnel after the loops of `ends` have ended, one after the other, each
/// by failure or in order.
pub open spec fn tunnel_after(ends: Seq<(Relay, bool)>) -> TunnelView
    decreases ends.len(),
{
    if ends.len() == 0 {
        TunnelView::start()
    } else {
        tunnel_after(ends.drop_last()).relay_ended(ends.last().0, ends.last().1)
    }
}

/// A tunnel has failed exactly when one of its loops has failed, and it has
/// completed exactly when none has failed and each of the four has ended.
pub proof fn lemma_tunnel_outcome(ends: Seq<(Relay, bool)>)
    ensures
        tunnel_after(ends).failed <==> exists|i: int| 0 <= i < ends.len() && (#[trigger] ends[i]).1,
        !tunnel_after(ends).failed ==> forall|relay: Relay|
            tunnel_after(ends).ended.contains(relay) <==> exists|i: int|
                0 <= i < ends.len() && (#[trigger] ends[i]).0 == relay,
    decreases ends.len(),
{
    if ends.len() > 0 {
        let front = ends.drop_last();
        lemma_tunnel_outcome(front);
        let last = ends.last();
        assert(last == ends[ends.len() - 1]);
        assert forall|i: int| 0 <= i < front.len() implies front[i] == ends[i] by {}
        if tunnel_after(ends).failed {
            if tunnel_after(front).failed {
                let i = choose|i: int| 0 <= i < front.len() && (#[trigger] front[i]).1;
                assert(ends[i].1);
            } else {
                assert(ends[ends.len() - 1].1);
            }
        } else {
            assert(!tunnel_after(front).failed);
            assert forall|i: int| 0 <= i < ends.len() implies !(#[trigger] ends[i]).1 by {
                if i < front.len() {
                    assert(front[i] == ends[i]);
                }
            }
            assert forall|relay: Relay|
                tunnel_after(ends).ended.contains(relay) <==> exists|i: int|
                    0 <= i < ends.len() && (#[trigger] ends[i]).0 == relay by {
                if tunnel_after(ends).ended.contains(relay) {
                    if relay == last.0 {
                        assert(ends[ends.len() - 1].0 == relay);
                    } else {
                        assert(tunnel_after(front).ended.contains(relay));
                        let i = choose|i: int| 0 <= i < front.len() && (#[trigger] front[i]).0 == relay;
                        assert(ends[i].0 == relay);
                    }
                }
                if exists|i: int| 0 <= i < ends.len() && (#[trigger] ends[i]).0 == relay {
                    let i = choose|i: int| 0 <= i < ends.len() && (#[trigger] ends[i]).0 == relay;
                    if i < front.len() {
                        assert(front[i].0 == relay);
                    }
                }
            }
        }
    }
}

} // verus!
