//! The interactive session: what scan progress and key presses lead to.

use vstd::prelude::*;
use vstd::string::*;
use vstd::utf8::*;

use crate::path::FsPath;
use crate::scan::cargo_config::DiscoveredEntry;
use crate::scan::discover::ScanEvent;
use crate::scan::measure::Measurement;
use crate::scan::TargetEntry;
use crate::text;

verus! {

/// A change to what is shown.
#[derive(Debug)]
pub enum Update {
    /// Show these rows, without sizes.
    SetDiscovered(Vec<DiscoveredEntry>),
    /// Fill in one measured size.
    ApplyMeasurement(Measurement),
    /// The scan is over; show the build cache if there is one, and start
    /// polling afresh.
    FinishScan(Option<TargetEntry>),
}

/// What a key press asks for.
#[derive(Clone, Copy, Debug, PartialEq, Eq, Structural)]
pub enum Action {
    Continue,
    Quit,
    Rescan,
}

/// What the session does next.
#[derive(Clone, Copy, Debug, PartialEq, Eq, Structural)]
pub enum Flow {
    /// Go on.
    Stay,
    /// End the session.
    Leave,
    /// Forget the rows, and scan again.
    StartScan,
}

/// An interactive session.
#[derive(Clone, Copy, Debug, PartialEq, Eq, Structural)]
pub struct Session {
    /// Whether progress of a scan is awaited.
    pub receiving: bool,
}

pub open spec fn update_of(event: ScanEvent) -> Update {
    match event {
        ScanEvent::Discovered(rows) => Update::SetDiscovered(rows),
        ScanEvent::Measured(m) => Update::ApplyMeasurement(m),
        ScanEvent::Done { build_cache } => Update::FinishScan(build_cache),
    }
}

pub open spec fn updates_of(events: Seq<ScanEvent>) -> Seq<Update> {
    events.map_values(|e: ScanEvent| update_of(e))
}

/// Whether the scan has reported its end.
pub open spec fn ends(events: Seq<ScanEvent>) -> bool {
    exists|i: int| 0 <= i < events.len() && (#[trigger] events[i]) is Done
}

/// What a key press leads to.
pub open spec fn flow_of(action: Action) -> Flow {
    match action {
        Action::Continue => Flow::Stay,
        Action::Quit => Flow::Leave,
        Action::Rescan => Flow::StartScan,
    }
}

/// Whether progress is awaited after a key press.
pub open spec fn awaits(receiving: bool, action: Action) -> bool {
    action == Action::Rescan || receiving
}

/// How long a frame may wait, in milliseconds.
pub open spec fn frame_ms(scanning: bool, deleting: bool) -> int {
    if scanning || deleting {
        16
    } else {
        100
    }
}

/// Why a scan root is refused.
pub open spec fn refusal(root: Seq<u8>) -> Seq<char> {
    "scan root is not a directory: "@ + text::shown(root)
}

impl Session {
    /// A session that has just started its first scan.
    pub fn new() -> (r: Session)
        ensures
            r.receiving,
    {
        Session { receiving: true }
    }

    /// Takes in the progress that has arrived. The end of the scan ends the
    /// waiting.
    pub fn take_in(&mut self, events: Vec<ScanEvent>) -> (updates: Vec<Update>)
        ensures
            updates@ == updates_of(events@),
            final(self).receiving == (old(self).receiving && !ends(events@)),
    {
        let ghost all = events@;
        let mut updates: Vec<Update> = Vec::new();
        let mut done = false;
        assert(all.take(0) =~= Seq::<ScanEvent>::empty());
        for event in it: events.into_iter()
            invariant
                it.seq() == all,
                updates@ == updates_of(all.take(it.index())),
                done == ends(all.take(it.index())),
        {
            let ghost next = all.take(it.index() + 1);
            let ghost index = it.index();
            let ends_here = match &event {
                ScanEvent::Done { build_cache: _ } => true,
                _ => false,
            };
            let ghost was_done = done;
            if ends_here {
                done = true;
            }
            let ghost before = updates@;
            updates.push(
                match event {
                    ScanEvent::Discovered(rows) => Update::SetDiscovered(rows),
                    ScanEvent::Measured(m) => Update::ApplyMeasurement(m),
                    ScanEvent::Done { build_cache } => Update::FinishScan(build_cache),
                },
            );
            proof {
                assert(updates_of(next) =~= updates_of(all.take(index)).push(update_of(event)));
                if ends_here {
                    assert(next[index] is Done);
                }
                if was_done {
                    let k = choose|k: int|
                        0 <= k < index && (#[trigger] all.take(index)[k]) is Done;
                    assert(next[k] is Done);
                }
                if ends(next) {
                    let k = choose|k: int| 0 <= k < next.len() && (#[trigger] next[k]) is Done;
                    if k < index {
                        assert(all.take(index)[k] is Done);
                    }
                }
            }
        }
        assert(all.take(all.len() as int) =~= all);
        if done {
            self.receiving = false;
        }
        updates
    }

    /// Follows a key press.
    pub fn follow(&mut self, action: Action) -> (flow: Flow)
        ensures
            flow == (match action {
                Action::Continue => Flow::Stay,
                Action::Quit => Flow::Leave,
                Action::Rescan => Flow::StartScan,
            }),
            flow == flow_of(action),
            final(self).receiving == (action == Action::Rescan || old(self).receiving),
            final(self).receiving == awaits(old(self).receiving, action),
    {
        match action {
            Action::Continue => Flow::Stay,
            Action::Quit => Flow::Leave,
            Action::Rescan => {
                self.receiving = true;
                Flow::StartScan
            },
        }
    }
}

/// How long a frame may wait for input, in milliseconds: 60 frames a second
/// while something is loading or being deleted, 10 otherwise.
pub fn frame_budget_ms(scanning: bool, deleting: bool) -> (r: u64)
    ensures
        r == (if scanning || deleting {
            16u64
        } else {
            100u64
        }),
        r == frame_ms(scanning, deleting),
{
    if scanning || deleting {
        16
    } else {
        100
    }
}

/// Refuses a scan root that is no directory.
pub fn check_root(root: &FsPath, is_dir: bool) -> (r: Result<(), String>)
    ensures
        r is Ok <==> is_dir,
        r matches Err(message) ==> message@ == "scan root is not a directory: "@ + text::shown(
            root@,
        ),
        r matches Err(message) ==> message@ == refusal(root@),
{
    if !is_dir {
        let place = root.to_text();
        return Err("scan root is not a directory: ".to_owned().concat(place.as_str()));
    }
    Ok(())
}

/// Each progress message gives one update of its own kind, with what it holds,
/// in the order that the messages came.
pub proof fn law_each_message_gives_its_update(events: Seq<ScanEvent>, i: int)
    requires
        0 <= i < events.len(),
    ensures
        updates_of(events).len() == events.len(),
        events[i] matches ScanEvent::Discovered(rows) ==> updates_of(events)[i]
            == Update::SetDiscovered(rows),
        events[i] matches ScanEvent::Measured(m) ==> updates_of(events)[i]
            == Update::ApplyMeasurement(m),
        events[i] matches ScanEvent::Done { build_cache } ==> updates_of(events)[i]
            == Update::FinishScan(build_cache),
{
}

/// Taking messages in at once or in two batches comes to the same updates, and
/// the scan is over from the message on that says so.
pub proof fn law_batches_come_to_the_same(a: Seq<ScanEvent>, b: Seq<ScanEvent>, one: ScanEvent)
    ensures
        updates_of(a + b) == updates_of(a) + updates_of(b),
        ends(a + b) == (ends(a) || ends(b)),
        ends(seq![one]) == (one is Done),
        !ends(Seq::<ScanEvent>::empty()),
{
    assert(updates_of(a + b) =~= updates_of(a) + updates_of(b));
    if ends(a) {
        let i = choose|i: int| 0 <= i < a.len() && (#[trigger] a[i]) is Done;
        assert((a + b)[i] is Done);
    }
    if ends(b) {
        let i = choose|i: int| 0 <= i < b.len() && (#[trigger] b[i]) is Done;
        assert((a + b)[a.len() + i] is Done);
    }
    if ends(a + b) {
        let i = choose|i: int| 0 <= i < (a + b).len() && (#[trigger] (a + b)[i]) is Done;
        if i < a.len() {
            assert(a[i] is Done);
        } else {
            assert(b[i - a.len()] is Done);
        }
    }
    assert(seq![one][0] == one);
}

/// A session ends where quitting is asked for and nowhere else, starts a scan
/// where that is asked for and nowhere else, and then awaits its progress; any
/// other key changes nothing of the waiting.
pub proof fn law_keys_are_followed(action: Action, receiving: bool)
    ensures
        flow_of(action) == Flow::Leave <==> action == Action::Quit,
        flow_of(action) == Flow::StartScan <==> action == Action::Rescan,
        flow_of(action) == Flow::Stay <==> action == Action::Continue,
        awaits(receiving, Action::Rescan),
        action != Action::Rescan ==> awaits(receiving, action) == receiving,
{
}

/// A frame waits 100 milliseconds while nothing goes on, and 16 while anything
/// does, whatever it is.
pub proof fn law_frames_are_fast_while_busy(scanning: bool, deleting: bool)
    ensures
        frame_ms(false, false) == 100,
        frame_ms(true, deleting) == 16,
        frame_ms(scanning, true) == 16,
{
}

/// A refused scan root is told as it was given.
pub proof fn law_refusal_tells_the_root(root: Seq<char>)
    ensures
        refusal(encode_utf8(root)) == "scan root is not a directory: "@ + root,
{
    text::law_text_is_shown_as_it_is(root);
}

} // verus!
