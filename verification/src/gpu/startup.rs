//! Starting the driver: opening its library, then resolving and calling its entry points
//! in a fixed order. The caller performs each step and reports how it went.
use vstd::prelude::*;
use crate::gpu::cuda_ffi::{CUDA_SUCCESS, DriverCall, DriverError};

verus! {

/// A step towards a driver that can be used.
#[derive(Clone, Copy, Debug, PartialEq, Eq, Structural)]
pub enum Step {
    /// Look an entry point up in the library.
    Resolve(DriverCall),
    /// Call an entry point that was looked up.
    Invoke(DriverCall),
}

/// How a step went.
#[derive(Debug)]
pub enum Event {
    /// The library could be opened, or not.
    Opened(bool),
    /// The entry point was found, or else the loader's reason why not.
    Resolved(Result<(), String>),
    /// The call returned this code.
    Returned(i32),
}

/// What to do next.
#[derive(Clone, Copy, Debug, PartialEq, Eq, Structural)]
pub enum Action {
    /// Try to open the library at the place with this index.
    Open(usize),
    /// Perform this step.
    Perform(Step),
    /// Nothing: the driver is ready.
    Finish,
}

/// The number of places where the library is looked for.
pub const PLACES: usize = 2;

/// The number of steps once the library is open.
pub const STEPS: usize = 15;

/// Where the library is looked for, in this order.
pub open spec fn place(i: int) -> Seq<char> {
    if i == 0 {
        "nvcuda.dll"@
    } else {
        "C:\\Windows\\System32\\nvcuda.dll"@
    }
}

/// Where the library is looked for, in this order.
pub fn library_place(i: usize) -> (r: &'static str)
    requires
        i < PLACES,
    ensures
        r@ == place(i as int),
{
    if i == 0 {
        "nvcuda.dll"
    } else {
        "C:\\Windows\\System32\\nvcuda.dll"
    }
}

/// The steps once the library is open: four entry points are called as soon as they are
/// found, the others are only looked up.
pub open spec fn steps() -> Seq<Step> {
    seq![
        Step::Resolve(DriverCall::Init),
        Step::Invoke(DriverCall::Init),
        Step::Resolve(DriverCall::DeviceGet),
        Step::Invoke(DriverCall::DeviceGet),
        Step::Resolve(DriverCall::CtxCreate),
        Step::Invoke(DriverCall::CtxCreate),
        Step::Resolve(DriverCall::ModuleLoadData),
        Step::Invoke(DriverCall::ModuleLoadData),
        Step::Resolve(DriverCall::LaunchKernel),
        Step::Resolve(DriverCall::MemAlloc),
        Step::Resolve(DriverCall::MemcpyHtoD),
        Step::Resolve(DriverCall::MemcpyDtoH),
        Step::Resolve(DriverCall::CtxSynchronize),
        Step::Resolve(DriverCall::MemFree),
        Step::Resolve(DriverCall::ModuleGetFunction),
    ]
}

/// Step `i`.
fn step_at(i: usize) -> (r: Step)
    requires
        i < STEPS,
    ensures
        r == steps()[i as int],
{
    match i {
        0 => Step::Resolve(DriverCall::Init),
        1 => Step::Invoke(DriverCall::Init),
        2 => Step::Resolve(DriverCall::DeviceGet),
        3 => Step::Invoke(DriverCall::DeviceGet),
        4 => Step::Resolve(DriverCall::CtxCreate),
        5 => Step::Invoke(DriverCall::CtxCreate),
        6 => Step::Resolve(DriverCall::ModuleLoadData),
        7 => Step::Invoke(DriverCall::ModuleLoadData),
        8 => Step::Resolve(DriverCall::LaunchKernel),
        9 => Step::Resolve(DriverCall::MemAlloc),
        10 => Step::Resolve(DriverCall::MemcpyHtoD),
        11 => Step::Resolve(DriverCall::MemcpyDtoH),
        12 => Step::Resolve(DriverCall::CtxSynchronize),
        13 => Step::Resolve(DriverCall::MemFree),
        _ => Step::Resolve(DriverCall::ModuleGetFunction),
    }
}

/// How far the start has come.
#[derive(Clone, Copy, Debug, PartialEq, Eq, Structural)]
pub enum Startup {
    /// The library is about to be opened at the place with this index.
    Opening(usize),
    /// The step with this index is about to be performed.
    Running(usize),
    /// The driver can be used.
    Ready,
}

impl Startup {
    /// The index is one of a place or of a step.
    pub open spec fn wf(self) -> bool {
        match self {
            Startup::Opening(i) => i < PLACES,
            Startup::Running(i) => i < STEPS,
            Startup::Ready => true,
        }
    }

    /// What to do next.
    pub open spec fn due(self) -> Action {
        match self {
            Startup::Opening(i) => Action::Open(i),
            Startup::Running(i) => Action::Perform(steps()[i as int]),
            Startup::Ready => Action::Finish,
        }
    }

    /// The event answers what is due.
    pub open spec fn fits(self, event: Event) -> bool {
        match self.due() {
            Action::Open(_) => event is Opened,
            Action::Perform(Step::Resolve(_)) => event is Resolved,
            Action::Perform(Step::Invoke(_)) => event is Returned,
            Action::Finish => false,
        }
    }

    /// The state behind the step with index `i`.
    pub open spec fn behind(i: int) -> Startup {
        if i + 1 < STEPS {
            Startup::Running((i + 1) as usize)
        } else {
            Startup::Ready
        }
    }

    /// Where an event leads.
    pub open spec fn after(self, event: Event) -> Result<Startup, DriverError> {
        match (self, event) {
            (Startup::Opening(i), Event::Opened(true)) => Ok(Startup::Running(0)),
            (Startup::Opening(i), Event::Opened(false)) => if i + 1 < PLACES {
                Ok(Startup::Opening((i + 1) as usize))
            } else {
                Err(DriverError::LibraryNotFound)
            },
            (Startup::Running(i), Event::Resolved(Ok(_))) => Ok(Startup::behind(i as int)),
            (Startup::Running(i), Event::Resolved(Err(reason))) => match steps()[i as int] {
                Step::Resolve(call) => Err(DriverError::MissingSymbol(call, reason)),
                Step::Invoke(call) => Err(DriverError::MissingSymbol(call, reason)),
            },
            (Startup::Running(i), Event::Returned(code)) => if code == CUDA_SUCCESS {
                Ok(Startup::behind(i as int))
            } else {
                match steps()[i as int] {
                    Step::Resolve(call) => Err(DriverError::CallFailed(call, code)),
                    Step::Invoke(call) => Err(DriverError::CallFailed(call, code)),
                }
            },
            _ => Ok(self),
        }
    }

    /// The start of the start.
    pub fn begin() -> (r: Self)
        ensures
            r == Startup::Opening(0),
            r.wf(),
    {
        Startup::Opening(0)
    }

    /// What to do next.
    pub fn action(&self) -> (r: Action)
        requires
            self.wf(),
        ensures
            r == self.due(),
    {
        match self {
            Startup::Opening(i) => Action::Open(*i),
            Startup::Running(i) => Action::Perform(step_at(*i)),
            Startup::Ready => Action::Finish,
        }
    }

    /// Takes note of how the step that was due went.
    pub fn advance(self, event: Event) -> (r: Result<Self, DriverError>)
        requires
            self.wf(),
            self.fits(event),
        ensures
            r == self.after(event),
            r matches Ok(next) ==> next.wf(),
    {
        match self {
            Startup::Opening(i) => {
                let opened = match event {
                    Event::Opened(yes) => yes,
                    _ => false,
                };
                if opened {
                    Ok(Startup::Running(0))
                } else if i + 1 < PLACES {
                    Ok(Startup::Opening(i + 1))
                } else {
                    Err(DriverError::LibraryNotFound)
                }
            },
            Startup::Running(i) => {
                let call = match step_at(i) {
                    Step::Resolve(call) => call,
                    Step::Invoke(call) => call,
                };
                let next = if i + 1 < STEPS {
                    Startup::Running(i + 1)
                } else {
                    Startup::Ready
                };
                match event {
                    Event::Resolved(Ok(_)) => Ok(next),
                    Event::Resolved(Err(reason)) => Err(DriverError::MissingSymbol(call, reason)),
                    Event::Returned(code) => if code == CUDA_SUCCESS {
                        Ok(next)
                    } else {
                        Err(DriverError::CallFailed(call, code))
                    },
                    Event::Opened(_) => Ok(self),
                }
            },
            Startup::Ready => Ok(self),
        }
    }
}

/// Where a series of events leads, each answering what is due.
pub open spec fn run(state: Startup, events: Seq<Event>) -> Result<Startup, DriverError>
    decreases events.len(),
{
    if events.len() == 0 {
        Ok(state)
    } else {
        match run(state, events.drop_last()) {
            Ok(s) => s.after(events.last()),
            Err(e) => Err(e),
        }
    }
}

/// Every event of the series answers what is due when it comes.
pub open spec fn answered(state: Startup, events: Seq<Event>) -> bool {
    forall|k: int|
        0 <= k < events.len() ==> match #[trigger] run(state, events.take(k)) {
            Ok(s) => s.fits(events[k]),
            Err(_) => false,
        }
}

/// The step went well.
pub open spec fn went_well(event: Event) -> bool {
    match event {
        Event::Opened(yes) => yes,
        Event::Resolved(outcome) => outcome is Ok,
        Event::Returned(code) => code == CUDA_SUCCESS,
    }
}

/// While the steps of an open library are performed, each event of a start that goes on has
/// gone well, and there have been as many events as steps.
proof fn progress(events: Seq<Event>)
    requires
        answered(Startup::Running(0), events),
        run(Startup::Running(0), events) is Ok,
    ensures
        forall|k: int| 0 <= k < events.len() ==> went_well(#[trigger] events[k]),
        events.len() <= STEPS,
        run(Startup::Running(0), events)->Ok_0 == if events.len() < STEPS {
            Startup::Running(events.len() as usize)
        } else {
            Startup::Ready
        },
    decreases events.len(),
{
    if events.len() > 0 {
        let before = events.drop_last();
        assert forall|k: int| 0 <= k < before.len() implies match #[trigger] run(
            Startup::Running(0),
            before.take(k),
        ) {
            Ok(s) => s.fits(before[k]),
            Err(_) => false,
        } by {
            assert(before.take(k) =~= events.take(k));
        }
        progress(before);
        assert(before =~= events.take(events.len() - 1));
        assert forall|k: int| 0 <= k < events.len() implies went_well(#[trigger] events[k]) by {
            if k < before.len() {
                assert(events[k] == before[k]);
            }
        }
    }
}

/// The driver is ready exactly after all fifteen steps, and only if every one of them went
/// well: once the library is open, a start that is still going has performed the steps in
/// order without a failure.
pub proof fn ready_means_every_step_went_well(events: Seq<Event>)
    requires
        answered(Startup::Running(0), events),
    ensures
        run(Startup::Running(0), events) == Ok::<Startup, DriverError>(Startup::Ready)
            <==> events.len() == STEPS && forall|k: int|
            0 <= k < events.len() ==> went_well(#[trigger] events[k]),
    decreases events.len(),
{
    if run(Startup::Running(0), events) is Ok {
        progress(events);
    } else {
        let before = events.drop_last();
        assert(before =~= events.take(events.len() - 1));
        assert(run(Startup::Running(0), events.take(events.len() - 1)) is Ok);
        assert(!went_well(events[events.len() - 1]));
    }
}

/// The library is looked for at one place and then at the other, and is not found where both
/// fail. Once it is open the first entry point is looked up.
pub proof fn the_library_is_looked_for_twice()
    ensures
        Startup::Opening(0).due() == Action::Open(0),
        Startup::Opening(0).after(Event::Opened(false)) == Ok::<Startup, DriverError>(
            Startup::Opening(1),
        ),
        Startup::Opening(1).due() == Action::Open(1),
        Startup::Opening(1).after(Event::Opened(false)) == Err::<Startup, DriverError>(
            DriverError::LibraryNotFound,
        ),
        forall|i: usize|
            #[trigger] Startup::Opening(i).after(Event::Opened(true)) == Ok::<
                Startup,
                DriverError,
            >(Startup::Running(0)),
        Startup::Running(0).due() == Action::Perform(Step::Resolve(DriverCall::Init)),
{
}

/// The entry points that are called come first, each called right after it was looked up: the
/// driver is initialized, a device is chosen, a context is made on it and the module is loaded
/// into that. Every entry point is looked up, and none twice.
pub proof fn entry_points_are_looked_up_before_they_are_called(i: int, j: int, call: DriverCall)
    requires
        0 <= i < STEPS,
        0 <= j < STEPS,
    ensures
        steps().len() == STEPS,
        steps()[i] == Step::Invoke(call) ==> i > 0 && steps()[i - 1] == Step::Resolve(call),
        steps()[1] == Step::Invoke(DriverCall::Init),
        steps()[3] == Step::Invoke(DriverCall::DeviceGet),
        steps()[5] == Step::Invoke(DriverCall::CtxCreate),
        steps()[7] == Step::Invoke(DriverCall::ModuleLoadData),
        7 < i ==> steps()[i] is Resolve,
        i != j ==> steps()[i] != steps()[j],
        exists|k: int| 0 <= k < STEPS && #[trigger] steps()[k] == Step::Resolve(call),
{
    let s = steps();
    assert(s[0] == Step::Resolve(DriverCall::Init));
    assert(s[2] == Step::Resolve(DriverCall::DeviceGet));
    assert(s[4] == Step::Resolve(DriverCall::CtxCreate));
    assert(s[6] == Step::Resolve(DriverCall::ModuleLoadData));
    assert(s[8] == Step::Resolve(DriverCall::LaunchKernel));
    assert(s[9] == Step::Resolve(DriverCall::MemAlloc));
    assert(s[10] == Step::Resolve(DriverCall::MemcpyHtoD));
    assert(s[11] == Step::Resolve(DriverCall::MemcpyDtoH));
    assert(s[12] == Step::Resolve(DriverCall::CtxSynchronize));
    assert(s[13] == Step::Resolve(DriverCall::MemFree));
    assert(s[14] == Step::Resolve(DriverCall::ModuleGetFunction));
}

/// A step that went well leads to the next one, in order, and behind the last one to a driver
/// that is ready. A step that failed ends the start with an error that names the entry point
/// that was due, and the reason of the loader or the code that was returned.
pub proof fn steps_lead_on_or_end_the_start(i: usize, event: Event)
    requires
        i < STEPS,
        Startup::Running(i).fits(event),
    ensures
        Startup::Running(i).due() == Action::Perform(steps()[i as int]),
        ({
            let after = Startup::Running(i).after(event);
            let went_well = match event {
                Event::Opened(yes) => yes,
                Event::Resolved(outcome) => outcome is Ok,
                Event::Returned(code) => code == 0,
            };
            &&& went_well && i + 1 < 15 ==> after == Ok::<Startup, DriverError>(
                Startup::Running((i + 1) as usize),
            )
            &&& went_well && i + 1 == 15 ==> after == Ok::<Startup, DriverError>(Startup::Ready)
            &&& event matches Event::Resolved(Err(reason)) ==> {
                &&& steps()[i as int] is Resolve
                &&& after == Err::<Startup, DriverError>(
                    DriverError::MissingSymbol(steps()[i as int]->Resolve_0, reason),
                )
            }
            &&& event matches Event::Returned(code) ==> code != 0 ==> {
                &&& steps()[i as int] is Invoke
                &&& after == Err::<Startup, DriverError>(
                    DriverError::CallFailed(steps()[i as int]->Invoke_0, code),
                )
            }
        }),
{
}

} // verus!
