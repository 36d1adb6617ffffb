//! Work for the device: which buffers are made, filled, passed to a kernel, read back and
//! given back, and in which order. The caller performs each command and reports how it went.
use vstd::prelude::*;
use crate::gpu::cuda_ffi::{DriverError, Kernel};
use crate::scalar::{evaluates, value, Elementary, Real};
use crate::table::vector_of;

verus! {

/// The size of an element on the device, in bytes.
pub const ELEMENT_BYTES: usize = 8;

/// The number of threads in a block.
pub const BLOCK: u32 = 256;

/// Something to do on the device. Buffers are told apart by their slot.
#[derive(Clone, Copy, Debug, PartialEq, Eq, Structural)]
pub enum Command {
    /// Make a buffer of this many elements.
    Alloc(usize, usize),
    /// Fill a buffer with the input of the same number.
    Upload(usize),
    /// Launch a kernel over this many blocks.
    Launch(Kernel, u32),
    /// Wait for the device.
    Synchronize,
    /// Read this many elements of a buffer.
    Download(usize, usize),
    /// Give a buffer back.
    Free(usize),
}

/// An argument of a kernel.
#[derive(Clone, Copy, Debug)]
pub enum KernelArg<R> {
    /// The buffer in this slot.
    Buffer(usize),
    Scalar(R),
    Int(i32),
}

/// The commands of a job with the buffers of these lengths, the last of which is read back:
/// make all of them, fill all but the last, launch, wait, read, give all of them back.
pub open spec fn commands(lens: Seq<usize>, kernel: Kernel, grid: u32) -> Seq<Command> {
    let m = lens.len() as int;
    Seq::new(
        (3 * m + 2) as nat,
        |k: int|
            if k < m {
                Command::Alloc(k as usize, lens[k])
            } else if k < 2 * m - 1 {
                Command::Upload((k - m) as usize)
            } else if k == 2 * m - 1 {
                Command::Launch(kernel, grid)
            } else if k == 2 * m {
                Command::Synchronize
            } else if k == 2 * m + 1 {
                Command::Download((m - 1) as usize, lens[m - 1])
            } else {
                Command::Free((k - 2 * m - 2) as usize)
            },
    )
}

/// The number of blocks for `n` threads, as the device counts them.
pub open spec fn blocks(n: usize) -> u32 {
    ((n as u32 + 255) / 256) as u32
}

/// A job: its commands, the inputs that fill its buffers, the arguments of its kernel, the
/// number of its results, and how far it has come.
pub struct DeviceJob<R> {
    pub commands: Vec<Command>,
    pub inputs: Vec<Vec<R>>,
    pub args: Vec<KernelArg<R>>,
    pub results: usize,
    pub at: usize,
}

impl<R> DeviceJob<R> {
    /// The job does not stand behind its end.
    pub open spec fn wf(self) -> bool {
        self.at <= self.commands@.len()
    }

    /// The command that is due, if the job is not over.
    pub fn current(&self) -> (r: Option<Command>)
        requires
            self.wf(),
        ensures
            r == (if self.at < self.commands@.len() {
                Some(self.commands@[self.at as int])
            } else {
                None
            }),
    {
        if self.at < self.commands.len() {
            Some(self.commands[self.at])
        } else {
            None
        }
    }

    /// Takes note of how the command that was due went. The first failure ends the job.
    pub fn settle(&mut self, outcome: Result<(), DriverError>) -> (r: Result<(), DriverError>)
        requires
            old(self).wf(),
            old(self).at < old(self).commands@.len(),
        ensures
            final(self).wf(),
            final(self).commands == old(self).commands,
            final(self).inputs == old(self).inputs,
            final(self).args == old(self).args,
            final(self).results == old(self).results,
            r == outcome,
            final(self).at == stands_after(
                old(self).commands@.len(),
                old(self).at as nat,
                outcome,
            ),
    {
        let end = self.commands.len();
        self.at = if outcome.is_ok() {
            self.at + 1
        } else {
            end
        };
        outcome
    }
}

/// The commands for buffers of these lengths.
fn command_list(lens: &[usize], kernel: Kernel, grid: u32) -> (r: Vec<Command>)
    requires
        1 <= lens@.len(),
    ensures
        r@ == commands(lens@, kernel, grid),
{
    let m = lens.len();
    let mut r: Vec<Command> = Vec::new();
    let ghost all = commands(lens@, kernel, grid);
    for k in 0..m
        invariant
            m == lens@.len(),
            all == commands(lens@, kernel, grid),
            r@ == all.take(k as int),
    {
        r.push(Command::Alloc(k, lens[k]));
        assert(all.take(k + 1) =~= all.take(k as int).push(all[k as int]));
    }
    for k in 0..m - 1
        invariant
            1 <= m,
            m == lens@.len(),
            all == commands(lens@, kernel, grid),
            r@ == all.take(m + k),
    {
        r.push(Command::Upload(k));
        assert(all.take(m + k + 1) =~= all.take(m + k).push(all[m + k]));
    }
    r.push(Command::Launch(kernel, grid));
    r.push(Command::Synchronize);
    r.push(Command::Download(m - 1, lens[m - 1]));
    assert(r@ =~= all.take(2 * m + 2));
    for k in 0..m
        invariant
            m == lens@.len(),
            all == commands(lens@, kernel, grid),
            r@ == all.take(2 * m + 2 + k),
    {
        r.push(Command::Free(k));
        assert(all.take(2 * m + 2 + k + 1) =~= all.take(2 * m + 2 + k).push(all[2 * m + 2 + k]));
    }
    assert(all.take(3 * m + 2) =~= all);
    r
}

/// The elements of a slice as a vector.
fn copied<R: Real>(values: &[R]) -> (r: Vec<R>)
    ensures
        r@ == values@,
{
    vector_of(
        values.len(),
        |i: usize| -> (v: R)
            requires
                i < values@.len(),
            ensures
                v == values@[i as int],
            { values[i] })
}

/// The lengths of the buffers for these inputs and this number of results.
pub open spec fn buffer_lens<R>(inputs: Seq<Seq<R>>, results: usize) -> Seq<usize> {
    Seq::new(
        inputs.len() + 1,
        |k: int|
            if k < inputs.len() {
                inputs[k].len() as usize
            } else {
                results
            },
    )
}

/// The job is about to start, and launches the kernel on these inputs and arguments, a
/// thread for each result.
pub open spec fn starts<R>(
    job: DeviceJob<R>,
    kernel: Kernel,
    inputs: Seq<Seq<R>>,
    args: Seq<KernelArg<R>>,
    results: usize,
) -> bool {
    &&& job.at == 0
    &&& job.results == results
    &&& job.args@ == args
    &&& job.inputs@.len() == inputs.len()
    &&& forall|k: int| 0 <= k < inputs.len() ==> (#[trigger] job.inputs@[k])@ == inputs[k]
    &&& job.commands@ == commands(buffer_lens(inputs, results), kernel, blocks(results))
}

/// A job for these inputs.
fn job_for<R: Real>(
    kernel: Kernel,
    inputs: Vec<Vec<R>>,
    args: Vec<KernelArg<R>>,
    results: usize,
    Ghost(values): Ghost<Seq<Seq<R>>>,
) -> (r: DeviceJob<R>)
    requires
        results as u32 + 255 <= u32::MAX,
        inputs@.len() < usize::MAX,
        inputs@.len() == values.len(),
        forall|k: int| 0 <= k < values.len() ==> (#[trigger] inputs@[k])@ == values[k],
    ensures
        starts(r, kernel, values, args@, results),
{
    let m = inputs.len();
    let lens = vector_of(
        m + 1,
        |k: usize| -> (n: usize)
            requires
                k <= m,
            ensures
                n == buffer_lens(values, results)[k as int],
            {
                if k < m {
                    inputs[k].len()
                } else {
                    results
                }
            });
    assert(lens@ =~= buffer_lens(values, results));
    let grid: u32 = (results as u32 + 255) / 256;
    DeviceJob { commands: command_list(lens.as_slice(), kernel, grid), inputs, args, results, at: 0 }
}

/// The arguments of the array factor kernel: the inputs and the output, then the number of
/// thetas, of phis and of elements.
pub open spec fn array_factor_args<R>(n_theta: usize, n_phi: usize, n_elem: usize) -> Seq<
    KernelArg<R>,
> {
    seq![
        KernelArg::Buffer(0),
        KernelArg::Buffer(1),
        KernelArg::Buffer(2),
        KernelArg::Buffer(3),
        KernelArg::Buffer(4),
        KernelArg::Buffer(5),
        KernelArg::Buffer(6),
        KernelArg::Buffer(7),
        KernelArg::Int(n_theta as i32),
        KernelArg::Int(n_phi as i32),
        KernelArg::Int(n_elem as i32),
    ]
}

/// The job computes the array factor with a level for each theta and phi.
pub open spec fn is_array_factor<R>(
    job: DeviceJob<R>,
    x: Seq<R>,
    y: Seq<R>,
    w_real: Seq<R>,
    w_imag: Seq<R>,
    sin_theta: Seq<R>,
    cos_phi: Seq<R>,
    sin_phi: Seq<R>,
) -> bool {
    starts(
        job,
        Kernel::ArrayFactor,
        seq![x, y, w_real, w_imag, sin_theta, cos_phi, sin_phi],
        array_factor_args(
            sin_theta.len() as usize,
            cos_phi.len() as usize,
            x.len() as usize,
        ),
        (sin_theta.len() * cos_phi.len()) as usize,
    )
}

/// The array factor as a job for the device.
pub fn array_factor_cuda<R: Real>(
    x: &[R],
    y: &[R],
    w_real: &[R],
    w_imag: &[R],
    sin_theta: &[R],
    cos_phi: &[R],
    sin_phi: &[R],
) -> (r: DeviceJob<R>)
    requires
        sin_theta@.len() * cos_phi@.len() <= usize::MAX,
        ((sin_theta@.len() * cos_phi@.len()) as usize) as u32 + 255 <= u32::MAX,
    ensures
        is_array_factor(r, x@, y@, w_real@, w_imag@, sin_theta@, cos_phi@, sin_phi@),
{
    let n_theta = sin_theta.len();
    let n_phi = cos_phi.len();
    let inputs: Vec<Vec<R>> = vec![
        copied(x),
        copied(y),
        copied(w_real),
        copied(w_imag),
        copied(sin_theta),
        copied(cos_phi),
        copied(sin_phi),
    ];
    let args: Vec<KernelArg<R>> = vec![
        KernelArg::Buffer(0),
        KernelArg::Buffer(1),
        KernelArg::Buffer(2),
        KernelArg::Buffer(3),
        KernelArg::Buffer(4),
        KernelArg::Buffer(5),
        KernelArg::Buffer(6),
        KernelArg::Buffer(7),
        KernelArg::Int(n_theta as i32),
        KernelArg::Int(n_phi as i32),
        KernelArg::Int(x.len() as i32),
    ];
    assert(args@ =~= array_factor_args::<R>(n_theta, n_phi, x@.len() as usize));
    let ghost values = seq![x@, y@, w_real@, w_imag@, sin_theta@, cos_phi@, sin_phi@];
    job_for(Kernel::ArrayFactor, inputs, args, n_theta * n_phi, Ghost(values))
}

/// The arguments of the beam cut kernel: the inputs, the cosine and the sine of the plane,
/// the output, then the number of angles and of elements.
pub open spec fn beam_cut_args<R: Real, M: Fn(Elementary<R>) -> R>(
    math: M,
    phi_deg: R,
    n_angles: usize,
    n_elem: usize,
) -> Seq<KernelArg<R>> {
    let phi = value(math, Elementary::ToRadians(phi_deg));
    seq![
        KernelArg::Buffer(0),
        KernelArg::Buffer(1),
        KernelArg::Buffer(2),
        KernelArg::Buffer(3),
        KernelArg::Buffer(4),
        KernelArg::Scalar(value(math, Elementary::Cos(phi))),
        KernelArg::Scalar(value(math, Elementary::Sin(phi))),
        KernelArg::Buffer(5),
        KernelArg::Int(n_angles as i32),
        KernelArg::Int(n_elem as i32),
    ]
}

/// The job computes the cut at `phi_deg` with a level for each theta.
pub open spec fn is_beam_cut<R: Real, M: Fn(Elementary<R>) -> R>(
    job: DeviceJob<R>,
    math: M,
    x: Seq<R>,
    y: Seq<R>,
    w_real: Seq<R>,
    w_imag: Seq<R>,
    theta_deg: Seq<R>,
    phi_deg: R,
) -> bool {
    starts(
        job,
        Kernel::BeamCut,
        seq![x, y, w_real, w_imag, theta_deg],
        beam_cut_args(math, phi_deg, theta_deg.len() as usize, x.len() as usize),
        theta_deg.len() as usize,
    )
}

/// A beam cut as a job for the device.
pub fn beam_cut_cuda<R: Real, M: Fn(Elementary<R>) -> R>(
    x: &[R],
    y: &[R],
    w_real: &[R],
    w_imag: &[R],
    theta_deg: &[R],
    phi_deg: R,
    math: &M,
) -> (r: DeviceJob<R>)
    requires
        evaluates(*math),
        (theta_deg@.len() as usize) as u32 + 255 <= u32::MAX,
    ensures
        is_beam_cut(r, *math, x@, y@, w_real@, w_imag@, theta_deg@, phi_deg),
{
    let n_angles = theta_deg.len();
    let phi = math(Elementary::ToRadians(phi_deg));
    let inputs: Vec<Vec<R>> = vec![
        copied(x),
        copied(y),
        copied(w_real),
        copied(w_imag),
        copied(theta_deg),
    ];
    let args: Vec<KernelArg<R>> = vec![
        KernelArg::Buffer(0),
        KernelArg::Buffer(1),
        KernelArg::Buffer(2),
        KernelArg::Buffer(3),
        KernelArg::Buffer(4),
        KernelArg::Scalar(math(Elementary::Cos(phi))),
        KernelArg::Scalar(math(Elementary::Sin(phi))),
        KernelArg::Buffer(5),
        KernelArg::Int(n_angles as i32),
        KernelArg::Int(x.len() as i32),
    ];
    assert(args@ =~= beam_cut_args(*math, phi_deg, n_angles, x@.len() as usize));
    let ghost values = seq![x@, y@, w_real@, w_imag@, theta_deg@];
    job_for(Kernel::BeamCut, inputs, args, n_angles, Ghost(values))
}

// ---- what holds of every job ------------------------------------------------

/// The command uses the buffer in this slot.
pub open spec fn uses(c: Command, slot: usize) -> bool {
    c == Command::Upload(slot) || c == Command::Free(slot) || (c is Download && c->Download_0
        == slot)
}

/// The buffer in this slot is there before command `k`: it was made, and not given back.
pub open spec fn live(program: Seq<Command>, slot: usize, k: int) -> bool {
    &&& exists|i: int| 0 <= i < k && #[trigger] program[i] is Alloc && program[i]->Alloc_0 == slot
    &&& forall|i: int| 0 <= i < k ==> #[trigger] program[i] != Command::Free(slot)
}

/// No command of a job uses a buffer that has not been made or has been given back, and at
/// the launch every buffer is there.
pub proof fn no_dead_buffer_is_used(lens: Seq<usize>, kernel: Kernel, grid: u32, k: int, slot: usize)
    requires
        1 <= lens.len() <= usize::MAX,
        0 <= k < commands(lens, kernel, grid).len(),
        uses(commands(lens, kernel, grid)[k], slot) || (commands(lens, kernel, grid)[k] is Launch
            && slot < lens.len()),
    ensures
        live(commands(lens, kernel, grid), slot, k),
{
    let program = commands(lens, kernel, grid);
    assert(program[slot as int] is Alloc);
}

/// A job that runs to its end gives back every buffer that it makes, once: each slot is made
/// by exactly one command and given back by exactly one, which comes later.
pub proof fn every_buffer_is_given_back(lens: Seq<usize>, kernel: Kernel, grid: u32, slot: usize)
    requires
        1 <= lens.len() <= usize::MAX,
        slot < lens.len(),
    ensures
        ({
            let program = commands(lens, kernel, grid);
            let made = slot as int;
            let freed = 2 * lens.len() + 2 + slot;
            &&& 0 <= made < freed < program.len()
            &&& program[made] == Command::Alloc(slot, lens[slot as int])
            &&& program[freed] == Command::Free(slot)
            &&& forall|i: int|
                0 <= i < program.len() && (#[trigger] program[i] is Alloc) && program[i]->Alloc_0
                    == slot ==> i == made
            &&& forall|i: int|
                0 <= i < program.len() && #[trigger] program[i] == Command::Free(slot) ==> i
                    == freed
        }),
{
}

/// The blocks of a launch hold at least one thread for each of the `n` results, and less than
/// one block is idle.
pub proof fn blocks_cover_the_work(n: usize)
    requires
        n + 255 <= u32::MAX,
    ensures
        n <= blocks(n) * BLOCK < n + BLOCK,
{
}

/// Where a job with `total` commands stands after an outcome of the command at `at`.
pub open spec fn stands_after(total: nat, at: nat, outcome: Result<(), DriverError>) -> nat {
    if outcome is Ok {
        at + 1
    } else {
        total
    }
}

/// How a job ends whose commands, from the one at `at` on, have these outcomes: well where it
/// comes to its end, and otherwise with the error that stops it.
pub open spec fn run(total: nat, at: nat, outcomes: Seq<Result<(), DriverError>>) -> Result<
    nat,
    DriverError,
>
    decreases outcomes.len(),
{
    if at >= total || outcomes.len() == 0 {
        Ok(at)
    } else {
        match outcomes[0] {
            Ok(_) => run(total, stands_after(total, at, outcomes[0]), outcomes.skip(1)),
            Err(e) => Err(e),
        }
    }
}

/// A job that is told an outcome for each of its commands ends well exactly where every
/// outcome is good, and otherwise with the first error.
pub proof fn job_ends_as_its_commands_do(
    total: nat,
    at: nat,
    outcomes: Seq<Result<(), DriverError>>,
)
    requires
        at + outcomes.len() == total,
    ensures
        run(total, at, outcomes) is Ok <==> forall|i: int|
            0 <= i < outcomes.len() ==> (#[trigger] outcomes[i]) is Ok,
        run(total, at, outcomes) is Ok ==> run(total, at, outcomes) == Ok::<nat, DriverError>(
            total,
        ),
        run(total, at, outcomes) matches Err(e) ==> exists|i: int|
            {
                &&& 0 <= i < outcomes.len()
                &&& #[trigger] outcomes[i] == Err::<(), DriverError>(e)
                &&& forall|j: int| 0 <= j < i ==> (#[trigger] outcomes[j]) is Ok
            },
    decreases outcomes.len(),
{
    if outcomes.len() > 0 {
        let first = outcomes[0];
        let rest = outcomes.skip(1);
        if first is Ok {
            job_ends_as_its_commands_do(total, at + 1, rest);
            assert forall|i: int| 1 <= i < outcomes.len() implies outcomes[i] == rest[i - 1] by {}
            match run(total, at + 1, rest) {
                Ok(_) => {
                    assert forall|i: int| 0 <= i < outcomes.len() implies (
                    #[trigger] outcomes[i]) is Ok by {
                        if i > 0 {
                            assert(rest[i - 1] is Ok);
                        }
                    }
                },
                Err(e) => {
                    let k = choose|i: int|
                        {
                            &&& 0 <= i < rest.len()
                            &&& #[trigger] rest[i] == Err::<(), DriverError>(e)
                            &&& forall|j: int| 0 <= j < i ==> (#[trigger] rest[j]) is Ok
                        };
                    assert(outcomes[k + 1] == Err::<(), DriverError>(e));
                    assert forall|j: int| 0 <= j < k + 1 implies (#[trigger] outcomes[j]) is Ok by {
                        if j > 0 {
                            assert(rest[j - 1] is Ok);
                        }
                    }
                },
            }
        } else {
            assert(outcomes[0] == Err::<(), DriverError>(first->Err_0));
        }
    }
}

/// Command `i` of a job stands before command `j` of it.
pub open spec fn precedes(program: Seq<Command>, first: Command, second: Command) -> bool {
    exists|i: int, j: int|
        0 <= i < j < program.len() && #[trigger] program[i] == first && #[trigger] program[j]
            == second
}

/// Every job brings its inputs to the device and its results back: the buffer of each input is
/// as long as the input and is filled before the launch, the launch has a thread for each
/// result and less than a block to spare, the device is waited for after the launch, and then
/// as many results are read as were asked for, out of the last buffer.
proof fn jobs_run_their_kernel<R>(
    job: DeviceJob<R>,
    kernel: Kernel,
    inputs: Seq<Seq<R>>,
    args: Seq<KernelArg<R>>,
    results: usize,
    k: int,
)
    requires
        starts(job, kernel, inputs, args, results),
        inputs.len() < usize::MAX,
        results + 255 <= u32::MAX,
        0 <= k < inputs.len(),
        inputs[k].len() <= usize::MAX,
    ensures
        ({
            let program = job.commands@;
            let grid = ((results + 255) / 256) as u32;
            let launch = Command::Launch(kernel, grid);
            let read = Command::Download(inputs.len() as usize, results);
            &&& job.results == results
            &&& job.inputs@[k]@ == inputs[k]
            &&& precedes(
                program,
                Command::Alloc(k as usize, inputs[k].len() as usize),
                Command::Upload(k as usize),
            )
            &&& precedes(program, Command::Upload(k as usize), launch)
            &&& precedes(program, Command::Alloc(inputs.len() as usize, results), launch)
            &&& precedes(program, launch, Command::Synchronize)
            &&& precedes(program, Command::Synchronize, read)
            &&& precedes(program, read, Command::Free(k as usize))
            &&& precedes(program, read, Command::Free(inputs.len() as usize))
            &&& results <= grid * 256 < results + 256
        }),
{
    let lens = buffer_lens(inputs, results);
    let m = lens.len() as int;
    let program = job.commands@;
    assert(program == commands(lens, kernel, blocks(results)));
    assert(program[k] == Command::Alloc(k as usize, inputs[k].len() as usize));
    assert(program[m + k] == Command::Upload(k as usize));
    assert(program[m - 1] == Command::Alloc(inputs.len() as usize, results));
    assert(program[2 * m - 1] == Command::Launch(kernel, blocks(results)));
    assert(program[2 * m] == Command::Synchronize);
    assert(program[2 * m + 1] == Command::Download(inputs.len() as usize, results));
    assert(program[2 * m + 2 + k] == Command::Free(k as usize));
    assert(program[2 * m + 2 + m - 1] == Command::Free(inputs.len() as usize));
}

/// The job of an array factor hands the kernel the positions, the weights, and the sines and
/// cosines of the angles, in this order, and as arguments behind them the buffer of the
/// results and the numbers of thetas, phis and elements. It is filled, launched, waited for
/// and read as every job is, with one result for each theta and phi.
pub proof fn array_factor_jobs_run<R>(
    job: DeviceJob<R>,
    x: Seq<R>,
    y: Seq<R>,
    w_real: Seq<R>,
    w_imag: Seq<R>,
    sin_theta: Seq<R>,
    cos_phi: Seq<R>,
    sin_phi: Seq<R>,
    k: int,
)
    requires
        is_array_factor(job, x, y, w_real, w_imag, sin_theta, cos_phi, sin_phi),
        sin_theta.len() * cos_phi.len() + 255 <= u32::MAX,
        0 <= k < 7,
        ({
            let inputs = seq![x, y, w_real, w_imag, sin_theta, cos_phi, sin_phi];
            forall|l: int| 0 <= l < 7 ==> (#[trigger] inputs[l]).len() <= usize::MAX
        }),
    ensures
        ({
            let inputs = seq![x, y, w_real, w_imag, sin_theta, cos_phi, sin_phi];
            let results = (sin_theta.len() * cos_phi.len()) as usize;
            let grid = ((results + 255) / 256) as u32;
            let launch = Command::Launch(Kernel::ArrayFactor, grid);
            let read = Command::Download(7, results);
            let program = job.commands@;
            &&& job.at == 0 && job.results == results
            &&& job.inputs@.len() == 7 && job.inputs@[k]@ == inputs[k]
            &&& precedes(
                program,
                Command::Alloc(k as usize, inputs[k].len() as usize),
                Command::Upload(k as usize),
            )
            &&& precedes(program, Command::Upload(k as usize), launch)
            &&& precedes(program, Command::Alloc(7, results), launch)
            &&& precedes(program, launch, Command::Synchronize)
            &&& precedes(program, Command::Synchronize, read)
            &&& precedes(program, read, Command::Free(k as usize))
            &&& precedes(program, read, Command::Free(7))
            &&& results <= grid * 256 < results + 256
            &&& job.args@.len() == 11
            &&& forall|b: int|
                0 <= b < 8 ==> #[trigger] job.args@[b] == KernelArg::<R>::Buffer(b as usize)
            &&& job.args@[8] == KernelArg::<R>::Int(sin_theta.len() as usize as i32)
            &&& job.args@[9] == KernelArg::<R>::Int(cos_phi.len() as usize as i32)
            &&& job.args@[10] == KernelArg::<R>::Int(x.len() as usize as i32)
        }),
{
    let inputs = seq![x, y, w_real, w_imag, sin_theta, cos_phi, sin_phi];
    assert(inputs[k].len() <= usize::MAX);
    jobs_run_their_kernel(
        job,
        Kernel::ArrayFactor,
        inputs,
        array_factor_args(
            sin_theta.len() as usize,
            cos_phi.len() as usize,
            x.len() as usize,
        ),
        (sin_theta.len() * cos_phi.len()) as usize,
        k,
    );
}

/// The job of a beam cut hands the kernel the positions, the weights and the angles, in this
/// order, the cosine and the sine of the plane of the cut, the buffer of the results, and the
/// numbers of angles and elements. It is filled, launched, waited for and read as every job
/// is, with one result for each angle.
pub proof fn beam_cut_jobs_run<R: Real, M: Fn(Elementary<R>) -> R>(
    job: DeviceJob<R>,
    math: M,
    x: Seq<R>,
    y: Seq<R>,
    w_real: Seq<R>,
    w_imag: Seq<R>,
    theta_deg: Seq<R>,
    phi_deg: R,
    k: int,
)
    requires
        is_beam_cut(job, math, x, y, w_real, w_imag, theta_deg, phi_deg),
        theta_deg.len() + 255 <= u32::MAX,
        0 <= k < 5,
        ({
            let inputs = seq![x, y, w_real, w_imag, theta_deg];
            forall|l: int| 0 <= l < 5 ==> (#[trigger] inputs[l]).len() <= usize::MAX
        }),
    ensures
        ({
            let inputs = seq![x, y, w_real, w_imag, theta_deg];
            let results = theta_deg.len() as usize;
            let grid = ((results + 255) / 256) as u32;
            let launch = Command::Launch(Kernel::BeamCut, grid);
            let read = Command::Download(5, results);
            let program = job.commands@;
            let phi = value(math, Elementary::ToRadians(phi_deg));
            &&& job.at == 0 && job.results == results
            &&& job.inputs@.len() == 5 && job.inputs@[k]@ == inputs[k]
            &&& precedes(
                program,
                Command::Alloc(k as usize, inputs[k].len() as usize),
                Command::Upload(k as usize),
            )
            &&& precedes(program, Command::Upload(k as usize), launch)
            &&& precedes(program, Command::Alloc(5, results), launch)
            &&& precedes(program, launch, Command::Synchronize)
            &&& precedes(program, Command::Synchronize, read)
            &&& precedes(program, read, Command::Free(k as usize))
            &&& precedes(program, read, Command::Free(5))
            &&& results <= grid * 256 < results + 256
            &&& job.args@.len() == 10
            &&& forall|b: int|
                0 <= b < 5 ==> #[trigger] job.args@[b] == KernelArg::<R>::Buffer(b as usize)
            &&& job.args@[5] == KernelArg::Scalar(value(math, Elementary::Cos(phi)))
            &&& job.args@[6] == KernelArg::Scalar(value(math, Elementary::Sin(phi)))
            &&& job.args@[7] == KernelArg::<R>::Buffer(5)
            &&& job.args@[8] == KernelArg::<R>::Int(theta_deg.len() as usize as i32)
            &&& job.args@[9] == KernelArg::<R>::Int(x.len() as usize as i32)
        }),
{
    let inputs = seq![x, y, w_real, w_imag, theta_deg];
    assert(inputs[k].len() <= usize::MAX);
    jobs_run_their_kernel(
        job,
        Kernel::BeamCut,
        inputs,
        beam_cut_args(math, phi_deg, theta_deg.len() as usize, x.len() as usize),
        theta_deg.len() as usize,
        k,
    );
}

/// A command that went well brings the job to the next one, and one that failed ends it.
pub proof fn jobs_go_on_or_end(total: nat, at: nat, outcome: Result<(), DriverError>)
    requires
        at < total,
    ensures
        outcome is Ok ==> stands_after(total, at, outcome) == at + 1,
        outcome is Err ==> stands_after(total, at, outcome) == total,
{
}

} // verus!
