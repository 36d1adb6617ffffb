//! The driver, its start, jobs for the device and the way back to the host.
use phased_array_rs::gpu::cuda_ffi::{
    available, init, judge, launch_kernel, synchronize, DriverCall, DriverError, GpuBuffer, Kernel,
};
use phased_array_rs::gpu::job::{
    array_factor_cuda, beam_cut_cuda, Command, DeviceJob, KernelArg, BLOCK, ELEMENT_BYTES,
};
use phased_array_rs::gpu::startup::{library_place, Action, Event, Startup, Step, STEPS};
use phased_array_rs::gpu::{
    compute_array_factor, compute_beam_cut, cuda_available, init_cuda,
};
use phased_array_rs::scalar::Elementary;
use phased_array_rs::text::{number_text, same_text};

fn math(e: Elementary<f64>) -> f64 {
    match e {
        Elementary::Pi => std::f64::consts::PI,
        Elementary::Sin(a) => a.sin(),
        Elementary::Cos(a) => a.cos(),
        Elementary::Sqrt(a) => a.sqrt(),
        Elementary::Log10(a) => a.log10(),
        Elementary::ToRadians(a) => a.to_radians(),
        _ => unreachable!(),
    }
}

fn text<T>(r: Result<T, DriverError>) -> String {
    match r {
        Ok(_) => String::from("ok"),
        Err(e) => e.message(),
    }
}

#[test]
fn numbers_are_written_in_decimal() {
    for n in [0, 7, 10, 999, -1, -40, i32::MAX, i32::MIN] {
        assert_eq!(number_text(n), format!("{}", n));
    }
    assert!(same_text("open", "open"));
    assert!(!same_text("open", "opened"));
    assert!(!same_text("open", "Open"));
}

#[test]
fn the_driver_is_started_once() {
    let mut driver: Option<u32> = None;
    assert!(!available(&driver));
    assert!(!init(&mut driver, || Err(DriverError::LibraryNotFound)));
    assert!(!cuda_available(&driver));
    assert!(init(&mut driver, || Ok(5)));
    assert_eq!(driver, Some(5));
    assert!(init(&mut driver, || panic!("started twice")));
    assert!(init_cuda(&mut driver, || panic!("started twice")));
    assert_eq!(driver, Some(5));
    assert!(cuda_available(&driver));
}

#[test]
fn the_dispatcher_starts_the_driver() {
    let mut driver: Option<u32> = None;
    assert!(!init_cuda(&mut driver, || Err(DriverError::NotInitialized)));
    assert_eq!(driver, None);
    assert!(init_cuda(&mut driver, || Ok(1)));
    assert_eq!(driver, Some(1));
}

#[test]
fn errors_say_which_call_failed() {
    assert_eq!(DriverError::NotInitialized.message(), "CUDA not initialized");
    assert_eq!(DriverError::LibraryNotFound.message(), "nvcuda.dll not found in system paths");
    assert_eq!(
        DriverError::MissingSymbol(DriverCall::MemAlloc, String::from("no such thing")).message(),
        "symbol cuMemAlloc_v2\0: no such thing"
    );
    assert_eq!(DriverError::CallFailed(DriverCall::CtxCreate, 201).message(), "cuCtxCreate: 201");
    assert_eq!(
        DriverError::KernelFailed(DriverCall::LaunchKernel, String::from("beam"), -3).message(),
        "cuLaunchKernel(beam): -3"
    );
    assert_eq!(DriverError::InvalidName(String::from("zero")).message(), "Invalid name: zero");
}

#[test]
fn entry_points_have_names_and_symbols() {
    let calls = [
        (DriverCall::Init, "cuInit", "cuInit\0"),
        (DriverCall::DeviceGet, "cuDeviceGet", "cuDeviceGet\0"),
        (DriverCall::CtxCreate, "cuCtxCreate", "cuCtxCreate_v2\0"),
        (DriverCall::ModuleLoadData, "cuModuleLoadData", "cuModuleLoadData\0"),
        (DriverCall::LaunchKernel, "cuLaunchKernel", "cuLaunchKernel\0"),
        (DriverCall::MemAlloc, "cuMemAlloc", "cuMemAlloc_v2\0"),
        (DriverCall::MemcpyHtoD, "cuMemcpyHtoD", "cuMemcpyHtoD_v2\0"),
        (DriverCall::MemcpyDtoH, "cuMemcpyDtoH", "cuMemcpyDtoH_v2\0"),
        (DriverCall::CtxSynchronize, "cuCtxSynchronize", "cuCtxSynchronize\0"),
        (DriverCall::MemFree, "cuMemFree", "cuMemFree_v2\0"),
        (DriverCall::ModuleGetFunction, "cuModuleGetFunction", "cuModuleGetFunction\0"),
    ];
    for (call, name, symbol) in calls {
        assert_eq!(call.name(), name);
        assert_eq!(call.symbol(), symbol);
    }
    assert_eq!(Kernel::ArrayFactor.name(), "array_factor_kernel");
    assert_eq!(Kernel::BeamCut.name(), "beam_cut_kernel");
    assert_eq!(Kernel::FindMax.name(), "find_max_kernel");
}

#[test]
fn return_codes_other_than_zero_are_errors() {
    assert_eq!(text(judge(DriverCall::Init, 0)), "ok");
    assert_eq!(text(judge(DriverCall::Init, 100)), "cuInit: 100");
}

#[test]
fn without_a_driver_nothing_works() {
    let none: Option<u32> = None;
    let buffer = GpuBuffer { ptr: 16, len: 2 };
    let want = "CUDA not initialized";
    assert_eq!(text(GpuBuffer::allocate(&none, 2, 8, |_, _| panic!("called"))), want);
    assert_eq!(text(buffer.copy_host_to_device(&none, &[1.0], |_, _, _| panic!("called"))), want);
    assert_eq!(
        text(buffer.copy_device_to_host::<_, f64, _>(&none, 1, |_, _, _| panic!("called"))),
        want
    );
    assert_eq!(
        text(launch_kernel::<_, u8, _, _, _>(
            &none,
            "beam_cut_kernel",
            (1, 1, 1),
            (256, 1, 1),
            (),
            |_, _| panic!("called"),
            |_, _, _, _, _| panic!("called"),
        )),
        want
    );
    assert_eq!(text(synchronize(&none, |_| panic!("called"))), want);
    assert_eq!(text(buffer.free(&none, |_, _| panic!("called"))), want);
}

#[test]
fn buffers_pass_addresses_and_sizes_on() {
    let driver = Some(7_u32);
    let buffer = GpuBuffer::allocate(&driver, 3, 8, |d: &u32, bytes: usize| {
        assert_eq!((*d, bytes), (7, 24));
        (0, 4096)
    })
    .unwrap();
    assert_eq!((buffer.ptr, buffer.len), (4096, 3));
    assert_eq!(
        text(GpuBuffer::allocate(&driver, 3, 8, |_: &u32, _: usize| (2, 4096))),
        "cuMemAlloc: 2"
    );
    let sent = buffer.copy_host_to_device(&driver, &[1, 2], |_: &u32, ptr: u64, data: &[i32]| {
        assert_eq!((ptr, data), (4096, &[1, 2][..]));
        0
    });
    assert_eq!(text(sent), "ok");
    let sent = buffer.copy_host_to_device(&driver, &[1], |_: &u32, _: u64, _: &[i32]| 1);
    assert_eq!(text(sent), "cuMemcpyHtoD: 1");
    let got = buffer.copy_device_to_host(&driver, 2, |_: &u32, ptr: u64, len: usize| {
        assert_eq!((ptr, len), (4096, 2));
        (0, vec![8, 9])
    });
    assert_eq!(got.unwrap(), vec![8, 9]);
    let got = buffer.copy_device_to_host(&driver, 2, |_: &u32, _: u64, _: usize| (3, vec![0]));
    assert_eq!(text(got), "cuMemcpyDtoH: 3");
    assert_eq!(text(synchronize(&driver, |_: &u32| 0)), "ok");
    assert_eq!(text(synchronize(&driver, |_: &u32| 700)), "cuCtxSynchronize: 700");
    let other = GpuBuffer { ptr: 1, len: 1 };
    assert_eq!(text(other.free(&driver, |_: &u32, _: u64| 1)), "cuMemFree: 1");
    let freed = buffer.free(&driver, |_: &u32, ptr: u64| {
        assert_eq!(ptr, 4096);
        0
    });
    assert_eq!(text(freed), "ok");
}

type Size = (u32, u32, u32);

#[test]
fn kernels_are_looked_up_before_they_are_launched() {
    let driver = Some(());
    let (grid, block) = ((3, 1, 1), (256, 1, 1));
    let launched = launch_kernel(
        &driver,
        Kernel::ArrayFactor.name(),
        grid,
        block,
        [1, 2, 3],
        |_: &(), name: &str| Ok((0, name.len())),
        |_: &(), handle: usize, g: Size, b: Size, args: [i32; 3]| {
            assert_eq!((handle, g, b, args), (19, (3, 1, 1), (256, 1, 1), [1, 2, 3]));
            0
        },
    );
    assert_eq!(text(launched), "ok");
    let missing = launch_kernel(
        &driver,
        Kernel::FindMax.name(),
        grid,
        block,
        (),
        |_: &(), _: &str| Ok((500, 0)),
        |_: &(), _: i32, _: Size, _: Size, _: ()| panic!("launched"),
    );
    assert_eq!(text(missing), "cuModuleGetFunction(find_max_kernel): 500");
    let failed = launch_kernel(
        &driver,
        Kernel::BeamCut.name(),
        grid,
        block,
        (),
        |_: &(), _: &str| Ok((0, 0)),
        |_: &(), _: i32, _: Size, _: Size, _: ()| 719,
    );
    assert_eq!(text(failed), "cuLaunchKernel(beam_cut_kernel): 719");
    let unnamed = launch_kernel(
        &driver,
        "a\0b",
        grid,
        block,
        (),
        |_: &(), _: &str| Err(String::from("zero at 1")),
        |_: &(), _: i32, _: Size, _: Size, _: ()| panic!("launched"),
    );
    assert_eq!(text(unnamed), "Invalid name: zero at 1");
}

/// Performs every action as `answer` says, and returns where the start ended and the
/// actions on the way.
fn start(
    answer: fn(Action) -> Event,
) -> (Result<(), String>, Vec<Action>) {
    let mut state = Startup::begin();
    let mut seen = vec![];
    loop {
        let action = state.action();
        seen.push(action);
        if action == Action::Finish {
            return (Ok(()), seen);
        }
        match state.advance(answer(action)) {
            Ok(next) => state = next,
            Err(e) => return (Err(e.message()), seen),
        }
    }
}

fn well(action: Action) -> Event {
    match action {
        Action::Open(_) => Event::Opened(true),
        Action::Perform(Step::Resolve(_)) => Event::Resolved(Ok(())),
        Action::Perform(Step::Invoke(_)) => Event::Returned(0),
        Action::Finish => unreachable!(),
    }
}

#[test]
fn a_start_resolves_and_calls_in_order() {
    let (end, seen) = start(well);
    assert_eq!(end, Ok(()));
    assert_eq!(seen.len(), 1 + STEPS + 1);
    assert_eq!(seen[0], Action::Open(0));
    assert_eq!(seen[1], Action::Perform(Step::Resolve(DriverCall::Init)));
    assert_eq!(seen[2], Action::Perform(Step::Invoke(DriverCall::Init)));
    assert_eq!(seen[8], Action::Perform(Step::Invoke(DriverCall::ModuleLoadData)));
    assert_eq!(seen[9], Action::Perform(Step::Resolve(DriverCall::LaunchKernel)));
    assert_eq!(seen[15], Action::Perform(Step::Resolve(DriverCall::ModuleGetFunction)));
}

#[test]
fn the_library_is_looked_for_in_two_places() {
    assert_eq!(library_place(0), "nvcuda.dll");
    assert_eq!(library_place(1), "C:\\Windows\\System32\\nvcuda.dll");
    let (end, seen) = start(|_| Event::Opened(false));
    assert_eq!(end, Err(String::from("nvcuda.dll not found in system paths")));
    assert_eq!(seen, vec![Action::Open(0), Action::Open(1)]);
    let (end, _) = start(|a| if a == Action::Open(0) { Event::Opened(false) } else { well(a) });
    assert_eq!(end, Ok(()));
}

#[test]
fn the_first_failure_ends_the_start() {
    let (end, seen) = start(|a| {
        if a == Action::Perform(Step::Invoke(DriverCall::DeviceGet)) {
            Event::Returned(101)
        } else {
            well(a)
        }
    });
    assert_eq!(end, Err(String::from("cuDeviceGet: 101")));
    assert_eq!(seen.len(), 5);
    let (end, seen) = start(|a| {
        if a == Action::Perform(Step::Resolve(DriverCall::MemFree)) {
            Event::Resolved(Err(String::from("gone")))
        } else {
            well(a)
        }
    });
    assert_eq!(end, Err(String::from("symbol cuMemFree_v2\0: gone")));
    assert_eq!(seen.len(), 15);
}

fn array_factor_job() -> DeviceJob<f64> {
    array_factor_cuda(
        &[0.0, 0.5],
        &[0.0, 0.0],
        &[1.0, 1.0],
        &[0.0, 0.0],
        &[0.1; 20],
        &[1.0; 13],
        &[0.0; 13],
    )
}

#[test]
fn an_array_factor_job_makes_fills_launches_reads_and_gives_back() {
    let job = array_factor_job();
    assert_eq!((BLOCK, ELEMENT_BYTES), (256, 8));
    let c = &job.commands;
    assert_eq!(c.len(), 26);
    assert_eq!(c[0], Command::Alloc(0, 2));
    assert_eq!(c[4], Command::Alloc(4, 20));
    assert_eq!(c[7], Command::Alloc(7, 260));
    assert_eq!(c[8], Command::Upload(0));
    assert_eq!(c[14], Command::Upload(6));
    // Two blocks of 256 threads for 260 results.
    assert_eq!(c[15], Command::Launch(Kernel::ArrayFactor, 2));
    assert_eq!(c[16], Command::Synchronize);
    assert_eq!(c[17], Command::Download(7, 260));
    assert_eq!(c[18], Command::Free(0));
    assert_eq!(c[25], Command::Free(7));
    assert_eq!(job.results, 260);
    assert_eq!(job.inputs.len(), 7);
    assert_eq!(job.inputs[0], vec![0.0, 0.5]);
    assert_eq!(job.inputs[5], vec![1.0; 13]);
    assert_eq!(job.args.len(), 11);
    assert!(matches!(job.args[7], KernelArg::Buffer(7)));
    assert!(matches!(job.args[8], KernelArg::Int(20)));
    assert!(matches!(job.args[9], KernelArg::Int(13)));
    assert!(matches!(job.args[10], KernelArg::Int(2)));
}

#[test]
fn a_beam_cut_job_carries_the_plane_of_the_cut() {
    let job = beam_cut_cuda(&[0.0], &[0.0], &[1.0], &[0.0], &[0.0; 181], 60.0, &math);
    assert_eq!(job.commands.len(), 20);
    assert_eq!(job.commands[11], Command::Launch(Kernel::BeamCut, 1));
    assert_eq!(job.commands[13], Command::Download(5, 181));
    assert_eq!(job.args.len(), 10);
    let phi = 60.0_f64.to_radians();
    assert!(matches!(job.args[5], KernelArg::Scalar(v) if v == phi.cos()));
    assert!(matches!(job.args[6], KernelArg::Scalar(v) if v == phi.sin()));
    assert!(matches!(job.args[7], KernelArg::Buffer(5)));
    assert!(matches!(job.args[8], KernelArg::Int(181)));
    assert!(matches!(job.args[9], KernelArg::Int(1)));
}

#[test]
fn a_job_runs_to_its_end_or_to_its_first_failure() {
    let mut job = array_factor_job();
    let mut done = 0;
    while let Some(_) = job.current() {
        assert!(job.settle(Ok(())).is_ok());
        done += 1;
    }
    assert_eq!(done, 26);
    let mut job = array_factor_job();
    for _ in 0..9 {
        assert!(job.settle(Ok(())).is_ok());
    }
    assert_eq!(job.current(), Some(Command::Upload(1)));
    let failed = job.settle(Err(DriverError::CallFailed(DriverCall::MemcpyHtoD, 1)));
    assert_eq!(text(failed), "cuMemcpyHtoD: 1");
    assert_eq!(job.current(), None);
}

fn patterns(driver: &Option<u8>, outcome: fn(usize) -> Option<f64>) -> (Vec<f64>, Vec<f64>) {
    let device = |_: &u8, job: DeviceJob<f64>| match outcome(job.results) {
        Some(v) => Ok(vec![v; job.results]),
        None => Err(DriverError::CallFailed(DriverCall::MemAlloc, 2)),
    };
    let (x, y, re, im) = ([-0.25, 0.25], [0.0, 0.0], [1.0, 1.0], [0.0, 0.0]);
    (
        compute_array_factor(
            &x, &y, &re, &im, &[0.0], &[1.0, 0.5], &[0.0, 0.5], &math, driver, &device,
        ),
        compute_beam_cut(&x, &y, &re, &im, &[0.0, 90.0, 30.0], 0.0, &math, driver, &device),
    )
}

#[test]
fn the_device_is_asked_first() {
    let (pattern, cut) = patterns(&Some(1), |n| Some(n as f64));
    assert_eq!(pattern, vec![2.0, 2.0]);
    assert_eq!(cut, vec![3.0, 3.0, 3.0]);
}

#[test]
fn the_host_takes_over_without_a_device_or_where_it_fails() {
    let host = patterns(&None, |_| panic!("asked"));
    let two = 20.0 * 2.0_f64.log10();
    assert_eq!(host.0, vec![two, two]);
    assert_eq!(host.1[0], two);
    assert!(host.1[1] < -290.0 || host.1[1] == -150.0);
    assert_eq!(patterns(&Some(1), |_| None), host);
    // One of the two fails.
    let mixed = patterns(&Some(1), |n| if n == 2 { None } else { Some(0.0) });
    assert_eq!(mixed, (host.0, vec![0.0; 3]));
}
