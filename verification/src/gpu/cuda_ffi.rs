//! The CUDA driver as seen from this side: which entry points are resolved and called in
//! which order, how their return codes are read, and the buffers on the device.
use vstd::prelude::*;
use vstd::string::StringExecFns;
use crate::text::{number_text, written};

verus! {

/// The return code of a driver call that succeeded.
pub const CUDA_SUCCESS: i32 = 0;

/// An entry point of the driver.
#[derive(Clone, Copy, Debug, PartialEq, Eq, Structural)]
pub enum DriverCall {
    Init,
    DeviceGet,
    CtxCreate,
    ModuleLoadData,
    LaunchKernel,
    MemAlloc,
    MemcpyHtoD,
    MemcpyDtoH,
    CtxSynchronize,
    MemFree,
    ModuleGetFunction,
}

impl DriverCall {
    /// The name under which failures of the call are reported.
    pub open spec fn title(self) -> Seq<char> {
        match self {
            DriverCall::Init => "cuInit"@,
            DriverCall::DeviceGet => "cuDeviceGet"@,
            DriverCall::CtxCreate => "cuCtxCreate"@,
            DriverCall::ModuleLoadData => "cuModuleLoadData"@,
            DriverCall::LaunchKernel => "cuLaunchKernel"@,
            DriverCall::MemAlloc => "cuMemAlloc"@,
            DriverCall::MemcpyHtoD => "cuMemcpyHtoD"@,
            DriverCall::MemcpyDtoH => "cuMemcpyDtoH"@,
            DriverCall::CtxSynchronize => "cuCtxSynchronize"@,
            DriverCall::MemFree => "cuMemFree"@,
            DriverCall::ModuleGetFunction => "cuModuleGetFunction"@,
        }
    }

    /// The symbol in the driver library, with its closing zero.
    pub open spec fn exported(self) -> Seq<char> {
        match self {
            DriverCall::Init => "cuInit\0"@,
            DriverCall::DeviceGet => "cuDeviceGet\0"@,
            DriverCall::CtxCreate => "cuCtxCreate_v2\0"@,
            DriverCall::ModuleLoadData => "cuModuleLoadData\0"@,
            DriverCall::LaunchKernel => "cuLaunchKernel\0"@,
            DriverCall::MemAlloc => "cuMemAlloc_v2\0"@,
            DriverCall::MemcpyHtoD => "cuMemcpyHtoD_v2\0"@,
            DriverCall::MemcpyDtoH => "cuMemcpyDtoH_v2\0"@,
            DriverCall::CtxSynchronize => "cuCtxSynchronize\0"@,
            DriverCall::MemFree => "cuMemFree_v2\0"@,
            DriverCall::ModuleGetFunction => "cuModuleGetFunction\0"@,
        }
    }

    /// The name under which failures of the call are reported.
    pub fn name(&self) -> (r: &'static str)
        ensures
            r@ == self.title(),
    {
        match self {
            DriverCall::Init => "cuInit",
            DriverCall::DeviceGet => "cuDeviceGet",
            DriverCall::CtxCreate => "cuCtxCreate",
            DriverCall::ModuleLoadData => "cuModuleLoadData",
            DriverCall::LaunchKernel => "cuLaunchKernel",
            DriverCall::MemAlloc => "cuMemAlloc",
            DriverCall::MemcpyHtoD => "cuMemcpyHtoD",
            DriverCall::MemcpyDtoH => "cuMemcpyDtoH",
            DriverCall::CtxSynchronize => "cuCtxSynchronize",
            DriverCall::MemFree => "cuMemFree",
            DriverCall::ModuleGetFunction => "cuModuleGetFunction",
        }
    }

    /// The symbol in the driver library, with its closing zero.
    pub fn symbol(&self) -> (r: &'static str)
        ensures
            r@ == self.exported(),
    {
        match self {
            DriverCall::Init => "cuInit\0",
            DriverCall::DeviceGet => "cuDeviceGet\0",
            DriverCall::CtxCreate => "cuCtxCreate_v2\0",
            DriverCall::ModuleLoadData => "cuModuleLoadData\0",
            DriverCall::LaunchKernel => "cuLaunchKernel\0",
            DriverCall::MemAlloc => "cuMemAlloc_v2\0",
            DriverCall::MemcpyHtoD => "cuMemcpyHtoD_v2\0",
            DriverCall::MemcpyDtoH => "cuMemcpyDtoH_v2\0",
            DriverCall::CtxSynchronize => "cuCtxSynchronize\0",
            DriverCall::MemFree => "cuMemFree_v2\0",
            DriverCall::ModuleGetFunction => "cuModuleGetFunction\0",
        }
    }
}

/// A compute kernel of the device module.
#[derive(Clone, Copy, Debug, PartialEq, Eq, Structural)]
pub enum Kernel {
    ArrayFactor,
    BeamCut,
    FindMax,
}

impl Kernel {
    /// The name of the kernel in the device module.
    pub open spec fn title(self) -> Seq<char> {
        match self {
            Kernel::ArrayFactor => "array_factor_kernel"@,
            Kernel::BeamCut => "beam_cut_kernel"@,
            Kernel::FindMax => "find_max_kernel"@,
        }
    }

    /// The name of the kernel in the device module.
    pub fn name(&self) -> (r: &'static str)
        ensures
            r@ == self.title(),
    {
        match self {
            Kernel::ArrayFactor => "array_factor_kernel",
            Kernel::BeamCut => "beam_cut_kernel",
            Kernel::FindMax => "find_max_kernel",
        }
    }
}

/// Why the driver did not do what was asked.
#[derive(Debug)]
pub enum DriverError {
    /// There is no driver.
    NotInitialized,
    /// The driver library is in none of the places where it is looked for.
    LibraryNotFound,
    /// The library lacks an entry point; the text is the loader's reason.
    MissingSymbol(DriverCall, String),
    /// A call returned this code.
    CallFailed(DriverCall, i32),
    /// A name cannot be handed to the driver; the text is the reason.
    InvalidName(String),
    /// A call on behalf of the kernel with this name returned this code.
    KernelFailed(DriverCall, String, i32),
}

impl DriverError {
    /// The error as it is reported.
    pub open spec fn report(self) -> Seq<char> {
        match self {
            DriverError::NotInitialized => "CUDA not initialized"@,
            DriverError::LibraryNotFound => "nvcuda.dll not found in system paths"@,
            DriverError::MissingSymbol(call, reason) => "symbol "@ + call.exported() + ": "@
                + reason@,
            DriverError::CallFailed(call, code) => call.title() + ": "@ + written(code as int),
            DriverError::InvalidName(reason) => "Invalid name: "@ + reason@,
            DriverError::KernelFailed(call, name, code) => call.title() + "("@ + name@ + "): "@
                + written(code as int),
        }
    }

    /// The error as it is reported.
    pub fn message(&self) -> (r: String)
        ensures
            r@ == self.report(),
    {
        match self {
            DriverError::NotInitialized => String::from_str("CUDA not initialized"),
            DriverError::LibraryNotFound => String::from_str(
                "nvcuda.dll not found in system paths",
            ),
            DriverError::MissingSymbol(call, reason) => String::from_str("symbol ").concat(
                call.symbol(),
            ).concat(": ").concat(reason.as_str()),
            DriverError::CallFailed(call, code) => String::from_str(call.name()).concat(
                ": ",
            ).concat(number_text(*code).as_str()),
            DriverError::InvalidName(reason) => String::from_str("Invalid name: ").concat(
                reason.as_str(),
            ),
            DriverError::KernelFailed(call, name, code) => String::from_str(call.name()).concat(
                "(",
            ).concat(name.as_str()).concat("): ").concat(number_text(*code).as_str()),
        }
    }
}

// ---- the driver in use ------------------------------------------------------

/// Whether there is a driver.
pub fn available<D>(driver: &Option<D>) -> (r: bool)
    ensures
        r == (driver is Some),
{
    driver.is_some()
}

/// Makes sure that there is a driver, and says whether there is one: the first call that
/// finds none tries to start one, and keeps it where that succeeds.
pub fn init<D, F: FnOnce() -> Result<D, DriverError>>(driver: &mut Option<D>, try_init: F) -> (r: bool)
    requires
        *old(driver) is None ==> call_requires(try_init, ()),
    ensures
        r == (*final(driver) is Some),
        *old(driver) is Some ==> *final(driver) == *old(driver),
        *old(driver) is None ==> exists|outcome: Result<D, DriverError>|
            {
                &&& #[trigger] call_ensures(try_init, (), outcome)
                &&& *final(driver) == match outcome {
                    Ok(d) => Some(d),
                    Err(_) => None,
                }
            },
{
    if driver.is_some() {
        return true;
    }
    match try_init() {
        Ok(d) => {
            *driver = Some(d);
            true
        },
        Err(_) => false,
    }
}

/// What a call that returned `code` amounts to.
pub open spec fn verdict(call: DriverCall, code: i32) -> Result<(), DriverError> {
    if code == CUDA_SUCCESS {
        Ok(())
    } else {
        Err(DriverError::CallFailed(call, code))
    }
}

/// Reads a return code.
pub fn judge(call: DriverCall, code: i32) -> (r: Result<(), DriverError>)
    ensures
        r == verdict(call, code),
{
    if code == CUDA_SUCCESS {
        Ok(())
    } else {
        Err(DriverError::CallFailed(call, code))
    }
}

/// Elements on the device: their address and their number.
#[derive(Debug)]
pub struct GpuBuffer {
    pub ptr: u64,
    pub len: usize,
}

impl GpuBuffer {
    /// Room for `len` elements of `elem_size` bytes. The driver is asked for the bytes, and
    /// answers with its return code and an address.
    pub fn allocate<D, F: FnOnce(&D, usize) -> (i32, u64)>(
        driver: &Option<D>,
        len: usize,
        elem_size: usize,
        mem_alloc: F,
    ) -> (r: Result<Self, DriverError>)
        requires
            driver matches Some(d) ==> len * elem_size <= usize::MAX && call_requires(
                mem_alloc,
                (&d, (len * elem_size) as usize),
            ),
        ensures
            driver is None ==> r == Err::<Self, DriverError>(DriverError::NotInitialized),
            driver matches Some(d) ==> exists|answer: (i32, u64)|
                {
                    &&& #[trigger] call_ensures(
                        mem_alloc,
                        (&d, (len * elem_size) as usize),
                        answer,
                    )
                    &&& r == match verdict(DriverCall::MemAlloc, answer.0) {
                        Ok(_) => Ok(GpuBuffer { ptr: answer.1, len }),
                        Err(e) => Err(e),
                    }
                },
    {
        match driver {
            None => Err(DriverError::NotInitialized),
            Some(d) => {
                let (code, ptr) = mem_alloc(d, len * elem_size);
                match judge(DriverCall::MemAlloc, code) {
                    Ok(_) => Ok(GpuBuffer { ptr, len }),
                    Err(e) => Err(e),
                }
            },
        }
    }

    /// Copies from the host into the buffer. The driver is given the address and the data.
    pub fn copy_host_to_device<D, T, F: FnOnce(&D, u64, &[T]) -> i32>(
        &self,
        driver: &Option<D>,
        data: &[T],
        memcpy: F,
    ) -> (r: Result<(), DriverError>)
        requires
            driver matches Some(d) ==> call_requires(memcpy, (&d, self.ptr, data)),
        ensures
            driver is None ==> r == Err::<(), DriverError>(DriverError::NotInitialized),
            driver matches Some(d) ==> exists|code: i32| #[trigger]
                call_ensures(memcpy, (&d, self.ptr, data), code) && r == verdict(
                    DriverCall::MemcpyHtoD,
                    code,
                ),
    {
        match driver {
            None => Err(DriverError::NotInitialized),
            Some(d) => judge(DriverCall::MemcpyHtoD, memcpy(d, self.ptr, data)),
        }
    }

    /// Copies `len` elements from the buffer to the host. The driver is given the address and
    /// the number, and answers with its return code and the elements.
    pub fn copy_device_to_host<D, T, F: FnOnce(&D, u64, usize) -> (i32, Vec<T>)>(
        &self,
        driver: &Option<D>,
        len: usize,
        memcpy: F,
    ) -> (r: Result<Vec<T>, DriverError>)
        requires
            driver matches Some(d) ==> call_requires(memcpy, (&d, self.ptr, len)),
        ensures
            driver is None ==> r == Err::<Vec<T>, DriverError>(DriverError::NotInitialized),
            driver matches Some(d) ==> exists|answer: (i32, Vec<T>)|
                {
                    &&& #[trigger] call_ensures(memcpy, (&d, self.ptr, len), answer)
                    &&& r == match verdict(DriverCall::MemcpyDtoH, answer.0) {
                        Ok(_) => Ok(answer.1),
                        Err(e) => Err(e),
                    }
                },
    {
        match driver {
            None => Err(DriverError::NotInitialized),
            Some(d) => {
                let (code, data) = memcpy(d, self.ptr, len);
                match judge(DriverCall::MemcpyDtoH, code) {
                    Ok(_) => Ok(data),
                    Err(e) => Err(e),
                }
            },
        }
    }

    /// Gives the buffer back. The driver is given the address.
    pub fn free<D, F: FnOnce(&D, u64) -> i32>(self, driver: &Option<D>, mem_free: F) -> (r: Result<
        (),
        DriverError,
    >)
        requires
            driver matches Some(d) ==> call_requires(mem_free, (&d, self.ptr)),
        ensures
            driver is None ==> r == Err::<(), DriverError>(DriverError::NotInitialized),
            driver matches Some(d) ==> exists|code: i32| #[trigger]
                call_ensures(mem_free, (&d, self.ptr), code) && r == verdict(
                    DriverCall::MemFree,
                    code,
                ),
    {
        match driver {
            None => Err(DriverError::NotInitialized),
            Some(d) => judge(DriverCall::MemFree, mem_free(d, self.ptr)),
        }
    }
}

/// The error says that `call` returned `code` on behalf of the kernel with this name.
pub open spec fn blames(e: DriverError, call: DriverCall, name: Seq<char>, code: i32) -> bool {
    e matches DriverError::KernelFailed(c, n, k) && c == call && n@ == name && k == code
}

/// Looks a kernel up and launches it on its arguments. The lookup answers with its return
/// code and a handle, or with the reason why the name cannot be handed over; the launch
/// answers with its return code.
pub fn launch_kernel<
    D,
    H,
    A,
    L: FnOnce(&D, &str) -> Result<(i32, H), String>,
    F: FnOnce(&D, H, (u32, u32, u32), (u32, u32, u32), A) -> i32,
>(
    driver: &Option<D>,
    name: &str,
    grid: (u32, u32, u32),
    block: (u32, u32, u32),
    args: A,
    lookup: L,
    launch: F,
) -> (r: Result<(), DriverError>)
    requires
        driver matches Some(d) ==> call_requires(lookup, (&d, name)),
        driver matches Some(d) ==> forall|h: H| #[trigger]
            call_requires(launch, (&d, h, grid, block, args)),
    ensures
        driver is None ==> r == Err::<(), DriverError>(DriverError::NotInitialized),
        driver matches Some(d) ==> exists|found: Result<(i32, H), String>|
            {
                &&& #[trigger] call_ensures(lookup, (&d, name), found)
                &&& match found {
                    Err(reason) => r == Err::<(), DriverError>(DriverError::InvalidName(reason)),
                    Ok((code, handle)) => if code != CUDA_SUCCESS {
                        r matches Err(e) && blames(
                            e,
                            DriverCall::ModuleGetFunction,
                            name@,
                            code,
                        )
                    } else {
                        exists|code: i32|
                            {
                                &&& #[trigger] call_ensures(
                                    launch,
                                    (&d, handle, grid, block, args),
                                    code,
                                )
                                &&& if code == CUDA_SUCCESS {
                                    r is Ok
                                } else {
                                    r matches Err(e) && blames(
                                        e,
                                        DriverCall::LaunchKernel,
                                        name@,
                                        code,
                                    )
                                }
                            }
                    },
                }
            },
{
    match driver {
        None => Err(DriverError::NotInitialized),
        Some(d) => match lookup(d, name) {
            Err(reason) => Err(DriverError::InvalidName(reason)),
            Ok((code, handle)) => {
                if code != CUDA_SUCCESS {
                    return Err(
                        DriverError::KernelFailed(
                            DriverCall::ModuleGetFunction,
                            String::from_str(name),
                            code,
                        ),
                    );
                }
                let code = launch(d, handle, grid, block, args);
                if code != CUDA_SUCCESS {
                    return Err(
                        DriverError::KernelFailed(
                            DriverCall::LaunchKernel,
                            String::from_str(name),
                            code,
                        ),
                    );
                }
                Ok(())
            },
        },
    }
}

/// Waits for the device.
pub fn synchronize<D, F: FnOnce(&D) -> i32>(driver: &Option<D>, ctx_synchronize: F) -> (r: Result<
    (),
    DriverError,
>)
    requires
        driver matches Some(d) ==> call_requires(ctx_synchronize, (&d,)),
    ensures
        driver is None ==> r == Err::<(), DriverError>(DriverError::NotInitialized),
        driver matches Some(d) ==> exists|code: i32| #[trigger]
            call_ensures(ctx_synchronize, (&d,), code) && r == verdict(
                DriverCall::CtxSynchronize,
                code,
            ),
{
    match driver {
        None => Err(DriverError::NotInitialized),
        Some(d) => judge(DriverCall::CtxSynchronize, ctx_synchronize(d)),
    }
}

/// A call succeeded exactly where it returned zero; otherwise the error names the call and the
/// code.
pub proof fn zero_is_success(call: DriverCall, code: i32)
    ensures
        verdict(call, code) is Ok <==> code == 0,
        code != 0 ==> verdict(call, code) == Err::<(), DriverError>(
            DriverError::CallFailed(call, code),
        ),
{
}

/// The symbol of an entry point is the name under which its failures are reported, where the
/// driver has a second version of it with `_v2` behind it, and a closing zero.
pub proof fn symbols_are_names(call: DriverCall)
    ensures
        ({
            let second = call == DriverCall::CtxCreate || call == DriverCall::MemAlloc || call
                == DriverCall::MemcpyHtoD || call == DriverCall::MemcpyDtoH || call
                == DriverCall::MemFree;
            call.exported() == call.title() + (if second {
                "_v2\0"@
            } else {
                "\0"@
            })
        }),
{
    reveal_strlit("_v2\0");
    reveal_strlit("\0");
    reveal_strlit("cuInit");
    reveal_strlit("cuInit\0");
    reveal_strlit("cuDeviceGet");
    reveal_strlit("cuDeviceGet\0");
    reveal_strlit("cuCtxCreate");
    reveal_strlit("cuCtxCreate_v2\0");
    reveal_strlit("cuModuleLoadData");
    reveal_strlit("cuModuleLoadData\0");
    reveal_strlit("cuLaunchKernel");
    reveal_strlit("cuLaunchKernel\0");
    reveal_strlit("cuMemAlloc");
    reveal_strlit("cuMemAlloc_v2\0");
    reveal_strlit("cuMemcpyHtoD");
    reveal_strlit("cuMemcpyHtoD_v2\0");
    reveal_strlit("cuMemcpyDtoH");
    reveal_strlit("cuMemcpyDtoH_v2\0");
    reveal_strlit("cuCtxSynchronize");
    reveal_strlit("cuCtxSynchronize\0");
    reveal_strlit("cuMemFree");
    reveal_strlit("cuMemFree_v2\0");
    reveal_strlit("cuModuleGetFunction");
    reveal_strlit("cuModuleGetFunction\0");
    let second = call == DriverCall::CtxCreate || call == DriverCall::MemAlloc || call
        == DriverCall::MemcpyHtoD || call == DriverCall::MemcpyDtoH || call == DriverCall::MemFree;
    assert(call.exported() =~= call.title() + (if second {
        "_v2\0"@
    } else {
        "\0"@
    }));
}

} // verus!
