//! Array factors and beam cuts on the device, or on the cores of the host where there is no
//! device or its work fails.
use vstd::prelude::*;
use crate::beamforming::{contributions, phase_of};
use crate::complex::{power, Complex};
use crate::levels::{level, to_db};
use crate::parallel::{collectable, map_indices};
use crate::scalar::{arithmetic, evaluates, times, total, value, whole, Elementary, Real};
use crate::table::place_has_cell;
use self::cuda_ffi::{available, init, DriverError};
use self::job::{array_factor_cuda, beam_cut_cuda, is_array_factor, is_beam_cut, DeviceJob};

pub mod cuda_ffi;
pub mod job;
pub mod startup;

verus! {

/// Makes sure that there is a driver, and says whether there is one.
pub fn init_cuda<D, F: FnOnce() -> Result<D, DriverError>>(driver: &mut Option<D>, try_init: F) -> (r:
    bool)
    requires
        *old(driver) is None ==> call_requires(try_init, ()),
    ensures
        r == (*final(driver) is Some),
        *old(driver) is Some ==> *final(driver) == *old(driver),
        *old(driver) is None ==> exists|outcome: Result<D, DriverError>|
            {
                &&& #[trigger] call_ensures(try_init, (), outcome)
                &&& *final(driver) == match outcome {
                    Ok(d) => Some(d),
                    Err(_) => None,
                }
            },
{
    if available(driver) {
        return true;
    }
    init(driver, try_init)
}

/// Whether there is a driver.
pub fn cuda_available<D>(driver: &Option<D>) -> (r: bool)
    ensures
        r == (driver is Some),
{
    available(driver)
}

// ---- on the host ------------------------------------------------------------

/// Complex weights from their real and their imaginary parts.
pub open spec fn paired<R: Real>(re: Seq<R>, im: Seq<R>) -> Seq<Complex<R>> {
    Seq::new(re.len(), |i: int| Complex { re: re[i], im: im[i] })
}

/// The level of the response in the direction with the cosines `u` and `v`, by the root of
/// its power.
pub open spec fn power_level<R: Real, M: Fn(Elementary<R>) -> R>(
    math: M,
    x: Seq<R>,
    y: Seq<R>,
    weights: Seq<Complex<R>>,
    u: R,
    v: R,
) -> R {
    let sum = total(whole(0), contributions(math, x, y, weights, u, v), x.len());
    level(math, value(math, Elementary::Sqrt(power(sum))))
}

/// The levels over all directions, theta by theta.
pub open spec fn direction_levels<R: Real, M: Fn(Elementary<R>) -> R>(
    math: M,
    x: Seq<R>,
    y: Seq<R>,
    weights: Seq<Complex<R>>,
    sin_theta: Seq<R>,
    cos_phi: Seq<R>,
    sin_phi: Seq<R>,
) -> Seq<R> {
    let n = cos_phi.len() as int;
    Seq::new(
        sin_theta.len() * cos_phi.len(),
        |k: int|
            power_level(
                math,
                x,
                y,
                weights,
                times(sin_theta[k / n], cos_phi[k % n]),
                times(sin_theta[k / n], sin_phi[k % n]),
            ),
    )
}

/// The levels along a cut at `phi_deg`.
pub open spec fn angle_levels<R: Real, M: Fn(Elementary<R>) -> R>(
    math: M,
    x: Seq<R>,
    y: Seq<R>,
    weights: Seq<Complex<R>>,
    theta_deg: Seq<R>,
    phi_deg: R,
) -> Seq<R> {
    let phi = value(math, Elementary::ToRadians(phi_deg));
    Seq::new(
        theta_deg.len(),
        |i: int|
            {
                let sin_theta = value(
                    math,
                    Elementary::Sin(value(math, Elementary::ToRadians(theta_deg[i]))),
                );
                power_level(
                    math,
                    x,
                    y,
                    weights,
                    times(sin_theta, value(math, Elementary::Cos(phi))),
                    times(sin_theta, value(math, Elementary::Sin(phi))),
                )
            },
    )
}

/// The level of the response in the direction with the cosines `u` and `v`.
fn power_db<R: Real, M: Fn(Elementary<R>) -> R>(
    x: &[R],
    y: &[R],
    w_real: &[R],
    w_imag: &[R],
    u: R,
    v: R,
    math: &M,
) -> (r: R)
    requires
        arithmetic::<R>(),
        evaluates(*math),
        x@.len() <= y@.len(),
        x@.len() <= w_real@.len(),
        x@.len() <= w_imag@.len(),
    ensures
        r == power_level(*math, x@, y@, paired(w_real@, w_imag@), u, v),
{
    let ghost terms = contributions(*math, x@, y@, paired(w_real@, w_imag@), u, v);
    let mut sr: R = R::from(0);
    let mut si: R = R::from(0);
    for i in 0..x.len()
        invariant
            arithmetic::<R>(),
            evaluates(*math),
            x@.len() <= y@.len(),
            x@.len() <= w_real@.len(),
            x@.len() <= w_imag@.len(),
            terms == contributions(*math, x@, y@, paired(w_real@, w_imag@), u, v),
            (Complex { re: sr, im: si }) == total(whole(0), terms, i as nat),
    {
        let phase = phase_of(x[i], y[i], u, v, math);
        let c = math(Elementary::Cos(phase));
        let s = math(Elementary::Sin(phase));
        sr = sr + (w_real[i] * c - w_imag[i] * s);
        si = si + (w_real[i] * s + w_imag[i] * c);
    }
    to_db(math(Elementary::Sqrt(sr * sr + si * si)), math)
}

/// The levels over all directions, theta by theta; the directions are shared out to all
/// cores.
pub fn array_factor_cpu<R: Real, M: Fn(Elementary<R>) -> R + Sync>(
    x: &[R],
    y: &[R],
    weights_real: &[R],
    weights_imag: &[R],
    sin_theta: &[R],
    cos_phi: &[R],
    sin_phi: &[R],
    math: &M,
) -> (r: Vec<R>)
    requires
        arithmetic::<R>(),
        evaluates(*math),
        0 < cos_phi@.len(),
        sin_theta@.len() * cos_phi@.len() <= usize::MAX,
        collectable::<R>(sin_theta@.len() * cos_phi@.len()),
        sin_theta@.len() > 0 ==> {
            &&& cos_phi@.len() <= sin_phi@.len()
            &&& x@.len() <= y@.len()
            &&& x@.len() <= weights_real@.len()
            &&& x@.len() <= weights_imag@.len()
        },
    ensures
        r@ == direction_levels(
            *math,
            x@,
            y@,
            paired(weights_real@, weights_imag@),
            sin_theta@,
            cos_phi@,
            sin_phi@,
        ),
{
    let n_theta = sin_theta.len();
    let n_phi = cos_phi.len();
    let n = n_theta * n_phi;
    let ghost wanted = direction_levels(
        *math,
        x@,
        y@,
        paired(weights_real@, weights_imag@),
        sin_theta@,
        cos_phi@,
        sin_phi@,
    );
    let r = map_indices(
        n,
        |k: usize| -> (v: R)
            requires
                k < n,
            ensures
                v == wanted[k as int],
            {
                proof {
                    place_has_cell(k as int, n_phi as int, n_theta as int);
                }
                let u = sin_theta[k / n_phi] * cos_phi[k % n_phi];
                let v = sin_theta[k / n_phi] * sin_phi[k % n_phi];
                power_db(x, y, weights_real, weights_imag, u, v, math)
            });
    assert(r@ =~= wanted);
    r
}

/// The levels along a cut at `phi_deg`; the angles are shared out to all cores.
pub fn beam_cut_cpu<R: Real, M: Fn(Elementary<R>) -> R + Sync>(
    x: &[R],
    y: &[R],
    wr: &[R],
    wi: &[R],
    theta_deg: &[R],
    phi_deg: R,
    math: &M,
) -> (r: Vec<R>)
    requires
        arithmetic::<R>(),
        evaluates(*math),
        collectable::<R>(theta_deg@.len()),
        theta_deg@.len() > 0 ==> {
            &&& x@.len() <= y@.len()
            &&& x@.len() <= wr@.len()
            &&& x@.len() <= wi@.len()
        },
    ensures
        r@ == angle_levels(*math, x@, y@, paired(wr@, wi@), theta_deg@, phi_deg),
{
    let phi = math(Elementary::ToRadians(phi_deg));
    let cp = math(Elementary::Cos(phi));
    let sp = math(Elementary::Sin(phi));
    let ghost wanted = angle_levels(*math, x@, y@, paired(wr@, wi@), theta_deg@, phi_deg);
    let r = map_indices(
        theta_deg.len(),
        |i: usize| -> (v: R)
            requires
                i < theta_deg@.len(),
            ensures
                v == wanted[i as int],
            {
                let sin_theta = math(Elementary::Sin(math(Elementary::ToRadians(theta_deg[i]))));
                power_db(x, y, wr, wi, sin_theta * cp, sin_theta * sp, math)
            });
    assert(r@ =~= wanted);
    r
}

// ---- on either --------------------------------------------------------------

/// What comes of handing a wanted job to the driver: the results of the device, or the
/// fallback where there is no driver or the job fails.
pub open spec fn dispatched<
    D,
    R,
    G: Fn(&D, DeviceJob<R>) -> Result<Vec<R>, DriverError>,
>(
    driver: Option<D>,
    device: G,
    wanted: spec_fn(DeviceJob<R>) -> bool,
    fallback: Seq<R>,
    result: Seq<R>,
) -> bool {
    match driver {
        None => result == fallback,
        Some(d) => exists|job: DeviceJob<R>, outcome: Result<Vec<R>, DriverError>|
            {
                &&& wanted(job)
                &&& #[trigger] call_ensures(device, (&d, job), outcome)
                &&& result == match outcome {
                    Ok(v) => v@,
                    Err(_) => fallback,
                }
            },
    }
}

/// The driver takes every job, and a job that succeeds has as many results as it promises.
pub open spec fn serves<D, R, G: Fn(&D, DeviceJob<R>) -> Result<Vec<R>, DriverError>>(
    driver: Option<D>,
    device: G,
) -> bool {
    driver matches Some(d) ==> {
        &&& forall|job: DeviceJob<R>| #[trigger] call_requires(device, (&d, job))
        &&& forall|job: DeviceJob<R>, v: Vec<R>| #[trigger]
            call_ensures(device, (&d, job), Ok::<Vec<R>, DriverError>(v)) ==> v@.len()
                == job.results
    }
}

/// The array factor, by the device where there is one and its work succeeds, and by the
/// host otherwise. `device` runs a job.
pub fn compute_array_factor<
    R: Real,
    M: Fn(Elementary<R>) -> R + Sync,
    D,
    G: Fn(&D, DeviceJob<R>) -> Result<Vec<R>, DriverError>,
>(
    x: &[R],
    y: &[R],
    w_real: &[R],
    w_imag: &[R],
    sin_theta: &[R],
    cos_phi: &[R],
    sin_phi: &[R],
    math: &M,
    driver: &Option<D>,
    device: &G,
) -> (r: Vec<R>)
    requires
        arithmetic::<R>(),
        evaluates(*math),
        serves(*driver, *device),
        0 < cos_phi@.len(),
        sin_theta@.len() * cos_phi@.len() <= usize::MAX,
        collectable::<R>(sin_theta@.len() * cos_phi@.len()),
        sin_theta@.len() > 0 ==> {
            &&& cos_phi@.len() <= sin_phi@.len()
            &&& x@.len() <= y@.len()
            &&& x@.len() <= w_real@.len()
            &&& x@.len() <= w_imag@.len()
        },
        driver is Some ==> ((sin_theta@.len() * cos_phi@.len()) as usize) as u32 + 255
            <= u32::MAX,
    ensures
        r@.len() == sin_theta@.len() * cos_phi@.len(),
        dispatched(
            *driver,
            *device,
            |job: DeviceJob<R>|
                is_array_factor(job, x@, y@, w_real@, w_imag@, sin_theta@, cos_phi@, sin_phi@),
            direction_levels(
                *math,
                x@,
                y@,
                paired(w_real@, w_imag@),
                sin_theta@,
                cos_phi@,
                sin_phi@,
            ),
            r@,
        ),
{
    match driver {
        Some(d) => {
            let job = array_factor_cuda(x, y, w_real, w_imag, sin_theta, cos_phi, sin_phi);
            match device(d, job) {
                Ok(result) => result,
                Err(_) => array_factor_cpu(
                    x,
                    y,
                    w_real,
                    w_imag,
                    sin_theta,
                    cos_phi,
                    sin_phi,
                    math,
                ),
            }
        },
        None => array_factor_cpu(x, y, w_real, w_imag, sin_theta, cos_phi, sin_phi, math),
    }
}

/// A beam cut, by the device where there is one and its work succeeds, and by the host
/// otherwise. `device` runs a job.
pub fn compute_beam_cut<
    R: Real,
    M: Fn(Elementary<R>) -> R + Sync,
    D,
    G: Fn(&D, DeviceJob<R>) -> Result<Vec<R>, DriverError>,
>(
    x: &[R],
    y: &[R],
    w_real: &[R],
    w_imag: &[R],
    theta_deg: &[R],
    phi_deg: R,
    math: &M,
    driver: &Option<D>,
    device: &G,
) -> (r: Vec<R>)
    requires
        arithmetic::<R>(),
        evaluates(*math),
        serves(*driver, *device),
        collectable::<R>(theta_deg@.len()),
        theta_deg@.len() > 0 ==> {
            &&& x@.len() <= y@.len()
            &&& x@.len() <= w_real@.len()
            &&& x@.len() <= w_imag@.len()
        },
        driver is Some ==> (theta_deg@.len() as usize) as u32 + 255 <= u32::MAX,
    ensures
        r@.len() == theta_deg@.len(),
        dispatched(
            *driver,
            *device,
            |job: DeviceJob<R>|
                is_beam_cut(job, *math, x@, y@, w_real@, w_imag@, theta_deg@, phi_deg),
            angle_levels(*math, x@, y@, paired(w_real@, w_imag@), theta_deg@, phi_deg),
            r@,
        ),
{
    assert(theta_deg@.len() <= theta_deg.len());
    match driver {
        Some(d) => {
            let job = beam_cut_cuda(x, y, w_real, w_imag, theta_deg, phi_deg, math);
            match device(d, job) {
                Ok(result) => result,
                Err(_) => beam_cut_cpu(x, y, w_real, w_imag, theta_deg, phi_deg, math),
            }
        },
        None => beam_cut_cpu(x, y, w_real, w_imag, theta_deg, phi_deg, math),
    }
}

} // verus!
