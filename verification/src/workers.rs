//! Sharing the machine's parallelism between transcription workers.
use vstd::prelude::*;

verus! {

/// The worker and thread counts ask for more threads than the machine runs at once.
#[derive(Clone, Copy, Debug, PartialEq, Eq, Structural)]
pub struct WorkerParamsError {
    pub workers: usize,
    pub threads_per_worker: usize,
    pub available: usize,
}

/// The number of workers: the one asked for, or as many as the parallelism holds
/// at `threads_per_worker` threads each.
pub open spec fn chosen_workers(num_cpus: usize, threads_per_worker: usize, worker_count: Option<usize>) -> nat {
    match worker_count {
        None => (num_cpus / threads_per_worker) as nat,
        Some(n) => n as nat,
    }
}

/// With no worker count given, the workers are as many as the parallelism holds at
/// `threads_per_worker` threads each; with one given, it is taken as it is; the
/// counts are accepted exactly when the threads they ask for fit the parallelism.
pub proof fn lemma_worker_choice(num_cpus: usize, threads_per_worker: usize, worker_count: Option<usize>)
    requires
        worker_count is None ==> threads_per_worker > 0,
    ensures
        worker_count is None ==> chosen_workers(num_cpus, threads_per_worker, worker_count) == num_cpus
            / threads_per_worker,
        worker_count is None ==> chosen_workers(num_cpus, threads_per_worker, worker_count) * threads_per_worker
            <= num_cpus,
        worker_count matches Some(n) ==> chosen_workers(num_cpus, threads_per_worker, worker_count) == n,
{
    if worker_count is None {
        vstd::arithmetic::div_mod::lemma_fundamental_div_mod(num_cpus as int, threads_per_worker as int);
        assert((num_cpus / threads_per_worker) * threads_per_worker <= num_cpus) by (nonlinear_arith)
            requires
                threads_per_worker > 0,
                num_cpus == threads_per_worker * (num_cpus / threads_per_worker) + num_cpus % threads_per_worker,
                num_cpus % threads_per_worker >= 0,
        ;
    }
}

/// Checks the worker and thread counts against the available parallelism
/// `num_cpus`; on success gives `(threads_per_worker, workers)`.
pub fn validate_worker_params(num_cpus: usize, threads_per_worker: usize, worker_count: Option<usize>) -> (res: Result<(usize, usize), WorkerParamsError>)
    requires
        worker_count is None ==> threads_per_worker > 0,
    ensures
        res is Ok <==> chosen_workers(num_cpus, threads_per_worker, worker_count) * threads_per_worker <= num_cpus,
        res matches Ok(p) ==> p.0 == threads_per_worker && p.1 == chosen_workers(num_cpus, threads_per_worker, worker_count),
        res matches Ok(p) ==> p.1 == match worker_count {
            None => num_cpus / threads_per_worker,
            Some(n) => n,
        },
        res is Ok <==> (match worker_count {
            None => num_cpus / threads_per_worker,
            Some(n) => n,
        }) * threads_per_worker <= num_cpus,
        res matches Err(e) ==> e == (WorkerParamsError {
            workers: chosen_workers(num_cpus, threads_per_worker, worker_count) as usize,
            threads_per_worker,
            available: num_cpus,
        }),
{
    let workers = match worker_count {
        None => num_cpus / threads_per_worker,
        Some(n) => n,
    };
    let fits = match workers.checked_mul(threads_per_worker) {
        Some(total) => total <= num_cpus,
        None => false,
    };
    if !fits {
        return Err(WorkerParamsError { workers, threads_per_worker, available: num_cpus });
    }
    Ok((threads_per_worker, workers))
}

} // verus!
