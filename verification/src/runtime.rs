//! Execution profiles and the capabilities of runtimes.

use vstd::prelude::*;
use crate::error::{QmbedError, Result};
pub use crate::kernels::{CpuBuffer, Runtime, RuntimeBuffer, RuntimeLinearOperator};

verus! {

/// The device that runs the numerical kernels.
#[derive(Clone, Copy, Debug, PartialEq, Eq, Structural)]
pub enum Accelerator {
    Cpu,
    Gpu { device: usize },
}

/// How a computation is spread over devices, ranks and threads.
#[derive(Clone, Copy, Debug, PartialEq, Eq, Structural)]
pub struct ExecutionProfile {
    pub accelerator: Accelerator,
    pub ranks: usize,
    pub threads_per_rank: usize,
}

/// What a runtime offers.
#[derive(Clone, Copy, Debug, PartialEq, Eq, Structural)]
pub struct RuntimeCapabilities {
    pub accelerator: Accelerator,
    pub ranks: usize,
    pub threads_per_rank: usize,
}

impl ExecutionProfile {
    /// There is at least one rank with at least one thread.
    pub open spec fn runnable(self) -> bool {
        self.ranks > 0 && self.threads_per_rank > 0
    }

    pub fn serial() -> (profile: ExecutionProfile)
        ensures
            profile == (ExecutionProfile {
                accelerator: Accelerator::Cpu,
                ranks: 1,
                threads_per_rank: 1,
            }),
    {
        Self::local_cpu(1)
    }

    pub fn throughput(threads: usize) -> (profile: ExecutionProfile)
        ensures
            profile == (ExecutionProfile {
                accelerator: Accelerator::Cpu,
                ranks: 1,
                threads_per_rank: threads,
            }),
    {
        Self::local_cpu(threads)
    }

    pub fn local_cpu(threads: usize) -> (profile: ExecutionProfile)
        ensures
            profile == (ExecutionProfile {
                accelerator: Accelerator::Cpu,
                ranks: 1,
                threads_per_rank: threads,
            }),
    {
        ExecutionProfile { accelerator: Accelerator::Cpu, ranks: 1, threads_per_rank: threads }
    }

    pub fn distributed_cpu(ranks: usize, threads_per_rank: usize) -> (profile: ExecutionProfile)
        ensures
            profile == (ExecutionProfile {
                accelerator: Accelerator::Cpu,
                ranks,
                threads_per_rank,
            }),
    {
        ExecutionProfile { accelerator: Accelerator::Cpu, ranks, threads_per_rank }
    }

    pub fn local_gpu(device: usize, threads: usize) -> (profile: ExecutionProfile)
        ensures
            profile == (ExecutionProfile {
                accelerator: Accelerator::Gpu { device },
                ranks: 1,
                threads_per_rank: threads,
            }),
    {
        ExecutionProfile {
            accelerator: Accelerator::Gpu { device },
            ranks: 1,
            threads_per_rank: threads,
        }
    }

    /// Hands the profile back if anything can run on it.
    pub fn validate(self) -> (result: Result<ExecutionProfile>)
        ensures
            match result {
                Ok(profile) => self.runnable() && profile == self,
                Err(error) => error is InvalidOptions && !self.runnable(),
            },
    {
        if self.ranks == 0 || self.threads_per_rank == 0 {
            return Err(
                QmbedError::InvalidOptions(
                    "execution profiles require at least one rank and one thread per rank".to_string(),
                ),
            );
        }
        Ok(self)
    }
}

/// The built-in runtime: one rank on the processor.
#[derive(Clone, Copy, Debug, PartialEq, Eq, Structural)]
pub struct CpuRuntime {
    profile: ExecutionProfile,
}

impl CpuRuntime {
    pub closed spec fn spec_profile(self) -> ExecutionProfile {
        self.profile
    }

    /// The profile is one that the built-in runtime can carry out.
    pub open spec fn wf(self) -> bool {
        &&& self.spec_profile().runnable()
        &&& self.spec_profile().accelerator == Accelerator::Cpu
        &&& self.spec_profile().ranks == 1
    }

    pub fn new(threads: usize) -> (result: Result<CpuRuntime>)
        ensures
            match result {
                Ok(runtime) => threads > 0 && runtime.wf()
                    && runtime.spec_profile().threads_per_rank == threads,
                Err(error) => error is InvalidOptions && threads == 0,
            },
    {
        Self::from_profile(ExecutionProfile::local_cpu(threads))
    }

    pub fn from_profile(profile: ExecutionProfile) -> (result: Result<CpuRuntime>)
        ensures
            match result {
                Ok(runtime) => runtime.wf() && runtime.spec_profile() == profile,
                Err(QmbedError::InvalidOptions(_)) => !profile.runnable(),
                Err(QmbedError::UnsupportedBackend(_)) => profile.runnable() && (
                profile.accelerator != Accelerator::Cpu || profile.ranks != 1),
                Err(_) => false,
            },
    {
        let profile: ExecutionProfile = match profile.validate() {
            Ok(profile) => profile,
            Err(error) => {
                return Err(error);
            },
        };
        if profile.accelerator != Accelerator::Cpu {
            return Err(
                QmbedError::UnsupportedBackend(
                    "the built-in runtime is CPU-only; install a GPU runtime implementation".to_string(),
                ),
            );
        }
        if profile.ranks != 1 {
            return Err(
                QmbedError::UnsupportedBackend(
                    "the built-in runtime is single-rank; install an MPI runtime implementation".to_string(),
                ),
            );
        }
        Ok(CpuRuntime { profile })
    }

    pub fn profile(self) -> (profile: ExecutionProfile)
        ensures
            profile == self.spec_profile(),
    {
        self.profile
    }

    pub fn capabilities(&self) -> (capabilities: RuntimeCapabilities)
        ensures
            capabilities.accelerator == self.spec_profile().accelerator,
            capabilities.ranks == self.spec_profile().ranks,
            capabilities.threads_per_rank == self.spec_profile().threads_per_rank,
    {
        RuntimeCapabilities {
            accelerator: self.profile.accelerator,
            ranks: self.profile.ranks,
            threads_per_rank: self.profile.threads_per_rank,
        }
    }
}

} // verus!
