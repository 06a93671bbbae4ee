//! The run: its arguments, the configurations it measures, and the state of
//! the performance measurement of one configuration.

use vstd::prelude::*;
use crate::extract::ExtractError;
use crate::report::RatioError;
use crate::timings::{
    DurationSample, PerformanceTotals, extract_durations, spec_extract_durations,
    spec_total_durations, total_durations,
};

verus! {

/// Why a run stops. Every error ends the whole run.
#[derive(Debug, Clone, Copy, PartialEq, Eq, Structural)]
pub enum HarnessError {
    /// No engine, or no source file, was given.
    Usage,
    /// The engine or the compressor did not exit successfully.
    ExternalToolFailure,
    /// A file that a tool should have written is missing.
    ArtifactNotFound,
    /// A duration could not be read from the engine's output.
    Extraction(ExtractError),
    /// A ratio for the report is not defined.
    Ratio(RatioError),
    /// A total does not fit in 64 bits.
    Overflow,
    /// Totals were asked for before every run of the configuration was
    /// recorded.
    Incomplete,
}

/// What the run was asked to do: the engine to invoke and the sources to
/// measure, in order.
#[derive(Debug)]
pub struct Invocation {
    pub engine: String,
    pub sources: Vec<String>,
}

/// Reads the arguments that follow the program name: the engine, then one
/// or more source files.
pub fn parse_args(args: Vec<String>) -> (r: Result<Invocation, HarnessError>)
    ensures
        args@.len() < 2 <==> r == Err::<Invocation, HarnessError>(HarnessError::Usage),
        args@.len() >= 2 ==> r is Ok,
        r matches Ok(inv) ==> inv.engine == args@[0] && inv.sources@ == args@.skip(1),
{
    if args.len() < 2 {
        return Err(HarnessError::Usage);
    }
    let mut rest = args;
    let engine = rest.remove(0);
    proof {
        assert(rest@ =~= args@.skip(1));
    }
    Ok(Invocation { engine, sources: rest })
}

/// One point of the configuration matrix: how the engine reads the binary
/// AST.
#[derive(Debug, Clone, Copy, PartialEq, Eq, Structural)]
pub struct MeasurementConfiguration {
    pub syntax_parse: bool,
    pub skip_depth: u64,
}

/// How many times each source is measured under each configuration.
pub const REPEAT_COUNT: usize = 5;

pub open spec fn config(syntax_parse: bool, skip_depth: u64) -> MeasurementConfiguration {
    MeasurementConfiguration { syntax_parse, skip_depth }
}

/// The configurations measured, in report order: syntax parsing off, then
/// on; within each, skip depths 0, 1 and 1000.
pub fn configuration_matrix() -> (r: Vec<MeasurementConfiguration>)
    ensures
        r@ == seq![
            config(false, 0),
            config(false, 1),
            config(false, 1000),
            config(true, 0),
            config(true, 1),
            config(true, 1000),
        ],
{
    let r = vec![
        MeasurementConfiguration { syntax_parse: false, skip_depth: 0 },
        MeasurementConfiguration { syntax_parse: false, skip_depth: 1 },
        MeasurementConfiguration { syntax_parse: false, skip_depth: 1000 },
        MeasurementConfiguration { syntax_parse: true, skip_depth: 0 },
        MeasurementConfiguration { syntax_parse: true, skip_depth: 1 },
        MeasurementConfiguration { syntax_parse: true, skip_depth: 1000 },
    ];
    proof {
        assert(r@ =~= seq![
            config(false, 0),
            config(false, 1),
            config(false, 1000),
            config(true, 0),
            config(true, 1),
            config(true, 1000),
        ]);
    }
    r
}

/// The performance measurement of one configuration: every source, in
/// order, `repeats` times over, one engine run each.
pub struct ConfigurationRun {
    pub config: MeasurementConfiguration,
    pub source_count: usize,
    pub repeats: usize,
    /// The samples recorded so far, in the order of the runs.
    pub samples: Vec<DurationSample>,
}

impl ConfigurationRun {
    /// How many engine runs the configuration takes.
    pub open spec fn run_count(&self) -> nat {
        self.repeats as nat * self.source_count as nat
    }

    pub open spec fn wf(&self) -> bool {
        self.samples@.len() <= self.run_count()
    }

    pub open spec fn is_complete(&self) -> bool {
        self.samples@.len() == self.run_count()
    }

    /// A run with nothing recorded yet.
    pub fn new(config: MeasurementConfiguration, source_count: usize, repeats: usize) -> (r:
        ConfigurationRun)
        ensures
            r.config == config,
            r.source_count == source_count,
            r.repeats == repeats,
            r.samples@ == Seq::<DurationSample>::empty(),
            r.wf(),
    {
        ConfigurationRun { config, source_count, repeats, samples: Vec::new() }
    }

    /// The index of the source that the next engine run measures, or `None`
    /// once every run is recorded.
    pub fn next_source(&self) -> (r: Option<usize>)
        requires
            self.wf(),
        ensures
            self.samples@.len() < self.run_count() ==> r == Some(
                (self.samples@.len() % self.source_count as nat) as usize,
            ),
            self.samples@.len() >= self.run_count() ==> r is None,
    {
        let done = self.samples.len();
        if self.source_count == 0 {
            proof {
                assert(self.run_count() == 0) by (nonlinear_arith)
                    requires self.source_count == 0, self.run_count() == self.repeats as nat
                        * self.source_count as nat;
            }
            return None;
        }
        proof {
            let c = self.source_count as nat;
            let n = self.repeats as nat;
            assert((done as nat) < n * c <==> (done as nat) / c < n) by (nonlinear_arith)
                requires c > 0, (done as nat) == done;
        }
        if done / self.source_count < self.repeats {
            Some(done % self.source_count)
        } else {
            None
        }
    }

    /// Records the outcome of the next engine run: whether it exited
    /// successfully, and what it wrote to its error stream. Nothing is
    /// recorded on a failure.
    pub fn record(&mut self, exit_ok: bool, stderr: &[u8]) -> (r: Result<
        DurationSample,
        HarnessError,
    >)
        requires
            old(self).wf(),
            !old(self).is_complete(),
        ensures
            final(self).config == old(self).config,
            final(self).source_count == old(self).source_count,
            final(self).repeats == old(self).repeats,
            final(self).wf(),
            !exit_ok ==> r == Err::<DurationSample, HarnessError>(
                HarnessError::ExternalToolFailure,
            ) && final(self).samples@ == old(self).samples@,
            exit_ok ==> match spec_extract_durations(stderr@) {
                Ok(s) => r == Ok::<DurationSample, HarnessError>(s) && final(self).samples@ == old(
                    self,
                ).samples@.push(s),
                Err(e) => r == Err::<DurationSample, HarnessError>(HarnessError::Extraction(e))
                    && final(self).samples@ == old(self).samples@,
            },
    {
        if !exit_ok {
            return Err(HarnessError::ExternalToolFailure);
        }
        match extract_durations(stderr) {
            Ok(s) => {
                self.samples.push(s);
                Ok(s)
            },
            Err(e) => Err(HarnessError::Extraction(e)),
        }
    }

    /// The totals of the configuration, once every run is recorded.
    pub fn totals(&self) -> (r: Result<PerformanceTotals, HarnessError>)
        requires
            self.wf(),
        ensures
            !self.is_complete() ==> r == Err::<PerformanceTotals, HarnessError>(
                HarnessError::Incomplete,
            ),
            self.is_complete() ==> match spec_total_durations(self.samples@) {
                Some(t) => r == Ok::<PerformanceTotals, HarnessError>(t),
                None => r == Err::<PerformanceTotals, HarnessError>(HarnessError::Overflow),
            },
    {
        if self.next_source().is_some() {
            return Err(HarnessError::Incomplete);
        }
        match total_durations(self.samples.as_slice()) {
            Some(t) => Ok(t),
            None => Err(HarnessError::Overflow),
        }
    }
}

} // verus!
