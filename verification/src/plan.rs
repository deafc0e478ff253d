//! From the settings of a run to the jobs that the executor runs: the commands
//! are cut from the command line, the matrix is built from what follows them,
//! and every command gets the combinations that it sees.
use crate::cli::{commands_of, split_commands, tail_of, Settings, SettingsView};
use crate::error::ConfigError;
use crate::executor::{job_views, Job, JobView};
use crate::generate::{combinations_of, generate};
use crate::matrix::{matrix_of, Matrix, MatrixView};
use crate::sequences::lemma_cloned_row;
use vstd::prelude::*;

verus! {

/// The jobs of the first `n` commands, or the first reason why one of them
/// has no combinations.
pub open spec fn jobs_upto(
    commands: Seq<Seq<Seq<char>>>,
    matrix: MatrixView,
    settings: SettingsView,
    n: nat,
) -> Result<Seq<JobView>, ConfigError>
    decreases n,
{
    if n == 0 {
        Ok(Seq::empty())
    } else {
        match jobs_upto(commands, matrix, settings, (n - 1) as nat) {
            Err(e) => Err(e),
            Ok(jobs) => match combinations_of(
                matrix,
                (n - 1) as usize,
                settings.ordered,
                settings.filters,
                settings.allows,
            ) {
                Err(e) => Err(e),
                Ok(combinations) => Ok(
                    jobs.push(JobView { command: commands[n - 1], combinations }),
                ),
            },
        }
    }
}

/// The jobs that the settings describe: one for each command, in the order of
/// the commands, with the combinations that the command sees of the matrix.
/// An unusable matrix is reported before an unusable command.
pub open spec fn jobs_of(settings: SettingsView) -> Result<Seq<JobView>, ConfigError> {
    let commands = commands_of(settings.rest);
    match matrix_of(tail_of(settings.rest), settings.runners) {
        Err(e) => Err(e),
        Ok(matrix) => jobs_upto(commands, matrix, settings, commands.len()),
    }
}

/// Works out the jobs that the settings describe.
pub fn prepare(settings: &Settings) -> (r: Result<Vec<Job>, ConfigError>)
    requires
        settings.runners >= 1,
    ensures
        match r {
            Ok(jobs) => jobs_of(settings@) == Ok::<Seq<JobView>, ConfigError>(job_views(jobs@)),
            Err(e) => jobs_of(settings@) == Err::<Seq<JobView>, ConfigError>(e),
        },
{
    let (commands, tail) = split_commands(&settings.rest);
    let matrix = match Matrix::build(&tail, settings.runners) {
        Ok(matrix) => matrix,
        Err(e) => {
            return Err(e);
        },
    };
    let mut jobs: Vec<Job> = Vec::new();
    let mut at: usize = 0;
    assert(job_views(jobs@) =~= Seq::empty());
    while at < commands.len()
        invariant
            at <= commands.len(),
            commands.deep_view() == commands_of(settings@.rest),
            matrix_of(tail_of(settings@.rest), settings@.runners) == Ok::<MatrixView, ConfigError>(
                matrix@,
            ),
            jobs_upto(commands.deep_view(), matrix@, settings@, at as nat) == Ok::<
                Seq<JobView>,
                ConfigError,
            >(job_views(jobs@)),
        decreases commands.len() - at,
    {
        let ghost earlier = jobs@;
        match generate(&matrix, at, settings.ordered, &settings.filters, &settings.allows) {
            Ok(combinations) => {
                let command = commands[at].clone();
                proof {
                    lemma_cloned_row(commands[at as int], command);
                    assert(commands.deep_view()[at as int] == commands[at as int].deep_view());
                }
                let job = Job { command, combinations };
                jobs.push(job);
                assert(job_views(jobs@) =~= job_views(earlier).push(job@));
            },
            Err(e) => {
                proof {
                    assert(jobs_upto(commands.deep_view(), matrix@, settings@, (at + 1) as nat)
                        == Err::<Seq<JobView>, ConfigError>(e));
                    lemma_job_error_stays(
                        commands.deep_view(),
                        matrix@,
                        settings@,
                        at + 1,
                        commands.len() as int,
                    );
                }
                return Err(e);
            },
        }
        at += 1;
    }
    Ok(jobs)
}

/// An error among the first commands is the error of all of them.
pub proof fn lemma_job_error_stays(
    commands: Seq<Seq<Seq<char>>>,
    matrix: MatrixView,
    settings: SettingsView,
    n: int,
    all: int,
)
    requires
        0 <= n <= all,
        jobs_upto(commands, matrix, settings, n as nat) is Err,
    ensures
        jobs_upto(commands, matrix, settings, all as nat) == jobs_upto(
            commands,
            matrix,
            settings,
            n as nat,
        ),
    decreases all - n,
{
    if n < all {
        lemma_job_error_stays(commands, matrix, settings, n, all - 1);
    }
}

} // verus!
