# cronx

A cron executor for macOS that makes sure scheduled jobs actually run, even
if the machine was asleep when cron tried to fire them: a wrapper (`--run`)
records each run of a job in a state file, and a catch-up runner
(`--catch-up`, scheduled every minute) re-runs any managed job whose
schedule fired since its last run and at least 90 seconds ago.

Layout:

- `src/` is the verified library (Verus):
  - `text.rs`: text as sequences of characters: white space, trimming,
    searching, and splitting into lines as `str::lines` does.
  - `crontab.rs`: the managed jobs of a crontab (schedule, command, slug).
  - `schedule.rs`: whether a job missed a fire, through the `cron` crate.
  - `weekday.rs`: a crontab schedule in the `cron` crate's terms: the day
    of week renumbered (crontab counts Sunday as 0 or 7, the crate as 1),
    and split in two when both day fields are restricted, since crontab
    then fires on a day that either matches.
  - `catchup.rs`: one catch-up tick: baseline, run, or leave each job.
  - `runner.rs`: how a wrapped run updates a job's entry.
  - `state.rs`: job entries and the rolling status log.
  - `setup.rs`: installing and removing the catch-up crontab line.
- `app/` is the command-line program: argument parsing, the lock file,
  running shells and `crontab`, and the JSON state file.
- `tests/` runs the library on concrete inputs.
