# e2etest

A framework for end-to-end tests, written in Verus.

`src/` is the verified library:

- `filter`: parsing of the command-line filters (`group::test`, `"exact"`
  names, partial names) into the selected groups and tests, and the decisions
  whether a group or a test runs (without filters everything runs; with
  filters only what they select, so filters that match nothing run nothing);
- `fixture`: the bookkeeping of the fixture manager: where the fixture of a
  type is found (permanent, set up during the run, or missing), which types
  were set up and in what order, and which set-up fixtures nothing else holds
  any more and are torn down;
- `group`: the names of the tests of a group hierarchy;
- `run`: the order in which a group runs (setup, subgroups, tests, teardown) as
  a state machine that the asynchronous runner drives;
- `statistics`: the state of the statistics of a run (`Inner`): the counters
  and the names of what failed, as a plain value, and how a test is counted
  when it starts and when it ends;
- `naming`: the names of the items that the `group!` and `test!` macros
  generate, the paths under which they register a test or a subgroup, and the
  check that an argument of a test function is an `Arc<Fixture>`;
- `text`: operations on names (`::` splitting, substring search, joining);
- `lib.rs`: the configuration of a run.

`app/` holds what awaits or works on trait objects: the fixture manager (its
fixtures, behind the verified registry), the
`Group`, `Test`, `Fixture` and `Setup` traits, the timed tasks, the runner,
the code generators of the macros, and `Statistics`, the handle through which
the tasks of a run share one `Inner` behind a lock (its clones share the state).
