# network_sim

A simulator for training jobs on a cluster, written in Verus: the workers of a job compute and exchange
data in iterations, and the time that this takes depends on where they run and how their traffic is
routed.

- `src/simulator` runs jobs: events, workers, iterations, ranks, migrations, and the traits of job
  schedulers, flow schedulers and system modules.
- `src/schedulers` places jobs on hosts.
- `src/spine`, `src/rail` and `src/routing` hold the networks and their routers.
- `src/system_modules/cassini` shifts jobs that share links against each other.
- `src/utils` holds tables, hashes, job types and job mixes.

The crate is verified. Contracts are stated over the values that functions work on; what implements a
trait has the contracts of the trait. What rests on other crates (`petgraph`, `rand`, `rustc-hash`,
`twox-hash`) is behind small functions whose comments say what is believed of those crates.

`app` is ordinary Rust around the library: files, output, and what needs floating-point numbers.
