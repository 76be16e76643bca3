# fracture

A verified library for pipeline-parallel inference of transformer models: the layers of a
model are spread over several workers, and requests are batched iteration by iteration.
Contracts are stated in Verus and proved; the device and the network lie outside.

## Layout

- `src/base/` holds what everything builds on: data types, tensors, errors, the model
  configuration, the `Backend` trait of a device, and programs for it. The calls that a
  device is given form its trace. Contracts of device code say which trace a run leaves,
  also where the device fails.
- `src/engine/` holds the caches (contiguous, paged, and paged with compression), the
  forward passes over them for one sequence and for batches, local pipelines, and the
  batch scheduler.
- `src/coordinator/` holds the layer scheduler, the registry of workers, heartbeats, the
  state of sequences, the distributed pipeline, and rebalancing.
- `src/election/` holds the election of a coordinator.
- `tests/` runs the library on simulated devices and workers.
- `app/` is what is built around the library: floating-point figures, the network, files
  and the clock.

## Conventions

- Floating-point numbers are bit patterns here (`Half`, `Single`, `Double`). The library
  carries and compares them; arithmetic on them is the caller's.
- Where workers have to be asked, the library offers steps: each takes the last answer
  and says whom to ask next, or how it ended.
- Laws that span several functions are public proof functions. Those of the engine and
  of the layer scheduler stand in the files whose names end in `_laws`.
