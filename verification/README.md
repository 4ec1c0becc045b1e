# dslab (verified core)

Parts of a discrete-event simulator for scheduling task graphs on
heterogeneous resources, and of its experiment tools, written in Verus.

`src/` is the verified library:

- `event` — simulation events and the order in which the event queue hands
  them out (earliest time first, then smallest id).
- `order` — stable orders of indices by integer keys, the first-minimum
  selection, and the integer keys of `f64::total_cmp`.
- `heft_oct` — the HEFT scheduler with optimistic-cost resource selection:
  configuration, and the planning of the task order.
- `scheduler`, `data_item` — scheduler parameters and data transfer settings.
- `ils` — the resource tables of a FaaS instance.
- `text`, `experiments` — splitting text at a separator byte, and the file
  naming, work splitting and generator-output reading of the experiments.

`app/` holds what works with floating-point values, trait objects, processes
and files: the energy meter, events with payloads, the OCT table and the
placement loop of the scheduler, the local-search estimator, and the tools.
