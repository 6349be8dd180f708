# greensa

Green-aware simulated annealing of tensor-network contraction trees, written in
Rust and verified with Verus.

Complex tensors can be held as pairs of real ones. A contraction step then costs
its volume once if both operands are real (a pass), times the ride factor if one
of them carries complex content (is green), and times the merge factor if both
do. The annealer takes a binary contraction order, rotates it at random nodes and
looks for an order that is cheap in this measure.

## Layout

- `src/natural.rs`, `ratio.rs`: exact numbers for costs, factors and temperatures.
- `src/network.rs`: labels, dimensions, output labels and weights of a network.
- `src/nested.rs`, `labels.rs`: einsums, contraction orders, numbering of labels.
- `src/shape.rs`, `state.rs`: the mathematical tree, and what it means for flat
  arrays to describe it and for the books (label counts, greenness, costs) to be
  right.
- `src/tree.rs`, `import.rs`, `recompute.rs`, `rotation.rs`, `export.rs`: the flat
  tree: building it, pricing it, rotating and undoing, exporting it.
- `src/anneal.rs`, `annealer.rs`, `problem.rs`, `pipeline.rs`: annealing runs, the
  configured annealer, and the pipeline of blind anneal, aware anneal and polish.
- `src/guard.rs`: a test of whether the annealer can work from a given order.
- `src/laws.rs`, `order_laws.rs`: what holds of the library as a whole.
- `src/random.rs`, `clock.rs`: the generator and the clock, which are trusted.
- `app/`: the floating-point acceptance rule and reports in floating point.

## Costs

Volumes and costs are natural numbers of any size. With factors that are not
whole, costs are counted in units of one over the product of the two factors'
denominators.

## Randomness

Everything is drawn from a source. In ghost state it keeps the seed that its
generator was set up from, a log of its draws and the generator's states between
them; an invariant ties each to the call that made it. The result of a run is
specified from the log: which rotation each step proposes, and which moves that
raise the cost the acceptance rule takes. Which numbers follow from a seed is
left open. With a rule that decides alike whenever it is asked alike, what is
drawn determines the result; if the generator too answers alike whenever it is
asked alike, the seeds do.
