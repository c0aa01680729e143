# snake_neat

Snake-playing agents evolved with NEAT (neuro-evolution of augmenting
topologies).

- `src/` is the verified library: the snake board and its rules
  (`grid`, `vec2`), network genomes and their mutations, crossover and
  evaluation order (`network`, `graph`, `neuron`, `link`), and the
  population bookkeeping: the first generation, ageing, speciation, the
  sharing of offspring places and the breeding of each generation
  (`popmanager`, `specie`). Weights, biases,
  activations and fitness values are single-precision numbers kept as
  their bit patterns; random draws come through the small trusted
  wrappers in `rng`.
- `app/` is the program around it: everything computed with floating-point
  numbers (activations, weights, genetic distance, fitness statistics),
  the generation loop, parallel evaluation, printing and the window.
- `tests/` runs the library on concrete values.
