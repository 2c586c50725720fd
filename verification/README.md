# burn_stack

Block-generic layer and network composition on Burn. The crate decides
everything *around* a sequence-mixing block: which weights each layer of a stack
runs, where class markers land in a streamed sequence, which rows of a padded or
packed batch are real, where the gradient is cut, how the residual streams grow,
and how the columns of a fused weight are split between two optimizers.

These decisions are plain data. `src/` computes them, with contracts that Verus
proves. `app/` carries them out on Burn tensors.

## Layout

- `src/utils/` — schedules and gradient horizons, class markers and their
  placement, padding, packing, per-application copies of a parameter, captured
  steps, initialisation.
- `src/modules/` — layers, stacks of layers, networks, paired stacks, residual
  streams, the shapes and builders of all of these.
- `src/optim/` — projection specs, the optimizer plan with its report, the
  segmented optimizer, plain gradient descent.
- `tests/` — the library on concrete values, with a small integer machine in
  place of the tensors.
- `app/` — the tensor side: blocks, norms, losses, modules and their configs.

## What is proved

Each function states what it returns or changes. The properties that relate
several functions are public proof functions, in the `laws` modules and beside
the functions they speak of. The central ones:

- A `forward` call gives what the same rows give as single `step` calls, and a
  sequence gives the same however it is cut into calls
  (`modules::recurrence`, `modules::stack`).
- A `prime` and then a `step` is the `step` alone (`modules::recurrence`,
  `modules::network`).
- A prime emits no closing marker, at any level of a stack or a network, not even
  past the announced end (`modules::stack`, `modules::laws`,
  `modules::network`).
- A captured step gives what the step gives, recorded or not (`utils::graph`).
- In a padded batch every slot gives what it gives alone, outputs and caches, in
  one call or in any number of chunks (`utils::padding`, `modules::recurrence`),
  and in both directions of a paired stack (`modules::bidi`).
- In a packed slot every sequence gives what it gives alone
  (`modules::packed`).
- A gradient horizon changes only the gradient graph, and tracks the layers it
  promises to (`modules::laws`, `utils::schedule::laws`).

The one part that is believed and not proved is how Burn's `ParamGroup` matches
a parameter path. `optim::spec` names and describes it.
