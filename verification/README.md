# sequoia-boost

Gradient-boosted trees and linear models: datasets, quantile binning, exact,
histogram and approximate tree growth with monotone and interaction
constraints, DART, cross-validation, SHAP contributions, and models as bytes or
JSON. The library under `src/` is verified with Verus.

## Numbers

The library holds numbers as the bit patterns of IEEE 754 values
(`number::Single`, `number::Wide`). What follows from the patterns alone, such
as the order of numbers, is defined and proved there. Arithmetic is a function
that the caller hands over as an `arith::Calc`; reading and writing decimal
texts go through `text::Reader` and `text::Writer`. Every contract is exact over
these functions, so it holds of any of them. `app/` hands over the machine's
floating point.

## Layout

- `data`: the matrix with its metadata, text formats, cut points, binned rows
- `tree`: trees, gains, constraints, column sampling, histograms, the builders
- `objective`, `metric`: losses with their gradients, and scores
- `booster`: linear boosting
- `learner`: the training loop, models, cross-validation, contributions
- `model`: JSON and binary forms of models
- `random`, `sort`, `text`, `number`, `arith`, `exact`, `layout`: what these rest
  on
- `app/`: floating point, files and error messages around the library

Modules whose names end in `laws`, and those beside them that are named by their
subject (`monotone`, `interaction`, `worth`, `alike`, `trainable`, `optimum`,
`additivity`, `symmetry`, `covers`), hold statements that relate several
functions, such as that a model read back from its bytes or its text predicts
what it predicted, or that trees keep to their constraints.

Some statements hold of numbers and not of their rounded forms: that
contributions add up to the margin, that interaction matrices are symmetric, that
no weight within its bounds scores better than the one that is chosen, that a
node's cover and a leaf's weight are those of the rows that pass it. They are
stated of arithmetics that do not round (`exact`), where a result that would have
to be rounded stands for no number, and so hold of every calculation in which
nothing is rounded. `orderings`, `exactness`, `flows` and the modules whose names
end in `sums` or `covers` hold what their proofs rest on.

The outside crates that the library calls (`rand`, `rayon`, `serde_json`) stand
behind functions marked `external_body`, in `random`, `tree::hist`,
`model::json` and `model::native`. Their contracts are believed, not proved.
