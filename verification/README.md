# treeboost

Gradient boosted decision trees: growing and using trees, preparing columns, and
searching for good hyperparameters. The library under `src/` is verified with
Verus.

* `number`, `functions`: numbers as the library sees them. The algorithms work on
  any type with the operators of the standard library; contracts say which
  operations are carried out on which operands. Functions that are no operators
  come through the trait `Functions`.
* `text`, `text_map`, `random`: strings, maps from names to values, shuffling.
* `preprocessing`: encoders, scalers, imputers, transforms, pipelines, and the
  registry of preprocessors of the user's.
* `tree`: histograms, splits, constraints, growth, and prediction, for one output
  and for several.
* `tuner`: parameter spaces, grids and samples, how the data are divided, trials
  and their history, metrics, the rounds of a search, and the tuner of linear
  models followed by trees.
* `bindings`: what the classes for Python decide.

`tests/` runs the library on floating-point numbers. `app/` is ordinary Rust
around it: floating-point functions, random draws, files, data frames, threads
and Python.
