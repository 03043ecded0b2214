# data_assimilation

Sequential data assimilation on small models: a linear Kalman filter, an
ensemble Kalman filter and a merging particle filter, run on the Lorenz-96
model or on noisy samples of `sin t`.

The filters and the model are floating-point numerics; they live in `app/`,
together with the command-line programs (`lorenz96_generator`,
`rmse_evaluator`, `sin_generator`) and the file I/O.

What the numerics rest on is in `src/`, verified with Verus:

* `lorenz96` - the cyclic neighbourhood of a Lorenz-96 component;
* `text_format` - the line format of trajectory and observation files,
  with the proof that what is written reads back unchanged;
* `merging` - which particles the merging particle filter keeps and
  combines, including the shuffle of the merge order;
* `schedule` - which observation each filtering step of a run uses.
