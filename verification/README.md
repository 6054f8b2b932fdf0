# vision_ai

A small machine-learning toolkit (linear models, multi-layer perceptrons,
radial-basis networks, support-vector machines), with Python bindings and an
HTTP prediction service.

## Layout

- `src/` is the verified library, checked by Verus. It holds the integer,
  index and text logic of the toolkit, each function with a contract:
  - `metrics`: confusion matrices, correct counts, false positives and
    negatives, k-fold splits, and the laws that tie them together;
  - `matrix`, `rows`: flat row-major layouts, transposition, splitting and
    flattening of rows;
  - `mlp`: the weight layout of a perceptron network (building, export,
    import) and the activation codes;
  - `centers`: initial centres of radial-basis networks, regular or drawn by
    a Fisher-Yates shuffle;
  - `saved`, `save`: the text format of a saved linear model, read and
    written, with the law that reading gives back what was written;
  - `names`: kernel and model names;
  - `request`: checks and decoding of prediction and training requests.
- `tests/` runs the library on concrete values.
- `app/` is the program around it: the floating-point models and optimisers,
  the Python bindings, the C interface, and the HTTP service.
