# rufft

Real-signal Fourier transforms: the device launch planning and the CPU
transforms, with the integer side of both verified by Verus.

What is verified (`src/`):

- `pow2`, `bits`: powers of two, next power of two, bit reversal and the
  in-place bit-reversal permutation.
- `layout`: tensor binding checks (span, offsets, buffer size), the
  validation of a transform's signal and spectrum bindings, and the
  overlap test of output layouts.
- `exact`: the exact-length plan (`RealFftPlan`): Bluestein convolution
  length, workspace sizes and reuse, retained bytes, and which launches a
  forward or inverse call asks for.
- `launch`, `cfft`, `blocks`, `rfft_large`, `chirp`: the kernels' index
  maps and the launch plans (shared-memory, four-step and packed-real
  paths), each kernel as the task that one unit or position performs.
- `tensor`: lengths and shapes of the tensor-level transforms.
- `host`: the CPU transforms' shapes, strides, fiber layout, twiddle-table
  layout, stage schedule, and every element move (packing, reading bins,
  interleaving, scattering fibers, cropping an axis).

Laws are public proof functions named `lemma_*` next to the functions they
speak of.

`app/` holds what Verus does not check: the floating-point butterflies,
twiddle values, SIMD passes and element-type conversions of the CPU
transforms, the thread pool, the dtype dispatch, and the error messages.
