# compphys

Three computational-physics exercises, with their integer logic verified by
Verus and their floating-point numerics in a companion program.

- `md`: two-dimensional Lennard-Jones molecular dynamics. The library holds
  the cell list and the pair search over it, the lattice shape check, the
  step schedule, engine and integrator names, exact rational Lennard-Jones
  values in x = (sigma/r)^6, and a pixel canvas with disk and 8x8 text
  drawing.
- `ising`: the two-dimensional Ising model on an L by L torus. The library
  holds the xoshiro256++ generator, the lattice with its running energy and
  magnetization, Metropolis sweeps with integer acceptance thresholds, Wolff
  cluster moves, the ramp settings and the spin-array text of a frame.
- `fluid`: the spectral fluid solver on the periodic square. The library
  holds the wavenumber order, mode indexing, |k|^2 and the Nyquist rule of
  the derivative multipliers, the two-thirds rule, the random-band mode
  order, the field generator's random stream and the choice of integrator.

Layout:

- `src/`: the verified library.
- `tests/`: its tests.
- `app/`: the `md`, `ising`, `field` and `fluid` command lines, the
  floating-point numerics, JSON, PNG and video output.
