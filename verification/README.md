# srp_phat

Verified core of a GCC-PHAT → SRP-PHAT acoustic source localizer.

* `src/` — the verified library. Every real number is carried as its IEEE-754
  binary64 bit pattern (`u64`), so that all logic here is integer logic with
  contracts:
  * `binary64` — classification (finite, NaN, zero) and the `>`, `>=` and
    `total_cmp` orders on bit patterns;
  * `codec` — decoding of the packed frames / geometry / options buffers and
    encoding of the results buffer, with the read-back-of-a-write laws;
  * `gcc_phat` — the correlation table: upper-triangular pair index, circular
    lag lookup, global peak lag, windowed maximum and ranked, separated peak
    selection;
  * `solve` — refusal of unusable inputs, the capped Cartesian product of TDOA
    hypotheses (with its enumeration law), score ranking and spectral peak bin.
* `app/` — the Rustler NIF glue and everything that is arithmetic on reals
  (FFTs via `realfft`, multilateration, SRP scoring with `rayon`, WGS-84).
* `tests/` — tests of the library.
