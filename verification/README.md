# rand_float_rs

Techniques for turning a stream of uniform random 64-bit words into uniform
floating-point numbers in [0, 1), with their integer logic proved in Verus.

- `src/` is the verified library. Floats are handled as IEEE 754 bit
  patterns (`u64`, `u32`):
  - `sources`: the Weyl and SplitMix64 word generators and the
    `WordSource` trait through which the techniques draw words;
  - `float_bits`: a float read as a number of units of its smallest
    subnormal, rounding down to a format, and the exact difference of two
    floats of the same binade;
  - `perfect`: the entropy pool and the round-down generator, stated over
    the bit stream of the words the source hands out, with the law that
    each float is given by exactly the streams that start with a fixed
    prefix, a share equal to its spacing in [0, 1), and the words each call
    takes from the source: exactly those the bits it reads need;
  - `pekkizen`: the leading-zeros technique, stated as rounding down;
  - `campbell`: the integer words of Campbell's correctly rounded doubles,
    including which words the fast variant draws from the source.
- `app/` holds the floating-point front ends (`f64_down`, `f32_down`,
  `f64_64`, `fast`, `consttime_if`, `consttime_smear`, `fastdet`), which
  take any `FnMut() -> u64` and convert the library's bit patterns or
  integer words to floats.
- `tests/` runs the library against hardware floating point.
