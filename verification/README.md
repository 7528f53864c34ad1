# pipit

A small speech codec for voices that travel light, with its behaviour proved.

Three codecs, one for each kind of link:

- **IMA ADPCM**, 4 bits per sample, about 32 kbps. Frames carry the predictor
  state they start from, so each decodes alone.
- **LPC-10**, a 10th-order vocoder at 2,489 bps: ten reflection coefficients,
  a pitch, a gain and a voicing bit per 22.5 ms.
- **LPC-10 half rate**, 1,600 bps: the spectrum is sent once per two frames
  and placed halfway in between.

A clip is the stored form: an 18-byte header that names codec, mode, sample
rate and frame geometry, then frames back to back.

## Layout

| Path | What it holds |
|---|---|
| `src/adpcm.rs` | the ADPCM coder and its framing |
| `src/clip.rs`, `src/clip/laws.rs` | the container, whole clips, and what holds of them |
| `src/lpc10.rs`, `src/lpc10/analysis.rs`, `synth.rs` | the vocoder |
| `src/lpc10/quant.rs`, `bits.rs`, `half.rs` | quantization, bit packing, half rate |
| `src/lpc10/soundness.rs`, `silence.rs`, `precision.rs`, `ratio.rs` | what holds of every frame |
| `src/lpc10/normal.rs` | the normal equations |
| `src/lpc10/lattice.rs`, `fading.rs`, `recovery.rs` | what a decoder forgets |
| `src/math.rs`, `src/root.rs` | square root, logarithm, exponential, cosine |
| `src/binary32.rs`, `src/rounding.rs`, `src/order.rs` | single precision in integers |
| `src/reals.rs`, `sums.rs`, `exponential.rs`, `logarithm.rs`, `composition.rs`, `bounds.rs` | the series over the reals |
| `src/accuracy.rs`, `product.rs`, `cosine.rs` | how close the float math comes |
| `app/` | the same types with hardware floats and `std` errors |

## What is proved

Every function states what it returns for every input that its `requires`
admits, and does not panic on them.
The vocoder works in IEEE 754 single precision; `binary32` carries out that
arithmetic on bit patterns, so even the last bit of a frame is stated.

Beyond single functions, the proof functions named `law_` state what holds of
the library as a whole. Among them:

- a clip decodes to audio of the length that was encoded, whatever follows
  it; cut short anywhere it is refused;
- an ADPCM clip decodes to what the coder predicts when it runs over the
  samples without a break;
- a vocoder frame carries every field, and its spare bits say nothing;
- every pattern of bits is a valid vocoder frame that describes a stable
  filter, and every frame leaves the decoder in a bounded and sound state;
- every gain and coefficient code comes back as itself when what it stands for
  is quantized again, and every pitch arrives within a twentieth of itself;
- logarithm and exponential undo each other to one part in a thousand and turn
  products into sums and sums into products, and the cosine follows its series;
- the predictor that analysis finds solves the normal equations, but for a
  stated rounding, where no coefficient had to be clamped;
- old filter state is forgotten by decoders that are excited alike: within ten
  samples where there is nothing to predict, and as one over time, but for
  rounding, by a stable filter that keeps its coefficients and whose values
  stay below the ceiling;
- a damaged ADPCM frame costs only its own samples, and padding is holding the
  last sample;
- interpolated filters, between frames and between superframes, are stable;
- silence decodes to silence, through every codec.
