# shokushu

Timecode off a Tentacle Sync E: from the LTC it plays into an audio input, or from the
advertisements it broadcasts over Bluetooth LE. The library decodes both, keeps a clock
running between readings, measures how far that clock sits from the device's, and writes
Broadcast Wave files that carry the result. It is written in Verus; every function of `src/`
is proved against its contract.

## Layout

| where | what |
| --- | --- |
| `src/time.rs`, `src/timecode.rs` | spans, moments, rates, timecodes and positions on the day |
| `src/ltc.rs`, `src/ltc/`, `src/listen.rs` | the biphase-mark decoder, that it reads LTC audio back, and what the LTC program shows |
| `src/ble.rs`, `src/ble/` | the advertised records, the scan, its diagnosis, one calibration pass |
| `src/freerun.rs` | the clock that runs between readings |
| `src/jam.rs`, `src/jam/` | samples, their reduction to a calibration, its report and its laws |
| `src/wav.rs`, `src/rec.rs` | Broadcast Wave files and the recorder |
| `src/audio.rs` | choosing an audio input |
| `src/display.rs`, `src/screen.rs`, `src/tentacle.rs`, `src/dump.rs` | the live displays and the raw dump |
| `src/gatt.rs`, `src/gatt/`, `src/probe.rs` | the vendor GATT service |
| `src/big.rs`, `src/num.rs`, `src/order.rs`, `src/text.rs` | integers of any size, division, order, numbers in words |
| `tests/` | what the library does on given values |
| `app/` | the programs: audio, Bluetooth, files and the terminal |

## Units

Nothing in the library is a floating-point number.

* Spans and moments are counted in nanoseconds.
* A position on the timecode day is counted in billionths of a frame.
* A drift is counted in billionths of a part per million, a fitted slope in units of 10^-15.
* The LTC decoder takes samples with full scale at 2^28, the file writer with full scale
  at 2^23.
* What no machine word is sure to hold, such as a slope or the position of a clock that runs
  on, is an integer of any size.
* A level is in millionths of a decibel, with none for silence.

## What is trusted

The contracts that are believed rather than proved are those of `String::push`,
`String::push_str`, `str::to_lowercase`, `String::from_utf8_lossy`, the `Debug` form of a
`str`, and `uuid`'s `Uuid::from_u128` with its `Display` form and its bytes. Each stands
behind an item whose doc comment says what is claimed of it.
