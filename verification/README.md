# dB Meter

A decibel counter for the microphone, shown as an overlay over a game: it reads
how loud the speaker is, and recommends a threshold for an alert after listening
for ten seconds.

- `src/` is the library, verified with Verus: binary32 arithmetic on bit patterns,
  the reading of a buffer of samples, the calibration of the threshold, the course
  of a capture, the choice of devices and the rate of what is sent to the display.
- `tests/` runs the library, and holds its arithmetic against the machine's.
- `app/` is the desktop application around it: microphone, clock, window and the
  decimal logarithm.

## The scale

A buffer with the root mean square `a` of its samples reads
`20 * log10(a) + 100`, held within 0 and 120. Silence reads 0, full scale reads
100, and a buffer that clips, at twice full scale or more, reads 120.

## Calibration

Readings of 10 dB and below are silence and are left out. With fewer than ten
readings left the threshold is 60 dB. In the mode `normal` it is the mean plus one
and a half standard deviations, or the ninetieth percentile where the readings vary
by less than a decibel; in the mode `limit` it is the mean. Either is held within 40
and 95 dB.
