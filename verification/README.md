# audio_transcription

The verified core of a real-time speech-transcription pipeline. Microphone
audio is down-mixed to mono, resampled to 16 kHz, cut into numbered
one-second chunks, screened by an RMS voice-activity detector, handed
round-robin to transcription workers, and the workers' results are released
in chunk order.

- `src/` is the library, verified with Verus:
  - `pcm.rs`: down-mixing, linear resampling, sample-format and amplitude helpers;
  - `wav.rs`: the RIFF/WAVE encoding sent to the service, with read-back lemmas;
  - `vad.rs`: the hysteresis voice-activity detector;
  - `chunking.rs`: the chunk assembler and the speech/silence routing of chunks;
  - `queue.rs`: non-blocking offers to bounded queues and the result reported for a refused chunk;
  - `dispatch.rs`: round-robin dispatch to the workers' bounded queues;
  - `results.rs`: chunk outcomes, their events, and the in-order release of results;
  - `transcribe.rs`: reading the service's reply, and the retry schedule;
  - `control.rs`: the stop command on standard input, and the capture loop's decisions.
- `app/` is the program around it: microphone capture (cpal), threads and
  channels, HTTP requests (reqwest), JSON (serde, serde_json) and printing.
- `tests/` exercises the library on concrete inputs.
