# proteus-lib (playback core)

The playback core of Proteus: how decoded packets of container tracks and
files are routed into per-instance buffers, aligned to their active windows,
mixed in synchronized chunks, and handed to the output, with the decisions of
the player and mix loops around them.

## Layout

- `src/` — the verified library (Verus). Each module states its behaviour in
  `requires`/`ensures` over mathematical models and proves it:
  - `cover_map`: underlay/overlap/transition cover of a packet span;
  - `aligned_buffer`, `premix`: sample queues;
  - `routing`, `packet_router`, `buffer_mixer`: routing packets into instance
    buffers and taking synchronized chunks;
  - `backpressure`, `accounting`: room accounting shared with decode workers;
  - `mix_runtime`, `shuffle_schedule`, `decode_worker`, `player_state`: the
    decisions of the mix, decode and player loops;
  - `sample_ring`, `track_buffers`: per-track sample rings kept in
    `dasp_ring_buffer` rings;
  - `meter_frames`: the frame queue of the output meter;
  - `plan`, `source_key`: the runtime plan and source keys.
- `app/` — ordinary Rust around the library: threads, locks, decoding with
  symphonia, output through rodio, and the floating-point sample work
  (gains, fades, timing).
- `tests/` — tests of the library.
