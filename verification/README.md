# alarm_clock

The verified core of an ESP32 alarm clock, written in Verus.

- `src/alarm.rs`: alarms and their two byte storage format, lists of alarms
  as stored blobs.
- `src/display.rs`: the TM1637 seven segment display: digit patterns, clock
  faces, the loading spinner, and which bytes a change of digits puts on the
  bus.
- `src/dial.rs`: the EC11 rotary encoder: detent turns from contact levels,
  key debouncing.
- `src/time.rs`: millisecond timestamps, the time of day they name, and the
  epoch endpoint's answer.
- `src/net.rs`: station credentials and HTTP statuses.
- `src/speaker.rs`: duty cycles for a volume.
- `src/nvs.rs`: pages of the NVS flash partition.
- `src/logs.rs`: the desktop tool's log of a child process's output, kept
  the way a terminal shows it, and the in-flight guard of a flash read.
- `src/error.rs`: the failures of the logic and how each reads.

`app/` holds the firmware around the library: GPIO, threads, Wi-Fi, HTTP,
the NVS partition and the system clock.
