# security

The logic of a home security panel for the ESP32-P4: a touch screen, a 433 MHz
receiver for sensors and remotes, WiFi, MQTT and a GSM modem.

- `src/` is the library: what the panel decides and computes. It is written in
  Verus, and each function is proved to do what its contract says.
- `app/` is the program around it: the display, the radio, the modem, the flash
  and the user interface. It asks the library what to do and does it.
- `tests/` runs the library on concrete values.

| Module                | What it is about                                            |
|-----------------------|-------------------------------------------------------------|
| `rf_receiver`         | decoding of 433 MHz bursts with a table of protocols        |
| `rc_devices`          | the known devices, and how they are kept in flash           |
| `gsm`                 | the modem's answers, and commands by text message           |
| `mqtt`, `wifi`        | the workers: attempts, events, stored settings              |
| `screens`             | what each screen shows, and what its keys and events do     |
| `touch`               | taps and drags from the readings of a jittery touch panel   |
| `logger`              | the ring of the last log messages                           |
| `nvs`                 | requests to the flash, and the flash as a map               |
| `text`, `number`      | text as a sequence of characters, and numerals              |

The laws that hold of the library as a whole are the public proof functions at
the end of each module: that a frame that was sent is found, that a restart gives
back what was stored, that a wrong PIN opens nothing, that a stranger's message is
ignored.
