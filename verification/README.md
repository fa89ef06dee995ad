# flash_utils

Verified building blocks of a network-function framework:

- `cpu` / `cpu_list`: a list of CPU cores, parsed from and rendered to text
  such as `0-3,8,10-11`, and handed out round-robin to the threads a program
  spawns (`core_affinity` reports the machine's cores and pins threads).
- `monitor`: the addresses a controller reports (dotted-decimal IPv4) and the
  poll events that mean the controller connection went away (`libc`).
- `config::socket`: the settings one socket is opened with.
- `text`: trimming, splitting, unsigned decimal parsing and rendering over
  characters, each stated as a spec function.

`app/` holds what cannot be verified here: spawning threads, polling the
connection, and the error types with their display messages.
