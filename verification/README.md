# network-local-file-manager

A resident agent that watches folders, tells the other agents on the same LAN of every file that was
created, modified or removed, and shows what it hears from them as native notifications. There is no
server: agents find each other by mDNS (`_lfsync._tcp.local.`) and send signed JSON lines over TCP
(port 47821 by default).

* `src/` is `lfsync_core`, the logic, verified with Verus. It reads no file, opens no socket and
  looks at no clock: what was read goes in as values, what is to be done comes out as values. Calls
  into `hmac`/`sha2`, `hex`, `serde_json`, `chrono`, `uuid`, `std::path` and `std::hash` go through small
  functions marked `external_body`, whose contracts and comments say what is taken on trust.
* `tests/` runs the library with the real crates.
* `app/` is the tray application around it: Tauri windows and notifications, `notify`, `walkdir`,
  `mdns-sd`, `tokio` and the files on disk.

Facts that span several functions are stated as proof functions named `law_...`, next to the functions
they speak of: a signed line gives its message back, a burst of events becomes one change, a recorded
change is not reported again, a queue is read back as it was written, and so on.

A path is text here. What `std::path` makes of it is written down for all text on Unix, and for text
without a drive or a server in front on Windows; what is made of the rest is only named.
