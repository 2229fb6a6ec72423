# hub

Hands files out to every device in a room, and takes work back in, with no internet:
over a wifi network that it makes, or over a cable between two computers.

`src/` is the library. It decides and computes, and Verus proves that each function
does what its contract says: what a request is answered, where handed-in work lands,
which pieces of a file are fetched again, which address a machine is leased, which name
is answered, what a QR code holds, what the screen shows. Laws that relate several
functions are the proof functions named `law_...`.

`app/` is the program around it: sockets, files, threads, the terminal and the tools of
the system. It asks the library what to do, does it, and tells it what came of it.

| module     | what it is about                                              |
|------------|---------------------------------------------------------------|
| `serve`    | requests, answers, who is in the room, what they may have     |
| `page`     | the pages, names, notes and handed-in work                    |
| `fetch`    | a file in pieces, resumed and checked                         |
| `sums`     | the fingerprints of a file's pieces, over `sha256`            |
| `qr`       | QR codes for an address or a wifi network                     |
| `dhcp`     | leases on a cable, and the packets they are asked for with    |
| `dns`      | names on a cable, and the names of the devices in the room    |
| `cable`    | two computers that find each other                            |
| `net`      | addresses, wifi, the hotspot and its guard                    |
| `services` | the parts of Windows that the hub stands on                   |
| `term`     | keys, widths and frames of the terminal; `grid` lays them out |

A contract is stated over sequences of characters or bytes. What is taken from the
standard library without proof stands in `bytes`, `text` and `page::names`.
