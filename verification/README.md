# jtp

The Jason Transfer Protocol (JTP), a binary protocol for transferring images
over an ordered, reliable byte stream, as a library verified with Verus and
programs around it.

- Images are identified by the xxHash64 of their bytes.
- Servers offer a catalog of an image directory, ordered by file name.
- Clients list it, fetch images by ImageID or all at once, or fetch only what
  they lack (BATCH); they can also subscribe to new images (WATCH).
- Bitmaps and unknown formats are sent Zstd-compressed where that pays.

## Layout

The library (`src/`) does no I/O. Writers append to a `Vec<u8>`; readers take
the bytes received so far and return a value with the number of bytes it
takes, or `UnexpectedEof` while more are needed.

| Module | What it holds |
| --- | --- |
| `bytes`, `varint`, `flags`, `text`, `order` | integers, LEB128, flag bytes, text, sorting |
| `image_id`, `compression`, `pem` | hashing, hexadecimal, Zstd, certificates |
| `catalog` | image metadata, catalogs, image directories |
| `frames`, `listing`, `packet`, `watch` | ERROR, LIST, image packet and WATCH frames |
| `request`, `server`, `rate_limit` | requests, a server's answers, rate limits |
| `client` | response heads, download plans, filters |
| `client_args`, `server_args` | both command lines |
| `exchange` | laws on whole exchanges between client and server |
| `protocol` | the protocol's items under one roof |

Functions whose names begin with `law_` state what holds across functions.

`app/` holds the programs: `jtp server [OPTIONS]` and `jtp client [OPTIONS]`.
They open sockets and files and carry out what the library decides.
