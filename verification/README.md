# typepaste

Moves files to a machine that can only be reached through its keyboard and its screen, such as a remote
desktop: files go there by simulated typing, and come back by reading the screen.

`src/` is the logic, verified with Verus:

| modules | |
|---|---|
| `text`, `radix` | characters and numbers; RFC 4648 encodings |
| `encoder`, `keymap`, `backend` | text that keys can type, and the keys that type it |
| `config`, `utils`, `progress` | settings, digests, compression, layout, progress bars |
| `archive`, `payload`, `parts` | what is sent: directories, the pipeline, transfer in parts |
| `restore_script`, `scripts`, `cli` | what the target machine does, and the plan of what is typed |
| `ocr`, `screen`, `pull` | reading the screen, and the transfer back |
| `qr`, `web`, `arq` | the transfer to a page in a browser, which answers by QR code |
| `failsafe` | the emergency stop |

What the library takes from other crates (encoders, digests, compression, archives, calendar, glob patterns)
stands behind wrappers whose contracts say what is relied on. Proof functions whose names begin with `law_`
state what holds of the library as a whole, such as that what is sent arrives.

`app/` is the program around it: the command line, files, the keyboard, the screen. `tests/` runs the library
with the real crates.
