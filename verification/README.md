# edgehop

Push the mouse cursor against an outer edge of the screen, and your Logitech
keyboard and mouse switch to another computer: edgehop sends each configured
device the HID++ 2.0 ChangeHost command once the cursor has rested at a
configured edge of the desktop.

## Layout

- `src/` is the library, verified with Verus: the configuration's rules
  (`config`), the desktop geometry (`desktop`), the dwell and cooldown state
  machine (`trigger`), the HID++ protocol (`hidpp`), HID interface handling
  (`hid`), switching every device (`switch`), the `--list` report
  (`discover`), the watch loop's decisions and retries (`watch`), and the
  command line's modes (`cli`). Functions that compute state their result
  exactly in their contracts. The `Hid` and `Handle` traits name what each
  call gave: `listed` for an enumeration, `opened` for an open, `wrote` for
  a write and `gave` for a read, which every implementation defines and
  every call ensures. `Hid` also keeps `opens`, the interfaces opened so
  far in order, so that a switch states what it opened for each device, in
  the order of the config. Functions that talk to a device leave each decision
  to an exact function that takes what the device returned (such as
  `after_read`, `after_wait`, `found_feature`, `host_switched`,
  `read_slice`, `after_slice`, `switch_each`, `failed_devices`,
  `receiver_entries`), and state their result over a trace of the calls
  they made (`await_trace`, `call_trace`, `host_change_trace`,
  `name_trace`, `hosts_trace`, `joined_trace`): each step is a request
  written or a read made, with what the trait says that call gave, and
  the result is what the last steps lead to. A trace fixes which reports
  are written and in what order; the traits keep no log, so it does not
  rule out a repeated call beyond it. The laws that span several
  calls are public proof functions (`lemma_*`).
- `app/` is the binary around it: argument parsing, logging, reading the
  TOML config file, hidapi, and reading the cursor and displays on macOS and
  Windows. It implements the library's `Desktop`, `Hid` and `Handle` traits.
- `tests/` runs the library against fake HID devices and displays.

Times in the library are milliseconds on a clock whose origin the caller
picks; HID read timeouts are microseconds.
