# CURB

Per-application network bandwidth monitoring and control for Linux, with its
decisions written as verified Rust.

The library under `src/` holds the logic: it parses captured frames and the
tables of the kernel, attributes traffic to applications, counts and samples it,
keeps quotas and usage, plans how limits are brought onto the kernel, frames
messages, and formats what the command line shows. Each function states in its
contract what it returns or changes, and Verus proves it. What the library does
not do itself, such as running a command or reading a file, it describes: plans
are lists of steps, and the contents of files are arguments.

The program under `app/` does the rest: sockets, threads, commands, files and
the command line. The same program is the daemon when it is called `curbd`, and
the client otherwise.

## Layout

- `proto`, `wire`: messages, and their framing on the control socket
- `monitor`: capture, attribution, the local network, counters and samples,
  connections
- `engine`: the limiter, its plans for `tc`, `ip` and `nft`, process groups, and
  notices of started programs
- `quota`, `usage`, `calendar`: budgets, and usage by day, week and month
- `daemon`, `client`, `config`: requests and answers, and preferences
- `rate`, `display`: rates as people write them, and figures as they read them;
  `decimal`, `binary64` and `natural` do the rounding exactly, without floating
  point
- `text`, `number`, `order`, `table`, `keymap`, `addr`: what the rest is built
  from

Proof functions whose names start with `law_` state what holds of several
functions together: that a message is received as it was sent, that accounting,
setting and removing quotas keep the block of an application in agreement with its
quota, that switching the limiter off only removes, and so on.

## What is trusted

The contracts of a few functions are believed rather than proved: `String::push`,
the date arithmetic and formatting of `chrono`, the length-delimited codec of
`tokio-util`, and the default hasher of the standard library. Their doc comments
say what is claimed of them.
