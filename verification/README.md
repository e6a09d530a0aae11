# retrycheck

retrycheck answers one question: given a log of retry attempts and the backoff
policy they are supposed to follow, did they follow it? It reads one attempt per
line, checks the gap before each attempt against what the policy prescribes, and
prints every place where they disagree.

## Layout

- `src/` is the library, written and proved in Verus. It performs no input or
  output.
  - `text`, `factor`: trimming, splitting, decimal numbers, and which texts denote
    a growth factor.
  - `parse`: what a line of a log says.
  - `policy`: which delay a policy prescribes, and which delays it accepts.
  - `sequence`: one retry sequence, specified by the history of its attempts.
  - `check`, `grouped`: a log of one sequence, and a log that interleaves the
    sequences of many requests.
  - `cli`: the command line and the exit code.
- `tests/` holds the tests of the library.
- `app/` is the program: it reads the log line by line, computes the growth of the
  delay in floating point, and prints what the library hands back.

## What is proved

Every function of the library has a contract that fixes its result, down to the
wording of the messages. Beyond that, among others: a log is reported without a
violation exactly when its attempts follow the policy; blank lines and comments
change nothing but line numbers; in an interleaved log every request is judged as
its own lines alone would be; and what is written as a line reads back as the same
attempt.
