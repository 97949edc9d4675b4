# chore_board

A verified library for a household chore bot.  A fixed list of recurring
tasks is kept with a queue that says when each task falls due next; every
night the due tasks move onto the list of tasks to do, users claim tasks
(earning points) or pass them, and the bot reports the list and the scores.

- `src/` is the library, written in Verus and verified:
  - `calendar.rs` – day numbers, and the two calls into chrono (moving a date,
    reading today's date);
  - `model.rs` – the board's types, their views and well-formedness, and
    look-ups;
  - `schedule.rs` – filling the queue and refreshing the list;
  - `report.rs` – the morning message, today's completions, names, scores;
  - `claims.rs` – claiming and passing tasks, keeping names;
  - `parse.rs` – reading task numbers out of a claim message;
  - `text.rs` – decimal rendering of integers;
  - `laws.rs` – properties that span several operations, proved.
- `tests/` runs the library on concrete boards.
- `app/` is the Telegram bot around the library: files, scheduling, chat.
