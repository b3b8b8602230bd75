# copytrading_bot

The decision core of a bot that copies trades on binary prediction markets, verified with Verus, and the program around it.

- `src/` is the verified library. It decides which wallets are followed (`investigation`), which of their trades are
  copied and how large they are (`trading`), keeps the books (`state`), decides when alerts are raised (`alerts`), what
  the dashboard shows (`dashboard`), how state files are replaced and recovered (`persistence`), which settings are
  accepted (`config`) and which are at fault (`faults`).
- Prices and amounts are IEEE 754 doubles. `double` implements their arithmetic on bit patterns and proves it against the
  mathematical definition of rounding to nearest, ties to even; `double::laws` holds what the other modules use of it.
- `calendar` defines dates and times in writing, which the wrappers around chrono in `clock` are stated with.
- Work that depends on the outside runs as state machines: a verified step takes what happened and says what is to be done
  next (`trading::cycle`, `trading::live`, `alerts::AlertWorker`, `persistence::SaveJob`).
- `app/` is the program: the network, files, the clock of the process, serialisation, and the steps that the state machines
  ask for.
- `tests/` runs the library on concrete values.

Public proof functions state what holds of the library as a whole. Some of them:

- In live trading the books move only when the exchange accepted an order
  (`trading::cycle::live_books_move_only_on_posting`).
- Throughout a look at a wallet, every trade judged in it counts as seen, and a trade that counts as seen is neither
  collected nor judged (`trading::track`). Over many looks at a wallet that stays followed, a trade goes on to count as
  seen until two hundred newer ones do (`trading::history::trade_stays_seen`); after that it would be judged again.
- A whole look leaves the memory in order: of followed wallets only, capped, without what is out of date, and due to be
  stored where it grew (`trading::looks::look_leaves_memory_in_order`). While trades are only simulated, it places no
  order (`trading::looks::simulated_look_places_no_order`).
- Every recorded trade has a size between one and the allowed share of the balance, an edge above the least one, and
  leaves its market within both limits up to one last place of rounding
  (`trading::amounts::recorded_trade_keeps_limits`); amounts stay finite and without a minus sign
  (`trading::amounts::amounts_stay_in_order`).
- The computed Kelly fraction is within 2⁻⁵⁰ of the exact one, grows as the price clearly falls, and halves with the multiplier
  (`trading::accuracy`).
- Equity and profits are those of exact numbers up to rounding (`state::sums`).
- Settings are refused exactly if one of them is at fault, and the message names one that is
  (`faults::refusal_names_its_setting`).
