# presence

Every Friday, sends a standardised weekly time report (9h–17h, 7h a day, 35h a
week) by mail, taking French public holidays and personal days off into
account, with lunch breaks proposed by a local language model.

- `src/` is the verified library:
  - `date`: calendar dates as day numbers, with chrono doing the conversions;
  - `holidays`: Easter and the eleven French public holidays of a year;
  - `report`: the days of a week, the prompt, the lunch-break checks, the
    assembled report and its mail body;
  - `off_days`: ranges of personal days off and the stored list;
  - `config`, `messages`, `cli`: settings, service texts, command line;
  - `text`: string helpers (decimal writing, comparison, joining).
- `app/` is the program around it: environment, files, mail (lettre),
  Telegram (reqwest), the language model (mistral.rs) and the Friday scheduler.
- `tests/` runs the library against concrete weeks.
