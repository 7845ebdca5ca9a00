# worklog

The logic of WorkLog, a desktop tool that logs hours of work per user and
shows how far each user is from the hours owed, written in Verus with its
behaviour stated as contracts and proved.

- `src/` is the verified library: dates and calendar arithmetic (sprints,
  weeks, months, workdays, leave, required and filled hours), the SQL
  conditions of entry searches, the meaning of stored settings, the group
  writes behind linking and unlinking entries, the conversion of old links
  into groups, the checks on what the screen sends, and the tray icon's
  clock hands.
- `app/` is the desktop program around it: the SQLite database, the window,
  the tray and the commands the screen calls. It hands the library plain
  values and performs the writes the library decides.
- `tests/` runs the library on concrete values.

Hours are held in hundredths of an hour; dates as day numbers, January 1 of
year 1 being day 1.
