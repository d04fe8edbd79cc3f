# dionysus

A UI-independent application-launcher library, verified with Verus.

`src/` is the library:

- `app_core::desktop` turns the values read from a freedesktop `.desktop`
  file into an `AppEntry` and splits an `Exec` line into an argument vector.
- `app_core::search` scores application names against a query and ranks
  them by score, launch frequency and id.
- `app_core::launcher` holds the query, results, selection and launch
  counts that a user interface renders.
- `app_core::freq_store` keeps launch counts and reads and writes their JSON
  form.
- `app_core::search_worker` decides what the background search thread does
  with each command.
- `app_core::text` holds the character-level operations these use.

`app/` is the program around it: reading desktop files and the frequency
file, starting processes, the search thread, the socket and the GTK
application instance.
