# libredu_timetable

A verified library for building school timetables: the teachers' and
classes' weekly limitations, the activities (a lecture given by some teachers
to some classes for some hours a week), and a generator that places the
activities' hours into the free hours of their teachers and classes, moving
others out of the way when it has to.

Layout:

- `src/` — the library, written in Verus. `generator` places and removes
  lessons; `booking` proves that the free hours stay in agreement with the
  placed ones, so that no teacher or class is booked twice; `limits` builds
  and checks limitations; `data` prepares what the generator works on;
  `server` and `store` decide what the server and the client do with each
  message; `client`, `sheets`, `text`, `order` and `view` hold the rest of the
  client's logic.
- `tests/` — tests of the library on concrete values.
- `app/` — the program around it: the database and session work of the
  server (sqlx, redis), the client's state and generation loop, and the PDF
  sheets (genpdf).
